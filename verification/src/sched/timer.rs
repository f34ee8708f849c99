use vstd::prelude::*;
use crate::error::KError;
use crate::sched::queue;
use crate::sched::queue::TimerInfo;
use crate::sched::scheduler::{Sched, Scheduler, Sem, WaitStep};
use crate::sched::task::{QUANTUM, TaskStatus};
use crate::sched::user::SysError;
use crate::sync::semaphore::SemState;

verus! {

/// A countdown in milliseconds, and what its owner waits for meanwhile.
pub struct KTimerInner {
    pub init_count: u64,
    pub wait_sem: SemState,
}

impl KTimerInner {
    pub fn new(init_count: u64) -> (r: KTimerInner)
        ensures
            r.init_count == init_count,
            r.wait_sem == (SemState::Semaphore { max_count: 1, counter: 0 }),
    {
        KTimerInner { init_count, wait_sem: SemState::semaphore(0, 1) }
    }

    /// Lets some time pass. Whether the timer has run out.
    pub fn update_timer_count(&mut self, count: u64) -> (r: bool)
        ensures
            final(self).init_count == (if old(self).init_count <= count { 0 } else { old(self).init_count - count }),
            r == (final(self).init_count == 0),
            final(self).wait_sem == old(self).wait_sem,
    {
        if self.init_count <= count {
            self.init_count = 0;
        } else {
            self.init_count = self.init_count - count;
        }
        self.init_count == 0
    }

    /// Whether there is anything to wait for.
    pub fn is_running(&self) -> (r: bool)
        ensures
            r == (self.init_count > 0),
    {
        self.init_count > 0
    }
}

/// Begins a delay of the task that runs on a core: a wait that only time or an interruption ends, for
/// something that nobody signals. A delay of no time is over at once.
pub fn delay_ms(sched: &mut Scheduler, core: usize, value: u64, is_interruptible: bool) -> (r: WaitStep)
    requires
        old(sched)@.well_formed(),
        core < old(sched).queues@.len(),
        old(sched).sems@.len() < usize::MAX,
        old(sched)@.current(core as int) matches Some(t) && (t.status == TaskStatus::Running || t.status
            == TaskStatus::Terminated),
        value > 0 ==> !old(sched)@.queues[core as int].is_dw_mode && old(sched)@.queues[core as int].preemption_count == 0,
    ensures
        (final(sched)@, r) == delayed(old(sched)@, core as int, value, is_interruptible),
        value == 0 ==> r == WaitStep::Done(Err(KError::WaitTimedOut)),
        r is Blocked ==> {
            let l = final(sched)@.queues[core as int].timer_list;
            &&& l.len() > 0
            &&& l.last() == (TimerInfo {
                timer_count: value,
                task_id: old(sched)@.current(core as int)->0.id,
                sem: old(sched)@.sems.len() as usize,
            })
        },
        r != WaitStep::Done(Ok(())),
        final(sched)@.well_formed(),
{
    let m: usize = sched.new_sem(0, 1);
    sched.do_wait(core, m, Some(value), is_interruptible)
}

/// The outcome of a task's beginning a delay.
pub open spec fn delayed(s: Sched, core: int, value: u64, is_interruptible: bool) -> (Sched, WaitStep) {
    let m = Sem { state: SemState::Semaphore { max_count: 1, counter: 0 }, blocked: Seq::empty() };
    (Sched { sems: s.sems.push(m), ..s }).wait_begun(core, s.sems.len() as usize, Some(value), is_interruptible)
}

/// Whether a delay took its time, given how its wait ended. Nobody signals a delay.
pub fn delay_passed(waited: Result<(), KError>) -> (r: bool)
    requires
        waited is Err,
    ensures
        r == (waited == Err::<(), KError>(KError::WaitTimedOut)),
{
    match waited {
        Ok(()) => false,
        Err(e) => e == KError::WaitTimedOut,
    }
}

/// What a process is told whose delay has ended.
pub fn delay_answer(waited: Result<(), KError>) -> (r: Result<(), SysError>)
    requires
        waited is Err,
    ensures
        r == (if waited == Err::<(), KError>(KError::WaitTimedOut) {
            Ok::<(), SysError>(())
        } else {
            Err(SysError::WaitInterrupted)
        }),
{
    if delay_passed(waited) { Ok(()) } else { Err(SysError::WaitInterrupted) }
}

/// Delays the calling process. A delay that need not wait is answered at once.
pub fn sys_delay_handler(sched: &mut Scheduler, core: usize, value: u64) -> (r: Option<Result<(), SysError>>)
    requires
        old(sched)@.well_formed(),
        core < old(sched).queues@.len(),
        old(sched).sems@.len() < usize::MAX,
        old(sched)@.current(core as int) matches Some(t) && (t.status == TaskStatus::Running || t.status
            == TaskStatus::Terminated),
        value > 0 ==> !old(sched)@.queues[core as int].is_dw_mode && old(sched)@.queues[core as int].preemption_count == 0,
    ensures
        ({
            let (s, w) = delayed(old(sched)@, core as int, value, true);
            &&& final(sched)@ == s
            &&& r == (match w {
                WaitStep::Blocked => None,
                WaitStep::Done(d) => if d == Err::<(), KError>(KError::WaitTimedOut) {
                    Some(Ok::<(), SysError>(()))
                } else {
                    Some(Err(SysError::WaitInterrupted))
                },
            })
        }),
        value == 0 ==> r == Some(Ok::<(), SysError>(())),
        final(sched)@.well_formed(),
{
    match delay_ms(sched, core, value, true) {
        WaitStep::Blocked => None,
        WaitStep::Done(d) => Some(delay_answer(d)),
    }
}

/// How often a timer ticks before it runs out.
pub open spec fn ticks_left(count: int, quantum: int, n: nat) -> int
    decreases n,
{
    if n == 0 {
        count
    } else {
        let c = ticks_left(count, quantum, (n - 1) as nat);
        if c <= quantum { 0 } else { c - quantum }
    }
}

/// A timer runs out with the first tick that brings the time passed to its count, and no earlier.
pub proof fn law_timer_runs_out(count: int, quantum: int, n: nat)
    requires
        0 <= count,
        0 < quantum,
    ensures
        ticks_left(count, quantum, n) == (if n * quantum >= count { 0 } else { count - n * quantum }),
    decreases n,
{
    if n == 0 {
        assert(n * quantum == 0) by (nonlinear_arith)
            requires
                n == 0,
        ;
    } else {
        law_timer_runs_out(count, quantum, (n - 1) as nat);
        assert(n * quantum == (n - 1) * quantum + quantum) by (nonlinear_arith);
        let m = (n - 1) as nat;
        assert(m * quantum == (n - 1) * quantum);
    }
}

/// The timers of a core that go on after `n` ticks.
pub open spec fn after_ticks(s: Seq<TimerInfo>, n: nat) -> Seq<TimerInfo>
    decreases n,
{
    if n == 0 {
        s
    } else {
        let p = after_ticks(s, (n - 1) as nat);
        queue::still_running(p, p.len())
    }
}

/// A tick takes its time off a timer, or it runs out.
proof fn lemma_timer_entry(s: Seq<TimerInfo>, n: nat, i: int)
    requires
        0 <= i < n <= s.len(),
    ensures
        s[i].timer_count > QUANTUM ==> queue::still_running(s, n).contains(
            TimerInfo { timer_count: (s[i].timer_count - QUANTUM) as u64, ..s[i] }),
        s[i].timer_count <= QUANTUM ==> queue::run_out(s, n).contains(TimerInfo { timer_count: 0, ..s[i] }),
    decreases n,
{
    let a = queue::still_running(s, (n - 1) as nat);
    let b = queue::run_out(s, (n - 1) as nat);
    if i == n - 1 {
        assert(queue::still_running(s, n).len() > 0 ==> queue::still_running(s, n).last()
            == queue::still_running(s, n)[queue::still_running(s, n).len() - 1]);
        if s[i].timer_count > QUANTUM {
            assert(queue::still_running(s, n)[a.len() as int] == (TimerInfo {
                timer_count: (s[i].timer_count - QUANTUM) as u64,
                ..s[i]
            }));
        } else {
            assert(queue::run_out(s, n)[b.len() as int] == (TimerInfo { timer_count: 0, ..s[i] }));
        }
    } else {
        lemma_timer_entry(s, (n - 1) as nat, i);
        if s[i].timer_count > QUANTUM {
            let t = TimerInfo { timer_count: (s[i].timer_count - QUANTUM) as u64, ..s[i] };
            let k = choose|k: int| 0 <= k < a.len() && a[k] == t;
            assert(queue::still_running(s, n)[k] == t);
        } else {
            let t = TimerInfo { timer_count: 0, ..s[i] };
            let k = choose|k: int| 0 <= k < b.len() && b[k] == t;
            assert(queue::run_out(s, n)[k] == t);
        }
    }
}

/// A task that is delayed for some milliseconds is told so with the first tick that brings the time
/// passed to them. Until then its timer goes on, with the time that is left.
pub proof fn law_delay_runs_out(s: Seq<TimerInfo>, i: int, n: nat)
    requires
        0 <= i < s.len(),
        s[i].timer_count > 0,
    ensures
        n * QUANTUM < s[i].timer_count ==> after_ticks(s, n).contains(
            TimerInfo { timer_count: ticks_left(s[i].timer_count as int, QUANTUM as int, n) as u64, ..s[i] })
            && ticks_left(s[i].timer_count as int, QUANTUM as int, n) == s[i].timer_count - n * QUANTUM,
        n > 0 && (n - 1) * QUANTUM < s[i].timer_count <= n * QUANTUM ==> ({
            let p = after_ticks(s, (n - 1) as nat);
            queue::run_out(p, p.len()).contains(TimerInfo { timer_count: 0, ..s[i] })
        }),
    decreases n,
{
    law_timer_runs_out(s[i].timer_count as int, QUANTUM as int, n);
    if n == 0 {
        assert(s[i] == (TimerInfo { timer_count: s[i].timer_count, ..s[i] }));
        assert(s.contains(s[i]));
    } else {
        law_delay_runs_out(s, i, (n - 1) as nat);
        law_timer_runs_out(s[i].timer_count as int, QUANTUM as int, (n - 1) as nat);
        let p = after_ticks(s, (n - 1) as nat);
        if (n - 1) * QUANTUM < s[i].timer_count {
            let t = TimerInfo {
                timer_count: ticks_left(s[i].timer_count as int, QUANTUM as int, (n - 1) as nat) as u64,
                ..s[i]
            };
            let k = choose|k: int| 0 <= k < p.len() && p[k] == t;
            lemma_timer_entry(p, p.len(), k);
        }
    }
}

} // verus!
