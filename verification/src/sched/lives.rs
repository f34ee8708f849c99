//! How tasks and processes begin, take turns, wait, are signalled and end.

use vstd::prelude::*;
use crate::error::KError;
use crate::sched::proc;
use crate::sched::proc::{
    HandlerTable, Member, Proc, ProcessParts, ProcessStatus, Procs, SignalHandler, SignalOutcome,
    lemma_destroyed, lemma_proc_found, lemma_still_there,
};
use crate::sched::queue;
use crate::sched::queue::TimerInfo;
use crate::sched::scheduler;
use crate::sched::scheduler::{Decision, NewThread, Sched, WaitStep, lemma_replaced, lemma_task_found};
use crate::sched::task;
use crate::sched::task::{FrameTable, HandlerSetup, Saved, SignalCause, SignalFrame, Task, TaskStatus};

verus! {

/// A core where nobody may be taken off keeps its task.
pub proof fn law_not_preempted(s: Sched, c: int, saved: Saved)
    requires
        0 <= c < s.queues.len(),
        s.queues[c].preemption_count > 0 || s.queues[c].is_dw_mode,
    ensures
        s.scheduled(c, saved).1 is Stay,
        s.scheduled(c, saved).0.queues[c].running == s.queues[c].running,
        s.scheduled(c, saved).0.queues[c].active == s.queues[c].active,
        s.scheduled(c, saved).0.tasks == s.tasks,
{
}

/// A task that has turns left goes on with one less.
pub proof fn law_turn_goes_on(s: Sched, c: int, saved: Saved)
    requires
        0 <= c < s.queues.len(),
        s.current(c) matches Some(t) && t.status == TaskStatus::Running && t.quanta >= 2,
    ensures
        ({
            let (r, d) = s.chosen(c, saved);
            let id = s.queues[c].running->0;
            &&& d == Decision::Continue(id)
            &&& r.queues == s.queues
            &&& r.task(id) matches Some(t) && t.quanta == s.task(id)->0.quanta - 1 && t.status == TaskStatus::Running
        }),
{
    let id = s.queues[c].running->0;
    let o = s.task(id)->0;
    lemma_task_found(s.tasks, 0, id);
    lemma_replaced(s.tasks, Task { quanta: (o.quanta - 1) as u64, ..o }, id);
}

/// A core that is free takes the first task in line, which gets ten turns; with nobody in line it rests.
pub proof fn law_free_core(s: Sched, c: int, saved: Saved)
    requires
        0 <= c < s.queues.len(),
        s.queues[c].running is None,
        s.queues[c].active.len() > 0 ==> s.task(s.queues[c].active[0]) is Some,
    ensures
        ({
            let (r, d) = s.chosen(c, saved);
            let a = s.queues[c].active;
            &&& a.len() == 0 ==> r == s && d is Rest
            &&& a.len() > 0 ==> d is Switch && d->Switch_task == a[0] && r.queues[c].running == Some(a[0])
                && r.queues[c].active == a.skip(1)
                && (r.task(a[0]) matches Some(t) && t.status == TaskStatus::Running && t.quanta == 10)
        }),
{
    if s.queues[c].active.len() > 0 {
        let h = s.task(s.queues[c].active[0])->0;
        lemma_task_found(s.tasks, 0, s.queues[c].active[0]);
        lemma_replaced(s.tasks, Task { status: TaskStatus::Running, quanta: 10, ..h }, h.id);
    }
}

/// A task that nobody waits behind goes on with ten turns when it has used up its own.
pub proof fn law_alone_goes_on(s: Sched, c: int, saved: Saved)
    requires
        0 <= c < s.queues.len(),
        s.current(c) matches Some(t) && t.status == TaskStatus::Running && t.quanta <= 1,
        s.queues[c].active.len() == 0,
    ensures
        ({
            let (r, d) = s.chosen(c, saved);
            let id = s.queues[c].running->0;
            &&& d == Decision::Continue(id)
            &&& r.queues == s.queues
            &&& r.task(id) matches Some(t) && t.quanta == 10
        }),
{
    let id = s.queues[c].running->0;
    let o = s.task(id)->0;
    lemma_task_found(s.tasks, 0, id);
    lemma_replaced(s.tasks, Task { quanta: 10, ..o }, id);
}

/// A new thread is the last in line on the core whose turn it is to get one, and the next core gets the
/// next.
pub proof fn law_thread_spawned(s: Sched, p: NewThread, other: u64)
    requires
        s.well_formed(),
        s.queues.len() > 0,
        s.next_task < u64::MAX,
    ensures
        ({
            let r = s.spawned(p);
            let id = s.next_task;
            let c = s.next_core as int % s.queues.len() as int;
            &&& s.task(id) is None
            &&& r.task(id) matches Some(t) && t.core == c && t.status == TaskStatus::Active && t.quanta == 10
                && t.process == Some(p.process) && t.stack == p.stack && t.context == p.context && t.vcb == Some(p.vcb)
                && t.term_notify == p.term_notify && t.exit_code == 0 && t.wait_sem is None && t.pending_signals == 0
                && t.in_signal_init == 0 && t.completed_signals == 0
            &&& other != id ==> r.task(other) == s.task(other)
            &&& r.queues[c].active == s.queues[c].active.push(id)
            &&& r.queues[c].running == s.queues[c].running
            &&& forall|k: int| 0 <= k < s.queues.len() && k != c ==> #[trigger] r.queues[k] == s.queues[k]
            &&& r.next_task == id + 1
            &&& r.next_core == (if s.next_core == 255 { 0 } else { s.next_core + 1 })
        }),
{
    let r = s.spawned(p);
    let id = s.next_task;
    let c = s.core_in_turn();
    let x = (s.next_core % 256) as int;
    let n = s.queues.len() as int;
    assert(0 <= c < n && c <= x) by (nonlinear_arith)
        requires
            c == x % n,
            0 <= x,
            n > 0,
    ;
    let t = scheduler::fresh_task(id, c as usize, p);
    lemma_task_found(s.tasks, 0, id);
    lemma_new_found(s.tasks, 0, t, id);
    lemma_new_found(s.tasks, 0, t, other);
    lemma_task_found(s.tasks, 0, other);
}

proof fn lemma_new_found(s: Seq<Task>, i: int, t: Task, id: u64)
    requires
        0 <= i <= s.len(),
    ensures
        scheduler::find_task(s.push(t), i, id) == (match scheduler::find_task(s, i, id) {
            Some(k) => Some(k),
            None => if t.id == id { Some(s.len() as int) } else { None },
        }),
    decreases s.len() - i,
{
    if i < s.len() {
        assert(s.push(t)[i] == s[i]);
        lemma_new_found(s, i + 1, t, id);
    } else {
        assert(s.push(t)[i] == t);
        assert(scheduler::find_task(s.push(t), i + 1, id) is None);
    }
}

/// A task that gives its turn up has none left.
pub proof fn law_turn_given_up(s: Sched, c: int)
    requires
        s.current(c) is Some,
    ensures
        s.yielded(c).current(c) matches Some(t) && t.quanta == 0 && t.status == s.current(c)->0.status,
        s.yielded(c).queues == s.queues,
{
    let id = s.queues[c].running->0;
    let o = s.current(c)->0;
    lemma_task_found(s.tasks, 0, id);
    lemma_replaced(s.tasks, Task { quanta: 0, ..o }, id);
}

/// A task that was put aside is the first in line when it is resumed; one that was not is left alone.
pub proof fn law_resumed(s: Sched, id: u64)
    requires
        s.well_formed(),
    ensures
        ({
            let (r, ok) = s.resumed(id);
            &&& ok <==> (s.task(id) matches Some(t) && t.status == TaskStatus::Suspended)
            &&& !ok ==> r == s
            &&& ok ==> (r.task(id) matches Some(t) && t.status != TaskStatus::Suspended && t.core == s.task(id)->0.core)
            &&& ok && queue::holds(s.queues[s.task(id)->0.core as int].suspended, id) ==> {
                let c = s.task(id)->0.core as int;
                r.queues[c].active == seq![id] + s.queues[c].active && r.task(id)->0.status == TaskStatus::Active
            }
        }),
{
    if let Some(t) = s.task(id) {
        lemma_task_found(s.tasks, 0, id);
        assert(t.core < s.queues.len());
        lemma_replaced(s.tasks, Task { status: TaskStatus::Active, ..t }, id);
        lemma_replaced(s.tasks, Task { status: TaskStatus::Running, ..t }, id);
    }
}

/// How a wait begins. What is there to be had is taken; without time to wait it ends at once; else the
/// task is the last of those that wait, and a timer runs for as long as it is ready to.
pub proof fn law_wait_begun(s: Sched, c: int, m: usize, timeout: Option<u64>, is_interruptible: bool)
    requires
        s.well_formed(),
        0 <= c < s.queues.len(),
        s.current(c) is Some,
        m < s.sems.len(),
    ensures
        ({
            let (r, w) = s.wait_begun(c, m, timeout, is_interruptible);
            let t = s.current(c)->0;
            let free = s.sems[m as int].state.available();
            let signalled = is_interruptible && t.in_signal_init != 0;
            &&& free ==> w == WaitStep::Done(Ok(()))
            &&& !free && timeout == Some(0u64) ==> w == WaitStep::Done(Err(KError::WaitTimedOut))
            &&& !free && timeout != Some(0u64) && t.status == TaskStatus::Terminated
                ==> w == WaitStep::Done(Err(KError::WaitFailed))
            &&& !free && timeout != Some(0u64) && t.status != TaskStatus::Terminated && signalled
                ==> w == WaitStep::Done(Err(KError::WaitInterrupted))
            &&& !free && timeout != Some(0u64) && t.status != TaskStatus::Terminated && !signalled ==> {
                &&& w is Blocked
                &&& r.sems[m as int].blocked == s.sems[m as int].blocked.push(t.id)
                &&& r.task(t.id) matches Some(u) && u.wait_sem == Some(m) && u.status == (if is_interruptible {
                    TaskStatus::WaitingInterruptible
                } else {
                    TaskStatus::Waiting
                })
                &&& timeout is None ==> r.queues[c].timer_list == s.queues[c].timer_list
                &&& timeout matches Some(n) ==> r.queues[c].timer_list == s.queues[c].timer_list.push(
                    TimerInfo { timer_count: n, task_id: t.id, sem: m })
            }
            &&& w is Done ==> r.sems[m as int].blocked == s.sems[m as int].blocked && r.queues == s.queues
        }),
{
    let t0 = s.current(c)->0;
    let id = s.queues[c].running->0;
    lemma_task_found(s.tasks, 0, id);
    let t = t0.with_cause(SignalCause::Normal);
    assert(t.id == id && t.status == t0.status && t.in_signal_init == t0.in_signal_init);
    let u = Task {
        wait_sem: Some(m),
        status: if is_interruptible { TaskStatus::WaitingInterruptible } else { TaskStatus::Waiting },
        ..t
    };
    lemma_replaced(s.tasks, u, id);
}

/// What a wait answers: well if it was woken, else that its time ran out or that it was interrupted.
pub proof fn law_wait_answers(cause: SignalCause)
    ensures
        scheduler::wait_result(cause) is Ok <==> cause == SignalCause::Normal,
        cause == SignalCause::TimerExpiry
            ==> scheduler::wait_result(cause) == Err::<(), KError>(KError::WaitTimedOut),
        cause == SignalCause::Interruption
            ==> scheduler::wait_result(cause) == Err::<(), KError>(KError::WaitInterrupted),
{
}

/// A tick takes ten milliseconds off every timer. Those that have more left go on, in their order, and the
/// others have run out.
pub proof fn law_timers_tick(s: Seq<TimerInfo>, n: nat, i: int)
    requires
        0 <= i < n <= s.len(),
    ensures
        s[i].timer_count > 10 ==> queue::still_running(s, n).contains(
            TimerInfo { timer_count: (s[i].timer_count - 10) as u64, ..s[i] }),
        s[i].timer_count <= 10 ==> queue::run_out(s, n).contains(TimerInfo { timer_count: 0, ..s[i] }),
        queue::still_running(s, n).len() + queue::run_out(s, n).len() == n,
    decreases n,
{
    lemma_timers_len(s, n);
    let a = queue::still_running(s, n);
    let b = queue::run_out(s, n);
    let m = (n - 1) as nat;
    if i < n - 1 {
        law_timers_tick(s, m, i);
        let x = TimerInfo { timer_count: (s[i].timer_count - 10) as u64, ..s[i] };
        let y = TimerInfo { timer_count: 0, ..s[i] };
        if s[i].timer_count > 10 {
            let k = choose|k: int| 0 <= k < queue::still_running(s, m).len() && queue::still_running(s, m)[k] == x;
            assert(a[k] == x);
        } else {
            let k = choose|k: int| 0 <= k < queue::run_out(s, m).len() && queue::run_out(s, m)[k] == y;
            assert(b[k] == y);
        }
    } else if s[i].timer_count > 10 {
        assert(a[a.len() - 1] == TimerInfo { timer_count: (s[i].timer_count - 10) as u64, ..s[i] });
    } else {
        assert(b[b.len() - 1] == TimerInfo { timer_count: 0, ..s[i] });
    }
}

proof fn lemma_timers_len(s: Seq<TimerInfo>, n: nat)
    ensures
        queue::still_running(s, n).len() + queue::run_out(s, n).len() == n,
    decreases n,
{
    if n > 0 {
        lemma_timers_len(s, (n - 1) as nat);
    }
}

/// A signal can be given to the thread: it has not ended, is in the state that is looked for, and does not
/// have that signal already.
pub open spec fn can_take(s: Sched, id: u64, signal: u8, state: TaskStatus) -> bool {
    s.task(id) matches Some(t) && t.status == state && t.status != TaskStatus::Terminated
        && t.in_signal_init & (1u8 << signal) == 0 && t.pending_signals & (1u8 << signal) == 0
}

proof fn lemma_first_eligible(s: Sched, threads: Seq<u64>, i: int, signal: u8, state: TaskStatus)
    requires
        0 <= i,
    ensures
        match s.first_eligible(threads, i, signal, Some(state)) {
            Some(id) => exists|k: int| i <= k < threads.len() && #[trigger] threads[k] == id && can_take(s, id, signal, state)
                && forall|j: int| i <= j < k ==> !can_take(s, #[trigger] threads[j], signal, state),
            None => forall|j: int| i <= j < threads.len() ==> !can_take(s, #[trigger] threads[j], signal, state),
        },
    decreases threads.len() - i,
{
    if i < threads.len() {
        lemma_first_eligible(s, threads, i + 1, signal, state);
        if s.eligible(threads[i], signal, Some(state)) {
            assert(can_take(s, threads[i], signal, state));
        } else if let Some(id) = s.first_eligible(threads, i + 1, signal, Some(state)) {
            let k = choose|k: int| i + 1 <= k < threads.len() && #[trigger] threads[k] == id && can_take(s, id, signal, state)
                && forall|j: int| i + 1 <= j < k ==> !can_take(s, #[trigger] threads[j], signal, state);
            assert(threads[k] == id);
        }
    }
}

/// A signal goes to the first thread in the state looked for that can take it, with its handler; without
/// one nothing changes.
pub proof fn law_signal_given(s: Sched, threads: Seq<u64>, signal: u8, user_ctx: u64, handler: u64, state: TaskStatus)
    requires
        signal < 6,
        state != TaskStatus::WaitingInterruptible,
    ensures
        ({
            let (r, ok) = s.issued(threads, signal, user_ctx, handler, Some(state));
            &&& ok <==> exists|k: int| 0 <= k < threads.len() && can_take(s, #[trigger] threads[k], signal, state)
            &&& !ok ==> r == s
            &&& ok ==> exists|k: int| 0 <= k < threads.len() && can_take(s, #[trigger] threads[k], signal, state)
                && (forall|j: int| 0 <= j < k ==> !can_take(s, #[trigger] threads[j], signal, state))
                && (r.task(threads[k]) matches Some(t) && t.in_signal_init & (1u8 << signal) != 0
                    && (t.frames_init.at(signal) matches Some(f) && f.signal == signal && f.handler == handler
                    && f.user_ctx == user_ctx))
        }),
{
    lemma_first_eligible(s, threads, 0, signal, state);
    if let Some(id) = s.first_eligible(threads, 0, signal, Some(state)) {
        let k = choose|k: int| 0 <= k < threads.len() && #[trigger] threads[k] == id && can_take(s, id, signal, state)
            && forall|j: int| 0 <= j < k ==> !can_take(s, #[trigger] threads[j], signal, state);
        assert(can_take(s, threads[k], signal, state));
        let t = s.task(id)->0;
        lemma_task_found(s.tasks, 0, id);
        lemma_replaced(s.tasks, t.signalled(signal, user_ctx, handler), id);
        let m = t.in_signal_init;
        assert((m | (1u8 << signal)) & (1u8 << signal) != 0) by (bit_vector)
            requires
                signal < 6,
        ;
    }
}

/// Each of the six signals has its own frame and its own handler.
pub proof fn law_signal_tables(f: FrameTable, h: HandlerTable, i: u8, j: u8, x: Option<SignalFrame>, y: SignalHandler)
    requires
        i < 6,
        j < 6,
    ensures
        f.with(i, x).at(j) == (if i == j { x } else { f.at(j) }),
        h.with(i, y).at(j) == (if i == j { Some(y) } else { h.at(j) }),
{
}

/// A process that does not run is sent no signal. One without a handler for it is to be killed. While
/// a signal of the same or a higher number waits, a signal waits with it.
pub proof fn law_signal_sent(p: Procs, s: Sched, id: u64, signal: u8)
    requires
        signal < 6,
    ensures
        ({
            let (q, r, o) = p.signal_issued(s, id, signal);
            &&& p.proc(id) is None || p.proc(id)->0.status != ProcessStatus::Ready
                ==> q == p && r == s && o == SignalOutcome::Nothing
            &&& p.proc(id) is Some && p.proc(id)->0.status == ProcessStatus::Ready ==> {
                let blocked = task::highest(p.proc(id)->0.pending) matches Some(h) && h >= signal;
                &&& blocked ==> r == s && o == SignalOutcome::Nothing
                    && (q.proc(id) matches Some(d) && d.pending & (1u8 << signal) != 0)
                &&& !blocked && p.proc(id)->0.handlers.at(signal) is None ==> r == s && o == SignalOutcome::Kill
                &&& !blocked && p.proc(id)->0.handlers.at(signal) is Some ==> o == SignalOutcome::Nothing
            }
        }),
{
    if let Some(c) = p.proc(id) {
        lemma_proc_found(p.procs, 0, id);
        lemma_still_there(p, id, Proc { pending: task::set_bit(c.pending, signal), ..c });
        let m = c.pending;
        assert((m | (1u8 << signal)) & (1u8 << signal) != 0) by (bit_vector)
            requires
                signal < 6,
        ;
    }
}

/// A signal goes to a running thread before one in line, to that before one that waits and may be
/// interrupted, and to that before any other that waits.
pub proof fn law_signal_order(s: Sched, threads: Seq<u64>, signal: u8, h: SignalHandler)
    ensures
        ({
            let a = s.issued(threads, signal, h.user_ctx, h.handler, Some(TaskStatus::Running));
            let b = s.issued(threads, signal, h.user_ctx, h.handler, Some(TaskStatus::Active));
            let c = s.issued(threads, signal, h.user_ctx, h.handler, Some(TaskStatus::WaitingInterruptible));
            let d = s.issued(threads, signal, h.user_ctx, h.handler, Some(TaskStatus::Waiting));
            let r = proc::delivered(s, threads, signal, h, 0);
            &&& a.1 ==> r == a
            &&& !a.1 && b.1 ==> r == b
            &&& !a.1 && !b.1 && c.1 ==> r == c
            &&& !a.1 && !b.1 && !c.1 && d.1 ==> r == d
            &&& !a.1 && !b.1 && !c.1 && !d.1 ==> r == (s, false)
        }),
{
    reveal_with_fuel(proc::delivered, 6);
}

proof fn lemma_new_proc_found(s: Seq<Proc>, i: int, p: Proc, id: u64)
    requires
        0 <= i <= s.len(),
        forall|k: int| 0 <= k < s.len() ==> (#[trigger] s[k]).id != p.id,
    ensures
        id != p.id ==> proc::find_proc(s.push(p), i, id) == proc::find_proc(s, i, id),
        id == p.id ==> proc::find_proc(s.push(p), i, id) == Some(s.len() as int),
    decreases s.len() - i,
{
    if i < s.len() {
        lemma_new_proc_found(s, i + 1, p, id);
    } else {
        assert(proc::find_proc(s.push(p), i + 1, id) is None);
    }
}

/// A new process is a child of the one that made it, in its session and its group. It has one thread, its
/// arguments, those handles of its parent that are inherited, and nothing else; it runs, or waits to be
/// resumed, as it was asked for. No other process changes.
pub proof fn law_process_made(
    p: Procs, s: Sched, cur: u64, args: Seq<Seq<u8>>, is_user: bool, is_suspended: bool, parts: ProcessParts, other: u64, k: int,
)
    requires
        p.well_formed(),
        p.proc(cur) is Some,
        p.next_process < u64::MAX,
        p.process_created(s, cur, args, is_user, is_suspended, parts).2 is Ok,
    ensures
        ({
            let (q, r, made) = p.process_created(s, cur, args, is_user, is_suspended, parts);
            let parent = p.proc(cur)->0;
            let id = made->Ok_0;
            &&& p.proc(id) is None
            &&& q.proc(id) matches Some(c) && c.id == id && c.pid == parent.id && c.session == parent.session
                && c.pgroup == parent.pgroup && c.threads == seq![s.next_task] && c.args == args && c.is_user == is_user
                && c.status == (if is_suspended { ProcessStatus::Suspended } else { ProcessStatus::Ready })
                && c.pending == 0 && c.exit_code == 0 && c.memory.len() == 0 && !c.init_status
                && c.term_notify == parts.term_notify && c.init_notify == parts.init_notify
                && Ok::<u64, KError>(c.addr_space) == parts.addr_space
                && c.handles.len() == parent.handles.len() && (0 <= k < parent.handles.len()
                    ==> c.handles[k] == (if parent.handles[k] is Some && parent.handles[k]->0.is_inheritable {
                    parent.handles[k]
                } else {
                    None
                }))
            &&& other != id ==> q.proc(other) == p.proc(other)
            &&& q.session_members == p.session_members.push(Member { of: parent.session, process: id })
            &&& q.group_members == p.group_members.push(Member { of: parent.pgroup, process: id })
            &&& r.next_task == (s.next_task + 1) as u64
        }),
{
    let (q, r, made) = p.process_created(s, cur, args, is_user, is_suspended, parts);
    let id = made->Ok_0;
    lemma_proc_found(p.procs, 0, id);
    lemma_proc_found(p.procs, 0, other);
    let c = q.procs.last();
    assert(q.procs == p.procs.push(c));
    lemma_new_proc_found(p.procs, 0, c, id);
    lemma_new_proc_found(p.procs, 0, c, other);
}

/// A process needs arguments, an address space and a first thread; without one of them none is made.
pub proof fn law_process_not_made(
    p: Procs, s: Sched, cur: u64, args: Seq<Seq<u8>>, is_user: bool, is_suspended: bool, parts: ProcessParts,
)
    ensures
        ({
            let (q, r, made) = p.process_created(s, cur, args, is_user, is_suspended, parts);
            &&& made is Err <==> args.len() == 0 || parts.addr_space is Err || parts.thread is Err
            &&& made is Err ==> q.procs == p.procs && r.tasks == s.tasks
            &&& args.len() == 0 ==> made == Err::<u64, KError>(KError::InvalidArgument)
        }),
{
}

/// A thread is added to a process that has not ended, and to no other.
pub proof fn law_thread_added(p: Procs, s: Sched, id: u64, t: NewThread)
    ensures
        ({
            let (q, r, made) = p.thread_created(s, id, t);
            let there = p.proc(id) is Some && p.proc(id)->0.status != ProcessStatus::Terminated;
            &&& made is Ok <==> there
            &&& made is Err ==> q == p && r.tasks == s.tasks && made == Err::<u64, KError>(KError::ProcessTerminated)
            &&& made matches Ok(n) ==> n == s.next_task
                && (q.proc(id) matches Some(c) && c.threads == p.proc(id)->0.threads.push(n) && c.status == p.proc(id)->0.status)
                && (r.tasks.last().id == n && r.tasks.last().process == Some(id)
                && r.tasks.last().vcb == Some(p.proc(id)->0.addr_space))
        }),
{
    if let Some(c) = p.proc(id) {
        lemma_proc_found(p.procs, 0, id);
        lemma_still_there(p, id, Proc { threads: c.threads.push(s.next_task), ..c });
    }
}

/// Killing a process marks it as ended with the code given, once; a process that has ended, or is not
/// there, is left alone.
pub proof fn law_process_killed(p: Procs, s: Sched, id: u64, code: i64, here: usize, cur: Option<u64>)
    ensures
        ({
            let (q, r, exits) = p.process_killed(s, id, code, here, cur);
            &&& p.proc(id) is None || p.proc(id)->0.status == ProcessStatus::Terminated ==> q == p && r == s && !exits
            &&& p.proc(id) is Some && p.proc(id)->0.status != ProcessStatus::Terminated ==> (q.proc(id) matches Some(d)
                && d.status == ProcessStatus::Terminated && d.exit_code == code && d.threads == p.proc(id)->0.threads)
        }),
{
    if let Some(c) = p.proc(id) {
        lemma_proc_found(p.procs, 0, id);
        lemma_still_there(p, id, Proc { status: ProcessStatus::Terminated, exit_code: code, ..c });
    }
}

/// A thread that ends leaves its process. The last one takes the process with it, whose exit code is then
/// that of the thread, unless the process was killed with one of its own; it is written down.
pub proof fn law_last_thread(p: Procs, id: u64, thread: u64, code: i64)
    requires
        p.well_formed(),
        p.proc(id) is Some,
    ensures
        ({
            let c = p.proc(id)->0;
            let (q, last) = p.thread_removed(id, thread, code);
            let left = queue::taken_out(c.threads, thread);
            &&& last <==> left.len() == 0
            &&& !last ==> (q.proc(id) matches Some(d) && d.threads == left && d.status == c.status) && q.ended == p.ended
            &&& last ==> q.proc(id) is None && q.ended.len() == p.ended.len() + 1 && {
                let e = q.ended.last();
                &&& e.info.id == id && e.info.pid == c.pid && e.info.sid == c.session
                &&& e.info.exit_code == (if c.status == ProcessStatus::Terminated { c.exit_code } else { code })
                &&& e.term_notify == c.term_notify
            }
        }),
{
    let c = p.proc(id)->0;
    lemma_proc_found(p.procs, 0, id);
    let left = queue::taken_out(c.threads, thread);
    lemma_still_there(p, id, Proc { threads: left, ..c });
    let d = Proc { exit_code: if c.status != ProcessStatus::Terminated { code } else { c.exit_code }, ..c };
    lemma_destroyed(p, d);
}

/// A process group is made of those that are members of it.
pub proof fn law_group_members(p: Procs, pgid: u64, n: nat, id: u64)
    requires
        n <= p.group_members.len(),
    ensures
        p.group(pgid, n).contains(id) <==> exists|i: int| 0 <= i < n && (#[trigger] p.group_members[i]).of == pgid
            && p.group_members[i].process == id,
    decreases n,
{
    if n > 0 {
        law_group_members(p, pgid, (n - 1) as nat, id);
        let rest = p.group(pgid, (n - 1) as nat);
        let all = p.group(pgid, n);
        let m = p.group_members[n - 1];
        if m.of == pgid {
            assert(all == rest.push(m.process));
            assert(all[all.len() - 1] == m.process);
            if rest.contains(id) {
                let k = choose|k: int| 0 <= k < rest.len() && rest[k] == id;
                assert(all[k] == id);
            }
            if all.contains(id) && !rest.contains(id) {
                let k = choose|k: int| 0 <= k < all.len() && all[k] == id;
                if k < rest.len() {
                    assert(rest[k] == id);
                }
                assert(p.group_members[n - 1].process == id);
            }
        }
    }
}

proof fn lemma_no_bits(n: u8)
    requires
        n <= 8,
    ensures
        task::highest_below(0, n) is None,
    decreases n,
{
    if n > 0 {
        lemma_no_bits((n - 1) as u8);
        let i = (n - 1) as u8;
        assert(0u8 & (1u8 << i) == 0) by (bit_vector);
    }
}

/// What becomes of a task's signals before it runs. The stack of a handler that has finished is given back, and what
/// it interrupted goes on. A signal that is new begins if nothing as urgent runs, once the task is in its own code
/// or in a call; a handler that runs goes on; without signals nothing happens.
pub proof fn law_signals_run(t: Task, fresh: bool, now: Saved, is_user_context: bool, setup: HandlerSetup, i: u8)
    requires
        i < 6,
    ensures
        ({
            let (u, r) = t.signals_run(fresh, now, is_user_context, setup);
            &&& t.completed_signals == 0 ==> r.unmap is None && r.restore is None
            &&& task::highest(t.completed_signals) matches Some(c) ==> r.unmap == Some(t.frames_pending.at(c)->0.mapped_base)
                && r.restore == Some(t.saved())
            &&& t.completed_signals == 0 && t.pending_signals == 0 && t.in_signal_init == 0 ==> u == t && !r.handles
                && r.state is None
            &&& t.completed_signals == 0 && t.in_signal_init == 0 && task::highest(t.pending_signals) is Some ==> u == t
                && r.handles && r.state == (if fresh { Some(t.saved()) } else { None })
            &&& t.completed_signals == 0 && t.pending_signals == 0 && task::highest(t.in_signal_init) == Some(i) ==> {
                &&& is_user_context || t.is_in_syscall ==> r.handles && r.state == Some(
                    Saved { context: setup.context, per_cpu_base: setup.per_cpu_base })
                    && u.pending_signals & (1u8 << i) != 0 && u.in_signal_init & (1u8 << i) == 0
                &&& !is_user_context && !t.is_in_syscall ==> u == t && !r.handles && r.state is None
            }
        }),
{
    lemma_no_bits(8);
    if t.completed_signals == 0 && t.pending_signals == 0 && task::highest(t.in_signal_init) == Some(i) {
        let (u, r) = t.signals_run(fresh, now, is_user_context, setup);
        let m = t.in_signal_init;
        let p = t.pending_signals;
        assert((m & !(1u8 << i)) & (1u8 << i) == 0 && (p | (1u8 << i)) & (1u8 << i) != 0) by (bit_vector)
            requires
                i < 6,
        ;
    }
}

} // verus!
