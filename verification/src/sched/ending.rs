//! What can still be waited for and asked once a task or a process has ended.

use vstd::prelude::*;
use crate::sched::proc;
use crate::sched::proc::{EndedProcess, Proc, ProcessInfo, Procs, ThreadInfo};
use crate::sched::queue;
use crate::sched::queue::{DriverWorker, Queue, TimerInfo};
use crate::sched::scheduler;
use crate::sched::scheduler::{EndedTask, NewThread, Sched, Sem, WaitStep};
use crate::sched::syscall;
use crate::sched::tick;
use crate::sched::task::{INIT_QUANTA, Saved, SignalCause, Task, TaskStatus};
use crate::sync::semaphore::SemState;

verus! {

/// Something that happens to the tasks of the system.
pub enum Step {
    Signal(usize),
    SignalOnTask(usize, u64, bool),
    DropTask(usize, u64),
    Reset(usize),
    Wait(usize, usize, Option<u64>, bool),
    NewSem(SemState),
    Kill(u64, i64, usize),
    Tick(usize, Saved),
    Spawn(NewThread),
    PassTurn(bool),
    Yield(usize),
    Resume(u64),
    Reap(usize),
    ProcessEnds(usize, Proc),
    Issue(Seq<u64>, u8, u64, u64, Option<TaskStatus>),
    Notify(usize),
    /// A task changes where it is.
    TaskTouched(Task),
    /// A core's queue changes in what concerns neither its tasks nor whom it has to tell.
    QueueTouched(usize, Queue),
}

/// What a step makes of the tasks.
pub open spec fn after(s: Sched, step: Step) -> Sched {
    match step {
        Step::Signal(m) => s.signalled(m as int),
        Step::SignalOnTask(m, id, interrupted) => s.signalled_on_task(m as int, id, interrupted),
        Step::DropTask(m, id) => s.dropped(m as int, id),
        Step::Reset(m) => s.with_state(m as int, s.sems[m as int].state.lowered()),
        Step::Wait(core, m, timeout, interruptible) => s.wait_begun(core as int, m, timeout, interruptible).0,
        Step::NewSem(state) => Sched { sems: s.sems.push(Sem { state, blocked: Seq::empty() }), ..s },
        Step::Kill(id, code, here) => s.killed(id, code, here).0,
        Step::Tick(core, saved) => s.scheduled(core as int, saved).0,
        Step::Spawn(p) => s.spawned(p),
        Step::PassTurn(had_id) => s.turn_passed(had_id),
        Step::Yield(core) => s.yielded(core as int),
        Step::Resume(id) => s.resumed(id).0,
        Step::Reap(core) => s.reaped(core as int),
        Step::ProcessEnds(core, p) => s.with_queue(core as int, proc::queue_with_notices(s.queues[core as int], p)),
        Step::Issue(threads, signal, ctx, handler, state) => s.issued(threads, signal, ctx, handler, state).0,
        Step::Notify(core) => s.watchers_notified(core as int),
        Step::TaskTouched(t) => s.with_task(t),
        Step::QueueTouched(core, q) => s.with_queue(core as int, q),
    }
}

/// Whether a step can be taken: what it names is there.
pub open spec fn can(s: Sched, step: Step) -> bool {
    &&& s.well_formed()
    &&& match step {
        Step::Signal(m) => m < s.sems.len(),
        Step::SignalOnTask(m, _, _) => m < s.sems.len(),
        Step::DropTask(m, _) => m < s.sems.len(),
        Step::Reset(m) => m < s.sems.len(),
        Step::Wait(core, m, _, _) => core < s.queues.len() && m < s.sems.len() && s.current(core as int) is Some,
        Step::NewSem(_) => true,
        Step::Kill(_, _, _) => true,
        Step::Tick(core, _) => core < s.queues.len(),
        Step::Spawn(_) => s.next_task < u64::MAX && s.queues.len() > 0,
        Step::PassTurn(_) => s.next_task < u64::MAX,
        Step::Yield(core) => core < s.queues.len() && s.current(core as int) is Some,
        Step::Resume(_) => true,
        Step::Reap(core) => core < s.queues.len() && s.queues[core as int].terminated.len() > 0,
        Step::ProcessEnds(core, _) => core < s.queues.len(),
        Step::Issue(_, _, _, _, _) => true,
        Step::Notify(core) => core < s.queues.len(),
        Step::TaskTouched(t) => s.task(t.id) matches Some(o) ==> o.core == t.core,
        Step::QueueTouched(core, q) => core < s.queues.len() && q.notifier_list == s.queues[core as int].notifier_list,
    }
}

/// The tasks after some steps.
pub open spec fn after_all(s: Sched, steps: Seq<Step>, n: nat) -> Sched
    decreases n,
{
    if n == 0 { s } else { after(after_all(s, steps, (n - 1) as nat), steps[n - 1]) }
}

pub open spec fn can_all(s: Sched, steps: Seq<Step>) -> bool {
    &&& forall|i: int| 0 <= i < steps.len() ==> can(after_all(s, steps, i as nat), #[trigger] steps[i])
    &&& after_all(s, steps, steps.len()).well_formed()
}

/// Nobody resets an event in the course of some steps.
pub open spec fn never_reset(steps: Seq<Step>, m: usize) -> bool {
    forall|i: int| 0 <= i < steps.len() ==> (#[trigger] steps[i]) != Step::Reset(m)
}

/// An event that stays signalled until it is reset.
pub open spec fn manual(s: Sched, m: int) -> bool {
    0 <= m < s.sems.len() && (s.sems[m].state matches SemState::Event { is_auto_reset, .. } && !is_auto_reset)
}

pub open spec fn raised(s: Sched, m: int) -> bool {
    manual(s, m) && s.sems[m].state.available()
}

/// An event has been signalled, or a core is going to signal it.
pub open spec fn told(s: Sched, core: int, m: usize) -> bool {
    &&& manual(s, m as int)
    &&& 0 <= core < s.queues.len()
    &&& raised(s, m as int) || s.queues[core].notifier_list.contains(m)
}

/// A task has been cleared away, and this is known of it.
pub open spec fn gone(s: Sched, e: EndedTask) -> bool {
    &&& s.task(e.id) is None
    &&& e.id < s.next_task
    &&& scheduler::ended_task(s.ended, s.ended.len(), e.id) == Some(e)
}

/// A manual event is still one, and still signalled if it was.
spec fn kept(a: SemState, b: SemState) -> bool {
    a matches SemState::Event { signalled, is_auto_reset } ==> (!is_auto_reset ==> (b matches SemState::Event {
        signalled: now,
        is_auto_reset: auto,
    } && !auto && (signalled ==> now)))
}

/// Nobody has come or gone, nobody new is to be told, and no manual event has been reset.
spec fn quiet(s: Sched, r: Sched) -> bool {
    &&& r.ended == s.ended
    &&& r.next_task == s.next_task
    &&& r.tasks.len() == s.tasks.len()
    &&& forall|i: int| 0 <= i < s.tasks.len() ==> (#[trigger] r.tasks[i]).id == s.tasks[i].id && r.tasks[i].core
        == s.tasks[i].core
    &&& r.queues.len() == s.queues.len()
    &&& forall|c: int| 0 <= c < s.queues.len() ==> (#[trigger] r.queues[c]).notifier_list == s.queues[c].notifier_list
        && same_work(s.queues[c], r.queues[c])
    &&& r.sems.len() == s.sems.len()
    &&& forall|m: int| 0 <= m < s.sems.len() ==> kept(s.sems[m].state, (#[trigger] r.sems[m]).state)
}

/// A manual event is as it was.
spec fn still(a: SemState, b: SemState) -> bool {
    a matches SemState::Event { is_auto_reset, .. } ==> (!is_auto_reset ==> b == a)
}

/// All manual events but one are as they were.
spec fn steady(s: Sched, r: Sched, but: int) -> bool {
    &&& r.sems.len() == s.sems.len()
    &&& forall|m: int| 0 <= m < s.sems.len() && m != but ==> still(s.sems[m].state, (#[trigger] r.sems[m]).state)
}

proof fn lemma_steady_twice(a: Sched, b: Sched, c: Sched, but: int)
    ensures
        steady(a, b, but) && steady(b, c, but) ==> steady(a, c, but),
{
    if steady(a, b, but) && steady(b, c, but) {
        assert forall|m: int| 0 <= m < a.sems.len() && m != but implies still(a.sems[m].state, (#[trigger] c.sems[m]).state) by {
            assert(still(a.sems[m].state, b.sems[m].state));
        }
    }
}

/// A core has the same work put off, and is in worker mode if it was, and its task can be taken off it
/// if it could.
pub open spec fn same_work(q: Queue, r: Queue) -> bool {
    r.is_dw_mode == q.is_dw_mode && r.dw_queue == q.dw_queue && r.preemption_count == q.preemption_count
}

/// Every task belongs to a core.
spec fn on_cores(s: Sched) -> bool {
    forall|i: int| 0 <= i < s.tasks.len() ==> (#[trigger] s.tasks[i]).core < s.queues.len()
}

proof fn lemma_on_cores(s: Sched)
    requires
        s.well_formed(),
    ensures
        on_cores(s),
{
}

proof fn lemma_with_task(s: Sched, t: Task)
    requires
        s.task(t.id) matches Some(o) ==> o.core == t.core,
    ensures
        quiet(s, s.with_task(t)),
        s.with_task(t).sems == s.sems,
{
    scheduler::lemma_task_found(s.tasks, 0, t.id);
}

proof fn lemma_woken(s: Sched, id: u64, sem: usize, cause: SignalCause)
    requires
        on_cores(s),
    ensures
        quiet(s, s.woken(id, sem, cause).0),
        s.woken(id, sem, cause).0.sems == s.sems,
        on_cores(s.woken(id, sem, cause).0),
{
    scheduler::lemma_task_found(s.tasks, 0, id);
}

proof fn lemma_woke(s: Sched, sem: int, task: Option<u64>, cause: SignalCause)
    requires
        on_cores(s),
        0 <= sem < s.sems.len(),
    ensures
        quiet(s, s.woke(sem, task, cause).0),
        steady(s, s.woke(sem, task, cause).0, -1),
        on_cores(s.woke(sem, task, cause).0),
{
    let id = match task { Some(id) => id, None => s.sems[sem].blocked[0] };
    lemma_woken(s, id, sem as usize, cause);
}

proof fn lemma_woke_all(s: Sched, sem: int, n: nat)
    requires
        on_cores(s),
        0 <= sem < s.sems.len(),
    ensures
        quiet(s, s.woke_all(sem, n)),
        steady(s, s.woke_all(sem, n), -1),
        on_cores(s.woke_all(sem, n)),
    decreases n,
{
    if n > 0 {
        lemma_woke(s, sem, None, SignalCause::Normal);
        let (r, ok) = s.woke(sem, None, SignalCause::Normal);
        if ok {
            lemma_woke_all(r, sem, (n - 1) as nat);
            lemma_steady_twice(s, r, s.woke_all(sem, n), -1);
        }
    }
}

proof fn lemma_signalled(s: Sched, sem: int)
    requires
        on_cores(s),
        0 <= sem < s.sems.len(),
    ensures
        quiet(s, s.signalled(sem)),
        steady(s, s.signalled(sem), sem),
        on_cores(s.signalled(sem)),
        manual(s, sem) ==> raised(s.signalled(sem), sem),
{
    let s1 = s.with_state(sem, s.sems[sem].state.restored());
    assert(quiet(s, s1));
    assert(on_cores(s1));
    lemma_woke(s1, sem, None, SignalCause::Normal);
    lemma_woke_all(s1, sem, s1.sems[sem].blocked.len());
    let t = s1.woke_all(sem, s1.sems[sem].blocked.len());
    assert(quiet(s1, t));
    assert(kept(s1.sems[sem].state, t.sems[sem].state));
    assert(kept(s.sems[sem].state, s1.sems[sem].state));
    assert(quiet(t, t.with_state(sem, t.sems[sem].state.raised())));
    assert(quiet(s1, s1.with_state(sem, s1.sems[sem].state.raised())));
    lemma_quiet_twice(s, s1, s.signalled(sem));
    assert(steady(s, s1, sem));
    assert(steady(t, t.with_state(sem, t.sems[sem].state.raised()), sem));
    lemma_steady_twice(s1, t, t.with_state(sem, t.sems[sem].state.raised()), sem);
    lemma_steady_twice(s, s1, s.signalled(sem), sem);
}

proof fn lemma_quiet_twice(a: Sched, b: Sched, c: Sched)
    ensures
        quiet(a, b) && quiet(b, c) ==> quiet(a, c),
{
    if quiet(a, b) && quiet(b, c) {
        assert forall|m: int| 0 <= m < a.sems.len() implies kept(a.sems[m].state, (#[trigger] c.sems[m]).state) by {
            assert(kept(a.sems[m].state, b.sems[m].state));
        }
        assert forall|k: int| 0 <= k < a.queues.len() implies (#[trigger] c.queues[k]).notifier_list
            == a.queues[k].notifier_list by {
            assert(b.queues[k].notifier_list == a.queues[k].notifier_list);
        }
        assert forall|i: int| 0 <= i < a.tasks.len() implies (#[trigger] c.tasks[i]).id == a.tasks[i].id
            && c.tasks[i].core == a.tasks[i].core by {
            assert(b.tasks[i].id == a.tasks[i].id);
        }
    }
}

proof fn lemma_sems_told(s: Sched, list: Seq<usize>, n: nat)
    requires
        on_cores(s),
        n <= list.len(),
    ensures
        quiet(s, s.sems_told(list, n)),
        on_cores(s.sems_told(list, n)),
        forall|i: int| 0 <= i < n && manual(s, (#[trigger] list[i]) as int) ==> raised(s.sems_told(list, n), list[i] as int),
        forall|m: int| 0 <= m < s.sems.len() && !list.contains(m as usize) && m <= usize::MAX ==> still(
            s.sems[m].state, (#[trigger] s.sems_told(list, n).sems[m]).state),
    decreases n,
{
    if n > 0 {
        lemma_sems_told(s, list, (n - 1) as nat);
        let r = s.sems_told(list, (n - 1) as nat);
        let m = list[n - 1];
        if m < r.sems.len() {
            lemma_signalled(r, m as int);
            lemma_quiet_twice(s, r, r.signalled(m as int));
            assert forall|i: int| 0 <= i < n && manual(s, (#[trigger] list[i]) as int) implies raised(
                s.sems_told(list, n), list[i] as int) by {
                let k = list[i] as int;
                assert(kept(s.sems[k].state, r.sems[k].state));
                assert(kept(r.sems[k].state, r.signalled(m as int).sems[k].state));
            }
            assert forall|k: int| 0 <= k < s.sems.len() && !list.contains(k as usize) && k <= usize::MAX implies still(
                s.sems[k].state, (#[trigger] s.sems_told(list, n).sems[k]).state) by {
                assert(still(s.sems[k].state, r.sems[k].state));
                assert(list[n - 1] == m);
                assert(still(r.sems[k].state, r.signalled(m as int).sems[k].state));
            }
        }
    }
}

proof fn lemma_on_task(s: Sched, m: int, id: u64, interrupted: bool)
    requires
        on_cores(s),
        0 <= m < s.sems.len(),
    ensures
        quiet(s, s.signalled_on_task(m, id, interrupted)),
        steady(s, s.signalled_on_task(m, id, interrupted), -1),
        on_cores(s.signalled_on_task(m, id, interrupted)),
{
    let cause = if interrupted { SignalCause::Interruption } else { SignalCause::TimerExpiry };
    lemma_woke(s, m, Some(id), cause);
    let r = s.woke(m, Some(id), cause).0;
    assert(quiet(r, r.with_state(m, r.sems[m].state.restored())));
    lemma_quiet_twice(s, r, r.with_state(m, r.sems[m].state.restored()));
    assert(steady(r, r.with_state(m, r.sems[m].state.restored()), -1));
    lemma_steady_twice(s, r, r.with_state(m, r.sems[m].state.restored()), -1);
}

proof fn lemma_timers_told(s: Sched, list: Seq<TimerInfo>, n: nat)
    requires
        on_cores(s),
    ensures
        quiet(s, s.timers_told(list, n)),
        steady(s, s.timers_told(list, n), -1),
        on_cores(s.timers_told(list, n)),
    decreases n,
{
    if n > 0 {
        lemma_timers_told(s, list, (n - 1) as nat);
        let r = s.timers_told(list, (n - 1) as nat);
        let t = list[n - 1];
        if t.sem < r.sems.len() {
            lemma_on_task(r, t.sem as int, t.task_id, false);
            lemma_quiet_twice(s, r, r.signalled_on_task(t.sem as int, t.task_id, false));
            lemma_steady_twice(s, r, r.signalled_on_task(t.sem as int, t.task_id, false), -1);
        }
    }
}

/// Whoever is to be told is told.
proof fn lemma_notified(s: Sched, core: int)
    requires
        on_cores(s),
        0 <= core < s.queues.len(),
    ensures
        ({
            let r = s.watchers_notified(core);
            &&& on_cores(r)
            &&& r.ended == s.ended && r.next_task == s.next_task
            &&& r.tasks.len() == s.tasks.len()
            &&& forall|i: int| 0 <= i < s.tasks.len() ==> (#[trigger] r.tasks[i]).id == s.tasks[i].id
            &&& r.queues.len() == s.queues.len()
            &&& forall|c: int| 0 <= c < s.queues.len() && c != core ==> (#[trigger] r.queues[c]).notifier_list
                == s.queues[c].notifier_list
            &&& r.sems.len() == s.sems.len()
            &&& forall|m: int| 0 <= m < s.sems.len() ==> kept(s.sems[m].state, (#[trigger] r.sems[m]).state)
            &&& forall|m: usize| manual(s, m as int) && #[trigger] s.queues[core].notifier_list.contains(m) ==> raised(
                r, m as int)
            &&& r.queues[core].notifier_list.len() == 0
            &&& forall|m: int| 0 <= m < s.sems.len() && m <= usize::MAX && !s.queues[core].notifier_list.contains(m as usize)
                ==> still(s.sems[m].state, (#[trigger] r.sems[m]).state)
            &&& forall|c: int| 0 <= c < s.queues.len() ==> same_work(s.queues[c], #[trigger] r.queues[c])
        }),
{
    let q = s.queues[core];
    let s1 = s.with_queue(core, Queue { notifier_list: Seq::empty(), timer_notifier_list: Seq::empty(), ..q });
    lemma_sems_told(s1, q.notifier_list, q.notifier_list.len());
    let s2 = s1.sems_told(q.notifier_list, q.notifier_list.len());
    lemma_timers_told(s2, q.timer_notifier_list, q.timer_notifier_list.len());
    let r = s.watchers_notified(core);
    lemma_quiet_twice(s1, s2, r);
    assert forall|c: int| 0 <= c < s.queues.len() && c != core implies (#[trigger] r.queues[c]).notifier_list
        == s.queues[c].notifier_list by {
        assert(s1.queues[c] == s.queues[c]);
    }
    assert forall|m: usize| manual(s, m as int) && #[trigger] s.queues[core].notifier_list.contains(m) implies raised(
        r, m as int) by {
        let i = choose|i: int| 0 <= i < q.notifier_list.len() && q.notifier_list[i] == m;
        assert(manual(s1, q.notifier_list[i] as int));
        assert(raised(s2, m as int));
        assert(kept(s2.sems[m as int].state, r.sems[m as int].state));
    }
    assert forall|m: int| 0 <= m < s.sems.len() && m <= usize::MAX && !s.queues[core].notifier_list.contains(m as usize)
        implies still(s.sems[m].state, (#[trigger] r.sems[m]).state) by {
        assert(still(s1.sems[m].state, s2.sems[m].state));
        assert(still(s2.sems[m].state, r.sems[m].state));
    }
    assert forall|c: int| 0 <= c < s.queues.len() implies same_work(s.queues[c], #[trigger] r.queues[c]) by {
        assert(same_work(s1.queues[c], r.queues[c]));
    }
}

proof fn lemma_killed(s: Sched, id: u64, code: i64, here: usize)
    requires
        s.well_formed(),
    ensures
        quiet(s, s.killed(id, code, here).0),
        steady(s, s.killed(id, code, here).0, -1),
{
    if let Some(t) = s.task(id) {
        scheduler::lemma_task_found(s.tasks, 0, id);
        let k = scheduler::find_task(s.tasks, 0, id)->0;
        assert(s.tasks[k] == t);
        let s1 = s.terminated(t, code);
        assert(s1.sems == s.sems);
        assert(quiet(s, s1));
        assert(scheduler::waiting_ok(s.tasks[k], s.sems.len()));
    }
}

proof fn lemma_scheduled(s: Sched, core: int, saved: Saved)
    requires
        s.well_formed(),
        0 <= core < s.queues.len(),
    ensures
        quiet(s, s.scheduled(core, saved).0),
        s.scheduled(core, saved).0.sems == s.sems,
{
    let s1 = s.ticked(core);
    assert(quiet(s, s1));
    let q = s1.queues[core];
    assert(scheduler::queue_ok(s.tasks, s.queues[core], core));
    if let Some(id) = q.running {
        scheduler::lemma_task_found(s1.tasks, 0, id);
        let o = s1.task(id)->0;
        let t = Task { quanta: if o.quanta == 0 { 0 } else { (o.quanta - 1) as u64 }, ..o };
        lemma_with_task(s1, t);
        let s2 = s1.with_task(t);
        lemma_with_task(s1, Task { quanta: INIT_QUANTA, ..t });
        scheduler::lemma_replaced(s1.tasks, t, id);
        lemma_left_core(s2, core, t, saved);
        let s3 = s2.left_core(core, t, saved);
        lemma_quiet_twice(s1, s2, s3);
        if q.active.len() > 0 {
            assert(scheduler::fits(s.tasks, s.queues[core].active[0], core, queue::QueueKind::Active));
            assert(s3.queues[core].active[0] == q.active[0]);
            lemma_still_found(s1, s3, q.active[0]);
        }
        lemma_head_taken(s3, core);
        lemma_quiet_twice(s1, s3, s3.head_taken(core));
        lemma_quiet_twice(s, s1, s.scheduled(core, saved).0);
        lemma_quiet_twice(s, s1, s2);
    } else {
        if q.active.len() > 0 {
            assert(scheduler::fits(s.tasks, s.queues[core].active[0], core, queue::QueueKind::Active));
        }
        lemma_head_taken(s1, core);
        lemma_quiet_twice(s, s1, s1.head_taken(core));
    }
}

proof fn lemma_still_found(s: Sched, r: Sched, id: u64)
    requires
        quiet(s, r),
        s.task(id) is Some,
    ensures
        r.task(id) is Some,
{
    scheduler::lemma_task_found(s.tasks, 0, id);
    scheduler::lemma_task_found(r.tasks, 0, id);
    let k = scheduler::find_task(s.tasks, 0, id)->0;
    assert(r.tasks[k].id == s.tasks[k].id);
}

proof fn lemma_left_core(s: Sched, core: int, t: Task, saved: Saved)
    requires
        0 <= core < s.queues.len(),
        s.task(t.id) matches Some(o) ==> o.core == t.core,
    ensures
        quiet(s, s.left_core(core, t, saved)),
{
    let u0 = t.switched_out(saved);
    let u = Task { status: if t.status == TaskStatus::Running { TaskStatus::Active } else { t.status }, ..u0 };
    lemma_with_task(s, u);
}

proof fn lemma_head_taken(s: Sched, core: int)
    requires
        0 <= core < s.queues.len(),
    ensures
        s.task(s.queues[core].active[0]) is Some ==> quiet(s, s.head_taken(core)),
{
    let id = s.queues[core].active[0];
    if let Some(h) = s.task(id) {
        scheduler::lemma_task_found(s.tasks, 0, id);
        lemma_with_task(s, Task { status: TaskStatus::Running, quanta: INIT_QUANTA, ..h });
    }
}

proof fn lemma_issued(s: Sched, threads: Seq<u64>, i: int, signal: u8, state: Option<TaskStatus>)
    requires
        0 <= i,
    ensures
        s.first_eligible(threads, i, signal, state) matches Some(id) ==> s.task(id) is Some,
    decreases threads.len() - i,
{
    if i < threads.len() && !s.eligible(threads[i], signal, state) {
        lemma_issued(s, threads, i + 1, signal, state);
    }
}

/// The steps after which nobody has come or gone and nobody new is to be told.
proof fn lemma_quiet_step(s: Sched, step: Step)
    requires
        can(s, step),
        !(step is Reset || step is NewSem || step is Spawn || step is PassTurn || step is Reap || step is ProcessEnds
            || step is Notify || step is QueueTouched),
    ensures
        quiet(s, after(s, step)),
        steady(s, after(s, step), match step { Step::Signal(m) => m as int, _ => -1 }),
{
    lemma_on_cores(s);
    match step {
        Step::Signal(m) => lemma_signalled(s, m as int),
        Step::SignalOnTask(m, id, interrupted) => lemma_on_task(s, m as int, id, interrupted),
        Step::Wait(core, m, timeout, interruptible) => {
            let id = s.queues[core as int].running->0;
            scheduler::lemma_task_found(s.tasks, 0, id);
        },
        Step::Kill(id, code, here) => lemma_killed(s, id, code, here),
        Step::Tick(core, saved) => lemma_scheduled(s, core as int, saved),
        Step::Yield(core) => {
            let id = s.queues[core as int].running->0;
            scheduler::lemma_task_found(s.tasks, 0, id);
        },
        Step::Resume(id) => {
            scheduler::lemma_task_found(s.tasks, 0, id);
        },
        Step::Issue(threads, signal, ctx, handler, state) => {
            lemma_issued(s, threads, 0, signal, state);
            if let Some(id) = s.first_eligible(threads, 0, signal, state) {
                scheduler::lemma_task_found(s.tasks, 0, id);
                let t = s.task(id)->0;
                let k = scheduler::find_task(s.tasks, 0, id)->0;
                lemma_with_task(s, t.signalled(signal, ctx, handler));
                let s1 = s.with_task(t.signalled(signal, ctx, handler));
                assert(on_cores(s1));
                assert(scheduler::waiting_ok(s.tasks[k], s.sems.len()));
                if t.status == TaskStatus::WaitingInterruptible {
                    lemma_on_task(s1, t.wait_sem->0 as int, id, true);
                    lemma_quiet_twice(s, s1, s1.signalled_on_task(t.wait_sem->0 as int, id, true));
                    lemma_steady_twice(s, s1, s1.signalled_on_task(t.wait_sem->0 as int, id, true), -1);
                }
            }
        },
        Step::TaskTouched(t) => lemma_with_task(s, t),
        _ => {},
    }
}

/// What has been signalled or is going to be stays so, unless it is reset.
proof fn lemma_step_told(s: Sched, step: Step, core: int, m: usize)
    requires
        can(s, step),
        step != Step::Reset(m),
        told(s, core, m),
    ensures
        told(after(s, step), core, m),
        raised(s, m as int) ==> raised(after(s, step), m as int),
        step matches Step::Notify(c) && c == core ==> raised(after(s, step), m as int),
{
    lemma_on_cores(s);
    let r = after(s, step);
    if step is Notify {
        lemma_notified(s, step->Notify_0 as int);
        assert(kept(s.sems[m as int].state, r.sems[m as int].state));
    } else if step is Reset || step is NewSem || step is Spawn || step is PassTurn || step is QueueTouched {
    } else if step is Reap || step is ProcessEnds {
        let l = s.queues[core].notifier_list;
        let l1 = r.queues[core].notifier_list;
        assert(forall|i: int| 0 <= i < l.len() ==> l1[i] == l[i]);
        if l.contains(m) {
            let i = choose|i: int| 0 <= i < l.len() && l[i] == m;
            assert(l1[i] == m);
        }
    } else {
        lemma_quiet_step(s, step);
        assert(kept(s.sems[m as int].state, r.sems[m as int].state));
        assert(r.queues[core].notifier_list == s.queues[core].notifier_list);
    }
}

proof fn lemma_same_ids(s: Sched, r: Sched, id: u64)
    requires
        r.tasks.len() == s.tasks.len(),
        forall|i: int| 0 <= i < s.tasks.len() ==> (#[trigger] r.tasks[i]).id == s.tasks[i].id,
        s.task(id) is None,
    ensures
        r.task(id) is None,
{
    scheduler::lemma_task_found(s.tasks, 0, id);
    scheduler::lemma_task_found(r.tasks, 0, id);
}

proof fn lemma_ended_pushed(s: Seq<EndedTask>, e: EndedTask, n: nat, id: u64)
    requires
        n <= s.len(),
    ensures
        scheduler::ended_task(s.push(e), n, id) == scheduler::ended_task(s, n, id),
    decreases n,
{
    if n > 0 {
        lemma_ended_pushed(s, e, (n - 1) as nat, id);
    }
}

/// What is known of a task that has been cleared away stays known.
proof fn lemma_step_gone(s: Sched, step: Step, e: EndedTask)
    requires
        can(s, step),
        gone(s, e),
    ensures
        gone(after(s, step), e),
{
    lemma_on_cores(s);
    let r = after(s, step);
    scheduler::lemma_task_found(s.tasks, 0, e.id);
    if step is Notify {
        lemma_notified(s, step->Notify_0 as int);
        lemma_same_ids(s, r, e.id);
    } else if step is Reset || step is NewSem || step is PassTurn || step is ProcessEnds || step is QueueTouched {
    } else if step is Spawn {
        scheduler::lemma_task_found(r.tasks, 0, e.id);
    } else if step is Reap {
        let core = step->Reap_0 as int;
        let q = s.queues[core];
        let id = q.terminated[0];
        assert(scheduler::queue_ok(s.tasks, q, core));
        assert(scheduler::fits(s.tasks, q.terminated[0], core, queue::QueueKind::Terminated));
        scheduler::lemma_task_found(s.tasks, 0, id);
        scheduler::lemma_task_found(r.tasks, 0, e.id);
        lemma_ended_pushed(s.ended, r.ended.last(), s.ended.len(), e.id);
    } else {
        lemma_quiet_step(s, step);
        lemma_same_ids(s, r, e.id);
    }
}

proof fn lemma_all_told(s: Sched, steps: Seq<Step>, n: nat, core: int, m: usize)
    requires
        can_all(s, steps),
        never_reset(steps, m),
        n <= steps.len(),
        told(s, core, m),
    ensures
        told(after_all(s, steps, n), core, m),
        raised(s, m as int) ==> raised(after_all(s, steps, n), m as int),
    decreases n,
{
    if n > 0 {
        lemma_all_told(s, steps, (n - 1) as nat, core, m);
        let r = after_all(s, steps, (n - 1) as nat);
        assert(can(after_all(s, steps, (n - 1) as nat), steps[n - 1]));
        lemma_step_told(r, steps[n - 1], core, m);
    }
}

proof fn lemma_all_gone(s: Sched, steps: Seq<Step>, n: nat, e: EndedTask)
    requires
        can_all(s, steps),
        n <= steps.len(),
        gone(s, e),
    ensures
        gone(after_all(s, steps, n), e),
    decreases n,
{
    if n > 0 {
        lemma_all_gone(s, steps, (n - 1) as nat, e);
        assert(can(after_all(s, steps, (n - 1) as nat), steps[n - 1]));
        lemma_step_gone(after_all(s, steps, (n - 1) as nat), steps[n - 1], e);
    }
}

/// A task that is cleared away is gone, and how it ended is known.
proof fn lemma_reaped(s: Sched, core: int)
    requires
        s.well_formed(),
        0 <= core < s.queues.len(),
        s.queues[core].terminated.len() > 0,
    ensures
        gone(s.reaped(core), record(s, s.queues[core].terminated[0])),
        s.reaped(core).queues[core].notifier_list.last() == record(s, s.queues[core].terminated[0]).term_notify,
        s.reaped(core).well_formed(),
{
    let id = s.queues[core].terminated[0];
    scheduler::lemma_reaped_ok(s, core);
    scheduler::lemma_task_found(s.tasks, 0, id);
    let k = scheduler::find_task(s.tasks, 0, id)->0;
    scheduler::lemma_removed_task(s.tasks, s.next_task, s.queues.len(), k, id);
}

/// What will be known of a task once it has been cleared away.
pub open spec fn record(s: Sched, id: u64) -> EndedTask {
    let t = s.task(id)->0;
    EndedTask { id, exit_code: t.exit_code, term_notify: t.term_notify }
}

/// What is true once `n` killed tasks of a core have been cleared away.
spec fn cleared(s: Sched, r: Sched, core: int, n: nat) -> bool {
    let l = s.queues[core].terminated;
    &&& r.well_formed()
    &&& r.queues.len() == s.queues.len()
    &&& r.sems == s.sems
    &&& r.queues[core].terminated == l.skip(n as int)
    &&& forall|i: int| n <= i < l.len() ==> r.task(#[trigger] l[i]) == s.task(l[i])
    &&& forall|i: int| 0 <= i < n ==> gone(r, record(s, #[trigger] l[i])) && r.queues[core].notifier_list.contains(
        record(s, l[i]).term_notify)
}

proof fn lemma_cleared(p: Procs, s: Sched, core: usize, n: nat)
    requires
        s.well_formed(),
        core < s.queues.len(),
        n <= s.queues[core as int].terminated.len(),
    ensures
        cleared(s, tick::tasks_reaped(p, s, core as int, n).1, core as int, n),
    decreases n,
{
    let c = core as int;
    let l = s.queues[c].terminated;
    if n == 0 {
        assert(l.skip(0) =~= l);
    } else {
        let m = (n - 1) as nat;
        lemma_cleared(p, s, core, m);
        let (p1, s1, _) = tick::tasks_reaped(p, s, c, m);
        let id = l[m as int];
        assert(s1.queues[c].terminated[0] == id);
        assert(s1.task(id) == s.task(id));
        assert(record(s1, id) == record(s, id));
        lemma_reaped(s1, c);
        let s2 = s1.reaped(c);
        let last = p1.task_reaped(s1, c).2;
        let d = p1.proc(s1.task(id)->0.process->0)->0;
        let r = tick::tasks_reaped(p, s, c, n).1;
        assert(r == (if last { after(s2, Step::ProcessEnds(core, d)) } else { s2 }));
        if last {
            scheduler::lemma_queue_touched(s2, c, proc::queue_with_notices(s2.queues[c], d));
        }
        assert(r.queues[c].terminated =~= l.skip(n as int));
        assert(scheduler::queue_ok(s.tasks, s.queues[c], c));
        assert forall|i: int| n <= i < l.len() implies r.task(#[trigger] l[i]) == s.task(l[i]) by {
            assert(l[m as int] != l[i]);
            scheduler::lemma_task_found(s1.tasks, 0, id);
            let k = scheduler::find_task(s1.tasks, 0, id)->0;
            scheduler::lemma_removed_task(s1.tasks, s1.next_task, s1.queues.len(), k, l[i]);
        }
        assert forall|i: int| 0 <= i < n implies gone(r, record(s, #[trigger] l[i]))
            && r.queues[c].notifier_list.contains(record(s, l[i]).term_notify) by {
            let e = record(s, l[i]);
            let a = s1.queues[c].notifier_list;
            let b = r.queues[c].notifier_list;
            assert(forall|j: int| 0 <= j < a.len() ==> b[j] == a[j]);
            assert(b[a.len() as int] == record(s, id).term_notify);
            if i < m {
                lemma_step_gone(s1, Step::Reap(core), e);
                let j = choose|j: int| 0 <= j < a.len() && a[j] == e.term_notify;
                assert(b[j] == e.term_notify);
            }
            if last {
                lemma_step_gone(s2, Step::ProcessEnds(core, d), e);
            }
        }
    }
}

/// What is true of a task that has been cleared away and whose watchers have been told: it can be asked
/// for its exit code, and a wait for it gets through at once.
pub open spec fn known_ended(s: Sched, e: EndedTask) -> bool {
    &&& syscall::thread_info(s, e.id) == Some(ThreadInfo { id: e.id, exit_code: e.exit_code })
    &&& syscall::thread_end(s, e.id) == Some(e.term_notify)
    &&& raised(s, e.term_notify as int)
    &&& forall|c: int, timeout: Option<u64>, interruptible: bool|
        (#[trigger] s.wait_begun(c, e.term_notify, timeout, interruptible)).1 == WaitStep::Done(Ok(()))
}

proof fn lemma_cleared_known(p: Procs, s: Sched, core: usize, i: int)
    requires
        s.well_formed(),
        core < s.queues.len(),
        0 <= i < s.queues[core as int].terminated.len(),
        manual(s, record(s, s.queues[core as int].terminated[i]).term_notify as int),
    ensures
        known_ended(
            tick::tasks_reaped(p, s, core as int, s.queues[core as int].terminated.len()).1.watchers_notified(core as int),
            record(s, s.queues[core as int].terminated[i]),
        ),
{
    let l = s.queues[core as int].terminated;
    let e = record(s, l[i]);
    lemma_cleared(p, s, core, l.len());
    let s1 = tick::tasks_reaped(p, s, core as int, l.len()).1;
    assert(gone(s1, record(s, l[i])));
    lemma_on_cores(s1);
    lemma_notified(s1, core as int);
    lemma_step_gone(s1, Step::Notify(core), e);
}

/// The next tick of a core that may be switched clears away every task that was killed on it, and tells
/// whoever waits for any of them: from then on each can be asked for its exit code, and a wait for it
/// gets through at once.
pub proof fn law_tick_ends_tasks(p: Procs, s: Sched, core: usize, saved: Saved, i: int)
    requires
        s.well_formed(),
        core < s.queues.len(),
        0 <= i < s.queues[core as int].terminated.len(),
        manual(s, record(s, s.queues[core as int].terminated[i]).term_notify as int),
        !(s.scheduled(core as int, saved).1 is Stay),
    ensures
        known_ended(tick::ticked(p, s, core as int, saved).1, record(s, s.queues[core as int].terminated[i])),
{
    let c = core as int;
    scheduler::lemma_scheduled(s, c, saved);
    let s1 = s.scheduled(c, saved).0;
    let s2 = s1.with_queue(c, s1.queues[c].stacks_dropped());
    scheduler::lemma_queue_touched(s1, c, s1.queues[c].stacks_dropped());
    let id = s.queues[c].terminated[i];
    assert(s2.queues[c].terminated[i] == id);
    assert(s2.task(id) == s.task(id));
    assert(record(s2, id) == record(s, id));
    lemma_cleared_known(p, s2, core, i);
}

/// A task that has ended and been cleared away can still be asked for its exit code and waited for.
/// Whatever happens from then on, its exit code stays known. Once the core that cleared it away has told
/// whoever waits, a wait for it gets through at once, with any timeout and for as long as nobody
/// resets what was signalled.
pub proof fn law_end_of_thread(s: Sched, core: usize, before: Seq<Step>, later: Seq<Step>)
    requires
        s.well_formed(),
        core < s.queues.len(),
        s.queues[core as int].terminated.len() > 0,
        ({
            let m = s.task(s.queues[core as int].terminated[0])->0.term_notify;
            let r = after_all(s.reaped(core as int), before, before.len());
            &&& manual(s, m as int)
            &&& can_all(s.reaped(core as int), before)
            &&& never_reset(before, m)
            &&& can_all(r.watchers_notified(core as int), later)
            &&& never_reset(later, m)
        }),
    ensures
        ({
            let t = s.task(s.queues[core as int].terminated[0])->0;
            let m = t.term_notify;
            let r = after_all(s.reaped(core as int), before, before.len()).watchers_notified(core as int);
            let f = after_all(r, later, later.len());
            &&& syscall::thread_info(f, t.id) == Some(ThreadInfo { id: t.id, exit_code: t.exit_code })
            &&& syscall::thread_end(f, t.id) == Some(m)
            &&& forall|c: int, timeout: Option<u64>, i: bool|
                (#[trigger] f.wait_begun(c, m, timeout, i)).1 == WaitStep::Done(Ok(()))
        }),
{
    let q = s.queues[core as int];
    let id = q.terminated[0];
    assert(scheduler::queue_ok(s.tasks, q, core as int));
    assert(scheduler::fits(s.tasks, q.terminated[0], core as int, queue::QueueKind::Terminated));
    scheduler::lemma_task_found(s.tasks, 0, id);
    let t = s.task(id)->0;
    let m = t.term_notify;
    let r1 = s.reaped(core as int);
    let e = EndedTask { id, exit_code: t.exit_code, term_notify: m };
    lemma_reaped(s, core as int);
    assert(told(r1, core as int, m)) by {
        assert(r1.queues[core as int].notifier_list.last() == m);
    }
    lemma_all_told(r1, before, before.len(), core as int, m);
    lemma_all_gone(r1, before, before.len(), e);
    let r2 = after_all(r1, before, before.len());
    lemma_step_told(r2, Step::Notify(core), core as int, m);
    lemma_step_gone(r2, Step::Notify(core), e);
    let r3 = r2.watchers_notified(core as int);
    lemma_all_told(r3, later, later.len(), core as int, m);
    lemma_all_gone(r3, later, later.len(), e);
}

/// The same holds of a process, from when it is noted that its last thread has ended: what was
/// signalled stays signalled unless somebody resets it.
pub proof fn law_end_of_process(s: Sched, p: Proc, core: usize, before: Seq<Step>, later: Seq<Step>)
    requires
        s.well_formed(),
        core < s.queues.len(),
        manual(s, p.term_notify as int),
        ({
            let s1 = after(s, Step::ProcessEnds(core, p));
            let r = after_all(s1, before, before.len());
            &&& can_all(s1, before)
            &&& never_reset(before, p.term_notify)
            &&& can_all(r.watchers_notified(core as int), later)
            &&& never_reset(later, p.term_notify)
        }),
    ensures
        ({
            let r = after_all(after(s, Step::ProcessEnds(core, p)), before, before.len()).watchers_notified(core as int);
            let f = after_all(r, later, later.len());
            forall|c: int, timeout: Option<u64>, i: bool|
                (#[trigger] f.wait_begun(c, p.term_notify, timeout, i)).1 == WaitStep::Done(Ok(()))
        }),
{
    let m = p.term_notify;
    let r1 = after(s, Step::ProcessEnds(core, p));
    assert(told(r1, core as int, m)) by {
        let l = r1.queues[core as int].notifier_list;
        assert(l[l.len() - 2] == m);
    }
    lemma_all_told(r1, before, before.len(), core as int, m);
    let r2 = after_all(r1, before, before.len());
    lemma_step_told(r2, Step::Notify(core), core as int, m);
    lemma_all_told(r2.watchers_notified(core as int), later, later.len(), core as int, m);
}

/// A process that has ended can still be asked about, and what its end signals is still known, however
/// many other processes end after it.
pub proof fn law_ended_process_known(s: Procs, p: Proc, later: Procs, more: Seq<EndedProcess>)
    requires
        s.well_formed(),
        s.proc(p.id) is Some,
        later.proc(p.id) is None,
        later.ended == s.destroyed(p).ended + more,
        forall|i: int| 0 <= i < more.len() ==> (#[trigger] more[i]).info.id != p.id,
    ensures
        syscall::process_info(later, p.id) == Some(ProcessInfo {
            id: p.id,
            pid: p.pid,
            sid: p.session,
            exit_code: p.exit_code,
        }),
        syscall::process_end(later, p.id) == Some(p.term_notify),
        s.destroyed(p).proc(p.id) is None,
{
    let e = s.destroyed(p).ended;
    lemma_ended_found(e, more, later.ended.len(), p.id);
    proc::lemma_destroyed(s, p);
}

proof fn lemma_ended_found(e: Seq<EndedProcess>, more: Seq<EndedProcess>, n: nat, id: u64)
    requires
        e.len() > 0,
        e.last().info.id == id,
        e.len() <= n <= e.len() + more.len(),
        forall|i: int| 0 <= i < more.len() ==> (#[trigger] more[i]).info.id != id,
    ensures
        syscall::ended_process(e + more, n, id) == Some(e.last()),
    decreases n,
{
    let s = e + more;
    if n == e.len() {
        assert(s[n - 1] == e.last());
    } else {
        assert(s[n - 1] == more[n - 1 - e.len()]);
        lemma_ended_found(e, more, (n - 1) as nat, id);
    }
}

/// An event has not been signalled, and no core is going to signal it.
pub open spec fn unsaid(s: Sched, m: usize) -> bool {
    &&& manual(s, m as int)
    &&& !raised(s, m as int)
    &&& forall|c: int| 0 <= c < s.queues.len() ==> !(#[trigger] s.queues[c]).notifier_list.contains(m)
}

/// With a step, the end comes that an event stands for: a task or a process of which it is the event is
/// cleared away, or somebody signals it.
pub open spec fn is_end(s: Sched, step: Step, m: usize) -> bool {
    match step {
        Step::Signal(k) => k == m,
        Step::Reap(core) => record(s, s.queues[core as int].terminated[0]).term_notify == m,
        Step::ProcessEnds(_, p) => p.term_notify == m || p.init_notify == m,
        _ => false,
    }
}

proof fn lemma_step_unsaid(s: Sched, step: Step, m: usize)
    requires
        can(s, step),
        unsaid(s, m),
        !is_end(s, step, m),
    ensures
        unsaid(after(s, step), m),
{
    lemma_on_cores(s);
    let r = after(s, step);
    if step is Notify {
        let core = step->Notify_0 as int;
        lemma_notified(s, core);
        assert(!s.queues[core].notifier_list.contains(m));
        assert(still(s.sems[m as int].state, r.sems[m as int].state));
    } else if step is Reap || step is ProcessEnds {
        let core = if step is Reap { step->Reap_0 as int } else { step->ProcessEnds_0 as int };
        if step is Reap {
            scheduler::lemma_task_found(s.tasks, 0, s.queues[core].terminated[0]);
            assert(scheduler::queue_ok(s.tasks, s.queues[core], core));
            assert(scheduler::fits(s.tasks, s.queues[core].terminated[0], core, queue::QueueKind::Terminated));
        }
        assert forall|c: int| 0 <= c < r.queues.len() implies !(#[trigger] r.queues[c]).notifier_list.contains(m) by {
            let l = s.queues[c].notifier_list;
            assert(!l.contains(m));
            assert forall|i: int| 0 <= i < l.len() implies l[i] != m by {}
        }
    } else if step is Reset || step is NewSem || step is Spawn || step is PassTurn || step is QueueTouched {
        assert forall|c: int| 0 <= c < r.queues.len() implies !(#[trigger] r.queues[c]).notifier_list.contains(m) by {
            assert(!s.queues[c].notifier_list.contains(m));
        }
    } else {
        lemma_quiet_step(s, step);
        assert(still(s.sems[m as int].state, r.sems[m as int].state));
        assert forall|c: int| 0 <= c < r.queues.len() implies !(#[trigger] r.queues[c]).notifier_list.contains(m) by {
            assert(!s.queues[c].notifier_list.contains(m));
        }
    }
}

/// As long as a task or a process has not ended, and nobody signals its event in its place, a wait for
/// its end does not get through, whatever else happens.
pub proof fn law_no_end_no_wait(s: Sched, steps: Seq<Step>, n: nat, m: usize)
    requires
        can_all(s, steps),
        n <= steps.len(),
        unsaid(s, m),
        forall|i: int| 0 <= i < n ==> !is_end(after_all(s, steps, i as nat), #[trigger] steps[i], m),
    ensures
        unsaid(after_all(s, steps, n), m),
        forall|c: int, timeout: Option<u64>, interruptible: bool|
            (#[trigger] after_all(s, steps, n).wait_begun(c, m, timeout, interruptible)).1 != WaitStep::Done(Ok(())),
    decreases n,
{
    if n > 0 {
        law_no_end_no_wait(s, steps, (n - 1) as nat, m);
        assert(can(after_all(s, steps, (n - 1) as nat), steps[n - 1]));
        assert(!is_end(after_all(s, steps, (n - 1) as nat), steps[n - 1], m));
        lemma_step_unsaid(after_all(s, steps, (n - 1) as nat), steps[n - 1], m);
    }
}

/// Nothing that happens to tasks changes what work a core has put off, whether it is in worker mode and
/// whether its task can be taken off it.
pub proof fn law_work_left_alone(s: Sched, step: Step, c: int)
    requires
        can(s, step),
        !(step is QueueTouched),
        0 <= c < s.queues.len(),
    ensures
        c < after(s, step).queues.len(),
        same_work(s.queues[c], after(s, step).queues[c]),
{
    lemma_on_cores(s);
    let r = after(s, step);
    if step is Notify {
        lemma_notified(s, step->Notify_0 as int);
        assert(same_work(s.queues[c], r.queues[c]));
    } else if step is Reset || step is NewSem || step is Spawn || step is PassTurn || step is Reap || step is ProcessEnds {
    } else {
        lemma_quiet_step(s, step);
        assert(same_work(s.queues[c], r.queues[c]));
    }
}

/// Something that happens on a machine whose cores put work off.
pub enum Doing {
    /// A driver puts a piece of work off on a core.
    PutOff(usize, DriverWorker),
    /// A core takes the next piece of work that was put off: it begins with it, or the routine that it
    /// ran has returned.
    Take(usize),
    Other(Step),
}

/// The tasks, and which routine each core runs of those that were put off.
#[verifier::ext_equal]
pub struct Machine {
    pub sched: Sched,
    pub runs: Seq<Option<DriverWorker>>,
}

pub open spec fn done(w: Machine, d: Doing) -> Machine {
    match d {
        Doing::PutOff(c, work) => {
            let q = w.sched.queues[c as int];
            Machine { sched: w.sched.with_queue(c as int, Queue { dw_queue: q.dw_queue.push(work), ..q }), ..w }
        },
        Doing::Take(c) => {
            let (q, next) = w.sched.queues[c as int].work_taken();
            Machine { sched: w.sched.with_queue(c as int, q), runs: w.runs.update(c as int, next) }
        },
        Doing::Other(step) => Machine { sched: after(w.sched, step), ..w },
    }
}

pub open spec fn can_do(w: Machine, d: Doing) -> bool {
    match d {
        Doing::PutOff(c, _) => c < w.sched.queues.len(),
        Doing::Take(c) => c < w.sched.queues.len(),
        Doing::Other(step) => can(w.sched, step) && !(step is QueueTouched),
    }
}

/// A core is in worker mode exactly while it runs a routine that was put off.
pub open spec fn modes_right(w: Machine) -> bool {
    &&& w.runs.len() == w.sched.queues.len()
    &&& forall|c: int| 0 <= c < w.runs.len() ==> (#[trigger] w.sched.queues[c]).is_dw_mode == (w.runs[c] is Some)
}

/// A core is in worker mode exactly while it runs a routine that was put off. That is so where no core
/// has begun with such work yet, and stays so whatever happens.
pub proof fn law_worker_mode(w: Machine, d: Doing)
    requires
        modes_right(w),
        can_do(w, d),
    ensures
        modes_right(done(w, d)),
{
    if let Doing::Other(step) = d {
        assert forall|c: int| 0 <= c < w.runs.len() implies (#[trigger] done(w, d).sched.queues[c]).is_dw_mode == (
        w.runs[c] is Some) by {
            law_work_left_alone(w.sched, step, c);
            assert(w.sched.queues[c].is_dw_mode == (w.runs[c] is Some));
        }
        lemma_same_cores(w.sched, step);
    } else {
        let r = done(w, d);
        assert forall|c: int| 0 <= c < r.runs.len() implies (#[trigger] r.sched.queues[c]).is_dw_mode == (r.runs[c] is Some) by {
            assert(w.sched.queues[c].is_dw_mode == (w.runs[c] is Some));
        }
    }
}

proof fn lemma_same_cores(s: Sched, step: Step)
    requires
        can(s, step),
    ensures
        after(s, step).queues.len() == s.queues.len(),
{
    lemma_on_cores(s);
    if step is Notify {
        lemma_notified(s, step->Notify_0 as int);
    } else if step is Reset || step is NewSem || step is Spawn || step is PassTurn || step is Reap || step is ProcessEnds
        || step is QueueTouched {
    } else {
        lemma_quiet_step(s, step);
    }
}

} // verus!
