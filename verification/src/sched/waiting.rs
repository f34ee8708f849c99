//! Why a wait ends.

use vstd::prelude::*;
use crate::sched::ending::{Step, after, can};
use crate::sched::queue;
use crate::sched::queue::{Queue, TimerInfo};
use crate::sched::scheduler;
use crate::sched::scheduler::{Sched, waits};
use crate::sched::task;
use crate::sched::task::{INIT_QUANTA, Saved, SignalCause, Task, TaskStatus};

verus! {

/// A task is blocked and waits for something.
pub open spec fn waits_for(s: Sched, id: u64, m: usize) -> bool {
    s.task(id) matches Some(t) && waits(t.status) && t.wait_sem == Some(m)
}

/// With a step, something is signalled: by hand, or by a core that has it on its list of what to tell.
pub open spec fn signals(s: Sched, step: Step, m: usize) -> bool {
    match step {
        Step::Signal(k) => k == m,
        Step::Notify(core) => s.queues[core as int].notifier_list.contains(m),
        _ => false,
    }
}

/// There is a frame for each handler that has begun.
spec fn framed(t: Task) -> bool {
    forall|i: u8| i < 8 && #[trigger] task::has_bit(t.pending_signals, i) ==> t.frames_pending.at(i) is Some
}

/// How a task comes out of a wait: because of a signal, if there was one, because of an interruption, if
/// it could be interrupted, or because its time was up.
pub open spec fn out(o: Task, t: Task, said: bool) -> bool {
    &&& !waits(t.status)
    &&& match t.cause() {
        SignalCause::Normal => said,
        SignalCause::Interruption => o.status == TaskStatus::WaitingInterruptible,
        SignalCause::TimerExpiry => true,
    }
}

/// A task that waited still does, or has come out of it.
spec fn fate(o: Task, s: Sched, said: bool) -> bool {
    s.task(o.id) matches Some(t) && t.id == o.id && framed(t) && (t.status == o.status || out(o, t, said))
}

/// A task is blocked on nothing but `m`.
spec fn only_on(s: Sched, id: u64, m: int) -> bool {
    forall|k: int| 0 <= k < s.sems.len() && k != m ==> !(#[trigger] s.sems[k]).blocked.contains(id)
}

proof fn lemma_woken(s: Sched, o: Task, said: bool, id: u64, sem: usize, cause: SignalCause)
    requires
        fate(o, s, said),
        waits(o.status),
        id == o.id && cause == SignalCause::Normal ==> said,
    ensures
        fate(o, s.woken(id, sem, cause).0, said),
        s.woken(id, sem, cause).0.sems == s.sems,
{
    if let Some(t) = s.task(id) {
        scheduler::lemma_task_found(s.tasks, 0, id);
        let q = s.queues[t.core as int];
        let in_queue = queue::holds(q.waiting, id);
        let u = Task {
            status: if in_queue { TaskStatus::Active } else { TaskStatus::Running },
            quanta: if in_queue { t.quanta } else { INIT_QUANTA },
            wait_sem: if t.wait_sem == Some(sem) { None } else { t.wait_sem },
            ..t
        };
        let v = u.with_cause(cause);
        scheduler::lemma_replaced(s.tasks, v, o.id);
        if id == o.id {
            task::lemma_highest_below(t.pending_signals, 8);
            assert(v.cause() == cause);
            assert(framed(v));
        }
    }
}

proof fn lemma_taken_out(b: Seq<u64>, id: u64, x: u64)
    requires
        !b.contains(x),
    ensures
        !queue::taken_out(b, id).contains(x),
{
    queue::lemma_index_in(b, 0, id);
    let t = queue::taken_out(b, id);
    assert forall|i: int| 0 <= i < t.len() implies t[i] != x by {
        if let Some(k) = queue::index_in(b, 0, id) {
            let c = if i < k { i } else { i + 1 };
            assert(b[c] == t[i]);
        }
    }
}

proof fn lemma_woke(s: Sched, o: Task, m: int, said: bool, sem: int, who: Option<u64>, cause: SignalCause)
    requires
        fate(o, s, said),
        waits(o.status),
        only_on(s, o.id, m),
        0 <= sem < s.sems.len(),
        sem == m && cause == SignalCause::Normal ==> said,
    ensures
        fate(o, s.woke(sem, who, cause).0, said),
        only_on(s.woke(sem, who, cause).0, o.id, m),
        s.woke(sem, who, cause).0.sems.len() == s.sems.len(),
{
    let b = s.sems[sem].blocked;
    let found = match who { Some(id) => queue::holds(b, id), None => b.len() > 0 };
    let id = match who { Some(id) => id, None => b[0] };
    if found {
        queue::lemma_index_in(b, 0, id);
        if id == o.id && sem != m {
            assert(b.contains(o.id)) by {
                if who is Some {
                    assert(b[queue::index_in(b, 0, id)->0] == o.id);
                } else {
                    assert(b[0] == o.id);
                }
            }
            assert(!s.sems[sem].blocked.contains(o.id));
        }
        lemma_woken(s, o, said, id, sem as usize, cause);
        let r = s.woke(sem, who, cause).0;
        assert forall|k: int| 0 <= k < r.sems.len() && k != m implies !(#[trigger] r.sems[k]).blocked.contains(o.id) by {
            assert(!s.sems[k].blocked.contains(o.id));
            lemma_taken_out(s.sems[k].blocked, id, o.id);
        }
    }
}

proof fn lemma_with_state(s: Sched, o: Task, m: int, said: bool, sem: int, f: Sched)
    requires
        fate(o, s, said),
        only_on(s, o.id, m),
        0 <= sem < s.sems.len(),
        f == s.with_state(sem, f.sems[sem].state),
    ensures
        fate(o, f, said),
        only_on(f, o.id, m),
        f.sems.len() == s.sems.len(),
{
    assert forall|k: int| 0 <= k < f.sems.len() && k != m implies !(#[trigger] f.sems[k]).blocked.contains(o.id) by {
        assert(!s.sems[k].blocked.contains(o.id));
    }
}

proof fn lemma_woke_all(s: Sched, o: Task, m: int, said: bool, sem: int, n: nat)
    requires
        fate(o, s, said),
        waits(o.status),
        only_on(s, o.id, m),
        0 <= sem < s.sems.len(),
        sem == m ==> said,
    ensures
        fate(o, s.woke_all(sem, n), said),
        only_on(s.woke_all(sem, n), o.id, m),
        s.woke_all(sem, n).sems.len() == s.sems.len(),
    decreases n,
{
    if n > 0 {
        lemma_woke(s, o, m, said, sem, None, SignalCause::Normal);
        let (r, ok) = s.woke(sem, None, SignalCause::Normal);
        if ok {
            lemma_woke_all(r, o, m, said, sem, (n - 1) as nat);
        }
    }
}

proof fn lemma_signalled(s: Sched, o: Task, m: int, said: bool, sem: int)
    requires
        fate(o, s, said),
        waits(o.status),
        only_on(s, o.id, m),
        0 <= sem < s.sems.len(),
        sem == m ==> said,
    ensures
        fate(o, s.signalled(sem), said),
        only_on(s.signalled(sem), o.id, m),
        s.signalled(sem).sems.len() == s.sems.len(),
{
    let s1 = s.with_state(sem, s.sems[sem].state.restored());
    lemma_with_state(s, o, m, said, sem, s1);
    lemma_woke(s1, o, m, said, sem, None, SignalCause::Normal);
    lemma_with_state(s1, o, m, said, sem, s1.with_state(sem, s1.sems[sem].state.raised()));
    let n = s1.sems[sem].blocked.len();
    lemma_woke_all(s1, o, m, said, sem, n);
    let t = s1.woke_all(sem, n);
    lemma_with_state(t, o, m, said, sem, t.with_state(sem, t.sems[sem].state.raised()));
}

proof fn lemma_on_task(s: Sched, o: Task, m: int, said: bool, sem: int, id: u64, interrupted: bool)
    requires
        fate(o, s, said),
        waits(o.status),
        only_on(s, o.id, m),
        0 <= sem < s.sems.len(),
    ensures
        fate(o, s.signalled_on_task(sem, id, interrupted), said),
        only_on(s.signalled_on_task(sem, id, interrupted), o.id, m),
        s.signalled_on_task(sem, id, interrupted).sems.len() == s.sems.len(),
{
    let cause = if interrupted { SignalCause::Interruption } else { SignalCause::TimerExpiry };
    lemma_woke(s, o, m, said, sem, Some(id), cause);
    let r = s.woke(sem, Some(id), cause).0;
    lemma_with_state(r, o, m, said, sem, r.with_state(sem, r.sems[sem].state.restored()));
}

proof fn lemma_sems_told(s: Sched, o: Task, m: int, said: bool, list: Seq<usize>, n: nat)
    requires
        fate(o, s, said),
        waits(o.status),
        only_on(s, o.id, m),
        n <= list.len(),
        0 <= m <= usize::MAX,
        list.contains(m as usize) ==> said,
    ensures
        fate(o, s.sems_told(list, n), said),
        only_on(s.sems_told(list, n), o.id, m),
        s.sems_told(list, n).sems.len() == s.sems.len(),
    decreases n,
{
    if n > 0 {
        lemma_sems_told(s, o, m, said, list, (n - 1) as nat);
        let r = s.sems_told(list, (n - 1) as nat);
        assert(list.contains(list[n - 1]));
        if list[n - 1] < r.sems.len() {
            lemma_signalled(r, o, m, said, list[n - 1] as int);
        }
    }
}

proof fn lemma_timers_told(s: Sched, o: Task, m: int, said: bool, list: Seq<TimerInfo>, n: nat)
    requires
        fate(o, s, said),
        waits(o.status),
        only_on(s, o.id, m),
    ensures
        fate(o, s.timers_told(list, n), said),
        only_on(s.timers_told(list, n), o.id, m),
        s.timers_told(list, n).sems.len() == s.sems.len(),
    decreases n,
{
    if n > 0 {
        lemma_timers_told(s, o, m, said, list, (n - 1) as nat);
        let r = s.timers_told(list, (n - 1) as nat);
        let t = list[n - 1];
        if t.sem < r.sems.len() {
            lemma_on_task(r, o, m, said, t.sem as int, t.task_id, false);
        }
    }
}

/// A task that waits is in the list of those who wait for the same thing, and in no other.
proof fn lemma_only_on(s: Sched, id: u64, m: usize)
    requires
        s.well_formed(),
        waits_for(s, id, m),
    ensures
        only_on(s, id, m as int),
        fate(s.task(id)->0, s, false),
        s.task(id)->0.id == id,
{
    scheduler::lemma_task_found(s.tasks, 0, id);
    let i = scheduler::find_task(s.tasks, 0, id)->0;
    assert(s.tasks[i].well_formed());
    assert forall|k: int| 0 <= k < s.sems.len() && k != m implies !(#[trigger] s.sems[k]).blocked.contains(id) by {
        let b = s.sems[k].blocked;
        assert(scheduler::sem_ok(s.tasks, s.sems[k], k, s.next_task));
        if b.contains(id) {
            let j = choose|j: int| 0 <= j < b.len() && b[j] == id;
            assert(scheduler::blocked_ok(s.tasks, b[j], k));
        }
    }
}

/// A task that leaves its core, or whose turns are counted, waits as before.
proof fn lemma_scheduled(s: Sched, id: u64, m: usize, core: int, saved: Saved)
    requires
        s.well_formed(),
        waits_for(s, id, m),
        0 <= core < s.queues.len(),
    ensures
        s.scheduled(core, saved).0.task(id) matches Some(t) && waits(t.status),
{
    let s1 = s.ticked(core);
    let q = s1.queues[core];
    assert(s1.tasks == s.tasks);
    assert(scheduler::queue_ok(s.tasks, s.queues[core], core));
    scheduler::lemma_task_found(s.tasks, 0, id);
    if q.active.len() > 0 {
        assert(scheduler::fits(s.tasks, s.queues[core].active[0], core, queue::QueueKind::Active));
        assert(q.active[0] != id);
        scheduler::lemma_task_found(s.tasks, 0, q.active[0]);
    }
    match q.running {
        None => {
            if q.active.len() > 0 {
                let h = s1.task(q.active[0])->0;
                scheduler::lemma_replaced(s1.tasks, Task { status: TaskStatus::Running, quanta: INIT_QUANTA, ..h }, id);
            }
        },
        Some(r) => {
            scheduler::lemma_task_found(s1.tasks, 0, r);
            let o = s1.task(r)->0;
            let t = Task { quanta: if o.quanta == 0 { 0 } else { (o.quanta - 1) as u64 }, ..o };
            scheduler::lemma_replaced(s1.tasks, t, id);
            scheduler::lemma_replaced(s1.tasks, t, r);
            scheduler::lemma_replaced(s1.tasks, Task { quanta: INIT_QUANTA, ..t }, id);
            let s2 = s1.with_task(t);
            let u = Task {
                status: if t.status == TaskStatus::Running { TaskStatus::Active } else { t.status },
                ..t.switched_out(saved)
            };
            scheduler::lemma_replaced(s2.tasks, u, id);
            let s3 = s2.left_core(core, t, saved);
            if q.active.len() > 0 {
                let a = q.active[0];
                scheduler::lemma_replaced(s1.tasks, t, a);
                scheduler::lemma_replaced(s2.tasks, u, a);
                assert(s3.queues[core].active[0] == a);
                let h = s3.task(a)->0;
                scheduler::lemma_task_found(s3.tasks, 0, a);
                scheduler::lemma_replaced(s3.tasks, Task { status: TaskStatus::Running, quanta: INIT_QUANTA, ..h }, id);
            }
        },
    }
}

/// What becomes of a task that waits for something, with a step.
pub open spec fn comes_out(s: Sched, step: Step, id: u64, m: usize) -> bool {
    after(s, step).task(id) matches Some(t) && (waits(t.status) || (t.status == TaskStatus::Terminated && step is Kill) || out(
        s.task(id)->0, t, signals(s, step, m)))
}

proof fn lemma_notify(s: Sched, core: usize, id: u64, m: usize)
    requires
        can(s, Step::Notify(core)),
        waits_for(s, id, m),
    ensures
        comes_out(s, Step::Notify(core), id, m),
{
    let o = s.task(id)->0;
    let said = signals(s, Step::Notify(core), m);
    lemma_only_on(s, id, m);
    let q = s.queues[core as int];
    let s1 = s.with_queue(core as int, Queue { notifier_list: Seq::empty(), timer_notifier_list: Seq::empty(), ..q });
    assert(s1.task(id) == s.task(id));
    assert(s1.sems == s.sems);
    assert(fate(o, s1, said));
    assert(only_on(s1, id, m as int));
    lemma_sems_told(s1, o, m as int, said, q.notifier_list, q.notifier_list.len());
    let s2 = s1.sems_told(q.notifier_list, q.notifier_list.len());
    lemma_timers_told(s2, o, m as int, said, q.timer_notifier_list, q.timer_notifier_list.len());
    assert(fate(o, s.watchers_notified(core as int), said));
}

proof fn lemma_wait(s: Sched, core: usize, k: usize, timeout: Option<u64>, interruptible: bool, id: u64, m: usize)
    requires
        can(s, Step::Wait(core, k, timeout, interruptible)),
        waits_for(s, id, m),
    ensures
        comes_out(s, Step::Wait(core, k, timeout, interruptible), id, m),
{
    let x = s.queues[core as int].running->0;
    scheduler::lemma_task_found(s.tasks, 0, x);
    let t = s.task(x)->0.with_cause(SignalCause::Normal);
    scheduler::lemma_replaced(s.tasks, t, id);
    let u = Task {
        wait_sem: Some(k),
        status: if interruptible { TaskStatus::WaitingInterruptible } else { TaskStatus::Waiting },
        ..t
    };
    scheduler::lemma_replaced(s.tasks, u, id);
    let r = s.wait_begun(core as int, k, timeout, interruptible).0;
    assert(r.tasks == scheduler::replaced(s.tasks, t) || r.tasks == scheduler::replaced(s.tasks, u));
    assert(r.task(id) matches Some(z) && waits(z.status));
}

proof fn lemma_kill(s: Sched, x: u64, code: i64, here: usize, id: u64, m: usize)
    requires
        can(s, Step::Kill(x, code, here)),
        waits_for(s, id, m),
    ensures
        comes_out(s, Step::Kill(x, code, here), id, m),
{
    scheduler::lemma_task_found(s.tasks, 0, x);
    let r = s.killed(x, code, here).0;
    if let Some(t) = s.task(x) {
        let u = Task {
            status: TaskStatus::Terminated,
            exit_code: code,
            stack: if t.status == TaskStatus::Running { None } else { t.stack },
            wait_sem: if waits(t.status) { None } else { t.wait_sem },
            ..t
        };
        scheduler::lemma_replaced(s.tasks, u, id);
        assert(s.terminated(t, code).tasks == scheduler::replaced(s.tasks, u));
        assert(r.tasks == scheduler::replaced(s.tasks, u));
    }
}

proof fn lemma_spawn(s: Sched, id: u64, t: Task, r: Sched)
    requires
        s.well_formed(),
        s.task(id) is Some,
        t.id == s.next_task,
        r.tasks == s.tasks.push(t),
    ensures
        r.task(id) == s.task(id),
{
    scheduler::lemma_task_found(s.tasks, 0, id);
    scheduler::lemma_task_found(r.tasks, 0, id);
    let k = scheduler::find_task(s.tasks, 0, id)->0;
    assert(r.tasks[k] == s.tasks[k]);
    assert(s.tasks[k].id < s.next_task);
    let j = scheduler::find_task(r.tasks, 0, id)->0;
    if j < s.tasks.len() {
        if j < k {
            assert(s.tasks[j].id != s.tasks[k].id);
        } else if k < j {
            assert(s.tasks[k].id != s.tasks[j].id);
        }
    }
}

proof fn lemma_resume(s: Sched, x: u64, id: u64, m: usize)
    requires
        can(s, Step::Resume(x)),
        waits_for(s, id, m),
    ensures
        comes_out(s, Step::Resume(x), id, m),
{
    scheduler::lemma_task_found(s.tasks, 0, x);
    if let Some(t) = s.task(x) {
        scheduler::lemma_replaced(s.tasks, Task { status: TaskStatus::Active, ..t }, id);
        scheduler::lemma_replaced(s.tasks, Task { status: TaskStatus::Running, ..t }, id);
    }
}

proof fn lemma_reap(s: Sched, core: usize, id: u64, m: usize)
    requires
        can(s, Step::Reap(core)),
        waits_for(s, id, m),
    ensures
        comes_out(s, Step::Reap(core), id, m),
{
    let x = s.queues[core as int].terminated[0];
    assert(scheduler::queue_ok(s.tasks, s.queues[core as int], core as int));
    assert(scheduler::fits(s.tasks, x, core as int, queue::QueueKind::Terminated));
    scheduler::lemma_task_found(s.tasks, 0, x);
    scheduler::lemma_removed_task(s.tasks, s.next_task, s.queues.len(), scheduler::find_task(s.tasks, 0, x)->0, id);
}

proof fn lemma_issue(s: Sched, threads: Seq<u64>, signal: u8, ctx: u64, handler: u64, state: Option<TaskStatus>, id: u64,
    m: usize)
    requires
        can(s, Step::Issue(threads, signal, ctx, handler, state)),
        waits_for(s, id, m),
    ensures
        comes_out(s, Step::Issue(threads, signal, ctx, handler, state), id, m),
{
    let o = s.task(id)->0;
    scheduler::lemma_task_found(s.tasks, 0, id);
    lemma_only_on(s, id, m);
    if let Some(x) = s.first_eligible(threads, 0, signal, state) {
        lemma_eligible(s, threads, 0, signal, state);
        scheduler::lemma_task_found(s.tasks, 0, x);
        let t = s.task(x)->0;
        let s1 = s.with_task(t.signalled(signal, ctx, handler));
        scheduler::lemma_replaced(s.tasks, t.signalled(signal, ctx, handler), id);
        assert(fate(o, s1, false));
        let k = scheduler::find_task(s.tasks, 0, x)->0;
        assert(scheduler::waiting_ok(s.tasks[k], s.sems.len()));
        if t.status == TaskStatus::WaitingInterruptible {
            lemma_on_task(s1, o, m as int, false, t.wait_sem->0 as int, x, true);
        }
    }
}

/// A task that has been blocked waits on, is killed, or comes out of its wait in one of these ways: what
/// it waits for has been signalled, it has been interrupted, which only happens to one that can be, or
/// its time is up. Changes to a task that leave its status alone do not end its wait.
pub proof fn law_why_a_wait_ends(s: Sched, step: Step, id: u64, m: usize)
    requires
        can(s, step),
        waits_for(s, id, m),
        step matches Step::TaskTouched(t) ==> (t.id == id ==> t.status == s.task(id)->0.status),
    ensures
        comes_out(s, step, id, m),
{
    let o = s.task(id)->0;
    let said = signals(s, step, m);
    scheduler::lemma_task_found(s.tasks, 0, id);
    lemma_only_on(s, id, m);
    match step {
        Step::Signal(k) => {
            lemma_signalled(s, o, m as int, said, k as int);
        },
        Step::SignalOnTask(k, x, interrupted) => {
            lemma_on_task(s, o, m as int, said, k as int, x, interrupted);
        },
        Step::Notify(core) => {
            lemma_notify(s, core, id, m);
        },
        Step::Tick(core, saved) => {
            lemma_scheduled(s, id, m, core as int, saved);
        },
        Step::Wait(core, k, timeout, interruptible) => {
            lemma_wait(s, core, k, timeout, interruptible, id, m);
        },
        Step::Kill(x, code, here) => {
            lemma_kill(s, x, code, here, id, m);
        },
        Step::Spawn(p) => {
            let c = s.core_in_turn();
            lemma_spawn(s, id, scheduler::fresh_task(s.next_task, c as usize, p), after(s, step));
        },
        Step::Yield(core) => {
            let x = s.queues[core as int].running->0;
            scheduler::lemma_task_found(s.tasks, 0, x);
            scheduler::lemma_replaced(s.tasks, Task { quanta: 0, ..s.task(x)->0 }, id);
        },
        Step::Resume(x) => {
            lemma_resume(s, x, id, m);
        },
        Step::Reap(core) => {
            lemma_reap(s, core, id, m);
        },
        Step::Issue(threads, signal, ctx, handler, state) => {
            lemma_issue(s, threads, signal, ctx, handler, state, id, m);
        },
        Step::TaskTouched(t) => {
            scheduler::lemma_task_found(s.tasks, 0, t.id);
            if s.task(t.id) is Some {
                scheduler::lemma_replaced(s.tasks, t, id);
            }
        },
        Step::DropTask(k, x) => {
            assert(s.dropped(k as int, x).tasks == s.tasks);
        },
        _ => {
            assert(after(s, step).tasks == s.tasks);
        },
    }
}

proof fn lemma_eligible(s: Sched, threads: Seq<u64>, i: int, signal: u8, state: Option<TaskStatus>)
    requires
        0 <= i,
    ensures
        s.first_eligible(threads, i, signal, state) matches Some(id) ==> s.task(id) is Some,
    decreases threads.len() - i,
{
    if i < threads.len() && !s.eligible(threads[i], signal, state) {
        lemma_eligible(s, threads, i + 1, signal, state);
    }
}

} // verus!
