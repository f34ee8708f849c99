//! What a timer tick does on a core, from the choice of a task to the clearing away of those that
//! have ended.

use vstd::prelude::*;
use crate::sched::cleanup::CleanupQueue;
use crate::sched::proc;
use crate::sched::proc::{ProcessCleanupWork, ProcessTable, Procs, Work};
use crate::sched::scheduler::{Decision, Sched, Scheduler};
use crate::sched::task;
use crate::sched::task::{HandlerSetup, MAX_SIGNALS, Saved, SignalRun, SignalStep};

verus! {

pub open spec fn works(s: Seq<ProcessCleanupWork>) -> Seq<Work> {
    s.map_values(|w: ProcessCleanupWork| w@)
}

/// What the first killed task of a core leaves behind, where its process ends with it.
pub open spec fn work_of(p: Procs, s: Sched, core: int) -> Seq<Work> {
    if p.task_reaped(s, core).2 {
        seq![proc::left_behind(p.proc(s.task(s.queues[core].terminated[0])->0.process->0)->0)]
    } else {
        Seq::empty()
    }
}

/// `n` killed tasks of a core have been cleared away, and this is what is left of their processes.
pub open spec fn tasks_reaped(p: Procs, s: Sched, core: int, n: nat) -> (Procs, Sched, Seq<Work>)
    decreases n,
{
    if n == 0 {
        (p, s, Seq::empty())
    } else {
        let (p1, s1, w) = tasks_reaped(p, s, core, (n - 1) as nat);
        let (p2, s2, _) = p1.task_reaped(s1, core);
        (p2, s2, w + work_of(p1, s1, core))
    }
}

/// The outcome of a tick: nothing is cleared away while the core may not be switched.
pub open spec fn ticked(p: Procs, s: Sched, core: int, saved: Saved) -> (Procs, Sched, Seq<Work>, Decision) {
    let (s1, d) = s.scheduled(core, saved);
    if d is Stay {
        (p, s1.watchers_notified(core), Seq::empty(), d)
    } else {
        let s2 = s1.with_queue(core, s1.queues[core].stacks_dropped());
        let (p3, s3, w) = tasks_reaped(p, s2, core, s2.queues[core].terminated.len());
        (p3, s3.watchers_notified(core), w, d)
    }
}

/// One task after the other leaves the list of the killed ones.
proof fn lemma_reaped_list(p: Procs, s: Sched, core: int)
    requires
        0 <= core < s.queues.len(),
        s.queues[core].terminated.len() > 0,
    ensures
        p.task_reaped(s, core).1.queues.len() == s.queues.len(),
        p.task_reaped(s, core).1.queues[core].terminated.len() == s.queues[core].terminated.len() - 1,
{
}

/// Clears the killed tasks of a core away. Gives what is left of the processes that ended with them.
pub fn reap_tasks(procs: &mut ProcessTable, sched: &mut Scheduler, core: usize) -> (r: Vec<ProcessCleanupWork>)
    requires
        old(procs)@.well_formed(),
        old(sched)@.well_formed(),
        core < old(sched).queues@.len(),
    ensures
        (final(procs)@, final(sched)@, works(r@)) == tasks_reaped(
            old(procs)@, old(sched)@, core as int, old(sched)@.queues[core as int].terminated.len()),
        final(procs)@.well_formed(),
        final(sched)@.well_formed(),
        final(sched)@.queues.len() == old(sched)@.queues.len(),
{
    let ghost p0 = procs@;
    let ghost s0 = sched@;
    let n: usize = sched.queues[core].terminated.len();
    let mut out: Vec<ProcessCleanupWork> = Vec::new();
    assert(works(out@) =~= Seq::empty());
    let mut i: usize = 0;
    while i < n
        invariant
            i <= n,
            procs@.well_formed(),
            sched@.well_formed(),
            core < sched.queues@.len(),
            sched@.queues.len() == s0.queues.len(),
            sched@.queues[core as int].terminated.len() == n - i,
            (procs@, sched@, works(out@)) == tasks_reaped(p0, s0, core as int, i as nat),
        decreases n - i,
    {
        let ghost p1 = procs@;
        let ghost s1 = sched@;
        let ghost w1 = works(out@);
        proof {
            lemma_reaped_list(p1, s1, core as int);
        }
        match procs.reap_task(sched, core) {
            None => {},
            Some(d) => {
                match d.work {
                    Some(w) => {
                        let ghost v = w@;
                        out.push(w);
                        assert(works(out@) =~= w1.push(v));
                        assert(w1.push(v) =~= w1 + work_of(p1, s1, core as int));
                    },
                    None => {
                        assert(w1 + work_of(p1, s1, core as int) =~= w1);
                    },
                }
            },
        }
        i = i + 1;
    }
    out
}

/// A timer tick on a core. Timers go on, the task that is to run is chosen, the tasks that have ended
/// are cleared away, whoever waits is told, and what processes leave behind goes to the worker.
pub fn tick(procs: &mut ProcessTable, sched: &mut Scheduler, cleanup: &mut CleanupQueue, core: usize, saved: Saved)
    -> (r: Decision)
    requires
        old(procs)@.well_formed(),
        old(sched)@.well_formed(),
        core < old(sched).queues@.len(),
        old(cleanup).started,
    ensures
        ({
            let (p, s, w, d) = ticked(old(procs)@, old(sched)@, core as int, saved);
            &&& final(procs)@ == p
            &&& final(sched)@ == s
            &&& r == d
            &&& works(final(cleanup).works@) == works(old(cleanup).works@) + w
            &&& final(cleanup).signalled == (old(cleanup).signalled || w.len() > 0)
        }),
        final(cleanup).started,
        final(procs)@.well_formed(),
        final(sched)@.well_formed(),
{
    let d: Decision = sched.schedule(core, saved);
    let ghost w0 = works(cleanup.works@);
    match d {
        Decision::Stay => {
            assert(w0 + Seq::<Work>::empty() =~= w0);
        },
        _ => {
            sched.drop_leftover_stacks(core);
            let mut left: Vec<ProcessCleanupWork> = reap_tasks(procs, sched, core);
            let ghost all = works(left@);
            let ghost was = cleanup.signalled;
            let ghost mut k: int = 0;
            assert(w0 + all.take(0) =~= w0);
            assert(all.skip(0) =~= all);
            while left.len() > 0
                invariant
                    0 <= k <= all.len(),
                    works(left@) == all.skip(k),
                    works(cleanup.works@) == w0 + all.take(k),
                    cleanup.started,
                    cleanup.signalled == (was || k > 0),
                decreases left@.len(),
            {
                let ghost before = left@;
                let w: ProcessCleanupWork = left.remove(0);
                assert(works(before)[0] == w@);
                assert(all.skip(k)[0] == all[k]);
                let ghost c0 = cleanup.works@;
                cleanup.enqueue_cleanup(w);
                assert(works(cleanup.works@) =~= works(c0).push(w@));
                assert(works(left@) =~= works(before).skip(1));
                proof {
                    k = k + 1;
                    assert(all.skip(k) =~= all.skip(k - 1).skip(1));
                    assert(all.take(k) =~= all.take(k - 1).push(all[k - 1]));
                    assert(w0 + all.take(k) =~= (w0 + all.take(k - 1)).push(all[k - 1]));
                }
            }
            assert(all.skip(k).len() == all.len() - k);
            assert(works(left@).len() == 0);
            assert(all.take(k) =~= all);
        },
    }
    sched.notify_watchers(core);
    d
}

/// What the handlers of the task that a core goes on with are told: whether the core has just come to
/// it. A core that goes on with no task has none to see to.
pub open spec fn comes_to_task(d: Decision) -> Option<bool> {
    match d {
        Decision::Continue(_) => Some(false),
        Decision::Switch { .. } => Some(true),
        _ => None,
    }
}

/// Sees to the signal handlers of the task that a core goes on with after a tick.
pub fn see_to_handlers(sched: &mut Scheduler, core: usize, d: Decision, now: Saved, is_user_context: bool,
    setup: HandlerSetup) -> (r: Option<SignalRun>)
    requires
        old(sched)@.well_formed(),
        core < old(sched).queues@.len(),
        comes_to_task(d) is Some ==> (old(sched)@.current(core as int) matches Some(t) && t.one_completed() && (
        task::signal_choice(t.pending_signals, t.in_signal_init) matches SignalStep::Begin(i) ==> {
            &&& i < MAX_SIGNALS
            &&& t.tidied().frames_pending.at(i) is None
            &&& is_user_context || t.tidied().in_syscall() || t.handler() is None
        })),
    ensures
        match comes_to_task(d) {
            Some(fresh) => {
                let (t, run) = old(sched)@.current(core as int)->0.signals_run(fresh, now, is_user_context, setup);
                r == Some(run) && final(sched)@ == old(sched)@.with_task(t)
            },
            None => r is None && final(sched)@ == old(sched)@,
        },
        final(sched)@.well_formed(),
{
    match d {
        Decision::Continue(_) => Some(sched.run_signal_handlers(core, false, now, is_user_context, setup)),
        Decision::Switch { .. } => Some(sched.run_signal_handlers(core, true, now, is_user_context, setup)),
        _ => None,
    }
}

} // verus!
