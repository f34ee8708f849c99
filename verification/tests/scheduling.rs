use aris::error::KError;
use aris::sched::queue::{DriverWorker, TaskQueue};
use aris::sched::scheduler::{Decision, NewThread, Scheduler, WaitStep};
use aris::sched::task::{HandlerSetup, Saved, SignalCause, SignalRun, SignalStep, Task, TaskStatus, get_highest_set_bit, handler_stack};
use aris::sched::timer::{KTimerInner, delay_answer, delay_ms, delay_passed, sys_delay_handler};
use aris::sched::user::SysError;
use aris::sync::lock::{Interrupts, Spinlock};
use aris::sync::once::Once;
use aris::sync::semaphore::{SemState, Wake};

const SAVED: Saved = Saved { context: 7, per_cpu_base: 9 };

fn spawn(s: &mut Scheduler) -> u64 {
    let term_notify = s.new_event(false);
    let n = s.next_task;
    s.create_thread(NewThread {
        stack: Some(0x10000 * (n + 1)),
        context: 0x100 + n,
        panic_base: 0x200 + n,
        user_fn: None,
        process: 1,
        vcb: 5,
        arg_context: 0,
        term_notify,
        per_cpu_base: 0,
    })
}

/// Ticks until a task runs.
fn run(s: &mut Scheduler, id: u64) {
    let mut n = 0;
    while s.get_current_task_id(0) != Some(id) {
        let _ = s.schedule(0, SAVED);
        s.notify_watchers(0);
        n += 1;
        assert!(n < 20000, "task {} never runs", id);
    }
}

fn ticks(s: &mut Scheduler, n: usize) {
    for _ in 0..n {
        let _ = s.schedule(0, SAVED);
        s.notify_watchers(0);
    }
}

fn scheduler() -> Scheduler {
    Scheduler::init(1, 5, 0x9000, false)
}

fn try_wait(s: &mut Scheduler, sem: usize) -> bool {
    matches!(s.do_wait(0, sem, Some(0), false), WaitStep::Done(Ok(())))
}

#[test]
fn counting_semaphore() {
    let mut s = scheduler();
    let sem = s.new_sem(0, 4);
    s.do_signal(sem);
    s.do_signal(sem);
    s.do_signal(sem);
    assert!(try_wait(&mut s, sem));
    assert!(try_wait(&mut s, sem));
    assert!(try_wait(&mut s, sem));
    assert!(!try_wait(&mut s, sem));
    s.do_signal(sem);
    assert!(try_wait(&mut s, sem));
}

#[test]
fn counter_is_clamped() {
    let mut s = scheduler();
    let sem = s.new_sem(2, 2);
    s.do_signal(sem);
    s.do_signal(sem);
    assert!(try_wait(&mut s, sem));
    assert!(try_wait(&mut s, sem));
    assert!(!try_wait(&mut s, sem));
}

#[test]
fn timeout_expires_and_leaves_no_trace() {
    let mut s = scheduler();
    let sem = s.new_sem(0, 1);
    let t = spawn(&mut s);
    run(&mut s, t);
    assert!(matches!(s.do_wait(0, sem, Some(200), false), WaitStep::Blocked));
    ticks(&mut s, 1);
    assert_ne!(s.get_current_task_id(0), Some(t));
    ticks(&mut s, 30);
    run(&mut s, t);
    assert_eq!(s.finish_wait(0), Err(KError::WaitTimedOut));
    s.do_signal(sem);
    assert!(matches!(s.do_wait(0, sem, None, false), WaitStep::Done(Ok(()))));
}

#[test]
fn signal_before_timeout() {
    let mut s = scheduler();
    let sem = s.new_sem(0, 1);
    let t = spawn(&mut s);
    run(&mut s, t);
    assert!(matches!(s.do_wait(0, sem, Some(2000), false), WaitStep::Blocked));
    ticks(&mut s, 20);
    s.do_signal(sem);
    run(&mut s, t);
    assert_eq!(s.finish_wait(0), Ok(()));
}

fn wait_all(s: &mut Scheduler, sem: usize, timeouts: &[u64]) -> Vec<u64> {
    let mut ids = Vec::new();
    for t in timeouts {
        let id = spawn(s);
        run(s, id);
        assert!(matches!(s.do_wait(0, sem, Some(*t), false), WaitStep::Blocked));
        ids.push(id);
    }
    run(s, 0);
    ids
}

fn outcomes(s: &mut Scheduler, ids: &[u64]) -> (usize, usize) {
    let mut signalled = 0;
    let mut timed_out = 0;
    for id in ids {
        run(s, *id);
        match s.finish_wait(0) {
            Ok(()) => signalled += 1,
            Err(KError::WaitTimedOut) => timed_out += 1,
            Err(e) => panic!("unexpected {:?}", e),
        }
        let _ = s.exit_thread(0, 0);
    }
    (signalled, timed_out)
}

#[test]
fn timers_belong_to_their_tasks() {
    let mut s = scheduler();
    let sem = s.new_sem(0, 4);
    let ids = wait_all(&mut s, sem, &[3000, 3000, 200]);
    s.do_signal(sem);
    s.do_signal(sem);
    ticks(&mut s, 40);
    assert_eq!(outcomes(&mut s, &ids), (2, 1));
}

#[test]
fn as_many_wake_as_are_signalled() {
    let mut s = scheduler();
    let sem = s.new_sem(0, 8);
    let ids = wait_all(&mut s, sem, &[1500, 1500, 1500, 1500, 1500]);
    s.do_signal(sem);
    s.do_signal(sem);
    s.do_signal(sem);
    ticks(&mut s, 200);
    assert_eq!(outcomes(&mut s, &ids), (3, 2));
}

#[test]
fn many_waiters_and_signals() {
    let mut s = scheduler();
    let sem = s.new_sem(0, 200);
    let ids = wait_all(&mut s, sem, &[1_000_000_000; 200]);
    for _ in 0..200 {
        s.do_signal(sem);
    }
    assert_eq!(outcomes(&mut s, &ids), (200, 0));
    assert!(!try_wait(&mut s, sem));
}

#[test]
fn manual_event_wakes_everybody() {
    let mut s = scheduler();
    let ev = s.new_event(false);
    let ids = wait_all(&mut s, ev, &[9000, 9000, 9000, 9000]);
    s.do_signal(ev);
    assert_eq!(outcomes(&mut s, &ids), (4, 0));
    run(&mut s, 0);
    assert!(try_wait(&mut s, ev));
    s.reset(ev);
    assert!(!try_wait(&mut s, ev));
}

#[test]
fn auto_event_wakes_one_at_a_time() {
    let mut s = scheduler();
    let ev = s.new_event(true);
    let ids = wait_all(&mut s, ev, &[1500, 1500, 1500, 1500]);
    s.do_signal(ev);
    ticks(&mut s, 2);
    s.do_signal(ev);
    ticks(&mut s, 200);
    assert_eq!(outcomes(&mut s, &ids), (2, 2));
}

#[test]
fn event_try_wait() {
    let mut s = scheduler();
    let manual = s.new_event(false);
    let auto = s.new_event(true);
    assert!(!try_wait(&mut s, manual));
    assert!(!try_wait(&mut s, auto));
    s.do_signal(manual);
    s.do_signal(auto);
    assert!(try_wait(&mut s, manual));
    assert!(try_wait(&mut s, auto));
}

#[test]
fn a_wait_can_be_interrupted() {
    let mut s = scheduler();
    let sem = s.new_sem(0, 1);
    let t = spawn(&mut s);
    run(&mut s, t);
    assert!(matches!(s.do_wait(0, sem, None, true), WaitStep::Blocked));
    run(&mut s, 0);
    s.do_signal_on_task(sem, t, true);
    run(&mut s, t);
    assert_eq!(s.finish_wait(0), Err(KError::WaitInterrupted));
}

#[test]
fn tasks_take_turns() {
    let mut s = scheduler();
    let a = spawn(&mut s);
    let b = spawn(&mut s);
    let mut seen = Vec::new();
    for _ in 0..70 {
        match s.schedule(0, SAVED) {
            Decision::Switch { task, .. } => seen.push(task),
            _ => {}
        }
    }
    assert!(seen.len() >= 6);
    assert_eq!(seen[0..6], [a, b, 0, a, b, 0]);
}

#[test]
fn no_switch_while_preemption_is_off() {
    let mut s = scheduler();
    let a = spawn(&mut s);
    s.queues[0].disable_preemption();
    for _ in 0..40 {
        assert!(matches!(s.schedule(0, SAVED), Decision::Stay));
    }
    assert!(!s.queues[0].is_preemption_enabled());
    s.queues[0].enable_preemption();
    assert!(s.queues[0].is_preemption_enabled());
    run(&mut s, a);
}

#[test]
fn preemption_comes_back_with_the_last_enable() {
    let mut q = TaskQueue::new();
    for _ in 0..5 {
        q.disable_preemption();
        assert!(!q.is_preemption_enabled());
    }
    for i in 1..=5 {
        q.enable_preemption();
        assert_eq!(q.is_preemption_enabled(), i == 5);
    }
}

#[test]
fn a_killed_thread_ends_and_is_noticed() {
    let mut s = scheduler();
    let a = spawn(&mut s);
    run(&mut s, a);
    let lock = Spinlock::new(s.get_task_info(a).unwrap());
    run(&mut s, 0);
    let step = lock.wait(&mut s, 0, false);
    assert!(matches!(step, WaitStep::Blocked));
    run(&mut s, a);
    let out = s.exit_thread(0, 42);
    assert!(out.yields);
    ticks(&mut s, 3);
    let t = s.get_task_info(a).unwrap();
    assert_eq!(t.status, TaskStatus::Terminated);
    assert_eq!(t.exit_code, 42);
    // The waiter is told once the task has been reaped.
    let dead = s.reap_one(0).unwrap();
    assert_eq!(dead.id, a);
    assert!(s.get_task_info(a).is_none());
    assert!(s.reap_one(0).is_none());
    run(&mut s, 0);
    assert_eq!(s.finish_wait(0), Ok(()));
    assert!(s.waited(0, step));
    // From then on a wait does not block.
    let step = lock.wait(&mut s, 0, true);
    assert!(matches!(step, WaitStep::Done(Ok(()))));
    assert!(s.waited(0, step));
}

#[test]
fn a_wait_that_is_interrupted_fails() {
    let mut s = scheduler();
    let a = spawn(&mut s);
    let lock = Spinlock::new(s.get_task_info(a).unwrap());
    let step = lock.wait(&mut s, 0, true);
    assert!(matches!(step, WaitStep::Blocked));
    run(&mut s, a);
    // Other events do not end the wait.
    let other = s.new_event(false);
    s.do_signal(other);
    assert_eq!(s.get_task_info(0).unwrap().status, TaskStatus::WaitingInterruptible);
    s.do_signal_on_task(lock.data.term_notify, 0, true);
    run(&mut s, 0);
    assert_eq!(s.finish_wait(0), Err(KError::WaitInterrupted));
    assert!(!s.waited(0, step));
    // One that cannot be interrupted goes on.
    assert!(matches!(lock.wait(&mut s, 0, false), WaitStep::Blocked));
    s.do_signal_on_task(lock.data.term_notify, 0, true);
    assert_eq!(s.get_task_info(0).unwrap().status, TaskStatus::Waiting);
}

#[test]
fn a_suspended_task_rests_until_it_is_resumed() {
    let mut s = scheduler();
    let a = spawn(&mut s);
    run(&mut s, a);
    assert!(s.suspend_process(0, true));
    ticks(&mut s, 50);
    assert_eq!(s.get_task_info(a).unwrap().status, TaskStatus::Suspended);
    assert!(s.resume_task(a));
    assert!(!s.resume_task(a));
    run(&mut s, a);
}

#[test]
fn yield_gives_the_core_away() {
    let mut s = scheduler();
    let a = spawn(&mut s);
    s.yield_cpu(0);
    let _ = s.schedule(0, SAVED);
    assert_eq!(s.get_current_task_id(0), Some(a));
    s.add_user_stack_to_cur_task(0, 0x7000);
    assert_eq!(s.get_current_task(0).unwrap().user_stack, Some(0x7000));
}

#[test]
fn driver_workers_run_in_order() {
    let mut q = TaskQueue::new();
    assert!(!q.is_in_dw_mode());
    q.create_driver_worker(1, 7);
    q.create_driver_worker(2, 8);
    assert!(q.dw_handler() == Some(DriverWorker { routine: 1, context: 7 }));
    assert!(q.is_in_dw_mode());
    // A worker queued by a worker runs too.
    q.create_driver_worker(3, 9);
    assert!(q.next_dw() == Some(DriverWorker { routine: 2, context: 8 }));
    assert!(q.next_dw() == Some(DriverWorker { routine: 3, context: 9 }));
    assert!(q.is_in_dw_mode());
    assert!(q.next_dw().is_none());
    assert!(!q.is_in_dw_mode());
    // With nothing put off there is nothing to run.
    assert!(q.dw_handler().is_none());
    assert!(!q.is_in_dw_mode());
}

#[test]
fn ticks_leave_the_work_mode_alone() {
    let mut s = scheduler();
    s.queues[0].create_driver_worker(1, 7);
    ticks(&mut s, 3);
    assert!(!s.queues[0].is_in_dw_mode());
    assert!(s.queues[0].dw_handler().is_some());
    ticks(&mut s, 3);
    assert!(s.queues[0].is_in_dw_mode());
    assert!(s.queues[0].next_dw().is_none());
    ticks(&mut s, 3);
    assert!(!s.queues[0].is_in_dw_mode());
}

#[test]
fn semaphore_states() {
    let mut a = SemState::semaphore(1, 2);
    assert_eq!(a.try_wait(), Ok(()));
    assert!(a.try_wait().is_err());
    assert!(a.enter());
    assert!(matches!(a.signal(), Wake::One));
    assert!(matches!(a.signal(), Wake::Nobody));
    assert!(!a.enter());
    let mut e = SemState::event(false);
    assert!(e.try_wait().is_err());
    assert!(matches!(e.signal(), Wake::All));
    e.raise();
    assert!(e.try_wait().is_ok());
    e.reset();
    assert!(e.try_wait().is_err());
}

#[test]
fn a_lock_masks_interrupts() {
    let mut cpu = Interrupts { enabled: true };
    let mut l = Spinlock::new(5u64);
    let g = l.lock(&mut cpu);
    assert!(!cpu.enabled);
    assert!(l.held);
    // Nobody else gets it meanwhile, and what the holder leaves there is what the next one finds.
    let mut other = Interrupts { enabled: true };
    assert!(l.try_lock(&mut other).is_none());
    assert!(other.enabled);
    assert_eq!(*l.get(&g), 5);
    l.set(&g, 6);
    l.unlock(&mut cpu, g);
    assert!(cpu.enabled);
    assert!(!l.held);
    let g = l.try_lock(&mut other).unwrap();
    assert_eq!(*l.get(&g), 6);
    assert!(!other.enabled);
    l.unlock(&mut other, g);
    assert!(other.enabled);
}

#[test]
fn once_is_filled_once() {
    let mut o: Once<u64> = Once::new();
    assert!(o.get().is_none());
    o.call_once(|| 4);
    o.call_once(|| 5);
    assert_eq!(o.get(), Some(&4));
}

#[test]
fn delays_and_timers() {
    assert!(delay_passed(Err(KError::WaitTimedOut)));
    assert!(!delay_passed(Err(KError::WaitInterrupted)));
    assert_eq!(delay_answer(Err(KError::WaitTimedOut)), Ok(()));
    assert_eq!(delay_answer(Err(KError::WaitFailed)), Err(SysError::WaitInterrupted));

    // A delay of 25 ms takes three ticks of 10 ms, and none is over at once.
    let mut s = scheduler();
    let me = s.get_current_task_id(0).unwrap();
    assert!(matches!(delay_ms(&mut s, 0, 0, false), WaitStep::Done(Err(KError::WaitTimedOut))));
    assert_eq!(sys_delay_handler(&mut s, 0, 0), Some(Ok(())));
    assert_eq!(sys_delay_handler(&mut s, 0, 25), None);
    ticks(&mut s, 2);
    assert_eq!(s.get_task_info(me).unwrap().status, TaskStatus::WaitingInterruptible);
    ticks(&mut s, 1);
    assert_ne!(s.get_task_info(me).unwrap().status, TaskStatus::WaitingInterruptible);
    run(&mut s, me);
    assert_eq!(delay_answer(s.finish_wait(0)), Ok(()));

    let mut t = KTimerInner::new(25);
    assert!(t.is_running());
    assert!(!t.update_timer_count(10));
    assert!(!t.update_timer_count(10));
    assert!(t.update_timer_count(10));
    assert!(!t.is_running());
}

fn user_task() -> Task {
    let mut s = scheduler();
    let id = spawn(&mut s);
    s.get_task_info(id).unwrap()
}

#[test]
fn the_most_urgent_signal_comes_first() {
    assert_eq!(get_highest_set_bit(0), None);
    assert_eq!(get_highest_set_bit(0b0001_0100), Some(4));
    assert_eq!(get_highest_set_bit(1), Some(0));

    let mut t = user_task();
    assert!(matches!(t.signal_step(), SignalStep::Plain));
    t.setup_signal_handler(1, 11, 0x100);
    t.setup_signal_handler(3, 33, 0x300);
    assert!(matches!(t.signal_step(), SignalStep::Begin(3)));
    let setup = HandlerSetup { context: 70, per_cpu_base: 71, mapped_base: 72, kernel_stack_base: 73 };
    t.init_signal_handler(3, setup, None);
    assert_eq!(t.restore_task_context(), Saved { context: 70, per_cpu_base: 71 });
    // The handler runs on, and only a more urgent one would come before it.
    assert!(matches!(t.signal_step(), SignalStep::Resume(3)));
    t.setup_signal_handler(5, 55, 0x500);
    assert!(matches!(t.signal_step(), SignalStep::Begin(5)));
    t.init_signal_handler(5, setup, Some(SAVED));
    assert_eq!(t.complete_signal(), Some(5));
    assert!(matches!(t.signal_step(), SignalStep::Resume(3)));
    let (base, _) = t.uninit_signal_handler(5);
    assert_eq!(base, 72);
    assert_eq!(t.complete_signal(), Some(3));
    assert!(matches!(t.signal_step(), SignalStep::Begin(1)));
}

#[test]
fn a_cause_is_kept_where_the_task_is() {
    let mut t = user_task();
    assert_eq!(t.get_signal_cause(), SignalCause::Normal);
    t.set_signal_cause(SignalCause::Interruption);
    assert_eq!(t.get_signal_cause(), SignalCause::Interruption);
    t.set_kernel_mode_and_syscall_params(false, true, 3, 4);
    assert!(t.is_in_syscall());
    assert_eq!(t.syscall_params(), (4, 3));
    let kernel_mode = t.is_kernel_mode;
    t.toggle_cur_task_kernel_mode();
    assert_ne!(t.is_kernel_mode, kernel_mode);
}

#[test]
fn a_handler_gets_the_page_below() {
    assert_eq!(handler_stack(0x8000_0000), (0x8000_0000, 0x7fff_f000));
    assert_eq!(handler_stack(0x8000_0fff), (0x8000_0000, 0x7fff_f000));
}

#[test]
fn handlers_come_and_go() {
    let mut t = user_task();
    let setup = HandlerSetup { context: 70, per_cpu_base: 71, mapped_base: 72, kernel_stack_base: 73 };
    let now = Saved { context: 40, per_cpu_base: 41 };
    let nothing = SignalRun { unmap: None, restore: None, state: None, handles: false };
    assert_eq!(t.check_and_execute_signal_handler(false, now, true, setup), nothing);
    t.setup_signal_handler(2, 5, 0x200);
    // In the kernel no handler begins.
    assert_eq!(t.check_and_execute_signal_handler(false, now, false, setup), nothing);
    assert_eq!(
        t.check_and_execute_signal_handler(false, now, true, setup),
        SignalRun { state: Some(Saved { context: 70, per_cpu_base: 71 }), handles: true, ..nothing }
    );
    assert_eq!(t.get_stack(), Some(73));
    assert!(!t.can_begin_handler(false));
    // It goes on; a task that was just chosen has its state loaded.
    assert_eq!(t.check_and_execute_signal_handler(false, now, true, setup), SignalRun { handles: true, ..nothing });
    assert_eq!(
        t.check_and_execute_signal_handler(true, now, true, setup),
        SignalRun { state: Some(Saved { context: 70, per_cpu_base: 71 }), handles: true, ..nothing }
    );
    // Once it is done, the task goes on where it was.
    assert_eq!(t.complete_signal(), Some(2));
    assert_eq!(
        t.check_and_execute_signal_handler(false, SAVED, true, setup),
        SignalRun { unmap: Some(72), restore: Some(now), ..nothing }
    );
    assert_eq!(t.get_core(), 0);
}
