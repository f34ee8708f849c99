use aris::error::KError;
use aris::loader::image::MemoryRegion;
use aris::mem::block::{PageDescriptor, VIRTUAL};
use aris::mem::frame_allocator::PhyMemConBlk;
use aris::mem::manager::MemoryManager;
use aris::mem::virtual_allocator::VirtMemConBlk;
use aris::pipe::PipeTable;
use aris::sched::cleanup::{CleanupQueue, clean_one, release_process};
use aris::sched::handle::{Handle, HandleKind, HandleType, add_handle, get_handle, inherit_handles, place_handle, remove_handle};
use aris::sched::proc::{HandlerEnd, ProcessCleanupWork, ProcessParts, ProcessStatus, ProcessTable, SignalHandler, SignalOutcome, get_current_process_id};
use aris::sched::init::{UserStart, kernel_init_handler, user_init_handler};
use aris::sched::memory_call::{sys_allocate_memory_handler, sys_deallocate_memory_handler};
use aris::sched::scheduler::{NewThread, Scheduler, WaitStep};
use aris::sched::task::{HandlerSetup, Saved};
use aris::sched::tick::tick;
use aris::sched::user::SysError;

const SAVED: Saved = Saved { context: 0, per_cpu_base: 0 };

struct Machine {
    procs: ProcessTable,
    sched: Scheduler,
    cleanup: CleanupQueue,
}

fn bytes(s: &str) -> Vec<u8> {
    s.as_bytes().to_vec()
}

fn machine() -> Machine {
    Machine {
        procs: ProcessTable::init(5, bytes("/sys/aris")),
        sched: Scheduler::init(1, 5, 0x9000, false),
        cleanup: CleanupQueue::init(),
    }
}

fn thread(m: &mut Machine, user_fn: Option<u64>) -> NewThread {
    let term_notify = m.sched.new_event(false);
    NewThread {
        stack: Some(0x4000),
        context: 0,
        panic_base: 0,
        user_fn,
        process: 0,
        vcb: 6,
        arg_context: 0,
        term_notify,
        per_cpu_base: 0,
    }
}

fn spawn(m: &mut Machine, is_user: bool, is_suspended: bool) -> u64 {
    let t = thread(m, if is_user { Some(0x1000) } else { None });
    let parts = ProcessParts {
        addr_space: Ok(6),
        term_notify: m.sched.new_event(false),
        init_notify: m.sched.new_event(false),
        thread: Ok(t),
    };
    m.procs
        .create_process(&mut m.sched, 0, vec![bytes("libtest1.so"), bytes("hello")], is_user, is_suspended, parts)
        .unwrap()
}

fn step(m: &mut Machine) {
    let _ = tick(&mut m.procs, &mut m.sched, &mut m.cleanup, 0, SAVED);
}

fn run_process(m: &mut Machine, id: u64) {
    let mut n = 0;
    while get_current_process_id(&m.sched, 0) != Some(id) {
        step(m);
        n += 1;
        assert!(n < 500, "process {} never runs", id);
    }
}

#[test]
fn a_process_runs_and_ends() {
    let mut m = machine();
    let id = spawn(&mut m, false, false);
    run_process(&mut m, id);
    assert_eq!(m.procs.get_current_process_args(&m.sched, 0), Some(vec![bytes("libtest1.so"), bytes("hello")]));
    let _ = m.procs.exit_process(&mut m.sched, 0, 17);
    for _ in 0..5 {
        step(&mut m);
    }
    assert!(m.procs.find(id).is_none());
    assert_eq!(m.procs.ended.last().map(|e| (e.info.id, e.info.exit_code)), Some((id, 17)));
    assert!(m.cleanup.signalled);
    let w = m.cleanup.pop_one().unwrap();
    assert_eq!(w.proc_id, id);
    assert_eq!(w.addr_space, 6);
    assert!(m.cleanup.pop_one().is_none());
}

#[test]
fn concurrent_processes_all_end() {
    let mut m = machine();
    let ids = [spawn(&mut m, false, false), spawn(&mut m, false, false), spawn(&mut m, false, false)];
    for id in ids {
        run_process(&mut m, id);
        let _ = m.procs.exit_process(&mut m.sched, 0, id as i64);
        step(&mut m);
    }
    for _ in 0..5 {
        step(&mut m);
    }
    let codes: Vec<i64> = m.procs.ended.iter().map(|e| e.info.exit_code).collect();
    assert_eq!(codes, vec![ids[0] as i64, ids[1] as i64, ids[2] as i64]);
}

#[test]
fn a_process_ends_with_its_last_thread() {
    let mut m = machine();
    let id = spawn(&mut m, false, false);
    let t = thread(&mut m, None);
    let second = m.procs.create_thread(&mut m.sched, id, t).unwrap();
    run_process(&mut m, id);
    let first = m.sched.get_current_task_id(0).unwrap();
    assert_ne!(first, second);
    let _ = m.sched.exit_thread(0, 1);
    for _ in 0..5 {
        step(&mut m);
    }
    assert!(m.procs.find(id).is_some());
    run_process(&mut m, id);
    assert_eq!(m.sched.get_current_task_id(0), Some(second));
    let _ = m.sched.exit_thread(0, 2);
    for _ in 0..5 {
        step(&mut m);
    }
    assert!(m.procs.find(id).is_none());
    assert_eq!(m.procs.ended.last().map(|e| e.info.exit_code), Some(2));
    let t = thread(&mut m, None);
    assert!(m.procs.create_thread(&mut m.sched, id, t).is_err());
}

#[test]
fn creation_fails_with_its_parts() {
    let mut m = machine();
    let parts = ProcessParts {
        addr_space: Err(KError::OutOfMemory),
        term_notify: 0,
        init_notify: 0,
        thread: Err(KError::OutOfMemory),
    };
    let got = m.procs.create_process(&mut m.sched, 0, vec![bytes("a")], false, false, parts);
    assert_eq!(got, Err(KError::OutOfMemory));
    assert!(ProcessTable::creation_result(4, true, false).is_err());
    assert_eq!(ProcessTable::creation_result(4, true, true), Ok(4));
    assert_eq!(ProcessTable::creation_result(4, false, false), Ok(4));
}

#[test]
fn a_suspended_process_waits_to_be_resumed() {
    let mut m = machine();
    let id = spawn(&mut m, true, true);
    let i = m.procs.find(id).unwrap();
    assert_eq!(m.procs.procs[i].status, ProcessStatus::Suspended);
    run_process(&mut m, id);
    assert!(m.sched.suspend_process(0, true));
    for _ in 0..30 {
        step(&mut m);
        assert_ne!(get_current_process_id(&m.sched, 0), Some(id));
    }
    assert!(m.procs.resume_process(&mut m.sched, id));
    run_process(&mut m, id);
}

#[test]
fn sessions_and_groups() {
    let mut m = machine();
    let id = spawn(&mut m, true, false);
    assert!(m.procs.set_session_leader(id, id));
    let i = m.procs.find(id).unwrap();
    assert_eq!(m.procs.procs[i].session, id);
    assert_eq!(m.procs.procs[i].pgroup, 0);
    assert!(!m.procs.set_session_leader(id, id));
    // The parent may do it too, as long as both are in one group.
    assert!(m.procs.set_pgroup_leader(id, 0));
    assert_eq!(m.procs.procs[i].pgroup, id);
    assert_eq!(m.procs.group_processes(id), vec![id]);
    assert!(!m.procs.set_pgroup_leader(id, id));
    let other = spawn(&mut m, true, false);
    assert!(!m.procs.set_session_leader(other, id));
    assert!(!m.procs.set_session_leader(99, id));
    assert!(!m.procs.set_pgroup_leader(99, id));
}

#[test]
fn signals_go_to_handlers_or_kill() {
    let mut m = machine();
    let id = spawn(&mut m, true, false);
    assert!(matches!(m.procs.issue_signal(&mut m.sched, id, 2), SignalOutcome::Kill));
    let i = m.procs.find(id).unwrap();
    m.procs.procs[i].set_signal_handler(2, SignalHandler { user_ctx: 1, handler: 0x2000 });
    assert!(matches!(m.procs.issue_signal(&mut m.sched, id, 2), SignalOutcome::Nothing));
    let t = m.procs.procs[i].get_first_task().unwrap();
    assert_eq!(m.sched.get_task_info(t).unwrap().in_signal_init, 1 << 2);
    // The thread has it already: the process keeps it until it can be given on.
    assert!(matches!(m.procs.issue_signal(&mut m.sched, id, 2), SignalOutcome::Nothing));
    assert_eq!(m.procs.procs[i].pending_signals, 1 << 2);
    assert!(matches!(m.procs.issue_signal(&mut m.sched, 99, 2), SignalOutcome::Nothing));
    assert!(matches!(m.procs.issue_signal_to_thread(&mut m.sched, t, 4), SignalOutcome::Kill));
    assert!(matches!(m.procs.deliver_pending(&mut m.sched, id), SignalOutcome::Nothing));
}

#[test]
fn handle_numbers() {
    let h = |object: u64| Handle { kind: HandleKind::File, object };
    let mut t: Vec<Option<HandleType>> = Vec::new();
    assert_eq!(add_handle(&mut t, h(10), true), 0);
    assert_eq!(add_handle(&mut t, h(11), false), 1);
    assert_eq!(get_handle(&t, 1), Some(h(11)));
    assert_eq!(get_handle(&t, 2), None);
    assert!(remove_handle(&mut t, 0));
    assert!(!remove_handle(&mut t, 0));
    assert!(!remove_handle(&mut t, 9));
    assert_eq!(add_handle(&mut t, h(12), true), 0);
    place_handle(&mut t, 4, h(13), true);
    assert_eq!(t.len(), 5);
    assert_eq!(get_handle(&t, 3), None);
    let child = inherit_handles(&t);
    assert_eq!(get_handle(&child, 0), Some(h(12)));
    assert_eq!(get_handle(&child, 1), None);
    assert_eq!(get_handle(&child, 4), Some(h(13)));

    let mut m = machine();
    let id = spawn(&mut m, true, false);
    let n = m.procs.add_handle_to_proc(id, h(1), false);
    assert_eq!(m.procs.get_handle(id, n), Some(h(1)));
    m.procs.place_handle_in_proc(id, 7, h(2), false);
    assert_eq!(m.procs.get_handle(id, 7), Some(h(2)));
    assert!(m.procs.remove_handle(id, 7));
    assert_eq!(m.procs.get_handle(id, 7), None);
}

fn memory() -> MemoryManager {
    MemoryManager {
        is_init: true,
        phys: PhyMemConBlk {
            total_memory: 64 * 4096,
            avl_memory: 64 * 4096,
            hard_limit: u64::MAX,
            lower_limit: 0,
            free_block_list: vec![PageDescriptor {
                num_pages: 64,
                start_phy_address: 0x100000,
                start_virt_address: 0,
                flags: 0,
                is_mapped: false,
            }],
            alloc_block_list: Vec::new(),
            node_limit: 1000,
        },
        kernel: VirtMemConBlk::new(0),
        process: None,
        invalidated: Vec::new(),
    }
}

#[test]
fn memory_of_a_process_is_recorded_by_its_physical_address() {
    let mut mm = memory();
    let mut m = machine();
    let id = spawn(&mut m, true, false);
    let a = mm.allocate_memory(8192, 4096, VIRTUAL).unwrap();
    m.procs.add_memory_range_to_cur_process(id, &mm, a, 8192, false);
    let i = m.procs.find(id).unwrap();
    assert_eq!(m.procs.procs[i].memory_list.len(), 1);
    assert_eq!(m.procs.procs[i].memory_list[0].base_address, 0x100000);
    m.procs.remove_memory_range_from_cur_process(id, &mm, a, 8192, false);
    assert_eq!(m.procs.procs[i].memory_list.len(), 0);
}

#[test]
fn what_a_process_leaves_is_freed() {
    let mut mm = memory();
    let base_address = mm.allocate_memory(3 * 4096, 4096, 0).unwrap();
    let space = mm.clone_address_space(9).unwrap();
    let work = ProcessCleanupWork {
        proc_id: 9,
        addr_space: 1,
        memory_list: vec![MemoryRegion { base_address, size: 3 * 4096 }],
        handles: Vec::new(),
    };
    assert_eq!(mm.phys.get_available_memory(), 61 * 4096);
    let mut pipes = PipeTable::new();
    assert_eq!(release_process(&mut mm, &mut pipes, &work, space), (Ok(()), Vec::new()));
    assert_eq!(mm.phys.get_available_memory(), 64 * 4096);

    // The worker does the same with the oldest piece of work.
    let base_address = mm.allocate_memory(4096, 4096, 0).unwrap();
    let space = mm.clone_address_space(9).unwrap();
    let mut q = CleanupQueue::init();
    q.enqueue_cleanup(ProcessCleanupWork {
        proc_id: 10,
        addr_space: 1,
        memory_list: vec![MemoryRegion { base_address, size: 4096 }],
        handles: Vec::new(),
    });
    assert_eq!(clean_one(&mut q, &mut mm, &mut pipes, space), Some((Ok(()), Vec::new())));
    assert_eq!(mm.phys.get_available_memory(), 64 * 4096);
    let space = mm.clone_address_space(9).unwrap();
    assert_eq!(clean_one(&mut q, &mut mm, &mut pipes, space), None);
}

#[test]
fn memory_by_call() {
    let mut mm = memory();
    let space = mm.clone_address_space(9).unwrap();
    let free = mm.phys.get_available_memory();
    assert!(mm.set_address_space(Some(space)).is_none());
    let mut m = machine();
    let id = spawn(&mut m, true, false);
    // Nobody can be told yet.
    assert_eq!(sys_allocate_memory_handler(&mut m.procs, &mut mm, id, 4096, 0x9000), Err(SysError::InvalidMemoryRange));
    assert_eq!(mm.phys.get_available_memory(), free);
    let a = mm.allocate_memory(4096, 4096, 3).unwrap();
    let got = sys_allocate_memory_handler(&mut m.procs, &mut mm, id, 8192, a).unwrap();
    assert_eq!(mm.phys.get_available_memory(), free - 3 * 4096);
    let i = m.procs.find(id).unwrap();
    assert_eq!(m.procs.procs[i].memory_list.len(), 1);
    assert_eq!(Some(m.procs.procs[i].memory_list[0].base_address), mm.backing_address(got, true));
    assert_eq!(sys_allocate_memory_handler(&mut m.procs, &mut mm, id, 1 << 30, a), Err(SysError::OutOfMemory));
    assert_eq!(sys_allocate_memory_handler(&mut m.procs, &mut mm, id, u64::MAX, a), Err(SysError::Invalid));

    // What was handed out is given back once.
    assert_eq!(sys_deallocate_memory_handler(&mut m.procs, &mut mm, id, got, 0), Err(SysError::Invalid));
    assert_eq!(sys_deallocate_memory_handler(&mut m.procs, &mut mm, id, got, u64::MAX), Err(SysError::Invalid));
    assert_eq!(sys_deallocate_memory_handler(&mut m.procs, &mut mm, id, got + 0x100000, 8192), Err(SysError::Invalid));
    assert_eq!(m.procs.procs[i].memory_list.len(), 1);
    assert_eq!(sys_deallocate_memory_handler(&mut m.procs, &mut mm, id, got, 8192), Ok(()));
    assert_eq!(m.procs.procs[i].memory_list.len(), 0);
    assert_eq!(mm.phys.get_available_memory(), free - 4096);
    assert_eq!(sys_deallocate_memory_handler(&mut m.procs, &mut mm, id, got, 8192), Err(SysError::Invalid));
}

#[test]
fn what_waited_for_a_handler_comes_next() {
    let mut m = machine();
    let id = spawn(&mut m, true, false);
    let i = m.procs.find(id).unwrap();
    let t = m.procs.procs[i].get_first_task().unwrap();
    m.procs.procs[i].set_signal_handler(2, SignalHandler { user_ctx: 1, handler: 0x2000 });
    m.procs.procs[i].set_signal_handler(1, SignalHandler { user_ctx: 1, handler: 0x1000 });
    run_process(&mut m, id);
    assert_eq!(m.sched.get_current_task_id(0), Some(t));
    assert_eq!(m.procs.complete_signal(&mut m.sched, 0), HandlerEnd::NoHandler);

    assert_eq!(m.procs.issue_signal(&mut m.sched, id, 2), SignalOutcome::Nothing);
    let setup = HandlerSetup { context: 5, per_cpu_base: 6, mapped_base: 7, kernel_stack_base: 8 };
    assert!(m.sched.run_signal_handlers(0, false, SAVED, true, setup).handles);
    // While a handler runs, a less urgent signal waits for it.
    assert_eq!(m.procs.issue_signal(&mut m.sched, id, 1), SignalOutcome::Nothing);
    let _ = m.procs.complete_signal(&mut m.sched, 0);
    let task = m.sched.get_task_info(t).unwrap();
    assert_eq!((task.completed_signals, task.pending_signals), (1 << 2, 0));
    assert_eq!(task.in_signal_init, 1 << 1);
    assert_eq!(m.procs.procs[i].pending_signals, 0);
}

#[test]
fn a_process_says_that_it_is_set_up() {
    let mut m = machine();
    let id = spawn(&mut m, true, false);
    let i = m.procs.find(id).unwrap();
    let sem = m.procs.procs[i].get_init_sem();
    m.procs.procs[i].complete_init(&mut m.sched, true);
    assert!(m.procs.procs[i].init_status);
    assert!(matches!(m.sched.do_wait(0, sem, Some(0), false), WaitStep::Done(Ok(()))));
    m.procs.procs[i].set_status(ProcessStatus::Terminated);
    assert_eq!(m.procs.procs[i].get_status(), ProcessStatus::Terminated);
    assert_ne!(m.procs.procs[i].get_notify_sem(), sem);
    assert_eq!(m.procs.procs[i].get_args().len(), m.procs.procs[i].args.len());
    assert_eq!(m.procs.procs[i].get_vcb(), m.procs.procs[i].addr_space);
}

#[test]
fn a_user_process_enters_its_image() {
    let mut m = machine();
    let id = spawn(&mut m, true, true);
    let i = m.procs.find(id).unwrap();
    m.procs.procs[i].args = vec![bytes("ls"), bytes("-l")];
    let start = user_init_handler(&mut m.procs, &mut m.sched, id, Ok(0x4000), 0x8000, &vec![bytes("A=1")]);
    let (entry, rsp, block, suspend) = match start {
        UserStart::Enter { entry, rsp, block, suspend } => (entry, rsp, block, suspend),
        UserStart::Exit(code) => panic!("ended with {}", code),
    };
    assert_eq!((entry, rsp % 16, suspend), (0x4000, 0, true));
    assert_eq!(rsp + block.len() as u64, 0x8000);
    let word = |at: usize| u64::from_le_bytes(block[at..at + 8].try_into().unwrap());
    let text = |addr: u64| {
        let o = (addr - rsp) as usize;
        let n = block[o..].iter().position(|b| *b == 0).unwrap();
        block[o..o + n].to_vec()
    };
    assert_eq!(word(0), 2);
    assert_eq!((text(word(8)), text(word(16)), word(24)), (bytes("ls"), bytes("-l"), 0));
    assert_eq!((text(word(32)), word(40)), (bytes("A=1"), 0));
    assert!(m.procs.procs[i].init_status);

    let sem = m.procs.procs[i].get_init_sem();
    let start = user_init_handler(&mut m.procs, &mut m.sched, id, Err(KError::NotFound), 0x8000, &Vec::new());
    assert!(matches!(start, UserStart::Exit(-1)));
    assert!(!m.procs.procs[i].init_status);
    assert!(matches!(m.sched.do_wait(0, sem, Some(0), false), WaitStep::Done(Ok(()))));
}

#[test]
fn a_kernel_process_keeps_its_image() {
    let mut m = machine();
    let id = spawn(&mut m, false, false);
    assert_eq!(kernel_init_handler(&mut m.procs, id, Err(KError::NotFound)), Err(-1));
    assert_eq!(kernel_init_handler(&mut m.procs, id, Ok((12, 0x9000))), Ok(0x9000));
    let i = m.procs.find(id).unwrap();
    let n = m.procs.procs[i].get_num_handles();
    assert_eq!(m.procs.get_handle(id, n - 1), Some(Handle { kind: HandleKind::Image, object: 12 }));
}
