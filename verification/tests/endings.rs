use aris::error::KError;
use aris::mem::fixed_allocator::{FixedAllocator, FixedHeap, Regions};
use aris::mem::block::PageDescriptor;
use aris::mem::frame_allocator::PhyMemConBlk;
use aris::pipe::PipeTable;
use aris::sched::cleanup::CleanupQueue;
use aris::sched::handle::{Handle, HandleKind};
use aris::sched::pipe_call::{
    begin_create_process, close_handles, create_pipe, create_process, open_pipe, sys_close_handler, sys_create_pipe_handler,
    sys_duplicate_handler,
};
use aris::sched::file_call::finish_open;
use aris::sched::proc::{ProcessParts, ProcessStatus, ProcessTable, get_current_process_id};
use aris::sched::scheduler::{NewThread, Scheduler, WaitStep};
use aris::sched::syscall::{
    ProcessRequest, sys_get_process_info_handler, sys_get_thread_info_handler, sys_set_session_leader_handler, sys_signal_handler,
    sys_wait_handler,
};
use aris::sched::task::Saved;
use aris::sched::tick::tick;
use aris::sched::user::{SysError, UserMemory, UserRange};

const SAVED: Saved = Saved { context: 0, per_cpu_base: 0 };

struct Machine {
    procs: ProcessTable,
    sched: Scheduler,
    cleanup: CleanupQueue,
    pipes: PipeTable,
}

fn bytes(s: &str) -> Vec<u8> {
    s.as_bytes().to_vec()
}

fn machine() -> Machine {
    Machine {
        procs: ProcessTable::init(5, bytes("/sys/aris")),
        sched: Scheduler::init(1, 5, 0x9000, false),
        cleanup: CleanupQueue::init(),
        pipes: PipeTable::new(),
    }
}

fn thread(m: &mut Machine) -> NewThread {
    NewThread {
        stack: Some(0x4000),
        context: 0,
        panic_base: 0,
        user_fn: Some(0x1000),
        process: 0,
        vcb: 6,
        arg_context: 0,
        term_notify: m.sched.new_event(false),
        per_cpu_base: 0,
    }
}

fn spawn(m: &mut Machine, cur: u64) -> u64 {
    let t = thread(m);
    let parts = ProcessParts {
        addr_space: Ok(6),
        term_notify: m.sched.new_event(false),
        init_notify: m.sched.new_event(false),
        thread: Ok(t),
    };
    create_process(&mut m.procs, &mut m.pipes, &mut m.sched, cur, vec![bytes("x")], true, false, parts).unwrap()
}

fn step(m: &mut Machine) {
    let _ = tick(&mut m.procs, &mut m.sched, &mut m.cleanup, 0, SAVED);
}

fn run_process(m: &mut Machine, id: u64) {
    let mut n = 0;
    while get_current_process_id(&m.sched, 0) != Some(id) {
        step(m);
        n += 1;
        assert!(n < 500, "process {} never runs", id);
    }
}

fn first_task(m: &Machine, id: u64) -> u64 {
    m.procs.procs[m.procs.find(id).unwrap()].get_first_task().unwrap()
}

fn waits_at_once(m: &mut Machine, me: u64, number: usize, timeout: u64) -> bool {
    matches!(
        sys_wait_handler(&m.procs, &mut m.sched, 0, me, number, timeout),
        Ok(WaitStep::Done(Ok(())))
    )
}

#[test]
fn an_ended_thread_can_be_waited_for_and_asked() {
    let mut m = machine();
    let me = spawn(&mut m, 0);
    let child = spawn(&mut m, me);
    let first = first_task(&m, child);
    let t = thread(&mut m);
    let second = m.procs.create_thread(&mut m.sched, child, t).unwrap();
    let to_first = m.procs.add_handle_to_proc(me, Handle { kind: HandleKind::Thread, object: first }, false);
    let to_second = m.procs.add_handle_to_proc(me, Handle { kind: HandleKind::Thread, object: second }, false);
    let to_child = m.procs.add_handle_to_proc(me, Handle { kind: HandleKind::Process, object: child }, false);
    run_process(&mut m, me);
    assert!(!waits_at_once(&mut m, me, to_first, 0));
    // As long as it lives, no number of ticks lets a wait for it through.
    for _ in 0..100 {
        step(&mut m);
    }
    run_process(&mut m, me);
    assert!(!waits_at_once(&mut m, me, to_first, 0));
    assert!(!waits_at_once(&mut m, me, to_child, 0));
    assert_eq!(sys_get_thread_info_handler(&m.procs, &m.sched, me, to_first).map(|i| i.exit_code), Ok(0));

    // Killed, ticked, waited for, and asked for its exit code.
    let _ = m.sched.kill_thread(first, 41, 0);
    step(&mut m);
    assert!(m.sched.get_task_info(first).is_none());
    run_process(&mut m, me);
    for timeout in [0, 5, u64::MAX] {
        assert!(waits_at_once(&mut m, me, to_first, timeout));
    }
    let info = sys_get_thread_info_handler(&m.procs, &m.sched, me, to_first).unwrap();
    assert_eq!((info.id, info.exit_code), (first, 41));
    assert_eq!(sys_signal_handler(&m.procs, &mut m.sched, me, to_first), Ok(()));
    assert!(!waits_at_once(&mut m, me, to_second, 0));
    assert!(!waits_at_once(&mut m, me, to_child, 0));

    // With its last thread the process ends, and stays known.
    let _ = m.sched.kill_thread(second, 42, 0);
    step(&mut m);
    assert!(m.procs.find(child).is_none());
    run_process(&mut m, me);
    assert!(waits_at_once(&mut m, me, to_second, u64::MAX));
    assert!(waits_at_once(&mut m, me, to_child, u64::MAX));
    assert!(waits_at_once(&mut m, me, to_first, u64::MAX));
    assert_eq!(sys_get_thread_info_handler(&m.procs, &m.sched, me, to_second).map(|i| i.exit_code), Ok(42));
    assert_eq!(sys_get_process_info_handler(&m.procs, me, to_child as i64).map(|i| i.exit_code), Ok(42));
    assert_eq!(sys_set_session_leader_handler(&mut m.procs, me, to_child as i64), Err(SysError::ProcessTerminated));
    assert_eq!(sys_set_session_leader_handler(&mut m.procs, me, -7), Err(SysError::Invalid));
    assert_eq!(sys_get_process_info_handler(&m.procs, me, i64::MIN).err(), Some(SysError::Invalid));
}

#[test]
fn one_tick_ends_all_that_were_killed() {
    let mut m = machine();
    let me = spawn(&mut m, 0);
    let child = spawn(&mut m, me);
    let first = first_task(&m, child);
    let t = thread(&mut m);
    let second = m.procs.create_thread(&mut m.sched, child, t).unwrap();
    let to_first = m.procs.add_handle_to_proc(me, Handle { kind: HandleKind::Thread, object: first }, false);
    let to_second = m.procs.add_handle_to_proc(me, Handle { kind: HandleKind::Thread, object: second }, false);
    run_process(&mut m, me);
    let _ = m.sched.kill_thread(first, 7, 0);
    let _ = m.sched.kill_thread(second, 8, 0);
    step(&mut m);
    assert!(m.sched.get_task_info(first).is_none());
    assert!(m.sched.get_task_info(second).is_none());
    assert!(m.procs.find(child).is_none());
    run_process(&mut m, me);
    assert_eq!(sys_get_thread_info_handler(&m.procs, &m.sched, me, to_first).map(|i| i.exit_code), Ok(7));
    assert_eq!(sys_get_thread_info_handler(&m.procs, &m.sched, me, to_second).map(|i| i.exit_code), Ok(8));
    assert!(waits_at_once(&mut m, me, to_first, 0));
    assert!(waits_at_once(&mut m, me, to_second, 0));
}

#[test]
fn who_waits_for_an_end_is_told() {
    let mut m = machine();
    let me = spawn(&mut m, 0);
    let child = spawn(&mut m, me);
    let to_child = m.procs.add_handle_to_proc(me, Handle { kind: HandleKind::Process, object: child }, false);
    run_process(&mut m, me);
    assert!(matches!(
        sys_wait_handler(&m.procs, &mut m.sched, 0, me, to_child, u64::MAX),
        Ok(WaitStep::Blocked)
    ));
    run_process(&mut m, child);
    let _ = m.procs.exit_process(&mut m.sched, 0, 3);
    run_process(&mut m, me);
    assert_eq!(m.sched.finish_wait(0), Ok(()));
}

#[test]
fn a_pipe_lives_as_long_as_its_handles() {
    let mut m = machine();
    let me = spawn(&mut m, 0);
    let (r, w) = create_pipe(&mut m.procs, &mut m.pipes, me, Some(bytes("p")), true).unwrap();
    let id = m.pipes.pipes[0].id;
    let count = |m: &Machine| (m.pipes.pipes[0].reader_count, m.pipes.pipes[0].writer_count);
    assert_eq!(count(&m), (1, 1));

    // A copy counts, and so does what a child inherits.
    let (dup, told) = sys_duplicate_handler(&mut m.procs, &mut m.pipes, me, -1, w, -1, 0);
    assert_eq!(told, None);
    assert_eq!(count(&m), (1, 2));
    let child = spawn(&mut m, me);
    assert_eq!(count(&m), (2, 3));
    let opened = open_pipe(&mut m.procs, &mut m.pipes, me, &bytes("p"), 0, false).unwrap();
    assert_eq!(count(&m), (3, 3));
    assert_eq!(
        open_pipe(&mut m.procs, &mut m.pipes, me, &bytes("q"), 0, false),
        Err(SysError::Kernel(KError::InvalidArgument))
    );
    // What had the number of a copy is given up.
    let (put, told) = sys_duplicate_handler(&mut m.procs, &mut m.pipes, me, -1, r, opened as i64, 0);
    assert_eq!((put, told), (Ok(opened), None));
    assert_eq!(count(&m), (3, 3));

    assert_eq!(sys_close_handler(&mut m.procs, &mut m.pipes, me, w), (Ok(()), None));
    assert_eq!(sys_close_handler(&mut m.procs, &mut m.pipes, me, dup.unwrap()), (Ok(()), None));
    assert_eq!(count(&m), (3, 1));

    // The child ends, and with it the last writer: readers are told. The name is still taken.
    let t = first_task(&m, child);
    let _ = m.sched.kill_thread(t, 0, 0);
    step(&mut m);
    let work = m.cleanup.pop_one().unwrap();
    assert_eq!(count(&m), (3, 1));
    assert_eq!(close_handles(&mut m.pipes, &work.handles), vec![id]);
    assert_eq!(count(&m), (2, 0));
    assert_eq!(
        create_pipe(&mut m.procs, &mut m.pipes, me, Some(bytes("p")), false),
        Err(SysError::Kernel(KError::InvalidArgument))
    );

    // With the last handle the pipe is gone, and its name is free.
    assert_eq!(sys_close_handler(&mut m.procs, &mut m.pipes, me, r), (Ok(()), None));
    assert_eq!(sys_close_handler(&mut m.procs, &mut m.pipes, me, opened), (Ok(()), None));
    assert!(m.pipes.pipes.is_empty());
    let (r, w) = create_pipe(&mut m.procs, &mut m.pipes, me, Some(bytes("p")), false).unwrap();
    // The last writer that closes is the one that tells.
    let id = m.pipes.pipes[0].id;
    assert_eq!(sys_close_handler(&mut m.procs, &mut m.pipes, me, w), (Ok(()), Some(id)));
    assert_eq!(sys_close_handler(&mut m.procs, &mut m.pipes, me, r), (Ok(()), None));
}

#[test]
fn a_pipe_by_call() {
    let mut m = machine();
    let me = spawn(&mut m, 0);
    let mut page = vec![0u8; 4096];
    page[32..36].copy_from_slice(b"log\0");
    let mut mem = UserMemory { ranges: vec![UserRange { base: 0x1000, bytes: page }] };
    let call = |m: &mut Machine, mem: &mut UserMemory, r: u64, w: u64, name: u64| {
        sys_create_pipe_handler(&mut m.procs, &mut m.pipes, mem, me, r, w, name, 0)
    };
    assert_eq!(call(&mut m, &mut mem, 0, 0x1008, 0), Err(SysError::Invalid));
    assert_eq!(call(&mut m, &mut mem, 0x1000, 0, 0), Err(SysError::Invalid));
    assert_eq!(call(&mut m, &mut mem, 0x1000, 0x1008, 0x9000), Err(SysError::InvalidMemoryRange));
    assert!(m.pipes.pipes.is_empty());
    assert_eq!(call(&mut m, &mut mem, 0x1000, 0x1008, 0x1020), Ok(()));
    assert_eq!(m.pipes.pipes[0].name, Some(bytes("log")));
    assert_eq!(mem.ranges[0].bytes[0..16], [0, 0, 0, 0, 0, 0, 0, 0, 1, 0, 0, 0, 0, 0, 0, 0]);
    assert_eq!(call(&mut m, &mut mem, 0x1000, 0x1008, 0x1020), Err(SysError::Kernel(KError::InvalidArgument)));
    // An empty name is none.
    assert_eq!(call(&mut m, &mut mem, 0x1000, 0x1008, 0x1030), Ok(()));
    assert_eq!(m.pipes.pipes[1].name, None);
    // Handles that cannot be told of stay.
    assert_eq!(call(&mut m, &mut mem, 0x9000, 0x1008, 0), Err(SysError::InvalidMemoryRange));
    assert_eq!(m.pipes.pipes.len(), 3);
}

#[test]
fn nothing_can_be_copied_anywhere() {
    let mut mem = UserMemory { ranges: Vec::new() };
    assert_eq!(mem.copy_from_user(0x123, 0), Some(Vec::new()));
    assert_eq!(mem.copy_from_user(0x123, 1), None);
    assert!(mem.copy_to_user(0x123, &Vec::new()));
    assert!(!mem.copy_to_user(0x123, &vec![1]));
}

#[test]
fn frames_are_given_back_once() {
    let block = |start: u64, pages: u64| PageDescriptor {
        num_pages: pages,
        start_phy_address: start,
        start_virt_address: 0,
        flags: 0,
        is_mapped: false,
    };
    let mut p = PhyMemConBlk {
        total_memory: 20 * 4096,
        avl_memory: 20 * 4096,
        hard_limit: u64::MAX,
        lower_limit: 0,
        free_block_list: vec![block(0x10000, 4), block(0x40000, 16)],
        alloc_block_list: Vec::new(),
        node_limit: 100,
    };
    for pages in [4u64, 2, 9] {
        let a = p.allocate(pages * 4096, 4096).unwrap();
        assert_eq!(p.deallocate(a, pages * 4096, 4096), Ok(()));
        assert_eq!(p.avl_memory, 20 * 4096);
        let mut free: Vec<(u64, u64)> = p.free_block_list.iter().map(|d| (d.start_phy_address, d.num_pages)).collect();
        free.sort();
        assert_eq!(free, vec![(0x10000, 4), (0x40000, 16)]);
        assert_eq!(p.deallocate(a, pages * 4096, 4096), Err(KError::InvalidArgument));
        assert_eq!(p.avl_memory, 20 * 4096);
    }
}

#[test]
fn a_slot_that_is_given_back_comes_next() {
    let fa = FixedAllocator { region: Regions::Region0, slot_size: 8 };
    let mut heap = FixedHeap::new(0x100000);
    let kept = fa.alloc_slots(&mut heap, 16).unwrap();
    let before = heap.bitmap.clone();
    let p = fa.alloc_slots(&mut heap, 24).unwrap();
    let q = fa.alloc_slots(&mut heap, 8).unwrap();
    fa.dealloc_slots(&mut heap, q, 8);
    fa.dealloc_slots(&mut heap, p, 24);
    assert_eq!(heap.bitmap, before);
    assert_eq!(fa.alloc_slots(&mut heap, 24), Ok(p));
    assert_ne!(p, kept);
}

#[test]
fn a_process_by_call() {
    let mut m = machine();
    let me = spawn(&mut m, 0);
    for (flags, status) in [(0, ProcessStatus::Ready), (1, ProcessStatus::Suspended)] {
        let t = thread(&mut m);
        let parts = ProcessParts {
            addr_space: Ok(6),
            term_notify: m.sched.new_event(false),
            init_notify: m.sched.new_event(false),
            thread: Ok(t),
        };
        let request = ProcessRequest { args: vec![bytes("x")], envp: Vec::new() };
        let id = begin_create_process(&mut m.procs, &mut m.pipes, &mut m.sched, me, request, flags, parts).unwrap();
        let p = &m.procs.procs[m.procs.find(id).unwrap()];
        assert_eq!((p.status, p.is_user, p.pid), (status, true, me));
        let opened = Ok(Handle { kind: HandleKind::Process, object: id });
        let n = finish_open(&mut m.procs, me, opened, false).unwrap();
        assert_eq!(m.procs.get_handle(me, n), Some(Handle { kind: HandleKind::Process, object: id }));
    }
    let parts = ProcessParts {
        addr_space: Err(KError::OutOfMemory),
        term_notify: m.sched.new_event(false),
        init_notify: m.sched.new_event(false),
        thread: Err(KError::OutOfMemory),
    };
    let request = ProcessRequest { args: vec![bytes("x")], envp: Vec::new() };
    assert_eq!(
        begin_create_process(&mut m.procs, &mut m.pipes, &mut m.sched, me, request, 0, parts),
        Err(SysError::Kernel(KError::OutOfMemory))
    );
}
