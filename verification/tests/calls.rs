use aris::error::KError;
use aris::io::driver::{DeviceState, IoSystem, IrpMinor, Status};
use aris::io::start::{StartNext, Starting};
use aris::io::stack::query_id;
use aris::mem::block::{USER, VIRTUAL};
use aris::pipe::PipeTable;
use aris::sched::file_call::{
    CLOCK_MONOTONIC, CLOCK_WALL_TIME, FileCall, FileRequest, finish_device_read, finish_open, file_request, store_word,
    sys_create_sync_object_handler, sys_create_thread_handler, sys_fstat_handler,
    sys_get_time_ms_handler, sys_getcwd_handler, sys_readdir_handler, sys_readlink_handler, sys_seek_handler,
    sys_set_signal_handler,
};
use aris::sched::memory_call::USER_MEMORY;
use aris::sched::handle::{Handle, HandleKind};
use aris::sched::pipe_call::{create_pipe, sys_close_handler, sys_duplicate_handler};
use aris::sched::proc::{ProcessParts, ProcessTable, SignalOutcome};
use aris::sched::scheduler::{NewThread, Scheduler, WaitStep};
use aris::sched::syscall::{
    ControlInfo, Transfer, control_result, find_semaphore, sys_create_pgrp_handler, sys_create_process_handler,
    sys_device_control_handler, sys_get_process_info_handler,
    sys_get_thread_info_handler, sys_open_handler, sys_read_handler, sys_resume_process_handler,
    sys_set_session_leader_handler, sys_signal_handler, sys_wait_handler, sys_write_handler, transfer_result,
};
use aris::sched::user::{RtcTime, SEEK_CUR, SEEK_END, SEEK_SET, SyncRequest, SysError, UserMemory, UserRange};

fn bytes(s: &str) -> Vec<u8> {
    s.as_bytes().to_vec()
}

fn handle(kind: HandleKind, object: u64) -> Handle {
    Handle { kind, object }
}

fn spawn(procs: &mut ProcessTable, sched: &mut Scheduler, cur: u64, is_suspended: bool) -> u64 {
    let thread = NewThread {
        stack: Some(0x4000),
        context: 0,
        panic_base: 0,
        user_fn: Some(0x1000),
        process: 0,
        vcb: 6,
        arg_context: 0,
        term_notify: sched.new_event(false),
        per_cpu_base: 0,
    };
    let parts = ProcessParts {
        addr_space: Ok(6),
        term_notify: sched.new_event(false),
        init_notify: sched.new_event(false),
        thread: Ok(thread),
    };
    procs.create_process(sched, cur, vec![bytes("x")], true, is_suspended, parts).unwrap()
}

fn system() -> (ProcessTable, Scheduler) {
    (ProcessTable::init(5, bytes("/sys/aris")), Scheduler::init(1, 5, 0, false))
}

#[test]
fn duplicating_handles() {
    let (mut procs, mut sched) = system();
    let mut pipes = PipeTable::new();
    let me = spawn(&mut procs, &mut sched, 0, false);
    let held = spawn(&mut procs, &mut sched, me, true);
    let free = spawn(&mut procs, &mut sched, me, false);
    let file = procs.add_handle_to_proc(me, handle(HandleKind::File, 70), false);
    let to_held = procs.add_handle_to_proc(me, handle(HandleKind::Process, held), false);
    let to_free = procs.add_handle_to_proc(me, handle(HandleKind::Process, free), false);
    assert_eq!(sys_duplicate_handler(&mut procs, &mut pipes, me, -1, file, -1, 1).0.ok(), Some(3));
    assert_eq!(procs.get_handle(me, 3), Some(handle(HandleKind::File, 70)));
    assert_eq!(sys_duplicate_handler(&mut procs, &mut pipes, me, -1, file, 9, 0).0.ok(), Some(9));
    assert_eq!(procs.get_handle(me, 9), Some(handle(HandleKind::File, 70)));
    assert_eq!(sys_duplicate_handler(&mut procs, &mut pipes, me, to_held as i64, file, 0, 0).0.ok(), Some(0));
    assert_eq!(procs.get_handle(held, 0), Some(handle(HandleKind::File, 70)));
    assert_eq!(sys_duplicate_handler(&mut procs, &mut pipes, me, to_free as i64, file, 0, 0).0, Err(SysError::NoPerm));
    assert_eq!(sys_duplicate_handler(&mut procs, &mut pipes, me, file as i64, file, 0, 0).0, Err(SysError::Invalid));
    assert_eq!(sys_duplicate_handler(&mut procs, &mut pipes, me, -1, 50, -1, 0).0, Err(SysError::Invalid));
    assert_eq!(sys_duplicate_handler(&mut procs, &mut pipes, me, -1, file, -1, 2).0, Err(SysError::Invalid));
}

#[test]
fn calls_on_processes() {
    let (mut procs, mut sched) = system();
    let me = spawn(&mut procs, &mut sched, 0, false);
    let child = spawn(&mut procs, &mut sched, me, true);
    let to_child = procs.add_handle_to_proc(me, handle(HandleKind::Process, child), false);
    let gone = procs.add_handle_to_proc(me, handle(HandleKind::Process, 99), false);
    let file = procs.add_handle_to_proc(me, handle(HandleKind::File, 1), false);

    assert_eq!(sys_set_session_leader_handler(&mut procs, me, -1), Ok(()));
    assert_eq!(sys_set_session_leader_handler(&mut procs, me, -1), Err(SysError::NoPerm));
    assert_eq!(sys_set_session_leader_handler(&mut procs, me, gone as i64), Err(SysError::ProcessTerminated));
    assert_eq!(sys_set_session_leader_handler(&mut procs, me, file as i64), Err(SysError::Invalid));
    assert_eq!(sys_create_pgrp_handler(&mut procs, me, to_child as i64), Ok(()));
    assert_eq!(sys_create_pgrp_handler(&mut procs, me, to_child as i64), Err(SysError::NoPerm));
    assert_eq!(sys_create_pgrp_handler(&mut procs, me, 40), Err(SysError::Invalid));

    assert_eq!(sys_get_process_info_handler(&procs, me, -1).map(|i| i.id), Ok(me));
    assert_eq!(sys_get_process_info_handler(&procs, me, to_child as i64).map(|i| (i.id, i.pid)), Ok((child, me)));
    assert_eq!(sys_get_process_info_handler(&procs, me, file as i64).err(), Some(SysError::ProcessTerminated));
    assert_eq!(sys_get_process_info_handler(&procs, me, 40).err(), Some(SysError::Invalid));

    let i = procs.find(child).unwrap();
    let t = procs.procs[i].get_first_task().unwrap();
    let to_thread = procs.add_handle_to_proc(me, handle(HandleKind::Thread, t), false);
    assert_eq!(sys_get_thread_info_handler(&procs, &sched, me, to_thread).map(|i| i.id), Ok(t));
    assert_eq!(sys_get_thread_info_handler(&procs, &sched, me, file).err(), Some(SysError::Invalid));

    assert_eq!(sys_resume_process_handler(&mut procs, &mut sched, me, gone), Err(SysError::ProcessTerminated));
    assert_eq!(sys_resume_process_handler(&mut procs, &mut sched, me, file), Err(SysError::Invalid));

    // A process that has ended is still known.
    let _ = procs.remove_thread(child, t, 5);
    assert!(procs.find(child).is_none());
    assert_eq!(sys_get_process_info_handler(&procs, me, to_child as i64).map(|i| i.exit_code), Ok(5));
}

#[test]
fn waiting_and_signalling_by_handle() {
    let (mut procs, mut sched) = system();
    let me = spawn(&mut procs, &mut sched, 0, false);
    let sem = sched.new_sem(0, 2);
    let n = procs.add_handle_to_proc(me, handle(HandleKind::Sync, sem as u64), false);
    let file = procs.add_handle_to_proc(me, handle(HandleKind::File, 1), false);
    assert_eq!(find_semaphore(&procs, &sched, me, n), Ok(sem));
    assert_eq!(find_semaphore(&procs, &sched, me, file), Err(SysError::Invalid));
    assert!(matches!(
        sys_wait_handler(&procs, &mut sched, 0, me, n, 0),
        Ok(WaitStep::Done(Err(KError::WaitTimedOut)))
    ));
    assert_eq!(sys_signal_handler(&procs, &mut sched, me, n), Ok(()));
    assert!(matches!(sys_wait_handler(&procs, &mut sched, 0, me, n, u64::MAX), Ok(WaitStep::Done(Ok(())))));
    assert!(matches!(sys_wait_handler(&procs, &mut sched, 0, me, n, u64::MAX), Ok(WaitStep::Blocked)));
    assert!(sys_wait_handler(&procs, &mut sched, 0, me, 30, 0).is_err());
    assert_eq!(sys_signal_handler(&procs, &mut sched, me, file), Err(SysError::Invalid));
}

#[test]
fn transfers_by_kind_of_handle() {
    let (mut procs, mut sched) = system();
    let me = spawn(&mut procs, &mut sched, 0, false);
    let file = procs.add_handle_to_proc(me, handle(HandleKind::File, 1), false);
    let dev = procs.add_handle_to_proc(me, handle(HandleKind::Device, 2), false);
    assert_eq!(sys_read_handler(&procs, me, file, 0), Ok(Transfer::Nothing));
    assert_eq!(sys_read_handler(&procs, me, file, 9), Ok(Transfer::File(1)));
    assert_eq!(sys_write_handler(&procs, me, dev, 9), Ok(Transfer::Device(2)));
    assert_eq!(sys_write_handler(&procs, me, 77, 9), Err(SysError::Invalid));

    let mut pipes = PipeTable::new();
    let (r, w) = create_pipe(&mut procs, &mut pipes, me, Some(bytes("p")), true).unwrap();
    assert_eq!(pipes.pipes[0].writer_count, 1);
    let id = pipes.pipes[0].id;
    assert_eq!(sys_read_handler(&procs, me, r, 9), Ok(Transfer::Pipe(id)));
    assert_eq!(sys_write_handler(&procs, me, w, 9), Ok(Transfer::Pipe(id)));
    assert_eq!(sys_read_handler(&procs, me, w, 9), Err(SysError::Invalid));
    assert_eq!(sys_write_handler(&procs, me, r, 9), Err(SysError::Invalid));
    assert_eq!(
        create_pipe(&mut procs, &mut pipes, me, Some(bytes("p")), true),
        Err(SysError::Kernel(KError::InvalidArgument))
    );

    assert_eq!(transfer_result(Ok(Status::Success), 4, false), Ok(4));
    assert_eq!(transfer_result(Ok(Status::Failed), 4, false), Err(SysError::Invalid));
    assert_eq!(transfer_result(Err(KError::DeviceStopped), 4, false), Err(SysError::Kernel(KError::DeviceStopped)));
    assert_eq!(transfer_result(Err(KError::DeviceStopped), 4, true), Err(SysError::Invalid));

    let control = |m: IrpMinor| sys_device_control_handler(&procs, me, dev, Some(m), 0x1ff);
    assert_eq!(control(IrpMinor::SetForegroundPgrp), Ok((2, ControlInfo::Process(0x1ff))));
    assert_eq!(control(IrpMinor::SetTtyMode), Ok((2, ControlInfo::Mode(0xff))));
    assert_eq!(control(IrpMinor::GetTtyMode), Ok((2, ControlInfo::Mode(0))));
    assert_eq!(control(IrpMinor::Start), Err(SysError::Invalid));
    assert_eq!(sys_device_control_handler(&procs, me, file, Some(IrpMinor::SetTtyMode), 0), Err(SysError::Invalid));
    assert_eq!(control_result(Ok(Status::Success)), Ok(()));
    assert_eq!(control_result(Ok(Status::Failed)), Err(SysError::NoPerm));
    assert_eq!(control_result(Err(KError::DeviceStopped)), Err(SysError::Invalid));
}

#[test]
fn requests_are_read_from_user_memory() {
    let page = |start: &[u8]| {
        let mut p = start.to_vec();
        p.resize(4096, 0);
        p
    };
    let m = UserMemory {
        ranges: vec![
            UserRange { base: 0x1000, bytes: page(b"ls\0-l\0\0") },
            UserRange { base: 0x4000, bytes: page(&[0xff, 0]) },
            UserRange { base: 0x6000, bytes: page(&[0x1000u64.to_le_bytes(), 0x1003u64.to_le_bytes()].concat()) },
            UserRange { base: 0x8000, bytes: page(&[0x4000u64.to_le_bytes(), 0x1003u64.to_le_bytes()].concat()) },
        ],
    };
    let r = sys_create_process_handler(&m, 0x6000, 2, 0).ok().unwrap();
    assert_eq!(r.args, vec![bytes("ls"), bytes("-l")]);
    assert!(r.envp.is_empty());
    let r = sys_create_process_handler(&m, 0x6000, 1, 0x6000).ok().unwrap();
    assert_eq!(r.envp, vec![bytes("ls"), bytes("-l")]);
    assert_eq!(sys_create_process_handler(&m, 0, 2, 0).err(), Some(SysError::Invalid));
    assert_eq!(sys_create_process_handler(&m, 0x6000, 0, 0).err(), Some(SysError::Invalid));
    assert_eq!(sys_create_process_handler(&m, 0x6000, 4000, 0).err(), Some(SysError::InvalidMemoryRange));
    assert_eq!(sys_create_process_handler(&m, 0x8000, 2, 0).err(), Some(SysError::Invalid));
    assert_eq!(sys_create_process_handler(&m, 0x6000, 2, 0xa000).err(), Some(SysError::InvalidMemoryRange));

    assert_eq!(sys_open_handler(&m, 0x1000, 0x1003), Ok((bytes("ls"), bytes("-l"))));
    assert_eq!(sys_open_handler(&m, 0, 0x1003), Err(SysError::Invalid));
    assert_eq!(sys_open_handler(&m, 0x1000, 0x1006), Err(SysError::Invalid));
    assert_eq!(sys_open_handler(&m, 0x9990000, 0x1003), Err(SysError::InvalidMemoryRange));
}

fn driver(io: &mut IoSystem, name: &str) -> u64 {
    let id = io.register_driver(true).unwrap();
    io.finish_load(id, bytes(name), Status::Success).unwrap()
}

/// Starts a device, with the answers that drivers give by device.
fn run_start(io: &mut IoSystem, id: u64, fails: &[u64]) -> (Option<Result<Status, KError>>, Vec<u64>) {
    let mut s = Starting::start(id);
    let mut order = Vec::new();
    loop {
        match s.do_start(io) {
            StartNext::Done => return (s.result, order),
            StartNext::Again => {}
            StartNext::Dispatch { device, .. } => {
                order.push(device);
                s.on_answer(io, Ok(if fails.contains(&device) { Status::Failed } else { Status::Success }));
            }
        }
    }
}

#[test]
fn a_start_goes_down_the_tree() {
    let mut io = IoSystem::init();
    let drv = driver(&mut io, "bus");
    let bus = io.io_create_device(drv, None, Some(0), false).unwrap();
    let a = io.io_create_device(drv, None, Some(bus), false).unwrap();
    let b = io.io_create_device(drv, None, Some(a), false).unwrap();
    let c = io.io_create_device(drv, None, Some(bus), false).unwrap();
    let (r, order) = run_start(&mut io, bus, &[]);
    assert_eq!(r, Some(Ok(Status::Success)));
    assert_eq!(order, vec![bus]);
    for id in [a, b, c] {
        assert_eq!(run_start(&mut io, id, &[]).1, vec![id]);
    }
    // What was enabled comes back with its parent, in order.
    io.stop(bus, false);
    assert_eq!(run_start(&mut io, bus, &[]).1, vec![bus, a, b, c]);
    assert_eq!(io.get_device(b).unwrap().state, DeviceState::Started);
    // Below a device that does not come up nothing is started.
    io.stop(bus, false);
    let (r, order) = run_start(&mut io, bus, &[a]);
    assert_eq!(r, Some(Ok(Status::Success)));
    assert_eq!(order, vec![bus, a, c]);
    assert_eq!(io.get_device(b).unwrap().state, DeviceState::Stopped);
    assert_eq!(run_start(&mut io, bus, &[]).0, Some(Err(KError::DeviceStarted)));
    assert_eq!(run_start(&mut io, 99, &[]).0, Some(Err(KError::DeviceRemoved)));
}

fn user_memory() -> UserMemory {
    UserMemory {
        ranges: vec![
            UserRange { base: 0x1000, bytes: vec![0xee; 16] },
            UserRange { base: 0x2000, bytes: vec![0xee; 8] },
        ],
    }
}

#[test]
fn what_is_copied_is_read() {
    let mut m = user_memory();
    assert!(m.copy_to_user(0x1004, &bytes("abc")));
    assert_eq!(m.copy_from_user(0x1003, 5), Some(vec![0xee, b'a', b'b', b'c', 0xee]));
    assert!(!m.copy_to_user(0x100e, &bytes("abc")));
    assert_eq!(m.copy_from_user(0x100e, 2), Some(vec![0xee, 0xee]));
    assert_eq!(m.copy_from_user(0x100e, 3), None);
    assert_eq!(store_word(&mut m, 0x0102, 0x2000), Ok(()));
    assert_eq!(m.copy_from_user(0x2000, 8), Some(vec![2, 1, 0, 0, 0, 0, 0, 0]));
    assert_eq!(store_word(&mut m, 1, 0x2001), Err(SysError::InvalidMemoryRange));
}

#[test]
fn names_go_to_user_buffers() {
    let (mut procs, mut sched) = system();
    let me = spawn(&mut procs, &mut sched, 0, false);
    let file = procs.add_handle_to_proc(me, handle(HandleKind::File, 1), false);
    let dev = procs.add_handle_to_proc(me, handle(HandleKind::Device, 1), false);

    let mut m = user_memory();
    assert_eq!(sys_readdir_handler(&procs, &mut m, me, file, &Ok(bytes("ab")), 0x1000, 3, 0x2000), Ok(()));
    assert_eq!(m.ranges[0].bytes[..4], [b'a', b'b', 0, 0xee]);
    assert_eq!(m.ranges[1].bytes, vec![3, 0, 0, 0, 0, 0, 0, 0]);
    assert_eq!(
        sys_readdir_handler(&procs, &mut m, me, file, &Ok(bytes("ab")), 0x1000, 2, 0x2000),
        Err(SysError::BufTooSmall)
    );
    assert_eq!(
        sys_readdir_handler(&procs, &mut m, me, file, &Err(KError::InvalidArgument), 0x1000, 9, 0x2000),
        Err(SysError::Kernel(KError::InvalidArgument))
    );
    assert_eq!(
        sys_readdir_handler(&procs, &mut m, me, dev, &Ok(bytes("ab")), 0x1000, 9, 0x2000),
        Err(SysError::Invalid)
    );

    // What was written before the failure stays.
    let mut m = user_memory();
    assert_eq!(sys_readlink_handler(&mut m, &Ok(Some(bytes("12345678"))), 0x2000, 99, 0x1000), Err(SysError::InvalidMemoryRange));
    assert_eq!(m.ranges[1].bytes, bytes("12345678"));
    assert_eq!(m.ranges[0].bytes, vec![0xee; 16]);
    assert_eq!(sys_readlink_handler(&mut m, &Ok(None), 0x2000, 99, 0x1000), Err(SysError::Invalid));
    assert_eq!(
        sys_readlink_handler(&mut m, &Err(KError::InvalidArgument), 0x2000, 99, 0x1000),
        Err(SysError::Kernel(KError::InvalidArgument))
    );

    let mut m = user_memory();
    assert_eq!(sys_getcwd_handler(&mut m, &bytes("/l"), &Some(bytes("/dir")), 0x1000, 16, 0x2000), Ok(()));
    assert_eq!(m.ranges[0].bytes[..5], *b"/dir\0");
    assert_eq!(sys_getcwd_handler(&mut m, &bytes("/l"), &None, 0x1000, 16, 0x2000), Ok(()));
    assert_eq!(m.ranges[0].bytes[..5], *b"/l\0r\0");
    assert_eq!(m.ranges[1].bytes[0], 3);

    let mut m = user_memory();
    assert_eq!(finish_device_read(&mut m, Ok(Status::Success), &bytes("xy"), 0x1000, 0x2000), Ok(()));
    assert_eq!((m.ranges[0].bytes[1], m.ranges[1].bytes[0]), (b'y', 2));
    assert_eq!(finish_device_read(&mut m, Ok(Status::Failed), &bytes("xy"), 0x1000, 0x2000), Err(SysError::Invalid));
    assert_eq!(
        finish_device_read(&mut m, Err(KError::DeviceStopped), &bytes("xy"), 0x1000, 0x2000),
        Err(SysError::Kernel(KError::DeviceStopped))
    );
    assert_eq!(
        finish_device_read(&mut m, Ok(Status::Success), &bytes("xy"), 0x9000, 0x2000),
        Err(SysError::InvalidMemoryRange)
    );
}

#[test]
fn requests_on_files() {
    let mut page = b"/a\0/b\0\0".to_vec();
    page.resize(4096, 0);
    let m = UserMemory { ranges: vec![UserRange { base: 0x1000, bytes: page }] };
    let ask = |c: FileCall, a: u64, b: u64| file_request(&m, c, a, b);
    assert!(matches!(ask(FileCall::DeleteFile, 0x1000, 0), Ok(FileRequest::Delete(p)) if p == b"/a"));
    assert!(matches!(ask(FileCall::RemoveDirectory, 0x1003, 0), Ok(FileRequest::Delete(p)) if p == b"/b"));
    assert!(matches!(ask(FileCall::MakeDirectory, 0x1000, 0), Ok(FileRequest::MakeDirectory(p)) if p == b"/a"));
    assert!(matches!(ask(FileCall::ChangeDirectory, 0x1000, 0), Ok(FileRequest::ChangeDirectory(p)) if p == b"/a"));
    assert!(matches!(ask(FileCall::ReadLink, 0x1000, 0), Ok(FileRequest::LinkTarget(p)) if p == b"/a"));
    assert!(matches!(ask(FileCall::RenameFile, 0x1000, 0x1003),
        Ok(FileRequest::Rename { from, to }) if from == b"/a" && to == b"/b"));
    assert!(matches!(ask(FileCall::CreateSymlink, 0x1003, 0x1000),
        Ok(FileRequest::Link { path, target }) if path == b"/b" && target == b"/a"));
    assert!(matches!(ask(FileCall::CreateFile, 0x1000, 2),
        Ok(FileRequest::Open { must_exist: true, is_inheritable: false, .. })));
    assert!(matches!(ask(FileCall::CreateFile, 0x1000, 5),
        Ok(FileRequest::Open { must_exist: false, is_inheritable: true, .. })));
    assert_eq!(ask(FileCall::DeleteFile, 0x1006, 0).err(), Some(SysError::Invalid));
    assert_eq!(ask(FileCall::DeleteFile, 0x5000, 0).err(), Some(SysError::InvalidMemoryRange));
    assert_eq!(ask(FileCall::RenameFile, 0x1000, 0x5000).err(), Some(SysError::InvalidMemoryRange));
}

#[test]
fn handles_of_files() {
    let (mut procs, mut sched) = system();
    let me = spawn(&mut procs, &mut sched, 0, false);
    assert_eq!(finish_open(&mut procs, me, Err(KError::InvalidArgument), true), Err(SysError::Kernel(KError::InvalidArgument)));
    let file = finish_open(&mut procs, me, Ok(handle(HandleKind::File, 70)), true).unwrap();
    let sync = finish_open(&mut procs, me, Ok(handle(HandleKind::Sync, 2)), false).unwrap();
    assert_eq!(sys_seek_handler(&procs, me, file, 5, SEEK_SET, 10, 100), Ok((70, 5)));
    assert_eq!(sys_seek_handler(&procs, me, file, -4, SEEK_CUR, 10, 100), Ok((70, 6)));
    assert_eq!(sys_seek_handler(&procs, me, file, 1, SEEK_END, 10, 100), Ok((70, 101)));
    assert_eq!(sys_seek_handler(&procs, me, file, -11, SEEK_CUR, 10, 100), Err(SysError::Invalid));
    assert_eq!(sys_seek_handler(&procs, me, file, 0, 3, 10, 100), Err(SysError::Invalid));
    assert_eq!(sys_seek_handler(&procs, me, sync, 0, SEEK_SET, 10, 100), Err(SysError::Invalid));

    let stat = sys_fstat_handler(&procs, me, file, 9, 7).ok().unwrap();
    assert_eq!((stat.size, stat.mode, stat.handle_type), (9, 7, HandleKind::File));
    let stat = sys_fstat_handler(&procs, me, sync, 9, 7).ok().unwrap();
    assert_eq!((stat.size, stat.mode, stat.handle_type), (0, 0, HandleKind::Sync));
    assert_eq!(sys_fstat_handler(&procs, me, 30, 9, 7).err(), Some(SysError::Invalid));

    let mut pipes = PipeTable::new();
    assert_eq!(sys_close_handler(&mut procs, &mut pipes, me, file), (Ok(()), None));
    assert_eq!(sys_close_handler(&mut procs, &mut pipes, me, file), (Err(SysError::Invalid), None));
    assert_eq!(procs.get_handle(me, file), None);
    assert_eq!(procs.procs[procs.find(me).unwrap()].get_num_handles(), 2);
}

#[test]
fn clocks() {
    let mut m = user_memory();
    let now = RtcTime { second: 1, minute: 0, hour: 0, day: 1, month: 1, year: 0 };
    assert_eq!(sys_get_time_ms_handler(&mut m, CLOCK_MONOTONIC, 259, now, 0x2000), Ok(()));
    assert_eq!(m.ranges[1].bytes, 259u64.to_le_bytes().to_vec());
    assert_eq!(sys_get_time_ms_handler(&mut m, CLOCK_WALL_TIME, 259, now, 0x2000), Ok(()));
    assert_eq!(m.ranges[1].bytes, 946684801000u64.to_le_bytes().to_vec());
    assert_eq!(sys_get_time_ms_handler(&mut m, 2, 259, now, 0x2000), Err(SysError::Invalid));
    assert_eq!(sys_get_time_ms_handler(&mut m, CLOCK_MONOTONIC, 259, now, 0x2004), Err(SysError::Invalid));
}

#[test]
fn things_to_wait_for() {
    let mut page = b"lock\0".to_vec();
    page.resize(4096, 0);
    let m = UserMemory { ranges: vec![UserRange { base: 0x1000, bytes: page }] };
    let made = sys_create_sync_object_handler(&m, 0, 1, 4, 0, 1, 0x1000).ok().unwrap();
    assert_eq!(made.request, SyncRequest::Semaphore { init_count: 1, max_count: 4 });
    assert!(made.is_inheritable);
    assert_eq!(made.name, Some(bytes("lock")));
    let made = sys_create_sync_object_handler(&m, 1, 0, 0, 1, 0, 0x1004).ok().unwrap();
    assert_eq!(made.request, SyncRequest::Event { is_auto_reset: true });
    assert_eq!(made.name, None);
    assert_eq!(sys_create_sync_object_handler(&m, 0, 1, 0, 0, 0, 0).err(), Some(SysError::Invalid));
    assert_eq!(sys_create_sync_object_handler(&m, 1, 1, 0, 2, 0, 0).err(), Some(SysError::Invalid));
    assert_eq!(sys_create_sync_object_handler(&m, 1, 1, 0, 0, 2, 0).err(), Some(SysError::Invalid));
    assert_eq!(sys_create_sync_object_handler(&m, 1, 1, 0, 0, 0, 0x9000).err(), Some(SysError::InvalidMemoryRange));
}

#[test]
fn threads_by_call() {
    let (mut procs, mut sched) = system();
    let me = spawn(&mut procs, &mut sched, 0, false);
    let parts = NewThread {
        stack: Some(0x8000),
        context: 0,
        panic_base: 0,
        user_fn: None,
        process: 0,
        vcb: 0,
        arg_context: 0,
        term_notify: sched.new_event(false),
        per_cpu_base: 0,
    };
    assert_eq!(
        sys_create_thread_handler(&mut procs, &mut sched, me, 0, 0, parts),
        Err(SysError::Kernel(KError::InvalidArgument))
    );
    let n = sys_create_thread_handler(&mut procs, &mut sched, me, 0x1234, 0x77, parts).unwrap();
    let t = procs.get_handle(me, n).unwrap();
    assert_eq!(t.kind, HandleKind::Thread);
    let task = sched.get_task_info(t.object).unwrap();
    assert_eq!((task.get_user_fn(), task.get_arg_context()), (Some(0x1234), 0x77));
    assert_eq!(task.get_process(), Some(me));
    assert!(task.is_user_thread());
    let p = &procs.procs[procs.find(me).unwrap()];
    assert_eq!((p.get_id(), p.get_num_threads(), p.get_user_flag()), (me, 2, true));
}

#[test]
fn signals_to_a_group() {
    let (mut procs, mut sched) = system();
    let a = spawn(&mut procs, &mut sched, 0, false);
    let b = spawn(&mut procs, &mut sched, a, false);
    let c = spawn(&mut procs, &mut sched, a, false);
    assert_eq!(sys_create_pgrp_handler(&mut procs, a, -1), Ok(()));
    assert_eq!(procs.group_processes(a), vec![a]);
    assert_eq!(sys_set_signal_handler(&mut procs, b, 200, 5, 0), Err(SysError::Invalid));
    assert_eq!(sys_set_signal_handler(&mut procs, b, 1, 0, 0), Err(SysError::Invalid));
    assert_eq!(sys_set_signal_handler(&mut procs, b, 1, 0x500, 0), Ok(()));
    let group = procs.procs[procs.find(b).unwrap()].pgroup;
    let members = procs.group_processes(group);
    assert!(members.contains(&b) && members.contains(&c));
    // Those without a handler are to be killed.
    assert_eq!(procs.issue_signal(&mut sched, c, 1), SignalOutcome::Kill);
    let killed: Vec<u64> = procs.issue_pgrp(&mut sched, a, 1);
    assert_eq!(killed, vec![a]);
}

#[test]
fn ids_of_devices() {
    let id: Vec<char> = "usb".chars().collect();
    assert_eq!(query_id(Ok(Status::Success), id.clone()), Some(id.clone()));
    assert_eq!(query_id(Ok(Status::Failed), id.clone()), None);
    assert_eq!(query_id(Err(KError::DeviceStopped), id), None);
    assert_eq!(query_id(Ok(Status::Success), Vec::new()), None);
}

#[test]
fn flags_of_user_memory() {
    assert_eq!(USER_MEMORY, VIRTUAL | USER);
}
