use aris::error::KError;
use aris::intf::interface::{IntfHandler, Interfaces};
use aris::intf::process::{
    INFO_SIZE, INTF_PROCESS_COMMAND_LINE, INTF_PROCESS_GENERAL_INFO, ProcessSnapshot, handle_process_request,
};
use aris::intf::system::{INTF_SYSTEM_KLOG, IntfReply, handle_system_request};
use aris::logger::console::Console;
use aris::logger::framebuffer_logger::{FramebufferLogger, INK, load_font};
use aris::logger::kring::{KRING_CAPACITY, KernelRingBuf, MAX_MSG_COPY};
use aris::logger::route::Logger;
use aris::logger::serial_logger::{SerialLogger, TEST_BYTE};
use aris::mem::block::{PageDescriptor, VIRTUAL};
use aris::mem::frame_allocator::PhyMemConBlk;
use aris::mem::manager::MemoryManager;
use aris::mem::virtual_allocator::{MapFetchType, VirtMemConBlk};
use aris::object::{ObjectTypes, Opener};
use aris::pipe::{MAX_STREAM_CAPACITY, OPEN_WRITE_FLAG, Pipe, PipeTable, ReadStep, WriteStep};
use aris::registry::Registry;
use aris::sched::proc::ProcessStatus;
use aris::sched::user::{
    RtcTime, SEEK_CUR, SEEK_END, SEEK_SET, SYNC_TYPE_EVENT, SYNC_TYPE_SEMAPHORE, SyncRequest, SysError, Syscall, UserMemory,
    UserRange, layout_fits, push_args_and_envp_to_user_stack, rtc_to_unix_ms, seek_target, signal_handler_args,
    sync_request, syscall_dispatcher, target_process, wait_timeout,
};
use aris::shutdown::{Shutdown, ShutdownStep, StepOutcome};

fn bytes(s: &str) -> Vec<u8> {
    s.as_bytes().to_vec()
}

#[test]
fn messages_are_kept_in_order() {
    let mut r = KernelRingBuf::new();
    r.push_str(&bytes("one"));
    r.push_str(&bytes("two"));
    assert_eq!(r.kring_log_for_each(), vec![bytes("one"), bytes("two")]);
}

#[test]
fn old_messages_make_room() {
    let mut r = KernelRingBuf::new();
    let long = vec![b'x'; 1000];
    let n = KRING_CAPACITY / 1000 + 5;
    for i in 0..n {
        let mut m = bytes(&format!("{:04}", i));
        m.extend_from_slice(&long);
        r.push_str(&m);
    }
    let all = r.kring_log_for_each();
    assert!(all.len() < n);
    let newest = bytes(&format!("{:04}", n - 1));
    assert_eq!(all[all.len() - 1][0..4], newest[..]);
    assert_ne!(all[0][0..4], bytes("0000")[..]);
}

#[test]
fn no_more_messages_go_than_have_to() {
    let mut r = KernelRingBuf::new();
    // Four messages fill the buffer to the last byte.
    for c in [b'a', b'b', b'c', b'd'] {
        r.push_str(&vec![c; KRING_CAPACITY / 4 - 2]);
    }
    assert_eq!((r.head, r.len), (0, KRING_CAPACITY));
    r.push_str(&bytes("x"));
    assert_eq!((r.head, r.len), (KRING_CAPACITY / 4, 3 * KRING_CAPACITY / 4 + 3));
    // What fits beside the others costs none of them.
    r.push_str(&bytes("y"));
    assert_eq!(r.head, KRING_CAPACITY / 4);
    let first: Vec<u8> = r.kring_log_for_each().iter().map(|m| m[0]).collect();
    assert_eq!(first, bytes("bcdxy"));
    // One that needs the room of two costs two.
    r.push_str(&vec![b'z'; KRING_CAPACITY / 2 - 2]);
    let first: Vec<u8> = r.kring_log_for_each().iter().map(|m| m[0]).collect();
    assert_eq!(first, bytes("dxyz"));
    // One that can never fit changes nothing.
    r.push_str(&vec![b'w'; KRING_CAPACITY - 1]);
    assert_eq!(r.kring_log_for_each().len(), 4);
}

#[test]
fn messages_that_are_no_text_are_passed_over() {
    let mut r = KernelRingBuf::new();
    r.push_str(&bytes("good"));
    r.push_str(&vec![0xff, 0xfe]);
    r.push_str(&bytes("fine"));
    assert_eq!(r.kring_log_for_each(), vec![bytes("good"), bytes("fine")]);
    let mut r = KernelRingBuf::new();
    r.push_str(&vec![b'y'; MAX_MSG_COPY + 100]);
    assert_eq!(r.kring_log_for_each()[0].len(), MAX_MSG_COPY);
}

#[test]
fn log_routing() {
    let mut l = Logger::new();
    let r = l.route(0);
    assert!(r.to_ring && r.to_screen);
    l.set_tty_mode(true);
    assert!(!l.route(0).to_screen);
    assert!(l.shows_tty());
    l.set_panic_mode(1);
    assert!(l.route(1).to_screen);
    assert!(!l.shows_tty());
}

#[test]
fn serial_line() {
    let mut s = SerialLogger::new();
    assert_eq!(s.write(&bytes("a")), Vec::<u8>::new());
    s.finish_test(TEST_BYTE);
    assert_eq!(s.write(&bytes("a\nb")), bytes("a\nb"));
    let mut bad = SerialLogger::new();
    bad.finish_test(0);
    assert_eq!(bad.write(&bytes("a")), Vec::<u8>::new());
}

fn font() -> Vec<u8> {
    // Glyphs of eight by two pixels: glyph n holds the byte n twice.
    let mut f: Vec<u8> = Vec::new();
    for w in [0x864AB572u32, 0, 32, 0, 128, 2, 2, 8] {
        f.extend_from_slice(&w.to_le_bytes());
    }
    for i in 0..128u8 {
        f.push(i);
        f.push(i);
    }
    f
}

fn screen() -> FramebufferLogger {
    let f = load_font(&font());
    assert_eq!((f.width, f.height, f.numglyph), (8, 2, 128));
    let mut fb = vec![7u32; 64];
    let mut s = FramebufferLogger::init(0x8000, 16, 4, 16, &font(), 0x1000, 1, &mut fb);
    assert!(fb.iter().all(|p| *p == 0));
    assert_eq!((s.fb_base, s.glyph_base, s.scratch.len()), (0x8000, 0x1020, 64));
    assert!(!s.is_cursor_disabled);
    s.disable_cursor();
    s
}

#[test]
fn characters_are_drawn_and_scrolled() {
    let mut s = screen();
    let mut fb = vec![7u32; 64];
    s.clear_screen(&mut fb);
    assert!(fb.iter().all(|p| *p == 0));
    let text: Vec<char> = "\u{41}".chars().collect();
    s.write(&text, 1);
    let row: Vec<bool> = (0..8).map(|i| s.scratch[i] == INK).collect();
    // 0x41 is 0100 0001.
    assert_eq!(row, vec![false, true, false, false, false, false, false, true]);
    assert_eq!((s.current_x, s.current_y), (8, 0));
    let nl: Vec<char> = "\n".chars().collect();
    s.write(&nl, 1);
    assert_eq!((s.current_x, s.current_y), (0, 2));
    fb = vec![7u32; 64];
    s.flush_log(&mut fb);
    assert_eq!(fb[1], INK);
    assert_eq!(fb[0], 0);
    s.write(&nl, 1);
    // The first line has left the screen.
    let mut fb = vec![7u32; 64];
    s.flush_log(&mut fb);
    assert!(fb[0..16].iter().all(|p| *p == 0));
    s.disable_cursor();
    assert!(s.is_cursor_disabled);
}

#[test]
fn names_are_registered_once() {
    let mut r: Registry<u64> = Registry::new();
    assert_eq!(r.register(bytes("a"), 1), Ok(()));
    assert!(r.register(bytes("a"), 2).is_err());
    assert_eq!(r.lookup(&bytes("a")), Some(1));
    assert_eq!(r.lookup(&bytes("b")), None);

    let mut o = ObjectTypes::new();
    o.register_object_type(bytes("device"), Opener::Device).unwrap();
    assert!(o.register_object_type(bytes("device"), Opener::Pipe).is_err());
    assert!(matches!(o.open_object(&bytes("device")), Ok(Opener::Device)));
    assert_eq!(o.open_object(&bytes("none")).err(), Some(KError::InvalidArgument));
    PipeTable::init(&mut o, bytes("pipe")).unwrap();
    assert!(matches!(o.open_object(&bytes("pipe")), Ok(Opener::Pipe)));
}

#[test]
fn a_pipe_gives_back_what_was_written() {
    let mut p = Pipe::new(1, None);
    p.add_end(false);
    assert!(matches!(p.read(10), ReadStep::Block));
    let (w, wake) = p.write(&bytes("hello"));
    assert!(matches!(w, WriteStep::Took(5)));
    assert!(wake.readers);
    match p.read(3) {
        ReadStep::Give(b) => assert_eq!(b, bytes("hel")),
        _ => panic!("there is something to read"),
    }
    let wake = p.finish_read(3, true);
    assert!(wake.writers);
    match p.read(10) {
        ReadStep::Give(b) => assert_eq!(b, bytes("lo")),
        _ => panic!("there is something to read"),
    }
    let _ = p.finish_read(2, true);
    let big = vec![1u8; MAX_STREAM_CAPACITY + 10];
    assert!(matches!(p.write(&big).0, WriteStep::Took(n) if n == MAX_STREAM_CAPACITY));
    assert!(matches!(p.write(&big).0, WriteStep::Block));
    let _ = p.finish_read(MAX_STREAM_CAPACITY, true);
    assert!(p.drop_end(false));
    assert!(matches!(p.read(10), ReadStep::Eof));
}

#[test]
fn named_pipes() {
    let mut t = PipeTable::new();
    let id = t.create_named_pipe(Some(bytes("log"))).unwrap();
    assert!(t.create_named_pipe(Some(bytes("log"))).is_err());
    let w = t.open_pipe(&bytes("log"), OPEN_WRITE_FLAG).unwrap();
    assert_eq!((w.pipe, w.is_reader), (id, false));
    assert!(t.open_pipe(&bytes("log"), 0).unwrap().is_reader);
    assert!(t.open_pipe(&bytes("none"), 0).is_err());
}

#[test]
fn interfaces_answer_requests() {
    let i = Interfaces::init();
    assert!(matches!(i.lookup_intf(&aris::intf::system::name()).unwrap().handler, IntfHandler::System));
    assert!(matches!(i.lookup_intf(&aris::intf::process::name()).unwrap().handler, IntfHandler::Process));
    assert!(i.lookup_intf(&bytes("none")).is_none());

    let mut ring = KernelRingBuf::new();
    ring.push_str(&bytes("ab"));
    ring.push_str(&bytes("cd"));
    match handle_system_request(INTF_SYSTEM_KLOG, 0, &ring).unwrap() {
        IntfReply::Size(n) => assert!(n > 0),
        IntfReply::Bytes(_) => panic!("only the size was asked for"),
    }
    match handle_system_request(INTF_SYSTEM_KLOG, 4, &ring).unwrap() {
        IntfReply::Bytes(b) => assert_eq!(b, bytes("abcd")),
        IntfReply::Size(_) => panic!("there is room for it"),
    }
    assert!(handle_system_request(9, 4, &ring).is_err());

    let snapshot = vec![ProcessSnapshot { id: 1, ppid: 0, pgid: 2, sid: 3, num_threads: 4, status: ProcessStatus::Ready }];
    match handle_process_request(INTF_PROCESS_GENERAL_INFO, INFO_SIZE, &snapshot, &None).unwrap() {
        IntfReply::Bytes(b) => {
            assert_eq!(b.len() as u64, INFO_SIZE);
            assert_eq!(b[0..8], 1u64.to_le_bytes());
        }
        IntfReply::Size(_) => panic!("there is room for it"),
    }
    match handle_process_request(INTF_PROCESS_COMMAND_LINE, 100, &snapshot, &Some(vec![bytes("a"), bytes("b")])).unwrap() {
        IntfReply::Bytes(b) => assert_eq!(b, b"a b\0".to_vec()),
        IntfReply::Size(_) => panic!("there is room for it"),
    }
    assert!(handle_process_request(INTF_PROCESS_COMMAND_LINE, 100, &snapshot, &None).is_err());
    assert!(handle_process_request(7, 0, &snapshot, &None).is_err());
}

#[test]
fn system_call_numbers() {
    assert!(matches!(syscall_dispatcher(0), Ok(Syscall::Exit)));
    assert!(matches!(syscall_dispatcher(38), Ok(Syscall::Getcwd)));
    assert!(syscall_dispatcher(39).is_err());
}

#[test]
fn user_memory_is_read_with_care() {
    let page = |start: &[u8]| {
        let mut p = start.to_vec();
        p.resize(4096, 1);
        p
    };
    let m = UserMemory {
        ranges: vec![
            UserRange { base: 0x1000, bytes: page(b"hi\0there\0") },
            UserRange { base: 0x4000, bytes: page(&[0xff, 0xff, 0]) },
            UserRange {
                base: 0x6000,
                bytes: page(&[0x1000u64.to_le_bytes(), 0x1003u64.to_le_bytes(), 0u64.to_le_bytes()].concat()),
            },
        ],
    };
    assert_eq!(m.copy_from_user(0x1000, 2), Some(bytes("hi")));
    assert_eq!(m.copy_from_user(0x1000, 5000), None);
    assert_eq!(m.read_c_strlen(0x1003), Some(5));
    assert_eq!(m.read_user_string(0x1003), Some(bytes("there")));
    assert_eq!(m.read_user_string(0x4000), None);
    // Nothing ends the text before the page does.
    assert_eq!(m.read_user_string(0x1010), None);
    assert_eq!(m.read_user_string(0x9000), None);
    assert_eq!(m.read_user_envp(0x6000), Some(vec![bytes("hi"), bytes("there")]));
}

#[test]
fn arguments_on_the_stack() {
    let (sp, block) = push_args_and_envp_to_user_stack(0x8000, &vec![bytes("ls"), bytes("-l")], &vec![bytes("A=1")]);
    assert_eq!(sp % 16, 0);
    assert_eq!(sp + block.len() as u64, 0x8000);
    let word = |i: usize| {
        let mut w = [0u8; 8];
        w.copy_from_slice(&block[8 * i..8 * i + 8]);
        u64::from_le_bytes(w)
    };
    assert_eq!(word(0), 2);
    let first = (word(1) - sp) as usize;
    assert_eq!(block[first..first + 3], *b"ls\0");
    let second = (word(2) - sp) as usize;
    assert_eq!(block[second..second + 3], *b"-l\0");
}

#[test]
fn wall_clock() {
    let t = |year, month, day, hour, minute, second| RtcTime { year, month, day, hour, minute, second };
    assert_eq!(rtc_to_unix_ms(t(0, 1, 1, 0, 0, 0)), 946_684_800_000);
    assert_eq!(rtc_to_unix_ms(t(24, 2, 29, 12, 0, 0)), 1_709_208_000_000);
    assert_eq!(rtc_to_unix_ms(t(24, 3, 1, 0, 0, 1)), 1_709_251_201_000);
}

#[test]
fn arguments_of_system_calls() {
    assert_eq!(seek_target(5, SEEK_SET, 10, 100).ok(), Some(5));
    assert_eq!(seek_target(5, SEEK_CUR, 10, 100).ok(), Some(15));
    assert_eq!(seek_target(-5, SEEK_END, 10, 100).ok(), Some(95));
    assert!(seek_target(-50, SEEK_CUR, 10, 100).is_err());
    assert!(seek_target(0, 9, 10, 100).is_err());

    match sync_request(SYNC_TYPE_SEMAPHORE, 1, 4, 0, 1) {
        Ok((SyncRequest::Semaphore { init_count, max_count }, inheritable)) => {
            assert_eq!((init_count, max_count, inheritable), (1, 4, true));
        }
        _ => panic!("a semaphore was asked for"),
    }
    assert!(matches!(sync_request(SYNC_TYPE_EVENT, 0, 0, 1, 0), Ok((SyncRequest::Event { is_auto_reset: true }, false))));
    assert!(sync_request(SYNC_TYPE_SEMAPHORE, 0, 0, 0, 0).is_err());
    assert!(sync_request(SYNC_TYPE_EVENT, 0, 0, 2, 0).is_err());
    assert!(sync_request(SYNC_TYPE_EVENT, 0, 0, 1, 2).is_err());

    assert_eq!(wait_timeout(50), Some(50));
    assert_eq!(wait_timeout(u64::MAX), None);

    assert!(signal_handler_args(2, 0x1000, 0).is_ok());
    assert!(signal_handler_args(9, 0x1000, 0).is_err());
    assert!(layout_fits(4096));
    assert!(!layout_fits(u64::MAX));

    assert_eq!(target_process(-1, 7, None, None).ok(), Some(7));
    assert!(target_process(3, 7, None, None).is_err());
}

#[test]
fn the_way_down() {
    let s = Shutdown { restart: true, has_acpi: true };
    assert_eq!(s.system_shutdown(ShutdownStep::StopFs, StepOutcome::Done), ShutdownStep::OpenPlatform);
    assert_eq!(s.system_shutdown(ShutdownStep::OpenPlatform, StepOutcome::Opened(4)), ShutdownStep::StopDevice(4));
    assert_eq!(s.system_shutdown(ShutdownStep::StopDevice(4), StepOutcome::Done), ShutdownStep::Fence);
    assert_eq!(s.system_shutdown(ShutdownStep::Fence, StepOutcome::Done), ShutdownStep::Reset);
    let keyboard = ShutdownStep::OutB { port: 0x64, value: 0xfe };
    assert_eq!(s.system_shutdown(ShutdownStep::Reset, StepOutcome::Failed), keyboard);
    assert_eq!(s.system_shutdown(ShutdownStep::Reset, StepOutcome::Done), ShutdownStep::Halt);
    let off = Shutdown { restart: false, has_acpi: true };
    assert_eq!(off.system_shutdown(ShutdownStep::OpenPlatform, StepOutcome::Failed), ShutdownStep::EnterSleep);
    let old = Shutdown { restart: true, has_acpi: false };
    assert_eq!(old.system_shutdown(ShutdownStep::Fence, StepOutcome::Done), keyboard);
    let none = Shutdown { restart: false, has_acpi: false };
    assert_eq!(none.system_shutdown(ShutdownStep::Fence, StepOutcome::Done), ShutdownStep::Halt);
}

#[test]
fn a_message_that_is_too_long_is_dropped() {
    let mut r = KernelRingBuf::new();
    assert_eq!((r.head, r.len), (0, 0));
    r.push_str(&bytes("hi"));
    r.push_str(&vec![b'a'; KRING_CAPACITY + 1]);
    assert_eq!((r.head, r.len), (0, 4));
    assert_eq!(r.kring_log_for_each(), vec![bytes("hi")]);
}

#[test]
fn the_framebuffer_moves_with_the_address_space() {
    let mut mm = MemoryManager {
        is_init: true,
        phys: PhyMemConBlk {
            total_memory: 64 * 4096,
            avl_memory: 64 * 4096,
            hard_limit: u64::MAX,
            lower_limit: 0,
            free_block_list: vec![PageDescriptor {
                num_pages: 64,
                start_phy_address: 0x100000,
                start_virt_address: 0,
                flags: 0,
                is_mapped: false,
            }],
            alloc_block_list: Vec::new(),
            node_limit: 1000,
        },
        kernel: VirtMemConBlk::new(0),
        process: None,
        invalidated: Vec::new(),
    };
    let fb = mm.allocate_memory(8192, 4096, VIRTUAL).unwrap();
    let glyphs = mm.allocate_memory(4096, 4096, VIRTUAL).unwrap();
    let mut s = screen();
    s.fb_base = mm.backing_address(fb, false).unwrap();
    s.glyph_base = mm.backing_address(glyphs, false).unwrap();
    assert_ne!(s.fb_base, fb);
    s.relocate_framebuffer(&mm);
    assert_eq!(s.fb_base, fb);
    assert_eq!(Some(s.glyph_base), mm.get_virtual_address(mm.backing_address(glyphs, false).unwrap(), 0, MapFetchType::Kernel));
    assert_eq!((s.width, s.height, s.current_x), (16, 4, 0));
}

#[test]
fn a_panic_silences_everybody_else() {
    let mut port = SerialLogger::new();
    port.finish_test(TEST_BYTE);
    let mut c = Console {
        logger: Logger::new(),
        ring: KernelRingBuf::new(),
        port,
        sent: Vec::new(),
        screen: screen(),
        fb: vec![0; 64],
    };
    let a: Vec<char> = vec!['A'];
    c.serial_print(0, &a, &bytes("A"));
    assert_eq!(c.sent, bytes("A"));
    assert_eq!(c.ring.len, 3);
    assert_eq!(c.fb[1], INK);
    // A terminal has the screen: messages are kept only.
    c.set_tty_mode(true);
    assert!(c.fb.iter().all(|p| *p == 0));
    c.serial_print(0, &a, &bytes("A"));
    assert_eq!((c.sent.len(), c.ring.len, c.screen.current_x), (1, 6, 0));
    c.tty_print(&a, 1);
    assert_eq!(c.screen.current_x, 8);
    assert_eq!(c.fb[1], INK);
    // The screen goes back blank, too.
    c.set_tty_mode(false);
    assert!(c.fb.iter().all(|p| *p == 0));
    c.set_tty_mode(true);
    c.tty_print(&a, 1);
    assert_eq!(c.fb[1], INK);

    c.set_panic_mode(2);
    assert!(c.fb.iter().all(|p| *p == 0));
    assert!(c.logger.panic_mode && c.screen.is_cursor_disabled);
    assert_eq!((c.logger.panic_core, c.screen.current_x, c.screen.current_y), (2, 0, 0));
    assert!(c.screen.scratch.iter().all(|p| *p == 0));
    c.set_tty_mode(false);
    c.tty_print(&a, 1);
    c.serial_print(0, &a, &bytes("A"));
    assert!(c.logger.tty_mode);
    assert_eq!((c.sent.len(), c.ring.len, c.screen.current_x), (1, 6, 0));
    assert!(c.fb.iter().all(|p| *p == 0));
    c.serial_print(2, &a, &bytes("A"));
    assert_eq!((c.sent.len(), c.ring.len, c.screen.current_x), (2, 6, 8));
    assert_eq!(c.fb[1], INK);
}
