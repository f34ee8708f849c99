//! What the system calls do that concern files, time, threads and what is waited for.

use vstd::prelude::*;
use crate::error::KError;
use crate::io::driver::Status;
use crate::loader::elf::write_u64;
use crate::sched::handle;
use crate::sched::handle::{Handle, HandleKind};
use crate::sched::proc;
use crate::sched::proc::{Proc, ProcessTable, SignalHandler};
use crate::sched::scheduler::{NewThread, Scheduler};
use crate::sched::syscall;
use crate::sched::syscall::{find_handle, read_name};
use crate::sched::task::MAX_SIGNALS;
use crate::sched::user;
use crate::sched::user::{RtcTime, Stretch, SyncRequest, SysError, UserMemory};

verus! {

/// What a system call on files asks the file system for.
#[derive(Debug)]
pub enum FileRequest {
    /// Files and directories are deleted alike.
    Delete(Vec<u8>),
    MakeDirectory(Vec<u8>),
    ChangeDirectory(Vec<u8>),
    LinkTarget(Vec<u8>),
    Rename { from: Vec<u8>, to: Vec<u8> },
    Link { path: Vec<u8>, target: Vec<u8> },
    Open { path: Vec<u8>, must_exist: bool, is_inheritable: bool },
}

/// The calls on files that name what they are about by paths.
#[derive(Clone, Copy, Debug, PartialEq, Eq, Structural)]
pub enum FileCall {
    DeleteFile,
    RenameFile,
    MakeDirectory,
    RemoveDirectory,
    CreateFile,
    CreateSymlink,
    ReadLink,
    ChangeDirectory,
}

pub const OPEN_INHERITABLE_FLAG: u64 = 1;
pub const CREATE_FILE_EXIST_FLAG: u64 = 2;

impl FileCall {
    /// Whether a call takes two paths.
    pub open spec fn takes_two(self) -> bool {
        self == FileCall::RenameFile || self == FileCall::CreateSymlink
    }

    /// Whether a request is what a call with these paths and flags means.
    pub open spec fn means(self, r: FileRequest, first: Seq<u8>, second: Seq<u8>, flags: u64) -> bool {
        match self {
            FileCall::DeleteFile | FileCall::RemoveDirectory => r matches FileRequest::Delete(p) && p@ == first,
            FileCall::MakeDirectory => r matches FileRequest::MakeDirectory(p) && p@ == first,
            FileCall::ChangeDirectory => r matches FileRequest::ChangeDirectory(p) && p@ == first,
            FileCall::ReadLink => r matches FileRequest::LinkTarget(p) && p@ == first,
            FileCall::RenameFile => r matches FileRequest::Rename { from, to } && from@ == first && to@ == second,
            FileCall::CreateSymlink => r matches FileRequest::Link { path, target } && path@ == first && target@ == second,
            FileCall::CreateFile => r matches FileRequest::Open { path, must_exist, is_inheritable } && path@ == first
                && must_exist == (flags & CREATE_FILE_EXIST_FLAG != 0) && is_inheritable == (flags & OPEN_INHERITABLE_FLAG
                != 0),
        }
    }
}

/// Reads what a call on files asks for. Paths are texts that are not empty.
pub fn file_request(memory: &UserMemory, call: FileCall, arg0: u64, arg1: u64) -> (r: Result<FileRequest, SysError>)
    requires
        user::ranges_ok(memory@),
    ensures
        match (syscall::name_at(memory@, arg0), syscall::name_at(memory@, arg1)) {
            (Err(e), _) => r is Err && r->Err_0 == e,
            (Ok(a), Err(e)) => if call.takes_two() {
                r is Err && r->Err_0 == e
            } else {
                r is Ok && call.means(r->Ok_0, a, Seq::empty(), arg1)
            },
            (Ok(a), Ok(b)) => r is Ok && call.means(r->Ok_0, a, b, arg1),
        },
{
    let first: Vec<u8> = match read_name(memory, arg0) { Ok(p) => p, Err(e) => { return Err(e); } };
    match call {
        FileCall::DeleteFile | FileCall::RemoveDirectory => Ok(FileRequest::Delete(first)),
        FileCall::MakeDirectory => Ok(FileRequest::MakeDirectory(first)),
        FileCall::ChangeDirectory => Ok(FileRequest::ChangeDirectory(first)),
        FileCall::ReadLink => Ok(FileRequest::LinkTarget(first)),
        FileCall::RenameFile => match read_name(memory, arg1) {
            Ok(to) => Ok(FileRequest::Rename { from: first, to }),
            Err(e) => Err(e),
        },
        FileCall::CreateSymlink => match read_name(memory, arg1) {
            Ok(target) => Ok(FileRequest::Link { path: first, target }),
            Err(e) => Err(e),
        },
        FileCall::CreateFile => Ok(FileRequest::Open {
            path: first,
            must_exist: arg1 & CREATE_FILE_EXIST_FLAG != 0,
            is_inheritable: arg1 & OPEN_INHERITABLE_FLAG != 0,
        }),
    }
}

/// Gives the calling process a handle for what was opened.
pub fn finish_open(procs: &mut ProcessTable, cur: u64, opened: Result<Handle, KError>, is_inheritable: bool)
    -> (r: Result<usize, SysError>)
    requires
        old(procs)@.well_formed(),
        old(procs)@.proc(cur) is Some,
    ensures
        match opened {
            Err(e) => r == Err::<usize, SysError>(SysError::Kernel(e)) && final(procs)@ == old(procs)@,
            Ok(h) => {
                let (q, n) = syscall::handle_given(old(procs)@, cur, h, is_inheritable);
                r is Ok && r->Ok_0 == n && final(procs)@ == q
            },
        },
        final(procs)@.well_formed(),
{
    match opened {
        Err(e) => Err(SysError::Kernel(e)),
        Ok(h) => Ok(procs.add_handle_to_proc(cur, h, is_inheritable)),
    }
}

/// What is known of the object of a handle. Only files have a size and a mode.
#[derive(Clone, Copy, Debug, PartialEq, Eq, Structural)]
pub struct FileStat {
    pub size: u64,
    pub mode: u32,
    pub handle_type: HandleKind,
}

/// Tells what a handle stands for, given what the file system knows of it if it is a file.
pub fn sys_fstat_handler(procs: &ProcessTable, cur: u64, number: usize, size: u64, mode: u32)
    -> (r: Result<FileStat, SysError>)
    ensures
        r == (match syscall::handle_of(procs@, cur, number as int) {
            None => Err(SysError::Invalid),
            Some(h) => if h.kind == HandleKind::File {
                Ok(FileStat { size, mode, handle_type: HandleKind::File })
            } else {
                Ok(FileStat { size: 0, mode: 0, handle_type: h.kind })
            },
        }),
{
    match find_handle(procs, cur, number) {
        None => Err(SysError::Invalid),
        Some(h) => if h.kind == HandleKind::File {
            Ok(FileStat { size, mode, handle_type: HandleKind::File })
        } else {
            Ok(FileStat { size: 0, mode: 0, handle_type: h.kind })
        },
    }
}

/// Finds the file that a handle stands for.
pub fn file_of(procs: &ProcessTable, cur: u64, number: usize) -> (r: Result<u64, SysError>)
    ensures
        r == (match syscall::handle_of(procs@, cur, number as int) {
            Some(h) => if h.kind == HandleKind::File { Ok(h.object) } else { Err(SysError::Invalid) },
            None => Err(SysError::Invalid),
        }),
{
    match find_handle(procs, cur, number) {
        Some(h) => if h.kind == HandleKind::File { Ok(h.object) } else { Err(SysError::Invalid) },
        None => Err(SysError::Invalid),
    }
}

/// Finds the file that a seek concerns and the offset that it leads to, given where the file stands
/// and how long it is.
pub fn sys_seek_handler(procs: &ProcessTable, cur: u64, number: usize, delta: i64, whence: u64, offset: u64, end: u64)
    -> (r: Result<(u64, u64), SysError>)
    requires
        offset <= i64::MAX,
        end <= i64::MAX,
        whence == user::SEEK_CUR ==> offset + delta <= i64::MAX,
        whence == user::SEEK_END ==> end + delta <= i64::MAX,
    ensures
        match (syscall::handle_of(procs@, cur, number as int), user::seek_origin(whence, offset, end)) {
            (Some(h), Some(o)) => if h.kind == HandleKind::File && o + delta >= 0 {
                r is Ok && r->Ok_0.0 == h.object && r->Ok_0.1 == o + delta
            } else {
                r == Err::<(u64, u64), SysError>(SysError::Invalid)
            },
            _ => r == Err::<(u64, u64), SysError>(SysError::Invalid),
        },
{
    let file: u64 = match file_of(procs, cur, number) { Ok(f) => f, Err(e) => { return Err(e); } };
    match user::seek_target(delta, whence, offset, end) {
        Ok(o) => Ok((file, o)),
        Err(e) => Err(e),
    }
}

/// User memory after a name, a zero behind it and the number of bytes written were copied there, and
/// whether all of it went well. What was written before a failure stays.
pub open spec fn name_stored(m: Seq<Stretch>, name: Seq<u8>, buf: int, buf_len: int, count_at: int)
    -> (Seq<Stretch>, Result<(), SysError>)
{
    if name.len() + 1 > buf_len {
        (m, Err(SysError::BufTooSmall))
    } else {
        match user::stored(m, buf, name) {
            None => (m, Err(SysError::InvalidMemoryRange)),
            Some(m1) => match user::stored(m1, buf + name.len(), seq![0u8]) {
                None => (m1, Err(SysError::InvalidMemoryRange)),
                Some(m2) => match user::stored(m2, count_at, user::word((name.len() + 1) as u64)) {
                    None => (m2, Err(SysError::InvalidMemoryRange)),
                    Some(m3) => (m3, Ok(())),
                },
            },
        }
    }
}

fn word_bytes(v: u64) -> (r: Vec<u8>)
    ensures
        r@ == user::word(v),
{
    let mut out: Vec<u8> = vec![0u8; 8];
    write_u64(&mut out, 0, v);
    assert(out@ =~= user::word(v));
    out
}

/// Writes a number to user memory: how many bytes were moved, or the number of a handle.
pub fn store_word(memory: &mut UserMemory, v: u64, at: u64) -> (r: Result<(), SysError>)
    ensures
        match user::stored(old(memory)@, at as int, user::word(v)) {
            Some(m) => r == Ok::<(), SysError>(()) && final(memory)@ == m,
            None => r == Err::<(), SysError>(SysError::InvalidMemoryRange) && final(memory)@ == old(memory)@,
        },
{
    let b: Vec<u8> = word_bytes(v);
    if memory.copy_to_user(at, &b) { Ok(()) } else { Err(SysError::InvalidMemoryRange) }
}

/// Ends a read from a device: what the driver has given is copied to the user's buffer, and then the
/// number of bytes. What was written before a failure stays.
pub fn finish_device_read(memory: &mut UserMemory, answer: Result<Status, KError>, data: &Vec<u8>, buf: u64,
    count_at: u64) -> (r: Result<(), SysError>)
    ensures
        match answer {
            Err(e) => r == Err::<(), SysError>(SysError::Kernel(e)) && final(memory)@ == old(memory)@,
            Ok(s) => if s != Status::Success {
                r == Err::<(), SysError>(SysError::Invalid) && final(memory)@ == old(memory)@
            } else {
                match user::stored(old(memory)@, buf as int, data@) {
                    None => r == Err::<(), SysError>(SysError::InvalidMemoryRange) && final(memory)@ == old(memory)@,
                    Some(m1) => match user::stored(m1, count_at as int, user::word(data@.len() as u64)) {
                        None => r == Err::<(), SysError>(SysError::InvalidMemoryRange) && final(memory)@ == m1,
                        Some(m2) => r == Ok::<(), SysError>(()) && final(memory)@ == m2,
                    },
                }
            },
        },
{
    let n: u64 = data.len() as u64;
    match syscall::transfer_result(answer, n, false) {
        Err(e) => Err(e),
        Ok(completed) => {
            if !memory.copy_to_user(buf, data) {
                return Err(SysError::InvalidMemoryRange);
            }
            store_word(memory, completed, count_at)
        },
    }
}

/// Copies a name to a user's buffer.
pub fn store_name(memory: &mut UserMemory, name: &Vec<u8>, buf: u64, buf_len: u64, count_at: u64) -> (r: Result<(), SysError>)
    requires
        user::ranges_ok(old(memory)@),
    ensures
        (final(memory)@, r) == name_stored(old(memory)@, name@, buf as int, buf_len as int, count_at as int),
{
    let n: usize = name.len();
    if n as u64 >= buf_len {
        return Err(SysError::BufTooSmall);
    }
    let ghost m0 = memory@;
    if !memory.copy_to_user(buf, name) {
        return Err(SysError::InvalidMemoryRange);
    }
    proof {
        if n > 0 {
            user::lemma_stored_below(m0, buf as int, name@);
        }
    }
    let mut nul: Vec<u8> = Vec::new();
    nul.push(0);
    assert(nul@ =~= seq![0u8]);
    if !memory.copy_to_user(buf + n as u64, &nul) {
        return Err(SysError::InvalidMemoryRange);
    }
    store_word(memory, n as u64 + 1, count_at)
}

/// Copies the name of a directory's entry to a user's buffer, given what the file system found at the
/// offset that was asked for.
pub fn sys_readdir_handler(procs: &ProcessTable, memory: &mut UserMemory, cur: u64, number: usize,
    entry: &Result<Vec<u8>, KError>, buf: u64, buf_len: u64, count_at: u64) -> (r: Result<(), SysError>)
    requires
        user::ranges_ok(old(memory)@),
    ensures
        match syscall::handle_of(procs@, cur, number as int) {
            Some(h) => if h.kind != HandleKind::File {
                r == Err::<(), SysError>(SysError::Invalid) && final(memory)@ == old(memory)@
            } else {
                match *entry {
                    Err(e) => r == Err::<(), SysError>(SysError::Kernel(e)) && final(memory)@ == old(memory)@,
                    Ok(name) => (final(memory)@, r) == name_stored(
                        old(memory)@, name@, buf as int, buf_len as int, count_at as int),
                }
            },
            None => r == Err::<(), SysError>(SysError::Invalid) && final(memory)@ == old(memory)@,
        },
{
    match file_of(procs, cur, number) {
        Err(e) => Err(e),
        Ok(_) => match entry {
            Err(e) => Err(SysError::Kernel(*e)),
            Ok(name) => store_name(memory, name, buf, buf_len, count_at),
        },
    }
}

/// Copies where a link leads to a user's buffer, given what the file system found: an error, or a
/// target if it is a link at all.
pub fn sys_readlink_handler(memory: &mut UserMemory, found: &Result<Option<Vec<u8>>, KError>, buf: u64, buf_len: u64,
    count_at: u64) -> (r: Result<(), SysError>)
    requires
        user::ranges_ok(old(memory)@),
    ensures
        match *found {
            Err(e) => r == Err::<(), SysError>(SysError::Kernel(e)) && final(memory)@ == old(memory)@,
            Ok(None) => r == Err::<(), SysError>(SysError::Invalid) && final(memory)@ == old(memory)@,
            Ok(Some(target)) => (final(memory)@, r) == name_stored(
                old(memory)@, target@, buf as int, buf_len as int, count_at as int),
        },
{
    match found {
        Err(e) => Err(SysError::Kernel(*e)),
        Ok(None) => Err(SysError::Invalid),
        Ok(Some(target)) => store_name(memory, target, buf, buf_len, count_at),
    }
}

/// Copies the working directory to a user's buffer. Links in it are followed where they can be.
pub fn sys_getcwd_handler(memory: &mut UserMemory, cwd: &Vec<u8>, resolved: &Option<Vec<u8>>, buf: u64, buf_len: u64,
    count_at: u64) -> (r: Result<(), SysError>)
    requires
        user::ranges_ok(old(memory)@),
    ensures
        (final(memory)@, r) == name_stored(
            old(memory)@,
            (match *resolved { Some(p) => p@, None => cwd@ }),
            buf as int,
            buf_len as int,
            count_at as int,
        ),
{
    match resolved {
        Some(p) => store_name(memory, p, buf, buf_len, count_at),
        None => store_name(memory, cwd, buf, buf_len, count_at),
    }
}

pub const CLOCK_MONOTONIC: u64 = 0;
pub const CLOCK_WALL_TIME: u64 = 1;

/// The time that a clock shows, in milliseconds: since the start, or since the beginning of 1970.
pub open spec fn clock_ms(clock: u64, since_start: u64, now: RtcTime) -> Option<int> {
    if clock == CLOCK_MONOTONIC {
        Some(since_start as int)
    } else if clock == CLOCK_WALL_TIME {
        Some(user::unix_ms(now))
    } else {
        None
    }
}

/// Writes the time that a clock shows to user memory.
pub fn sys_get_time_ms_handler(memory: &mut UserMemory, clock: u64, since_start: u64, now: RtcTime, out: u64)
    -> (r: Result<(), SysError>)
    requires
        clock == CLOCK_WALL_TIME ==> now.month <= 13,
    ensures
        match clock_ms(clock, since_start, now) {
            None => r == Err::<(), SysError>(SysError::Invalid) && final(memory)@ == old(memory)@,
            Some(ms) => match user::stored(old(memory)@, out as int, user::word(ms as u64)) {
                Some(m) => r == Ok::<(), SysError>(()) && final(memory)@ == m,
                None => r == Err::<(), SysError>(SysError::Invalid) && final(memory)@ == old(memory)@,
            },
        },
{
    let ms: u64 = if clock == CLOCK_MONOTONIC {
        since_start
    } else if clock == CLOCK_WALL_TIME {
        user::rtc_to_unix_ms(now)
    } else {
        return Err(SysError::Invalid);
    };
    let b: Vec<u8> = word_bytes(ms);
    if memory.copy_to_user(out, &b) { Ok(()) } else { Err(SysError::Invalid) }
}

/// Sets what the calling process does on a signal.
pub fn sys_set_signal_handler(procs: &mut ProcessTable, cur: u64, signal: u8, handler: u64, user_ctx: u64)
    -> (r: Result<(), SysError>)
    requires
        old(procs)@.well_formed(),
        old(procs)@.proc(cur) is Some,
    ensures
        signal >= MAX_SIGNALS || handler == 0 ==> r == Err::<(), SysError>(SysError::Invalid) && final(procs)@
            == old(procs)@,
        signal < MAX_SIGNALS && handler != 0 ==> r == Ok::<(), SysError>(()) && final(procs)@ == old(procs)@.with_proc(
            Proc {
                handlers: old(procs)@.proc(cur)->0.handlers.with(signal, SignalHandler { user_ctx, handler }),
                ..old(procs)@.proc(cur)->0
            }),
        final(procs)@.well_formed(),
{
    match user::signal_handler_args(signal, handler, user_ctx) {
        Err(e) => Err(e),
        Ok(h) => {
            let ghost v0 = procs@;
            if let Some(i) = procs.find(cur) {
                procs.procs[i].set_signal_handler(signal, h);
                assert(procs@.procs =~= v0.procs.update(i as int, Proc {
                    handlers: v0.procs[i as int].handlers.with(signal, h),
                    ..v0.procs[i as int]
                }));
            }
            Ok(())
        },
    }
}

/// What a process wants to be made, whether children inherit it, and the name it is to have. An empty
/// name is none.
#[derive(Debug)]
pub struct NamedSync {
    pub request: SyncRequest,
    pub is_inheritable: bool,
    pub name: Option<Vec<u8>>,
}

/// Reads what a process wants to be made for it to wait for.
pub fn sys_create_sync_object_handler(memory: &UserMemory, kind: u64, init_count: i64, max_count: u64, auto_reset: u64,
    inheritable: u64, name: u64) -> (r: Result<NamedSync, SysError>)
    requires
        user::ranges_ok(memory@),
    ensures
        !user::sync_args_ok(kind, max_count, auto_reset, inheritable) ==> r is Err && r->Err_0 == SysError::Invalid,
        user::sync_args_ok(kind, max_count, auto_reset, inheritable) ==> {
            let text = if name == 0 { Some(Seq::empty()) } else { user::user_string(memory@, name as int) };
            match text {
                None => r is Err && r->Err_0 == SysError::InvalidMemoryRange,
                Some(s) => {
                    &&& r is Ok
                    &&& r->Ok_0.is_inheritable == (inheritable == 1)
                    &&& r->Ok_0.request == (if kind == user::SYNC_TYPE_SEMAPHORE {
                        SyncRequest::Semaphore { init_count, max_count: max_count as i64 }
                    } else {
                        SyncRequest::Event { is_auto_reset: auto_reset == 1 }
                    })
                    &&& match r->Ok_0.name { Some(n) => s.len() > 0 && n@ == s, None => s.len() == 0 }
                },
            }
        },
{
    let (request, is_inheritable) = match user::sync_request(kind, init_count, max_count, auto_reset, inheritable) {
        Ok(p) => p,
        Err(e) => { return Err(e); },
    };
    if name == 0 {
        return Ok(NamedSync { request, is_inheritable, name: None });
    }
    match memory.read_user_string(name) {
        None => Err(SysError::InvalidMemoryRange),
        Some(s) => if s.len() == 0 {
            Ok(NamedSync { request, is_inheritable, name: None })
        } else {
            Ok(NamedSync { request, is_inheritable, name: Some(s) })
        },
    }
}

/// Starts a thread of the calling process in user code, and gives the process a handle for it.
pub fn sys_create_thread_handler(procs: &mut ProcessTable, sched: &mut Scheduler, cur: u64, user_fn: u64, context: u64,
    parts: NewThread) -> (r: Result<usize, SysError>)
    requires
        old(procs)@.well_formed(),
        old(sched)@.well_formed(),
        old(procs)@.proc(cur) matches Some(p) && p.is_user,
        old(sched).queues@.len() > 0,
        old(sched).next_task < u64::MAX,
    ensures
        user_fn == 0 ==> r == Err::<usize, SysError>(SysError::Kernel(KError::InvalidArgument)) && final(procs)@
            == old(procs)@ && final(sched)@ == old(sched)@,
        user_fn != 0 ==> {
            let thread = NewThread { user_fn: Some(user_fn), arg_context: context, ..parts };
            let (p1, s1, made) = old(procs)@.thread_created(old(sched)@, cur, thread);
            &&& final(sched)@ == s1
            &&& match made {
                Err(e) => r == Err::<usize, SysError>(SysError::Kernel(e)) && final(procs)@ == p1,
                Ok(t) => {
                    let (p2, n) = syscall::handle_given(p1, cur, Handle { kind: HandleKind::Thread, object: t }, false);
                    r is Ok && r->Ok_0 == n && final(procs)@ == p2
                },
            }
        },
        final(procs)@.well_formed(),
        final(sched)@.well_formed(),
{
    if user_fn == 0 {
        return Err(SysError::Kernel(KError::InvalidArgument));
    }
    let thread: NewThread = NewThread {
        stack: parts.stack,
        context: parts.context,
        panic_base: parts.panic_base,
        user_fn: Some(user_fn),
        process: parts.process,
        vcb: parts.vcb,
        arg_context: context,
        term_notify: parts.term_notify,
        per_cpu_base: parts.per_cpu_base,
    };
    let ghost p0 = procs@;
    match procs.create_thread(sched, cur, thread) {
        Err(e) => Err(SysError::Kernel(e)),
        Ok(t) => {
            proof {
                proc::lemma_proc_named(p0, cur);
                proc::lemma_still_there(p0, cur, Proc {
                    threads: p0.proc(cur)->0.threads.push(t),
                    ..p0.proc(cur)->0
                });
            }
            Ok(procs.add_handle_to_proc(cur, Handle { kind: HandleKind::Thread, object: t }, false))
        },
    }
}

} // verus!
