//! What the system calls do that concern processes, handles and requests to devices.

use vstd::prelude::*;
use crate::error::KError;
use crate::io::driver::{IrpMinor, Status};
use crate::loader::elf;
use crate::sched::handle;
use crate::sched::handle::{Handle, HandleKind, HandleType};
use crate::sched::proc;
use crate::sched::proc::{EndedProcess, Proc, ProcessInfo, ProcessStatus, ProcessTable, Procs, ThreadInfo};
use crate::sched::scheduler;
use crate::sched::scheduler::{Sched, Scheduler, WaitStep};
use crate::sched::task::TaskStatus;
use crate::sched::user;
use crate::sched::user::{SysError, Stretch, UserMemory};
use crate::util;

verus! {

/// The handle that a process has under a number.
pub open spec fn handle_of(p: Procs, cur: u64, number: int) -> Option<Handle> {
    match p.proc(cur) {
        Some(c) => handle::handle_at(c.handles, number),
        None => None,
    }
}

/// Finds the handle that a process has under a number.
pub fn find_handle(procs: &ProcessTable, cur: u64, number: usize) -> (r: Option<Handle>)
    ensures
        r == handle_of(procs@, cur, number as int),
{
    if procs.find(cur).is_some() { procs.get_handle(cur, number) } else { None }
}

/// Finds the handle that a process has under what it gave as a number.
pub fn find_asked(procs: &ProcessTable, cur: u64, arg: i64) -> (r: Option<Handle>)
    ensures
        r == handle_of(procs@, cur, arg as int),
{
    match procs.find(cur) {
        None => None,
        Some(i) => if 0 <= arg && (arg as u64) < procs.procs[i].handle_table.len() as u64 {
            procs.get_handle(cur, arg as usize)
        } else {
            None
        },
    }
}

fn status_of(procs: &ProcessTable, id: u64) -> (r: Option<ProcessStatus>)
    ensures
        r == (match procs@.proc(id) { Some(p) => Some(p.status), None => None }),
{
    match procs.find(id) {
        Some(i) => Some(procs.procs[i].status),
        None => None,
    }
}

/// A process with one handle more, and the number it has got.
pub open spec fn handle_given(p: Procs, id: u64, h: Handle, inherit: bool) -> (Procs, int) {
    let c = p.proc(id)->0;
    let t = HandleType { handle_info: h, is_inheritable: inherit };
    (p.with_proc(Proc { handles: handle::handle_added(c.handles, t), ..c }), handle::next_number(c.handles))
}

/// A process with a handle under a number of the caller's choice.
pub open spec fn handle_put(p: Procs, id: u64, number: int, h: Handle, inherit: bool) -> Procs {
    let c = p.proc(id)->0;
    let t = HandleType { handle_info: h, is_inheritable: inherit };
    p.with_proc(Proc { handles: handle::handle_placed(c.handles, number, t), ..c })
}

/// The process that a handle is duplicated into: the calling one, or one that has not begun to run.
pub open spec fn duplicate_target(p: Procs, cur: u64, target: i64) -> Result<u64, SysError> {
    if target == -1 {
        Ok(cur)
    } else {
        match handle_of(p, cur, target as int) {
            Some(h) => if h.kind != HandleKind::Process {
                Err(SysError::Invalid)
            } else if p.proc(h.object) matches Some(t) && t.status == ProcessStatus::Suspended {
                Ok(h.object)
            } else {
                Err(SysError::NoPerm)
            },
            None => Err(SysError::Invalid),
        }
    }
}

/// The outcome of duplicating a handle.
pub open spec fn duplicated(p: Procs, cur: u64, target: i64, old_handle: usize, new_handle: i64, inherit: u64)
    -> (Procs, Result<int, SysError>)
{
    if inherit != 0 && inherit != 1 {
        (p, Err(SysError::Invalid))
    } else {
        match (handle_of(p, cur, old_handle as int), duplicate_target(p, cur, target)) {
            (None, _) => (p, Err(SysError::Invalid)),
            (Some(h), Err(e)) => (p, Err(e)),
            (Some(h), Ok(id)) => if new_handle == -1 {
                let (q, n) = handle_given(p, id, h, inherit == 1);
                (q, Ok(n))
            } else {
                (handle_put(p, id, new_handle as int, h, inherit == 1), Ok(new_handle as int))
            },
        }
    }
}

/// Gives a handle of the calling process another number, there or in a process that it has made and
/// that has not begun to run. A number that a table cannot grow to is left out.
pub fn duplicate_handle(procs: &mut ProcessTable, cur: u64, target: i64, old_handle: usize, new_handle: i64,
    inherit: u64) -> (r: Result<usize, SysError>)
    requires
        old(procs)@.well_formed(),
        old(procs)@.proc(cur) is Some,
        -1 <= new_handle < usize::MAX,
    ensures
        final(procs)@ == duplicated(old(procs)@, cur, target, old_handle, new_handle, inherit).0,
        match duplicated(old(procs)@, cur, target, old_handle, new_handle, inherit).1 {
            Ok(n) => r is Ok && r->Ok_0 == n,
            Err(e) => r == Err::<usize, SysError>(e),
        },
        final(procs)@.well_formed(),
{
    if inherit != 0 && inherit != 1 {
        return Err(SysError::Invalid);
    }
    let h: Handle = match find_handle(procs, cur, old_handle) { Some(h) => h, None => { return Err(SysError::Invalid); } };
    let mut id: u64 = cur;
    if target != -1 {
        match find_asked(procs, cur, target) {
            None => { return Err(SysError::Invalid); },
            Some(t) => {
                if t.kind != HandleKind::Process {
                    return Err(SysError::Invalid);
                }
                match status_of(procs, t.object) {
                    None => { return Err(SysError::NoPerm); },
                    Some(s) => {
                        if s != ProcessStatus::Suspended {
                            return Err(SysError::NoPerm);
                        }
                    },
                }
                id = t.object;
            },
        }
    }
    if new_handle == -1 {
        Ok(procs.add_handle_to_proc(id, h, inherit == 1))
    } else {
        procs.place_handle_in_proc(id, new_handle as usize, h, inherit == 1);
        Ok(new_handle as usize)
    }
}

/// A duplicated handle stands for the same object as the one it was made from.
pub proof fn law_duplicated_handle(p: Procs, cur: u64, target: i64, old_handle: usize, new_handle: i64, inherit: u64)
    requires
        p.proc(cur) is Some,
        new_handle >= -1,
        duplicated(p, cur, target, old_handle, new_handle, inherit).1 is Ok,
    ensures
        ({
            let (q, n) = duplicated(p, cur, target, old_handle, new_handle, inherit);
            let id = duplicate_target(p, cur, target)->Ok_0;
            &&& handle_of(p, cur, old_handle as int) is Some
            &&& handle_of(q, id, n->Ok_0) == handle_of(p, cur, old_handle as int)
        }),
{
    let h = handle_of(p, cur, old_handle as int)->0;
    let id = duplicate_target(p, cur, target)->Ok_0;
    let c = p.proc(id)->0;
    let t = HandleType { handle_info: h, is_inheritable: inherit == 1 };
    proc::lemma_proc_named(p, id);
    proc::lemma_still_there(p, id, Proc { handles: handle::handle_added(c.handles, t), ..c });
    proc::lemma_still_there(p, id, Proc { handles: handle::handle_placed(c.handles, new_handle as int, t), ..c });
    handle::law_added_handle(c.handles, t, handle::next_number(c.handles));
}

/// The process that a call on a process concerns: the calling one, or one that has not ended.
pub open spec fn process_target(p: Procs, cur: u64, arg: i64) -> Result<u64, SysError> {
    if arg == -1 {
        Ok(cur)
    } else {
        match handle_of(p, cur, arg as int) {
            Some(h) => if h.kind != HandleKind::Process {
                Err(SysError::Invalid)
            } else if p.proc(h.object) matches Some(t) && t.status != ProcessStatus::Terminated {
                Ok(h.object)
            } else {
                Err(SysError::ProcessTerminated)
            },
            None => Err(SysError::Invalid),
        }
    }
}

fn find_target(procs: &ProcessTable, cur: u64, arg: i64) -> (r: Result<u64, SysError>)
    ensures
        r == process_target(procs@, cur, arg),
{
    if arg == -1 {
        return Ok(cur);
    }
    let h: Option<Handle> = find_asked(procs, cur, arg);
    let status: Option<ProcessStatus> = match h { Some(h) => status_of(procs, h.object), None => None };
    user::target_process(arg, cur, h, status)
}

/// Makes a process the leader of a new session.
pub fn sys_set_session_leader_handler(procs: &mut ProcessTable, cur: u64, arg: i64) -> (r: Result<(), SysError>)
    requires
        old(procs)@.well_formed(),
        process_target(old(procs)@, cur, arg) != Ok::<u64, SysError>(0),
    ensures
        match process_target(old(procs)@, cur, arg) {
            Err(e) => r == Err::<(), SysError>(e) && final(procs)@ == old(procs)@,
            Ok(pid) => {
                let ok = old(procs)@.proc(pid) matches Some(p) && !old(procs)@.leads(p) && old(procs)@.may_move(
                    p, cur, |q: Proc| q.session == p.session);
                &&& r == (if ok { Ok::<(), SysError>(()) } else { Err(SysError::NoPerm) })
                &&& final(procs)@ == (if ok { old(procs)@.session_led(old(procs)@.proc(pid)->0) } else { old(procs)@ })
            },
        },
        final(procs)@.well_formed(),
{
    match find_target(procs, cur, arg) {
        Err(e) => Err(e),
        Ok(pid) => if procs.set_session_leader(pid, cur) { Ok(()) } else { Err(SysError::NoPerm) },
    }
}

/// Makes a process the leader of a new process group.
pub fn sys_create_pgrp_handler(procs: &mut ProcessTable, cur: u64, arg: i64) -> (r: Result<(), SysError>)
    requires
        old(procs)@.well_formed(),
        process_target(old(procs)@, cur, arg) != Ok::<u64, SysError>(0),
    ensures
        match process_target(old(procs)@, cur, arg) {
            Err(e) => r == Err::<(), SysError>(e) && final(procs)@ == old(procs)@,
            Ok(pid) => {
                let ok = old(procs)@.proc(pid) matches Some(p) && p.pgroup != p.id && old(procs)@.may_move(
                    p, cur, |q: Proc| q.pgroup == p.pgroup);
                &&& r == (if ok { Ok::<(), SysError>(()) } else { Err(SysError::NoPerm) })
                &&& final(procs)@ == (if ok { old(procs)@.group_led(old(procs)@.proc(pid)->0) } else { old(procs)@ })
            },
        },
        final(procs)@.well_formed(),
{
    match find_target(procs, cur, arg) {
        Err(e) => Err(e),
        Ok(pid) => if procs.set_pgroup_leader(pid, cur) { Ok(()) } else { Err(SysError::NoPerm) },
    }
}

/// The record of a process that has ended, the one made last.
pub open spec fn ended_process(s: Seq<EndedProcess>, n: nat, id: u64) -> Option<EndedProcess>
    decreases n,
{
    if n == 0 {
        None
    } else if s[n - 1].info.id == id {
        Some(s[n - 1])
    } else {
        ended_process(s, (n - 1) as nat, id)
    }
}

/// Looks the record of a process up that has ended.
pub fn find_ended(procs: &ProcessTable, id: u64) -> (r: Option<EndedProcess>)
    ensures
        r == ended_process(procs@.ended, procs@.ended.len(), id),
{
    let mut n: usize = procs.ended.len();
    while n > 0
        invariant
            n <= procs.ended@.len(),
            ended_process(procs.ended@, procs.ended@.len(), id) == ended_process(procs.ended@, n as nat, id),
        decreases n,
    {
        if procs.ended[n - 1].info.id == id {
            return Some(procs.ended[n - 1]);
        }
        n = n - 1;
    }
    None
}

/// What is known of a process, whether or not it has ended.
pub open spec fn process_info(p: Procs, id: u64) -> Option<ProcessInfo> {
    match p.proc(id) {
        Some(c) => Some(ProcessInfo { id: c.id, pid: c.pid, sid: c.session, exit_code: c.exit_code }),
        None => match ended_process(p.ended, p.ended.len(), id) {
            Some(e) => Some(e.info),
            None => None,
        },
    }
}

/// What is known of a thread, whether or not it has ended.
pub open spec fn thread_info(s: Sched, id: u64) -> Option<ThreadInfo> {
    match s.task(id) {
        Some(t) => Some(ThreadInfo { id: t.id, exit_code: t.exit_code }),
        None => match scheduler::ended_task(s.ended, s.ended.len(), id) {
            Some(e) => Some(ThreadInfo { id: e.id, exit_code: e.exit_code }),
            None => None,
        },
    }
}

/// What is signalled when a process ends. It stays what it is once the process has ended.
pub open spec fn process_end(p: Procs, id: u64) -> Option<usize> {
    match p.proc(id) {
        Some(c) => Some(c.term_notify),
        None => match ended_process(p.ended, p.ended.len(), id) {
            Some(e) => Some(e.term_notify),
            None => None,
        },
    }
}

/// What is signalled when a thread ends. It stays what it is once the thread has ended.
pub open spec fn thread_end(s: Sched, id: u64) -> Option<usize> {
    match s.task(id) {
        Some(t) => Some(t.term_notify),
        None => match scheduler::ended_task(s.ended, s.ended.len(), id) {
            Some(e) => Some(e.term_notify),
            None => None,
        },
    }
}

/// What a process is told of itself or of one that it has a handle for.
pub open spec fn info_asked(p: Procs, cur: u64, arg: i64) -> Result<ProcessInfo, SysError> {
    let id = if arg == -1 {
        Ok(cur)
    } else {
        match handle_of(p, cur, arg as int) {
            Some(h) => if h.kind == HandleKind::Process { Ok(h.object) } else { Err(SysError::ProcessTerminated) },
            None => Err(SysError::Invalid),
        }
    };
    match id {
        Err(e) => Err(e),
        Ok(id) => match process_info(p, id) { Some(i) => Ok(i), None => Err(SysError::ProcessTerminated) },
    }
}

/// Tells a process of itself or of one that it has a handle for.
pub fn sys_get_process_info_handler(procs: &ProcessTable, cur: u64, arg: i64) -> (r: Result<ProcessInfo, SysError>)
    ensures
        r == info_asked(procs@, cur, arg),
{
    let mut id: u64 = cur;
    if arg != -1 {
        match find_asked(procs, cur, arg) {
            None => { return Err(SysError::Invalid); },
            Some(h) => {
                if h.kind != HandleKind::Process {
                    return Err(SysError::ProcessTerminated);
                }
                id = h.object;
            },
        }
    }
    if let Some(i) = procs.find(id) {
        return Ok(procs.procs[i].get_process_header());
    }
    match find_ended(procs, id) {
        Some(e) => Ok(e.info),
        None => Err(SysError::ProcessTerminated),
    }
}

/// Tells a process of a thread that it has a handle for, also once that has ended.
pub fn sys_get_thread_info_handler(procs: &ProcessTable, sched: &Scheduler, cur: u64, number: usize)
    -> (r: Result<ThreadInfo, SysError>)
    ensures
        r == (match handle_of(procs@, cur, number as int) {
            Some(h) => if h.kind != HandleKind::Thread {
                Err(SysError::Invalid)
            } else {
                match thread_info(sched@, h.object) {
                    Some(i) => Ok(i),
                    None => Err(SysError::ProcessTerminated),
                }
            },
            None => Err(SysError::Invalid),
        }),
{
    match find_handle(procs, cur, number) {
        None => Err(SysError::Invalid),
        Some(h) => {
            if h.kind != HandleKind::Thread {
                return Err(SysError::Invalid);
            }
            match sched.get_task_info(h.object) {
                Some(t) => Ok(ThreadInfo { id: t.id, exit_code: t.exit_code }),
                None => match sched.get_ended_task(h.object) {
                    Some(e) => Ok(ThreadInfo { id: e.id, exit_code: e.exit_code }),
                    None => Err(SysError::ProcessTerminated),
                },
            }
        },
    }
}

/// Lets a process that was made suspended start.
pub fn sys_resume_process_handler(procs: &mut ProcessTable, sched: &mut Scheduler, cur: u64, number: usize)
    -> (r: Result<(), SysError>)
    requires
        old(procs)@.well_formed(),
        old(sched)@.well_formed(),
        handle_of(old(procs)@, cur, number as int) matches Some(h) ==> (old(procs)@.proc(h.object) matches Some(p) ==> (
        p.status == ProcessStatus::Suspended ==> p.threads.len() == 1)),
    ensures
        match handle_of(old(procs)@, cur, number as int) {
            Some(h) => if h.kind != HandleKind::Process {
                r == Err::<(), SysError>(SysError::Invalid) && final(procs)@ == old(procs)@ && final(sched)@ == old(sched)@
            } else {
                match old(procs)@.proc(h.object) {
                    None => r == Err::<(), SysError>(SysError::ProcessTerminated) && final(procs)@ == old(procs)@
                        && final(sched)@ == old(sched)@,
                    Some(p) => {
                        let (s, ok) = if p.threads.len() == 0 {
                            (old(sched)@, false)
                        } else {
                            old(sched)@.resumed(p.threads[0])
                        };
                        &&& final(sched)@ == s
                        &&& r == (if ok { Ok::<(), SysError>(()) } else { Err(SysError::ProcessTerminated) })
                        &&& final(procs)@ == (if p.status == ProcessStatus::Suspended {
                            old(procs)@.with_proc(Proc { status: ProcessStatus::Ready, ..p })
                        } else {
                            old(procs)@
                        })
                    },
                }
            },
            None => r == Err::<(), SysError>(SysError::Invalid) && final(procs)@ == old(procs)@
                && final(sched)@ == old(sched)@,
        },
        final(procs)@.well_formed(),
        final(sched)@.well_formed(),
{
    match find_handle(procs, cur, number) {
        None => Err(SysError::Invalid),
        Some(h) => {
            if h.kind != HandleKind::Process {
                return Err(SysError::Invalid);
            }
            if procs.resume_process(sched, h.object) { Ok(()) } else { Err(SysError::ProcessTerminated) }
        },
    }
}

/// What is signalled when the object of a handle is done with: the end of a process or a thread, gone
/// or not, or what was made to be waited for.
pub open spec fn semaphore_of(p: Procs, s: Sched, cur: u64, number: int) -> Result<usize, SysError> {
    match handle_of(p, cur, number) {
        None => Err(SysError::Invalid),
        Some(h) => match h.kind {
            HandleKind::Process => match process_end(p, h.object) {
                Some(m) => Ok(m),
                None => Err(SysError::ProcessTerminated),
            },
            HandleKind::Thread => match thread_end(s, h.object) {
                Some(m) => Ok(m),
                None => Err(SysError::ProcessTerminated),
            },
            HandleKind::Sync => if h.object <= usize::MAX { Ok(h.object as usize) } else { Err(SysError::Invalid) },
            _ => Err(SysError::Invalid),
        },
    }
}

/// Finds what a wait or a signal on a handle goes to.
pub fn find_semaphore(procs: &ProcessTable, sched: &Scheduler, cur: u64, number: usize) -> (r: Result<usize, SysError>)
    ensures
        r == semaphore_of(procs@, sched@, cur, number as int),
{
    match find_handle(procs, cur, number) {
        None => Err(SysError::Invalid),
        Some(h) => match h.kind {
            HandleKind::Process => match procs.find(h.object) {
                Some(i) => Ok(procs.procs[i].term_notify),
                None => match find_ended(procs, h.object) {
                    Some(e) => Ok(e.term_notify),
                    None => Err(SysError::ProcessTerminated),
                },
            },
            HandleKind::Thread => match sched.get_task_info(h.object) {
                Some(t) => Ok(t.term_notify),
                None => match sched.get_ended_task(h.object) {
                    Some(e) => Ok(e.term_notify),
                    None => Err(SysError::ProcessTerminated),
                },
            },
            HandleKind::Sync => {
                let m: usize = h.object as usize;
                if m as u64 == h.object { Ok(m) } else { Err(SysError::Invalid) }
            },
            _ => Err(SysError::Invalid),
        },
    }
}

/// Signals what a handle stands for.
pub fn sys_signal_handler(procs: &ProcessTable, sched: &mut Scheduler, cur: u64, number: usize)
    -> (r: Result<(), SysError>)
    requires
        old(sched)@.well_formed(),
        semaphore_of(procs@, old(sched)@, cur, number as int) matches Ok(m) ==> m < old(sched).sems@.len(),
    ensures
        match semaphore_of(procs@, old(sched)@, cur, number as int) {
            Ok(m) => r == Ok::<(), SysError>(()) && final(sched)@ == old(sched)@.signalled(m as int),
            Err(e) => r == Err::<(), SysError>(e) && final(sched)@ == old(sched)@,
        },
        final(sched)@.well_formed(),
{
    match find_semaphore(procs, sched, cur, number) {
        Ok(m) => {
            sched.do_signal(m);
            Ok(())
        },
        Err(e) => Err(e),
    }
}

/// Begins a wait of the task that runs on a core for what a handle stands for.
pub fn sys_wait_handler(procs: &ProcessTable, sched: &mut Scheduler, core: usize, cur: u64, number: usize, timeout: u64)
    -> (r: Result<WaitStep, SysError>)
    requires
        old(sched)@.well_formed(),
        core < old(sched).queues@.len(),
        old(sched)@.current(core as int) matches Some(t) && (t.status == TaskStatus::Running || t.status
            == TaskStatus::Terminated),
        semaphore_of(procs@, old(sched)@, cur, number as int) matches Ok(m) ==> {
            &&& m < old(sched).sems@.len()
            &&& old(sched)@.sems[m as int].state.can_wait()
            &&& !old(sched)@.sems[m as int].state.available() && timeout != 0 ==> !old(
                sched,
            )@.queues[core as int].is_dw_mode && old(sched)@.queues[core as int].preemption_count == 0
        },
    ensures
        match semaphore_of(procs@, old(sched)@, cur, number as int) {
            Ok(m) => {
                let t = if timeout == u64::MAX { None } else { Some(timeout) };
                let (s, w) = old(sched)@.wait_begun(core as int, m, t, true);
                r == Ok::<WaitStep, SysError>(w) && final(sched)@ == s
            },
            Err(e) => r == Err::<WaitStep, SysError>(e) && final(sched)@ == old(sched)@,
        },
        final(sched)@.well_formed(),
{
    match find_semaphore(procs, sched, cur, number) {
        Ok(m) => {
            let t: Option<u64> = user::wait_timeout(timeout);
            Ok(sched.do_wait(core, m, t, true))
        },
        Err(e) => Err(e),
    }
}

/// What a read or a write on a handle is passed on to.
#[derive(Clone, Copy, Debug, PartialEq, Eq, Structural)]
pub enum Transfer {
    /// Nothing is to be transferred.
    Nothing,
    File(u64),
    Pipe(u64),
    Device(u64),
}

pub open spec fn transfer(h: Option<Handle>, len: u64, writes: bool) -> Result<Transfer, SysError> {
    if len == 0 {
        Ok(Transfer::Nothing)
    } else {
        match h {
            None => Err(SysError::Invalid),
            Some(h) => match h.kind {
                HandleKind::File => Ok(Transfer::File(h.object)),
                HandleKind::Device => Ok(Transfer::Device(h.object)),
                HandleKind::PipeRead => if writes { Err(SysError::Invalid) } else { Ok(Transfer::Pipe(h.object)) },
                HandleKind::PipeWrite => if writes { Ok(Transfer::Pipe(h.object)) } else { Err(SysError::Invalid) },
                _ => Err(SysError::Invalid),
            },
        }
    }
}

fn direct(h: Option<Handle>, len: u64, writes: bool) -> (r: Result<Transfer, SysError>)
    ensures
        r == transfer(h, len, writes),
{
    if len == 0 {
        return Ok(Transfer::Nothing);
    }
    match h {
        None => Err(SysError::Invalid),
        Some(h) => match h.kind {
            HandleKind::File => Ok(Transfer::File(h.object)),
            HandleKind::Device => Ok(Transfer::Device(h.object)),
            HandleKind::PipeRead => if writes { Err(SysError::Invalid) } else { Ok(Transfer::Pipe(h.object)) },
            HandleKind::PipeWrite => if writes { Ok(Transfer::Pipe(h.object)) } else { Err(SysError::Invalid) },
            _ => Err(SysError::Invalid),
        },
    }
}

/// Where a read goes.
pub fn sys_read_handler(procs: &ProcessTable, cur: u64, number: usize, len: u64) -> (r: Result<Transfer, SysError>)
    ensures
        r == transfer(handle_of(procs@, cur, number as int), len, false),
{
    direct(find_handle(procs, cur, number), len, false)
}

/// Where a write goes.
pub fn sys_write_handler(procs: &ProcessTable, cur: u64, number: usize, len: u64) -> (r: Result<Transfer, SysError>)
    ensures
        r == transfer(handle_of(procs@, cur, number as int), len, true),
{
    direct(find_handle(procs, cur, number), len, true)
}

/// What a device's answer to a transfer means to the process.
pub fn transfer_result(answer: Result<Status, KError>, completed: u64, writes: bool) -> (r: Result<u64, SysError>)
    ensures
        r == (match answer {
            Ok(Status::Success) => Ok(completed),
            Ok(_) => Err(SysError::Invalid),
            Err(e) => if writes { Err(SysError::Invalid) } else { Err(SysError::Kernel(e)) },
        }),
{
    match answer {
        Ok(Status::Success) => Ok(completed),
        Ok(_) => Err(SysError::Invalid),
        Err(e) => if writes { Err(SysError::Invalid) } else { Err(SysError::Kernel(e)) },
    }
}

/// What a control request hands to a driver.
#[derive(Clone, Copy, Debug, PartialEq, Eq, Structural)]
pub enum ControlInfo {
    /// The process whose group or session is meant.
    Process(u64),
    Mode(u8),
}

/// The device and what it is told, for the control requests that a process may make.
pub open spec fn control(h: Option<Handle>, minor: Option<IrpMinor>, arg: u64) -> Result<(u64, ControlInfo), SysError> {
    match h {
        Some(d) => if d.kind != HandleKind::Device {
            Err(SysError::Invalid)
        } else {
            match minor {
                Some(IrpMinor::SetForegroundPgrp) | Some(IrpMinor::SetControllingTty) =>
                    Ok((d.object, ControlInfo::Process(arg))),
                Some(IrpMinor::SetTtyMode) => Ok((d.object, ControlInfo::Mode((arg % 256) as u8))),
                Some(IrpMinor::GetTtyMode) => Ok((d.object, ControlInfo::Mode(0))),
                _ => Err(SysError::Invalid),
            }
        },
        None => Err(SysError::Invalid),
    }
}

/// What a device is told for a control request.
pub fn sys_device_control_handler(procs: &ProcessTable, cur: u64, number: usize, minor: Option<IrpMinor>, arg: u64)
    -> (r: Result<(u64, ControlInfo), SysError>)
    ensures
        r == control(handle_of(procs@, cur, number as int), minor, arg),
{
    match find_handle(procs, cur, number) {
        None => Err(SysError::Invalid),
        Some(d) => {
            if d.kind != HandleKind::Device {
                return Err(SysError::Invalid);
            }
            match minor {
                Some(IrpMinor::SetForegroundPgrp) | Some(IrpMinor::SetControllingTty) =>
                    Ok((d.object, ControlInfo::Process(arg))),
                Some(IrpMinor::SetTtyMode) => Ok((d.object, ControlInfo::Mode((arg % 256) as u8))),
                Some(IrpMinor::GetTtyMode) => Ok((d.object, ControlInfo::Mode(0))),
                _ => Err(SysError::Invalid),
            }
        },
    }
}

/// What a device's answer to a control request means to the process.
pub fn control_result(answer: Result<Status, KError>) -> (r: Result<(), SysError>)
    ensures
        r == (match answer {
            Ok(Status::Success) => Ok(()),
            Ok(_) => Err(SysError::NoPerm),
            Err(_) => Err(SysError::Invalid),
        }),
{
    match answer {
        Ok(Status::Success) => Ok(()),
        Ok(_) => Err(SysError::NoPerm),
        Err(_) => Err(SysError::Invalid),
    }
}

/// The text at a user address, whatever it holds.
pub open spec fn text_at(m: Seq<Stretch>, ptr: int) -> Option<Seq<u8>> {
    match user::user_strlen(m, ptr) {
        None => None,
        Some(n) => user::user_bytes(m, 0, ptr, n),
    }
}

/// The texts that the first `n` addresses of a list point to.
pub open spec fn texts_behind(m: Seq<Stretch>, list: Seq<u8>, n: nat) -> Result<Seq<Seq<u8>>, SysError>
    decreases n,
{
    if n == 0 {
        Ok(Seq::empty())
    } else {
        match texts_behind(m, list, (n - 1) as nat) {
            Err(e) => Err(e),
            Ok(rest) => match text_at(m, elf::le64(list, 8 * (n - 1))) {
                None => Err(SysError::InvalidMemoryRange),
                Some(t) => if vstd::utf8::valid_utf8(t) { Ok(rest.push(t)) } else { Err(SysError::Invalid) },
            },
        }
    }
}

proof fn lemma_texts_stuck(m: Seq<Stretch>, list: Seq<u8>, i: nat, n: nat)
    requires
        i <= n,
        texts_behind(m, list, i) is Err,
    ensures
        texts_behind(m, list, n) == texts_behind(m, list, i),
    decreases n,
{
    if i < n {
        lemma_texts_stuck(m, list, i, (n - 1) as nat);
    }
}

/// The arguments that a process gives for a new one.
pub open spec fn command_line(m: Seq<Stretch>, list: u64, len: u64) -> Result<Seq<Seq<u8>>, SysError> {
    if list == 0 || len == 0 {
        Err(SysError::Invalid)
    } else {
        match user::user_bytes(m, 0, list as int, 8 * len) {
            None => Err(SysError::InvalidMemoryRange),
            Some(b) => texts_behind(m, b, len as nat),
        }
    }
}

fn read_text(memory: &UserMemory, ptr: u64) -> (r: Result<Vec<u8>, SysError>)
    requires
        user::ranges_ok(memory@),
    ensures
        match text_at(memory@, ptr as int) {
            None => r == Err::<Vec<u8>, SysError>(SysError::InvalidMemoryRange),
            Some(t) => if vstd::utf8::valid_utf8(t) {
                r is Ok && r->Ok_0@ == t
            } else {
                r == Err::<Vec<u8>, SysError>(SysError::Invalid)
            },
        },
{
    let n: u64 = match memory.read_c_strlen(ptr) {
        Some(n) => n,
        None => { return Err(SysError::InvalidMemoryRange); },
    };
    match memory.copy_from_user(ptr, n) {
        None => Err(SysError::InvalidMemoryRange),
        Some(t) => if util::is_utf8(&t) { Ok(t) } else { Err(SysError::Invalid) },
    }
}

fn read_command_line(memory: &UserMemory, list: u64, len: u64) -> (r: Result<Vec<Vec<u8>>, SysError>)
    requires
        user::ranges_ok(memory@),
        8 * len <= u64::MAX,
    ensures
        match command_line(memory@, list, len) {
            Ok(a) => r is Ok && util::strings(r->Ok_0@) == a,
            Err(e) => r == Err::<Vec<Vec<u8>>, SysError>(e),
        },
{
    if list == 0 || len == 0 {
        return Err(SysError::Invalid);
    }
    let b: Vec<u8> = match memory.copy_from_user(list, 8 * len) {
        Some(b) => b,
        None => { return Err(SysError::InvalidMemoryRange); },
    };
    let ghost m = memory@;
    let mut out: Vec<Vec<u8>> = Vec::new();
    assert(util::strings(out@) =~= Seq::empty());
    let mut i: u64 = 0;
    while i < len
        invariant
            i <= len,
            m == memory@,
            user::ranges_ok(m),
            b@.len() == 8 * len,
            list != 0,
            len != 0,
            user::user_bytes(m, 0, list as int, 8 * len) == Some(b@),
            texts_behind(m, b@, i as nat) == Ok::<Seq<Seq<u8>>, SysError>(util::strings(out@)),
        decreases len - i,
    {
        let ptr: u64 = elf::read_u64(&b, 8 * i);
        match read_text(memory, ptr) {
            Err(e) => {
                proof {
                    assert(texts_behind(m, b@, (i + 1) as nat) == Err::<Seq<Seq<u8>>, SysError>(e));
                    lemma_texts_stuck(m, b@, (i + 1) as nat, len as nat);
                }
                return Err(e);
            },
            Ok(t) => {
                let ghost before = util::strings(out@);
                let ghost tv = t@;
                out.push(t);
                assert(util::strings(out@) =~= before.push(tv));
            },
        }
        i = i + 1;
    }
    Ok(out)
}

/// What a process asks to be started with: arguments and environment.
pub struct ProcessRequest {
    pub args: Vec<Vec<u8>>,
    pub envp: Vec<Vec<u8>>,
}

/// Reads what a process asks for a new one.
pub fn sys_create_process_handler(memory: &UserMemory, list: u64, len: u64, envp: u64)
    -> (r: Result<ProcessRequest, SysError>)
    requires
        user::ranges_ok(memory@),
        8 * len <= u64::MAX,
    ensures
        match command_line(memory@, list, len) {
            Err(e) => r == Err::<ProcessRequest, SysError>(e),
            Ok(a) => if envp == 0 {
                r is Ok && util::strings(r->Ok_0.args@) == a && r->Ok_0.envp@.len() == 0
            } else {
                match user::env_from(memory@, envp as int, 0) {
                    Some(e) => r is Ok && util::strings(r->Ok_0.args@) == a && util::strings(r->Ok_0.envp@) == e,
                    None => r == Err::<ProcessRequest, SysError>(SysError::InvalidMemoryRange),
                }
            },
        },
{
    match read_command_line(memory, list, len) {
        Err(e) => Err(e),
        Ok(args) => match memory.read_user_envp(envp) {
            None => Err(SysError::InvalidMemoryRange),
            Some(envp) => Ok(ProcessRequest { args, envp }),
        },
    }
}

/// A name that has to be there.
pub open spec fn name_at(m: Seq<Stretch>, ptr: u64) -> Result<Seq<u8>, SysError> {
    match user::user_string(m, ptr as int) {
        None => Err(SysError::InvalidMemoryRange),
        Some(s) => if s.len() == 0 { Err(SysError::Invalid) } else { Ok(s) },
    }
}

/// Reads a name that has to be there.
pub fn read_name(memory: &UserMemory, ptr: u64) -> (r: Result<Vec<u8>, SysError>)
    requires
        user::ranges_ok(memory@),
    ensures
        match name_at(memory@, ptr) {
            Ok(s) => r is Ok && r->Ok_0@ == s,
            Err(e) => r == Err::<Vec<u8>, SysError>(e),
        },
{
    match memory.read_user_string(ptr) {
        None => Err(SysError::InvalidMemoryRange),
        Some(s) => if s.len() == 0 { Err(SysError::Invalid) } else { Ok(s) },
    }
}

/// Reads the kind and the name of the object that a process wants to open.
pub fn sys_open_handler(memory: &UserMemory, kind: u64, name: u64) -> (r: Result<(Vec<u8>, Vec<u8>), SysError>)
    requires
        user::ranges_ok(memory@),
    ensures
        kind == 0 || name == 0 ==> r == Err::<(Vec<u8>, Vec<u8>), SysError>(SysError::Invalid),
        kind != 0 && name != 0 ==> match (name_at(memory@, kind), name_at(memory@, name)) {
            (Err(e), _) => r == Err::<(Vec<u8>, Vec<u8>), SysError>(e),
            (Ok(_), Err(e)) => r == Err::<(Vec<u8>, Vec<u8>), SysError>(e),
            (Ok(k), Ok(n)) => r is Ok && r->Ok_0.0@ == k && r->Ok_0.1@ == n,
        },
{
    if kind == 0 || name == 0 {
        return Err(SysError::Invalid);
    }
    match read_name(memory, kind) {
        Err(e) => Err(e),
        Ok(k) => match read_name(memory, name) {
            Err(e) => Err(e),
            Ok(n) => Ok((k, n)),
        },
    }
}

} // verus!
