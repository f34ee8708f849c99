use vstd::prelude::*;
use crate::error::KError;
use crate::loader::image::MemoryRegion;
use crate::mem::manager::MemoryManager;
use crate::sched::handle;
use crate::sched::handle::{Handle, HandleType, inherit_handles};
use crate::sched::queue;
use crate::sched::scheduler;
use crate::sched::scheduler::{NewThread, Sched, Scheduler};
use crate::sched::task;
use crate::sched::task::{MAX_SIGNALS, Task, TaskStatus, get_highest_set_bit};
use crate::sync::lock::Spinlock;
use crate::util;
use crate::util::bytes_copy;

verus! {

/// Where a process is in its life.
#[derive(Clone, Copy, Debug, PartialEq, Eq, Structural)]
pub enum ProcessStatus {
    Ready,
    /// Its first thread stops before it enters user mode.
    Suspended,
    Terminated,
}

/// What a process wants done about a signal.
#[derive(Clone, Copy, Debug, PartialEq, Eq, Structural)]
pub struct SignalHandler {
    pub user_ctx: u64,
    pub handler: u64,
}

#[derive(Clone, Copy, Debug)]
pub struct HandlerTable {
    pub h0: Option<SignalHandler>,
    pub h1: Option<SignalHandler>,
    pub h2: Option<SignalHandler>,
    pub h3: Option<SignalHandler>,
    pub h4: Option<SignalHandler>,
    pub h5: Option<SignalHandler>,
}

impl HandlerTable {
    pub open spec fn at(self, i: u8) -> Option<SignalHandler> {
        if i == 0 { self.h0 }
        else if i == 1 { self.h1 }
        else if i == 2 { self.h2 }
        else if i == 3 { self.h3 }
        else if i == 4 { self.h4 }
        else if i == 5 { self.h5 }
        else { None }
    }

    pub open spec fn with(self, i: u8, h: SignalHandler) -> HandlerTable {
        if i == 0 { HandlerTable { h0: Some(h), ..self } }
        else if i == 1 { HandlerTable { h1: Some(h), ..self } }
        else if i == 2 { HandlerTable { h2: Some(h), ..self } }
        else if i == 3 { HandlerTable { h3: Some(h), ..self } }
        else if i == 4 { HandlerTable { h4: Some(h), ..self } }
        else if i == 5 { HandlerTable { h5: Some(h), ..self } }
        else { self }
    }

    pub fn empty() -> (r: HandlerTable)
        ensures
            r == (HandlerTable { h0: None, h1: None, h2: None, h3: None, h4: None, h5: None }),
    {
        HandlerTable { h0: None, h1: None, h2: None, h3: None, h4: None, h5: None }
    }

    pub fn get(&self, i: u8) -> (r: Option<SignalHandler>)
        ensures
            r == self.at(i),
    {
        match i {
            0 => self.h0,
            1 => self.h1,
            2 => self.h2,
            3 => self.h3,
            4 => self.h4,
            5 => self.h5,
            _ => None,
        }
    }

    pub fn put(&mut self, i: u8, h: SignalHandler)
        ensures
            *final(self) == old(self).with(i, h),
    {
        match i {
            0 => { self.h0 = Some(h); },
            1 => { self.h1 = Some(h); },
            2 => { self.h2 = Some(h); },
            3 => { self.h3 = Some(h); },
            4 => { self.h4 = Some(h); },
            5 => { self.h5 = Some(h); },
            _ => {},
        }
    }
}

/// A process.
pub struct Process {
    pub id: u64,
    /// The process that made it.
    pub pid: u64,
    pub session: u64,
    pub pgroup: u64,
    pub threads: Vec<u64>,
    pub addr_space: u64,
    pub status: ProcessStatus,
    pub is_user: bool,
    pub term_notify: usize,
    pub init_notify: usize,
    pub init_status: bool,
    pub handle_table: Vec<Option<HandleType>>,
    /// Physical memory that goes back when the process ends.
    pub memory_list: Vec<MemoryRegion>,
    pub signal_handlers: HandlerTable,
    /// Signals that have not been given to a thread yet.
    pub pending_signals: u8,
    pub args: Vec<Vec<u8>>,
    pub exit_code: i64,
}

#[verifier::ext_equal]
pub struct Proc {
    pub id: u64,
    pub pid: u64,
    pub session: u64,
    pub pgroup: u64,
    pub threads: Seq<u64>,
    pub addr_space: u64,
    pub status: ProcessStatus,
    pub is_user: bool,
    pub term_notify: usize,
    pub init_notify: usize,
    pub init_status: bool,
    pub handles: Seq<Option<HandleType>>,
    pub memory: Seq<MemoryRegion>,
    pub handlers: HandlerTable,
    pub pending: u8,
    pub args: Seq<Seq<u8>>,
    pub exit_code: i64,
}

impl View for Process {
    type V = Proc;

    open spec fn view(&self) -> Proc {
        Proc {
            id: self.id,
            pid: self.pid,
            session: self.session,
            pgroup: self.pgroup,
            threads: self.threads@,
            addr_space: self.addr_space,
            status: self.status,
            is_user: self.is_user,
            term_notify: self.term_notify,
            init_notify: self.init_notify,
            init_status: self.init_status,
            handles: self.handle_table@,
            memory: self.memory_list@,
            handlers: self.signal_handlers,
            pending: self.pending_signals,
            args: util::strings(self.args@),
            exit_code: self.exit_code,
        }
    }
}

/// What can be asked about a process.
#[derive(Clone, Copy, Debug, PartialEq, Eq, Structural)]
pub struct ProcessInfo {
    pub id: u64,
    pub pid: u64,
    pub sid: u64,
    pub exit_code: i64,
}

/// What is known of a process that has ended: what those who have a handle for it can still ask, and
/// what they can still wait for.
#[derive(Clone, Copy, Debug, PartialEq, Eq, Structural)]
pub struct EndedProcess {
    pub info: ProcessInfo,
    pub term_notify: usize,
}

/// What can be asked about a thread.
#[derive(Clone, Copy, Debug, PartialEq, Eq, Structural)]
pub struct ThreadInfo {
    pub id: u64,
    pub exit_code: i64,
}

/// A process that belongs to a session or a process group.
#[derive(Clone, Copy, Debug, PartialEq, Eq, Structural)]
pub struct Member {
    pub of: u64,
    pub process: u64,
}

/// All processes, sessions and process groups.
pub struct ProcessTable {
    pub procs: Vec<Process>,
    pub session_members: Vec<Member>,
    pub session_leaders: Vec<Member>,
    pub group_members: Vec<Member>,
    /// Processes that have ended.
    pub ended: Vec<EndedProcess>,
    pub next_process: u64,
}

#[verifier::ext_equal]
pub struct Procs {
    pub procs: Seq<Proc>,
    pub session_members: Seq<Member>,
    pub session_leaders: Seq<Member>,
    pub group_members: Seq<Member>,
    pub ended: Seq<EndedProcess>,
    pub next_process: u64,
}

pub open spec fn proc_views(v: Seq<Process>) -> Seq<Proc> {
    Seq::new(v.len(), |i: int| v[i]@)
}

impl View for ProcessTable {
    type V = Procs;

    open spec fn view(&self) -> Procs {
        Procs {
            procs: proc_views(self.procs@),
            session_members: self.session_members@,
            session_leaders: self.session_leaders@,
            group_members: self.group_members@,
            ended: self.ended@,
            next_process: self.next_process,
        }
    }
}

pub open spec fn find_proc(s: Seq<Proc>, i: int, id: u64) -> Option<int>
    decreases s.len() - i,
{
    if i < 0 || i >= s.len() {
        None
    } else if s[i].id == id {
        Some(i)
    } else {
        find_proc(s, i + 1, id)
    }
}

pub open spec fn find_member(s: Seq<Member>, i: int, of: u64, process: u64) -> Option<int>
    decreases s.len() - i,
{
    if i < 0 || i >= s.len() {
        None
    } else if s[i].of == of && s[i].process == process {
        Some(i)
    } else {
        find_member(s, i + 1, of, process)
    }
}

pub open spec fn without_member(s: Seq<Member>, of: u64, process: u64) -> Seq<Member> {
    match find_member(s, 0, of, process) { Some(i) => s.remove(i), None => s }
}

fn member_index(s: &Vec<Member>, of: u64, process: u64) -> (r: Option<usize>)
    ensures
        match r {
            Some(i) => find_member(s@, 0, of, process) == Some(i as int) && i < s@.len(),
            None => find_member(s@, 0, of, process) is None,
        },
{
    let mut i: usize = 0;
    while i < s.len()
        invariant
            i <= s@.len(),
            find_member(s@, 0, of, process) == find_member(s@, i as int, of, process),
        decreases s@.len() - i,
    {
        if s[i].of == of && s[i].process == process {
            return Some(i);
        }
        i = i + 1;
    }
    None
}

fn drop_member(s: &mut Vec<Member>, of: u64, process: u64)
    ensures
        final(s)@ == without_member(old(s)@, of, process),
{
    if let Some(i) = member_index(s, of, process) {
        let _ = s.remove(i);
    }
}

pub proof fn lemma_proc_found(s: Seq<Proc>, i: int, id: u64)
    requires
        0 <= i,
    ensures
        match find_proc(s, i, id) {
            Some(k) => i <= k < s.len() && s[k].id == id,
            None => forall|k: int| i <= k < s.len() ==> (#[trigger] s[k]).id != id,
        },
    decreases s.len() - i,
{
    if i < s.len() {
        lemma_proc_found(s, i + 1, id);
    }
}

/// What is left of a process that has ended.
pub struct ProcessCleanupWork {
    pub proc_id: u64,
    pub addr_space: u64,
    pub memory_list: Vec<MemoryRegion>,
    pub handles: Vec<Option<HandleType>>,
}

/// The model of a `ProcessCleanupWork`.
#[verifier::ext_equal]
pub struct Work {
    pub proc_id: u64,
    pub addr_space: u64,
    pub memory: Seq<MemoryRegion>,
    pub handles: Seq<Option<HandleType>>,
}

impl View for ProcessCleanupWork {
    type V = Work;

    open spec fn view(&self) -> Work {
        Work {
            proc_id: self.proc_id,
            addr_space: self.addr_space,
            memory: self.memory_list@,
            handles: self.handles@,
        }
    }
}

/// What a process leaves behind.
pub open spec fn left_behind(p: Proc) -> Work {
    Work { proc_id: p.id, addr_space: p.addr_space, memory: p.memory, handles: p.handles }
}

impl Procs {
    /// Ids are unique and were given out in order.
    pub open spec fn well_formed(self) -> bool {
        &&& forall|i: int, j: int| 0 <= i < j < self.procs.len() ==> (#[trigger] self.procs[i]).id != (
            #[trigger] self.procs[j]).id
        &&& forall|i: int| 0 <= i < self.procs.len() ==> (#[trigger] self.procs[i]).id < self.next_process
    }

    pub open spec fn proc(self, id: u64) -> Option<Proc> {
        match find_proc(self.procs, 0, id) { Some(i) => Some(self.procs[i]), None => None }
    }

    pub open spec fn with_proc(self, p: Proc) -> Procs {
        match find_proc(self.procs, 0, p.id) {
            Some(i) => Procs { procs: self.procs.update(i, p), ..self },
            None => self,
        }
    }

    pub open spec fn leads(self, p: Proc) -> bool {
        find_member(self.session_leaders, 0, p.session, p.id) is Some
    }

    /// Whether process `by` may take a process out of what both are in: the process itself may, and
    /// its parent while both are in the same one.
    pub open spec fn may_move(self, p: Proc, by: u64, same: spec_fn(Proc) -> bool) -> bool {
        by == p.id || (by == p.pid && (self.proc(p.pid) matches Some(q) && same(q)))
    }

    /// A process leads a session of its own.
    pub open spec fn session_led(self, p: Proc) -> Procs {
        Procs {
            session_members: without_member(self.session_members, p.session, p.id).push(
                Member { of: p.id, process: p.id }),
            session_leaders: self.session_leaders.push(Member { of: p.id, process: p.id }),
            ..self.with_proc(Proc { session: p.id, ..p })
        }
    }

    /// A process is in a process group of its own.
    pub open spec fn group_led(self, p: Proc) -> Procs {
        Procs {
            group_members: without_member(self.group_members, p.pgroup, p.id).push(
                Member { of: p.id, process: p.id }),
            ..self.with_proc(Proc { pgroup: p.id, ..p })
        }
    }

    /// A process has ended, and `p` is what it was at the end.
    pub open spec fn destroyed(self, p: Proc) -> Procs {
        match find_proc(self.procs, 0, p.id) {
            None => self,
            Some(i) => Procs {
                procs: self.procs.remove(i),
                session_members: without_member(self.session_members, p.session, p.id),
                session_leaders: without_member(self.session_leaders, p.session, p.id),
                group_members: without_member(self.group_members, p.pgroup, p.id),
                ended: self.ended.push(EndedProcess {
                    info: ProcessInfo { id: p.id, pid: p.pid, sid: p.session, exit_code: p.exit_code },
                    term_notify: p.term_notify,
                }),
                ..self
            },
        }
    }

    /// A thread of a process has ended. With the last one the process ends; unless it has been killed,
    /// it ends with the thread's exit code.
    pub open spec fn thread_removed(self, id: u64, thread: u64, exit_code: i64) -> (Procs, bool) {
        match self.proc(id) {
            None => (self, false),
            Some(p) => {
                let threads = queue::taken_out(p.threads, thread);
                if threads.len() > 0 {
                    (self.with_proc(Proc { threads, ..p }), false)
                } else {
                    (self.destroyed(Proc {
                        exit_code: if p.status != ProcessStatus::Terminated { exit_code } else { p.exit_code },
                        ..p
                    }), true)
                }
            },
        }
    }
}

/// A process that has ended is not found any more.
pub proof fn lemma_destroyed(s: Procs, p: Proc)
    requires
        s.well_formed(),
        s.proc(p.id) is Some,
    ensures
        s.destroyed(p).proc(p.id) is None,
{
    lemma_proc_found(s.procs, 0, p.id);
    let k = find_proc(s.procs, 0, p.id)->0;
    let r = s.procs.remove(k);
    lemma_proc_found(r, 0, p.id);
    if let Some(j) = find_proc(r, 0, p.id) {
        let a = if j < k { j } else { j + 1 };
        assert(s.procs[a].id == p.id);
        if a < k {
            assert(s.procs[a].id != s.procs[k].id);
        } else {
            assert(s.procs[k].id != s.procs[a].id);
        }
    }
}

impl Process {
    pub fn get_id(&self) -> (r: u64)
        ensures
            r == self@.id,
    {
        self.id
    }

    pub fn get_status(&self) -> (r: ProcessStatus)
        ensures
            r == self@.status,
    {
        self.status
    }

    pub fn get_user_flag(&self) -> (r: bool)
        ensures
            r == self@.is_user,
    {
        self.is_user
    }

    pub fn get_exit_code(&self) -> (r: i64)
        ensures
            r == self@.exit_code,
    {
        self.exit_code
    }

    pub fn get_vcb(&self) -> (r: u64)
        ensures
            r == self@.addr_space,
    {
        self.addr_space
    }

    pub fn get_num_threads(&self) -> (r: usize)
        ensures
            r == self@.threads.len(),
    {
        self.threads.len()
    }

    pub fn get_num_handles(&self) -> (r: usize)
        ensures
            r == self@.handles.len(),
    {
        self.handle_table.len()
    }

    pub fn get_notify_sem(&self) -> (r: usize)
        ensures
            r == self@.term_notify,
    {
        self.term_notify
    }

    pub fn get_init_sem(&self) -> (r: usize)
        ensures
            r == self@.init_notify,
    {
        self.init_notify
    }

    pub fn get_args(&self) -> (r: &Vec<Vec<u8>>)
        ensures
            util::strings(r@) == self@.args,
    {
        &self.args
    }

    pub fn set_status(&mut self, status: ProcessStatus)
        ensures
            final(self)@ == (Proc { status, ..old(self)@ }),
    {
        self.status = status;
    }

    pub fn attach_thread_to_current_process(&mut self, thread_id: u64)
        ensures
            final(self)@ == (Proc { threads: old(self)@.threads.push(thread_id), ..old(self)@ }),
    {
        self.threads.push(thread_id);
    }

    pub fn set_signal_handler(&mut self, signal: u8, handler: SignalHandler)
        requires
            signal < MAX_SIGNALS,
        ensures
            final(self)@ == (Proc { handlers: old(self)@.handlers.with(signal, handler), ..old(self)@ }),
    {
        self.signal_handlers.put(signal, handler);
    }

    pub fn get_signal_handler(&self, signal: u8) -> (r: Option<SignalHandler>)
        requires
            signal < MAX_SIGNALS,
        ensures
            r == self@.handlers.at(signal),
    {
        self.signal_handlers.get(signal)
    }

    pub fn get_first_task(&self) -> (r: Option<u64>)
        ensures
            r == (if self@.threads.len() > 0 { Some(self@.threads[0]) } else { None }),
    {
        if self.threads.len() > 0 { Some(self.threads[0]) } else { None }
    }

    pub fn get_threads_snapshot(&self) -> (r: Vec<u64>)
        ensures
            r@ == self@.threads,
    {
        let mut out: Vec<u64> = Vec::new();
        let mut i: usize = 0;
        while i < self.threads.len()
            invariant
                i <= self.threads@.len(),
                out@ == self.threads@.take(i as int),
            decreases self.threads@.len() - i,
        {
            out.push(self.threads[i]);
            assert(self.threads@.take(i + 1) =~= self.threads@.take(i as int).push(self.threads@[i as int]));
            i = i + 1;
        }
        assert(self.threads@.take(i as int) =~= self.threads@);
        out
    }

    pub fn get_process_header(&self) -> (r: ProcessInfo)
        ensures
            r == (ProcessInfo {
                id: self@.id,
                pid: self@.pid,
                sid: self@.session,
                exit_code: self@.exit_code,
            }),
    {
        ProcessInfo { id: self.id, pid: self.pid, sid: self.session, exit_code: self.exit_code }
    }

    /// Says whether the process could be set up, to whoever waits to know.
    pub fn complete_init(&mut self, sched: &mut Scheduler, status: bool)
        requires
            old(sched)@.well_formed(),
            old(self).init_notify < old(sched).sems@.len(),
        ensures
            final(self)@ == (Proc { init_status: status, ..old(self)@ }),
            final(sched)@ == old(sched)@.signalled(old(self).init_notify as int),
            final(sched)@.well_formed(),
    {
        self.init_status = status;
        sched.do_signal(self.init_notify);
    }

    /// Counts physical memory as the process's.
    pub fn add_memory_range(&mut self, base_address: u64, size: u64)
        ensures
            final(self)@ == (Proc {
                memory: old(self)@.memory.push(MemoryRegion { base_address, size }),
                ..old(self)@
            }),
    {
        self.memory_list.push(MemoryRegion { base_address, size });
    }

    /// Takes back that some memory is the process's.
    pub fn remove_memory_range(&mut self, base_address: u64, size: u64)
        requires
            find_range(old(self)@.memory, 0, base_address, size) is Some,
        ensures
            final(self)@ == (Proc {
                memory: old(self)@.memory.remove(find_range(old(self)@.memory, 0, base_address, size)->0),
                ..old(self)@
            }),
    {
        let mut i: usize = 0;
        while i < self.memory_list.len()
            invariant
                i <= self.memory_list@.len(),
                *self == *old(self),
                find_range(old(self)@.memory, 0, base_address, size) is Some,
                find_range(self.memory_list@, 0, base_address, size) == find_range(
                    self.memory_list@, i as int, base_address, size),
            decreases self.memory_list@.len() - i,
        {
            if self.memory_list[i].base_address == base_address && self.memory_list[i].size == size {
                let _ = self.memory_list.remove(i);
                return;
            }
            i = i + 1;
        }
    }
}

pub open spec fn find_range(s: Seq<MemoryRegion>, i: int, base: u64, size: u64) -> Option<int>
    decreases s.len() - i,
{
    if i < 0 || i >= s.len() {
        None
    } else if s[i].base_address == base && s[i].size == size {
        Some(i)
    } else {
        find_range(s, i + 1, base, size)
    }
}

impl ProcessTable {
    /// The place of a process in the table.
    pub fn find(&self, id: u64) -> (r: Option<usize>)
        ensures
            match r {
                Some(i) => find_proc(self@.procs, 0, id) == Some(i as int) && i < self.procs@.len()
                    && self.procs@[i as int].id == id,
                None => find_proc(self@.procs, 0, id) is None,
            },
    {
        let mut i: usize = 0;
        while i < self.procs.len()
            invariant
                i <= self.procs@.len(),
                find_proc(self@.procs, 0, id) == find_proc(self@.procs, i as int, id),
            decreases self.procs@.len() - i,
        {
            if self.procs[i].id == id {
                return Some(i);
            }
            i = i + 1;
        }
        None
    }

    /// Makes a process the leader of a new session, on behalf of process `by`. A process that leads
    /// one already stays there.
    pub fn set_session_leader(&mut self, pid: u64, by: u64) -> (r: bool)
        requires
            old(self)@.well_formed(),
            pid != 0,
        ensures
            r == (old(self)@.proc(pid) matches Some(p) && !old(self)@.leads(p) && old(self)@.may_move(
                p, by, |q: Proc| q.session == p.session)),
            final(self)@ == (if r { old(self)@.session_led(old(self)@.proc(pid)->0) } else { old(self)@ }),
            final(self)@.well_formed(),
    {
        let ghost v0 = self@;
        let i: usize = match self.find(pid) { Some(i) => i, None => { return false; } };
        let session: u64 = self.procs[i].session;
        if member_index(&self.session_leaders, session, pid).is_some() {
            return false;
        }
        if by != pid {
            let parent: u64 = self.procs[i].pid;
            if by != parent {
                return false;
            }
            match self.find(parent) {
                None => { return false; },
                Some(k) => {
                    if self.procs[k].session != session {
                        return false;
                    }
                },
            }
        }
        drop_member(&mut self.session_members, session, pid);
        self.session_members.push(Member { of: pid, process: pid });
        self.session_leaders.push(Member { of: pid, process: pid });
        self.procs[i].session = pid;
        assert(self@.procs =~= v0.procs.update(i as int, Proc { session: pid, ..v0.procs[i as int] }));
        true
    }

    /// Puts a process into a process group of its own, on behalf of process `by`. A process that is
    /// in it already stays there.
    pub fn set_pgroup_leader(&mut self, pid: u64, by: u64) -> (r: bool)
        requires
            old(self)@.well_formed(),
            pid != 0,
        ensures
            r == (old(self)@.proc(pid) matches Some(p) && p.pgroup != p.id && old(self)@.may_move(
                p, by, |q: Proc| q.pgroup == p.pgroup)),
            final(self)@ == (if r { old(self)@.group_led(old(self)@.proc(pid)->0) } else { old(self)@ }),
            final(self)@.well_formed(),
    {
        let ghost v0 = self@;
        let i: usize = match self.find(pid) { Some(i) => i, None => { return false; } };
        let pgroup: u64 = self.procs[i].pgroup;
        if pgroup == pid {
            return false;
        }
        if by != pid {
            let parent: u64 = self.procs[i].pid;
            if by != parent {
                return false;
            }
            match self.find(parent) {
                None => { return false; },
                Some(k) => {
                    if self.procs[k].pgroup != pgroup {
                        return false;
                    }
                },
            }
        }
        drop_member(&mut self.group_members, pgroup, pid);
        self.group_members.push(Member { of: pid, process: pid });
        self.procs[i].pgroup = pid;
        assert(self@.procs =~= v0.procs.update(i as int, Proc { pgroup: pid, ..v0.procs[i as int] }));
        true
    }

    /// Takes a thread that has ended out of its process. With the last one the process ends, and what
    /// is left of it is given back.
    pub fn remove_thread(&mut self, id: u64, thread: u64, exit_code: i64) -> (r: Option<ProcessCleanupWork>)
        requires
            old(self)@.well_formed(),
        ensures
            (final(self)@, r is Some) == old(self)@.thread_removed(id, thread, exit_code),
            r matches Some(w) ==> old(self)@.proc(id) matches Some(p) && w@ == left_behind(p),
            final(self)@.well_formed(),
    {
        let ghost v0 = self@;
        let i: usize = match self.find(id) { Some(i) => i, None => { return None; } };
        let _ = queue::take_out(&mut self.procs[i].threads, thread);
        let ghost p0 = v0.procs[i as int];
        assert(self@.procs =~= v0.procs.update(
            i as int, Proc { threads: queue::taken_out(p0.threads, thread), ..p0 }));
        if self.procs[i].threads.len() > 0 {
            return None;
        }
        let p: Process = self.procs.remove(i);
        assert(self@.procs =~= v0.procs.remove(i as int));
        proof {
            let u = self@.procs;
            assert forall|a: int, b: int| 0 <= a < b < u.len() implies (#[trigger] u[a]).id != (#[trigger] u[b]).id by {
                let c = if a < i { a } else { a + 1 };
                let d = if b < i { b } else { b + 1 };
                assert(v0.procs[c].id != v0.procs[d].id);
            }
            assert forall|a: int| 0 <= a < u.len() implies (#[trigger] u[a]).id < v0.next_process by {
                let c = if a < i { a } else { a + 1 };
                assert(v0.procs[c].id < v0.next_process);
            }
        }
        let code: i64 = if p.status != ProcessStatus::Terminated { exit_code } else { p.exit_code };
        drop_member(&mut self.session_members, p.session, id);
        drop_member(&mut self.session_leaders, p.session, id);
        drop_member(&mut self.group_members, p.pgroup, id);
        self.ended.push(EndedProcess {
            info: ProcessInfo { id, pid: p.pid, sid: p.session, exit_code: code },
            term_notify: p.term_notify,
        });
        Some(ProcessCleanupWork {
            proc_id: p.id,
            addr_space: p.addr_space,
            memory_list: p.memory_list,
            handles: p.handle_table,
        })
    }
}

/// What the kernel has set up for a new process.
#[derive(Clone, Copy, Debug)]
pub struct ProcessParts {
    /// The clone of the kernel's address space, or why there is none.
    pub addr_space: Result<u64, KError>,
    pub term_notify: usize,
    pub init_notify: usize,
    /// The first thread, or why there is none.
    pub thread: Result<NewThread, KError>,
}

pub open spec fn fresh_proc(
    id: u64,
    parent: Proc,
    args: Seq<Seq<u8>>,
    is_user: bool,
    is_suspended: bool,
    parts: ProcessParts,
    thread: u64,
) -> Proc {
    Proc {
        id,
        pid: parent.id,
        session: parent.session,
        pgroup: parent.pgroup,
        threads: seq![thread],
        addr_space: parts.addr_space->Ok_0,
        status: if is_suspended { ProcessStatus::Suspended } else { ProcessStatus::Ready },
        is_user,
        term_notify: parts.term_notify,
        init_notify: parts.init_notify,
        init_status: false,
        handles: handle::inherited(parent.handles),
        memory: Seq::empty(),
        handlers: HandlerTable { h0: None, h1: None, h2: None, h3: None, h4: None, h5: None },
        pending: 0,
        args,
        exit_code: 0,
    }
}

/// The thread of a new process, which belongs to it and lives in its address space.
pub open spec fn first_thread(p: NewThread, id: u64, addr_space: u64) -> NewThread {
    NewThread { process: id, vcb: addr_space, ..p }
}

impl Procs {
    /// The outcome of a process's making another. The first argument names what it runs. A process
    /// without an address space uses its id up, and one without a thread its places in the session and
    /// the process group too.
    pub open spec fn process_created(
        self,
        sched: Sched,
        cur: u64,
        args: Seq<Seq<u8>>,
        is_user: bool,
        is_suspended: bool,
        parts: ProcessParts,
    ) -> (Procs, Sched, Result<u64, KError>) {
        let parent = self.proc(cur)->0;
        let id = self.next_process;
        if args.len() == 0 {
            (self, sched, Err(KError::InvalidArgument))
        } else {
            let s = Procs { next_process: (id + 1) as u64, ..self };
            match parts.addr_space {
                Err(e) => (s, sched, Err(e)),
                Ok(space) => {
                    let t = Procs {
                        session_members: s.session_members.push(Member { of: parent.session, process: id }),
                        group_members: s.group_members.push(Member { of: parent.pgroup, process: id }),
                        ..s
                    };
                    match parts.thread {
                        Err(e) => (t, sched.turn_passed(false), Err(e)),
                        Ok(th) => {
                            let p = fresh_proc(id, parent, args, is_user, is_suspended, parts, sched.next_task);
                            (Procs { procs: t.procs.push(p), ..t }, sched.spawned(first_thread(th, id, space)), Ok(id))
                        },
                    }
                },
            }
        }
    }

    /// The outcome of a process's making a thread. A process that has been killed makes none.
    pub open spec fn thread_created(self, sched: Sched, id: u64, p: NewThread) -> (Procs, Sched, Result<u64, KError>) {
        match self.proc(id) {
            None => (self, sched.turn_passed(true), Err(KError::ProcessTerminated)),
            Some(q) => if q.status == ProcessStatus::Terminated {
                (self, sched.turn_passed(true), Err(KError::ProcessTerminated))
            } else {
                (
                    self.with_proc(Proc { threads: q.threads.push(sched.next_task), ..q }),
                    sched.spawned(first_thread(p, id, q.addr_space)),
                    Ok(sched.next_task),
                )
            },
        }
    }
}

impl ProcessTable {
    /// A table with the system process, which the initial task belongs to.
    pub fn init(addr_space: u64, kernel_path: Vec<u8>) -> (r: ProcessTable)
        ensures
            r@.well_formed(),
            r@.procs == seq![Proc {
                id: 0,
                pid: 0,
                session: 0,
                pgroup: 0,
                threads: seq![0u64],
                addr_space,
                status: ProcessStatus::Ready,
                is_user: false,
                term_notify: 0,
                init_notify: 0,
                init_status: false,
                handles: Seq::empty(),
                memory: Seq::empty(),
                handlers: HandlerTable { h0: None, h1: None, h2: None, h3: None, h4: None, h5: None },
                pending: 0,
                args: seq![kernel_path@],
                exit_code: 0,
            }],
            r@.session_members == seq![Member { of: 0, process: 0 }],
            r@.group_members == seq![Member { of: 0, process: 0 }],
            r@.session_leaders.len() == 0,
            r@.ended.len() == 0,
            r@.next_process == 1,
    {
        let ghost path = kernel_path@;
        let mut args: Vec<Vec<u8>> = Vec::new();
        args.push(kernel_path);
        assert(util::strings(args@) =~= seq![path]);
        let mut threads: Vec<u64> = Vec::new();
        threads.push(0);
        assert(threads@ =~= seq![0u64]);
        let mut procs: Vec<Process> = Vec::new();
        procs.push(Process {
            id: 0,
            pid: 0,
            session: 0,
            pgroup: 0,
            threads,
            addr_space,
            status: ProcessStatus::Ready,
            is_user: false,
            term_notify: 0,
            init_notify: 0,
            init_status: false,
            handle_table: Vec::new(),
            memory_list: Vec::new(),
            signal_handlers: HandlerTable::empty(),
            pending_signals: 0,
            args,
            exit_code: 0,
        });
        let mut session_members: Vec<Member> = Vec::new();
        session_members.push(Member { of: 0, process: 0 });
        let mut group_members: Vec<Member> = Vec::new();
        group_members.push(Member { of: 0, process: 0 });
        ProcessTable {
            procs,
            session_members,
            session_leaders: Vec::new(),
            group_members,
            ended: Vec::new(),
            next_process: 1,
        }
    }

    /// Makes a process on behalf of process `cur`. Its first argument names the module that it runs.
    pub fn create_process(
        &mut self,
        sched: &mut Scheduler,
        cur: u64,
        args: Vec<Vec<u8>>,
        is_user: bool,
        is_suspended: bool,
        parts: ProcessParts,
    ) -> (r: Result<u64, KError>)
        requires
            old(self)@.well_formed(),
            old(self)@.proc(cur) is Some,
            old(self).next_process < u64::MAX,
            old(sched)@.well_formed(),
            old(sched).queues@.len() > 0,
            old(sched).next_task < u64::MAX,
        ensures
            (final(self)@, final(sched)@, r) == old(self)@.process_created(
                old(sched)@, cur, util::strings(args@), is_user, is_suspended, parts),
            final(self)@.well_formed(),
            final(sched)@.well_formed(),
    {
        let ghost v0 = self@;
        if args.len() == 0 {
            return Err(KError::InvalidArgument);
        }
        let id: u64 = self.next_process;
        let k: usize = match self.find(cur) { Some(k) => k, None => { return Err(KError::InvalidArgument); } };
        let session: u64 = self.procs[k].session;
        let pgroup: u64 = self.procs[k].pgroup;
        let handle_table: Vec<Option<HandleType>> = inherit_handles(&self.procs[k].handle_table);
        self.next_process = id + 1;
        let addr_space: u64 = match parts.addr_space {
            Ok(a) => a,
            Err(e) => { return Err(e); },
        };
        self.session_members.push(Member { of: session, process: id });
        self.group_members.push(Member { of: pgroup, process: id });
        let th: NewThread = match parts.thread {
            Ok(t) => t,
            Err(e) => {
                sched.pass_turn(false);
                return Err(e);
            },
        };
        let tid: u64 = sched.create_thread(NewThread {
            stack: th.stack,
            context: th.context,
            panic_base: th.panic_base,
            user_fn: th.user_fn,
            process: id,
            vcb: addr_space,
            arg_context: th.arg_context,
            term_notify: th.term_notify,
            per_cpu_base: th.per_cpu_base,
        });
        let mut threads: Vec<u64> = Vec::new();
        threads.push(tid);
        assert(threads@ =~= seq![tid]);
        let p: Process = Process {
            id,
            pid: cur,
            session,
            pgroup,
            threads,
            addr_space,
            status: if is_suspended { ProcessStatus::Suspended } else { ProcessStatus::Ready },
            is_user,
            term_notify: parts.term_notify,
            init_notify: parts.init_notify,
            init_status: false,
            handle_table,
            memory_list: Vec::new(),
            signal_handlers: HandlerTable::empty(),
            pending_signals: 0,
            args,
            exit_code: 0,
        };
        let ghost pv = p@;
        self.procs.push(p);
        assert(self@.procs =~= v0.procs.push(pv));
        Ok(id)
    }

    /// Whether a new process could be set up, once it has said so or has ended. A kernel process is
    /// not waited for.
    pub fn creation_result(id: u64, is_user: bool, init_status: bool) -> (r: Result<u64, KError>)
        ensures
            r == (if is_user && !init_status { Err(KError::ProcessInitFailed) } else { Ok(id) }),
    {
        if is_user && !init_status { Err(KError::ProcessInitFailed) } else { Ok(id) }
    }

    /// Makes a thread in a process.
    pub fn create_thread(&mut self, sched: &mut Scheduler, id: u64, p: NewThread) -> (r: Result<u64, KError>)
        requires
            old(self)@.well_formed(),
            old(sched)@.well_formed(),
            old(sched).queues@.len() > 0,
            old(sched).next_task < u64::MAX,
            old(self)@.proc(id) matches Some(q) ==> q.is_user == (p.user_fn is Some),
        ensures
            (final(self)@, final(sched)@, r) == old(self)@.thread_created(old(sched)@, id, p),
            final(self)@.well_formed(),
            final(sched)@.well_formed(),
    {
        let ghost v0 = self@;
        let i: usize = match self.find(id) {
            Some(i) => i,
            None => {
                sched.pass_turn(true);
                return Err(KError::ProcessTerminated);
            },
        };
        if self.procs[i].status == ProcessStatus::Terminated {
            sched.pass_turn(true);
            return Err(KError::ProcessTerminated);
        }
        let tid: u64 = sched.create_thread(NewThread {
            stack: p.stack,
            context: p.context,
            panic_base: p.panic_base,
            user_fn: p.user_fn,
            process: id,
            vcb: self.procs[i].addr_space,
            arg_context: p.arg_context,
            term_notify: p.term_notify,
            per_cpu_base: p.per_cpu_base,
        });
        self.procs[i].attach_thread_to_current_process(tid);
        let ghost p0 = v0.procs[i as int];
        assert(self@.procs =~= v0.procs.update(i as int, Proc { threads: p0.threads.push(tid), ..p0 }));
        Ok(tid)
    }
}

/// Tasks that may be killed: those of other processes than the system's, which have stacks while
/// they run.
pub open spec fn killable(t: Task) -> bool {
    t.process != Some(0u64) && (t.status == TaskStatus::Running ==> t.stack is Some)
}

/// The threads of a list that are still known may be killed.
pub open spec fn all_killable(s: Sched, threads: Seq<u64>) -> bool {
    forall|i: int| 0 <= i < threads.len() ==> (s.task(#[trigger] threads[i]) matches Some(t) ==> killable(t))
}

/// The threads among the first `n`, but for one, have been killed.
pub open spec fn all_killed(s: Sched, threads: Seq<u64>, n: nat, exit_code: i64, here: usize, but: Option<u64>) -> Sched
    decreases n,
{
    if n == 0 {
        s
    } else {
        let r = all_killed(s, threads, (n - 1) as nat, exit_code, here, but);
        if but == Some(threads[n - 1]) { r } else { r.killed(threads[n - 1], exit_code, here).0 }
    }
}

impl Procs {
    /// The outcome of killing a process. A thread of it that does the killing comes last. A process
    /// is killed once.
    pub open spec fn process_killed(self, sched: Sched, id: u64, exit_code: i64, here: usize, cur: Option<u64>)
        -> (Procs, Sched, bool)
    {
        match self.proc(id) {
            None => (self, sched, false),
            Some(p) => if p.status == ProcessStatus::Terminated {
                (self, sched, false)
            } else {
                let s = all_killed(sched, p.threads, p.threads.len(), exit_code, here, cur);
                let exits = cur matches Some(c) && queue::holds(p.threads, c);
                (
                    self.with_proc(Proc { status: ProcessStatus::Terminated, exit_code, ..p }),
                    if exits { s.killed(cur->0, exit_code, here).0 } else { s },
                    exits,
                )
            },
        }
    }
}

/// Killing one task leaves the others as they are.
proof fn lemma_killed_task(s: Sched, id: u64, exit_code: i64, here: usize, other: u64)
    requires
        s.well_formed(),
        s.task(other) matches Some(t) ==> killable(t),
    ensures
        s.killed(id, exit_code, here).0.task(other) matches Some(t) ==> killable(t),
{
    if let Some(t) = s.task(id) {
        scheduler::lemma_task_found(s.tasks, 0, id);
        let u = Task {
            status: TaskStatus::Terminated,
            exit_code,
            stack: if t.status == TaskStatus::Running { None } else { t.stack },
            wait_sem: if scheduler::waits(t.status) { None } else { t.wait_sem },
            ..t
        };
        scheduler::lemma_replaced(s.tasks, u, other);
        assert(s.killed(id, exit_code, here).0.tasks == scheduler::replaced(s.tasks, u));
    }
}

proof fn lemma_killed_all_killable(s: Sched, id: u64, exit_code: i64, here: usize, threads: Seq<u64>)
    requires
        s.well_formed(),
        all_killable(s, threads),
    ensures
        all_killable(s.killed(id, exit_code, here).0, threads),
{
    let r = s.killed(id, exit_code, here).0;
    assert forall|i: int| 0 <= i < threads.len() implies (r.task(#[trigger] threads[i]) matches Some(t) ==> killable(t)) by {
        lemma_killed_task(s, id, exit_code, here, threads[i]);
    }
}

impl ProcessTable {
    /// Kills a process with all its threads, on behalf of code that runs on core `here` in task `cur`.
    /// Whether that task has been killed along with it, and gives its core up.
    pub fn kill_process(&mut self, sched: &mut Scheduler, id: u64, exit_code: i64, here: usize, cur: Option<u64>)
        -> (r: bool)
        requires
            old(self)@.well_formed(),
            old(sched)@.well_formed(),
            id != 0,
            old(self)@.proc(id) matches Some(p) ==> all_killable(old(sched)@, p.threads),
        ensures
            (final(self)@, final(sched)@, r) == old(self)@.process_killed(old(sched)@, id, exit_code, here, cur),
            final(self)@.well_formed(),
            final(sched)@.well_formed(),
    {
        let ghost v0 = self@;
        let ghost s0 = sched@;
        let i: usize = match self.find(id) { Some(i) => i, None => { return false; } };
        if self.procs[i].status == ProcessStatus::Terminated {
            return false;
        }
        let threads: Vec<u64> = self.procs[i].get_threads_snapshot();
        let ghost p0 = v0.procs[i as int];
        self.procs[i].status = ProcessStatus::Terminated;
        self.procs[i].exit_code = exit_code;
        assert(self@.procs =~= v0.procs.update(
            i as int, Proc { status: ProcessStatus::Terminated, exit_code, ..p0 }));
        let exits: bool = match cur { Some(c) => queue::contains(&threads, c), None => false };
        let mut k: usize = 0;
        while k < threads.len()
            invariant
                k <= threads@.len(),
                sched@.well_formed(),
                all_killable(sched@, threads@),
                sched@ == all_killed(s0, threads@, k as nat, exit_code, here, cur),
            decreases threads@.len() - k,
        {
            let skip: bool = match cur { Some(c) => c == threads[k], None => false };
            if !skip {
                proof {
                    lemma_killed_all_killable(sched@, threads@[k as int], exit_code, here, threads@);
                }
                assert(sched@.task(threads@[k as int]) matches Some(t) ==> killable(t));
                let _ = sched.kill_thread(threads[k], exit_code, here);
            }
            k = k + 1;
        }
        if exits {
            if let Some(c) = cur {
                proof {
                    queue::lemma_index_in(threads@, 0, c);
                    let j = queue::index_in(threads@, 0, c)->0;
                    assert(sched@.task(threads@[j]) matches Some(t) ==> killable(t));
                }
                let _ = sched.kill_thread(c, exit_code, here);
            }
        }
        exits
    }
}

/// The order in which threads are tried for a signal.
pub open spec fn signal_priority(k: int) -> TaskStatus {
    if k == 0 {
        TaskStatus::Running
    } else if k == 1 {
        TaskStatus::Active
    } else if k == 2 {
        TaskStatus::WaitingInterruptible
    } else {
        TaskStatus::Waiting
    }
}

/// A signal has been given to a thread, those that run coming first.
pub open spec fn delivered(s: Sched, threads: Seq<u64>, signal: u8, h: SignalHandler, k: int) -> (Sched, bool)
    decreases 4 - k,
{
    if k < 0 || k >= 4 {
        (s, false)
    } else {
        let (t, ok) = s.issued(threads, signal, h.user_ctx, h.handler, Some(signal_priority(k)));
        if ok { (t, true) } else { delivered(s, threads, signal, h, k + 1) }
    }
}

/// What is left to do once a signal has been issued to a process.
#[derive(Clone, Copy, Debug, PartialEq, Eq, Structural)]
pub enum SignalOutcome {
    Nothing,
    /// The process has no handler for the signal and is to be killed.
    Kill,
}

/// What is left to do once a handler says that it is done.
#[derive(Clone, Copy, Debug, PartialEq, Eq, Structural)]
pub enum HandlerEnd {
    /// No handler was running, and the process is to end.
    NoHandler,
    Ended(SignalOutcome),
}

impl Procs {
    /// The outcome of a signal to a process. A less urgent one than what is pending waits, and so does
    /// one that no thread can take.
    pub open spec fn signal_issued(self, sched: Sched, id: u64, signal: u8) -> (Procs, Sched, SignalOutcome) {
        match self.proc(id) {
            None => (self, sched, SignalOutcome::Nothing),
            Some(p) => if p.status != ProcessStatus::Ready {
                (self, sched, SignalOutcome::Nothing)
            } else {
                let marked = self.with_proc(Proc { pending: task::set_bit(p.pending, signal), ..p });
                let clear = self.with_proc(
                    Proc { pending: task::clear_bit(task::set_bit(p.pending, signal), signal), ..p });
                if task::highest(p.pending) matches Some(q) && q >= signal {
                    (marked, sched, SignalOutcome::Nothing)
                } else {
                    match p.handlers.at(signal) {
                        None => (clear, sched, SignalOutcome::Kill),
                        Some(h) => {
                            let (t, ok) = delivered(sched, p.threads, signal, h, 0);
                            (if ok { clear } else { marked }, t, SignalOutcome::Nothing)
                        },
                    }
                }
            },
        }
    }

    /// Signals that wait for a process are given to its threads, the most urgent first, until one
    /// cannot be.
    pub open spec fn pending_delivered(sched: Sched, p: Proc, mask: u8, n: nat) -> (Sched, u8, SignalOutcome)
        decreases n,
    {
        if n == 0 {
            (sched, mask, SignalOutcome::Nothing)
        } else {
            match task::highest(mask) {
                None => (sched, mask, SignalOutcome::Nothing),
                Some(signal) => match p.handlers.at(signal) {
                    None => (sched, task::clear_bit(mask, signal), SignalOutcome::Kill),
                    Some(h) => {
                        let (t, ok) = delivered(sched, p.threads, signal, h, 0);
                        if ok {
                            Procs::pending_delivered(t, p, task::clear_bit(mask, signal), (n - 1) as nat)
                        } else {
                            (t, mask, SignalOutcome::Nothing)
                        }
                    },
                },
            }
        }
    }
}

/// Gives a signal to one of some threads.
fn proc_do_issue_signal(sched: &mut Scheduler, threads: &Vec<u64>, signal: u8, h: SignalHandler) -> (r: bool)
    requires
        old(sched)@.well_formed(),
        signal < MAX_SIGNALS,
    ensures
        (final(sched)@, r) == delivered(old(sched)@, threads@, signal, h, 0),
        final(sched)@.well_formed(),
{
    proof {
        reveal_with_fuel(delivered, 5);
    }
    if sched.issue_signal_to_threads(threads, signal, h.user_ctx, h.handler, Some(TaskStatus::Running)) {
        return true;
    }
    if sched.issue_signal_to_threads(threads, signal, h.user_ctx, h.handler, Some(TaskStatus::Active)) {
        return true;
    }
    if sched.issue_signal_to_threads(threads, signal, h.user_ctx, h.handler, Some(TaskStatus::WaitingInterruptible)) {
        return true;
    }
    sched.issue_signal_to_threads(threads, signal, h.user_ctx, h.handler, Some(TaskStatus::Waiting))
}

impl ProcessTable {
    /// Issues a signal to a user process.
    pub fn issue_signal(&mut self, sched: &mut Scheduler, id: u64, signal: u8) -> (r: SignalOutcome)
        requires
            old(self)@.well_formed(),
            old(sched)@.well_formed(),
            signal < MAX_SIGNALS,
            old(self)@.proc(id) matches Some(p) ==> p.is_user,
        ensures
            (final(self)@, final(sched)@, r) == old(self)@.signal_issued(old(sched)@, id, signal),
            final(self)@.well_formed(),
            final(sched)@.well_formed(),
    {
        let ghost v0 = self@;
        let i: usize = match self.find(id) { Some(i) => i, None => { return SignalOutcome::Nothing; } };
        if self.procs[i].status != ProcessStatus::Ready {
            return SignalOutcome::Nothing;
        }
        let ghost p0 = v0.procs[i as int];
        let before: u8 = self.procs[i].pending_signals;
        let marked: u8 = before | (1u8 << signal);
        self.procs[i].pending_signals = marked;
        assert(self@.procs =~= v0.procs.update(i as int, Proc { pending: marked, ..p0 }));
        if let Some(q) = get_highest_set_bit(before) {
            if q >= signal {
                return SignalOutcome::Nothing;
            }
        }
        match self.procs[i].get_signal_handler(signal) {
            None => {
                self.procs[i].pending_signals = marked & !(1u8 << signal);
                assert(self@.procs =~= v0.procs.update(
                    i as int, Proc { pending: task::clear_bit(marked, signal), ..p0 }));
                SignalOutcome::Kill
            },
            Some(h) => {
                let threads: Vec<u64> = self.procs[i].get_threads_snapshot();
                if proc_do_issue_signal(sched, &threads, signal, h) {
                    self.procs[i].pending_signals = marked & !(1u8 << signal);
                    assert(self@.procs =~= v0.procs.update(
                        i as int, Proc { pending: task::clear_bit(marked, signal), ..p0 }));
                }
                SignalOutcome::Nothing
            },
        }
    }

    /// Issues a signal to one thread of a user process.
    pub fn issue_signal_to_thread(&mut self, sched: &mut Scheduler, tid: u64, signal: u8) -> (r: SignalOutcome)
        requires
            old(self)@.well_formed(),
            old(sched)@.well_formed(),
            signal < MAX_SIGNALS,
        ensures
            final(self)@ == old(self)@,
            match thread_target(old(self)@, old(sched)@, tid) {
                None => final(sched)@ == old(sched)@ && r == SignalOutcome::Nothing,
                Some(p) => match p.handlers.at(signal) {
                    None => final(sched)@ == old(sched)@ && r == SignalOutcome::Kill,
                    Some(h) => final(sched)@ == old(sched)@.issued(
                        seq![tid], signal, h.user_ctx, h.handler, None).0 && r == SignalOutcome::Nothing,
                },
            },
            final(sched)@.well_formed(),
    {
        let t: Task = match sched.get_task_info(tid) { Some(t) => t, None => { return SignalOutcome::Nothing; } };
        let pid: u64 = match t.process { Some(p) => p, None => { return SignalOutcome::Nothing; } };
        let i: usize = match self.find(pid) { Some(i) => i, None => { return SignalOutcome::Nothing; } };
        if self.procs[i].status != ProcessStatus::Ready {
            return SignalOutcome::Nothing;
        }
        match self.procs[i].get_signal_handler(signal) {
            None => SignalOutcome::Kill,
            Some(h) => {
                let mut threads: Vec<u64> = Vec::new();
                threads.push(tid);
                assert(threads@ =~= seq![tid]);
                let _ = sched.issue_signal_to_threads(&threads, signal, h.user_ctx, h.handler, None);
                SignalOutcome::Nothing
            },
        }
    }

    /// Ends the handler that runs for the task of a core, and gives the signals that wait for its
    /// process to the process's threads.
    pub fn complete_signal(&mut self, sched: &mut Scheduler, core: usize) -> (r: HandlerEnd)
        requires
            old(self)@.well_formed(),
            old(sched)@.well_formed(),
            core < old(sched).queues@.len(),
            old(sched)@.current(core as int) matches Some(t) && (t.process matches Some(id) && (old(self)@.proc(id) matches Some(
                p) && forall|s: u8| MAX_SIGNALS <= s < 8 ==> !task::has_bit(p.pending, s))),
        ensures
            ({
                let t = old(sched)@.current(core as int)->0;
                let p = old(self)@.proc(t.process->0)->0;
                match t.handler() {
                    None => r == HandlerEnd::NoHandler && final(self)@ == old(self)@ && final(sched)@ == old(sched)@,
                    Some(i) => {
                        let (s, mask, out) = Procs::pending_delivered(
                            old(sched)@.with_task(t.completed(i)), p, p.pending, 8);
                        &&& r == HandlerEnd::Ended(out)
                        &&& final(sched)@ == s
                        &&& final(self)@ == old(self)@.with_proc(Proc { pending: mask, ..p })
                    },
                }
            }),
            final(self)@.well_formed(),
            final(sched)@.well_formed(),
    {
        let t: Task = match sched.get_current_task(core) { Some(t) => t, None => { return HandlerEnd::NoHandler; } };
        let id: u64 = match t.process { Some(id) => id, None => { return HandlerEnd::NoHandler; } };
        if get_highest_set_bit(t.pending_signals).is_none() {
            return HandlerEnd::NoHandler;
        }
        let _ = sched.complete_signal(core);
        HandlerEnd::Ended(self.deliver_pending(sched, id))
    }

    /// Gives the signals that wait for a process to its threads, once a handler is done.
    pub fn deliver_pending(&mut self, sched: &mut Scheduler, id: u64) -> (r: SignalOutcome)
        requires
            old(self)@.well_formed(),
            old(sched)@.well_formed(),
            old(self)@.proc(id) matches Some(p) && forall|s: u8| MAX_SIGNALS <= s < 8 ==> !task::has_bit(p.pending, s),
        ensures
            ({
                let p = old(self)@.proc(id)->0;
                let (s, mask, out) = Procs::pending_delivered(old(sched)@, p, p.pending, 8);
                &&& final(sched)@ == s
                &&& r == out
                &&& final(self)@ == old(self)@.with_proc(Proc { pending: mask, ..p })
            }),
            final(self)@.well_formed(),
            final(sched)@.well_formed(),
    {
        let ghost v0 = self@;
        let ghost s0 = sched@;
        let i: usize = match self.find(id) { Some(i) => i, None => { return SignalOutcome::Nothing; } };
        let ghost p0 = v0.procs[i as int];
        let threads: Vec<u64> = self.procs[i].get_threads_snapshot();
        let handlers: HandlerTable = self.procs[i].signal_handlers;
        let mut mask: u8 = self.procs[i].pending_signals;
        let mut out: SignalOutcome = SignalOutcome::Nothing;
        let mut n: u8 = 8;
        let mut going: bool = true;
        while going && n > 0
            invariant
                n <= 8,
                sched@.well_formed(),
                threads@ == p0.threads,
                handlers == p0.handlers,
                forall|s: u8| MAX_SIGNALS <= s < 8 ==> !task::has_bit(mask, s),
                going ==> Procs::pending_delivered(s0, p0, p0.pending, 8) == Procs::pending_delivered(
                    sched@, p0, mask, n as nat) && out == SignalOutcome::Nothing,
                !going ==> Procs::pending_delivered(s0, p0, p0.pending, 8) == (sched@, mask, out),
            decreases n + (if going { 1int } else { 0int }),
        {
            match get_highest_set_bit(mask) {
                None => {
                    going = false;
                },
                Some(signal) => {
                    proof {
                        task::lemma_bits(mask, signal);
                    }
                    assert(signal < MAX_SIGNALS);
                    match handlers.get(signal) {
                        None => {
                            mask = mask & !(1u8 << signal);
                            out = SignalOutcome::Kill;
                            going = false;
                        },
                        Some(h) => {
                            if proc_do_issue_signal(sched, &threads, signal, h) {
                                mask = mask & !(1u8 << signal);
                                n = n - 1;
                            } else {
                                going = false;
                            }
                        },
                    }
                },
            }
        }
        self.procs[i].pending_signals = mask;
        assert(self@.procs =~= v0.procs.update(i as int, Proc { pending: mask, ..p0 }));
        out
    }
}

/// The process that a signal to a thread concerns.
pub open spec fn thread_target(procs: Procs, sched: Sched, tid: u64) -> Option<Proc> {
    match sched.task(tid) {
        None => None,
        Some(t) => match t.process {
            None => None,
            Some(pid) => match procs.proc(pid) {
                Some(p) => if p.status == ProcessStatus::Ready { Some(p) } else { None },
                None => None,
            },
        },
    }
}

/// The process of the task that a core runs.
pub open spec fn current_process(sched: Sched, core: int) -> Option<u64> {
    match sched.current(core) { Some(t) => t.process, None => None }
}

pub fn get_current_process_id(sched: &Scheduler, core: usize) -> (r: Option<u64>)
    requires
        core < sched.queues@.len(),
    ensures
        r == current_process(sched@, core as int),
{
    match sched.get_current_task(core) {
        Some(t) => t.process,
        None => None,
    }
}

/// A killed task that has been cleared away, and what is left of its process if it was the last.
pub struct Reaped {
    pub task: Task,
    pub work: Option<ProcessCleanupWork>,
}

impl Procs {
    /// The outcome of clearing away the first killed task of a core. Those who wait for the task, or
    /// for its process if it was the last, are to be told.
    pub open spec fn task_reaped(self, sched: Sched, core: int) -> (Procs, Sched, bool) {
        let t = sched.task(sched.queues[core].terminated[0])->0;
        let s = sched.reaped(core);
        match t.process {
            None => (self, s, false),
            Some(pid) => {
                let (p, last) = self.thread_removed(pid, t.id, t.exit_code);
                if last {
                    let q = s.queues[core];
                    let d = self.proc(pid)->0;
                    (p, s.with_queue(core, queue_with_notices(q, d)), true)
                } else {
                    (p, s, false)
                }
            },
        }
    }

    /// The processes of a process group.
    pub open spec fn group(self, pgid: u64, n: nat) -> Seq<u64>
        decreases n,
    {
        if n == 0 {
            Seq::empty()
        } else {
            let rest = self.group(pgid, (n - 1) as nat);
            let m = self.group_members[n - 1];
            if m.of == pgid { rest.push(m.process) } else { rest }
        }
    }
}

impl Procs {
    /// The outcome of a signal to the first `n` of some processes, one after the other, and which of
    /// them are to be killed for want of a handler.
    pub open spec fn group_signalled(self, sched: Sched, ids: Seq<u64>, n: nat, signal: u8) -> (Procs, Sched, Seq<u64>)
        decreases n,
    {
        if n == 0 {
            (self, sched, Seq::empty())
        } else {
            let (p, s, killed) = self.group_signalled(sched, ids, (n - 1) as nat, signal);
            let (p2, s2, outcome) = p.signal_issued(s, ids[n - 1], signal);
            (p2, s2, if outcome == SignalOutcome::Kill { killed.push(ids[n - 1]) } else { killed })
        }
    }

    /// Whether those of some processes that have not ended run user code.
    pub open spec fn all_user(self, ids: Seq<u64>) -> bool {
        forall|k: int| 0 <= k < ids.len() ==> (self.proc(#[trigger] ids[k]) matches Some(p) ==> p.is_user)
    }
}

proof fn lemma_signal_keeps_kind(p: Procs, s: Sched, id: u64, signal: u8, other: u64)
    ensures
        match p.signal_issued(s, id, signal).0.proc(other) {
            Some(q) => p.proc(other) matches Some(o) && o.is_user == q.is_user,
            None => p.proc(other) is None,
        },
{
    if let Some(c) = p.proc(id) {
        lemma_proc_found(p.procs, 0, id);
        lemma_proc_found(p.procs, 0, other);
        let k = find_proc(p.procs, 0, id)->0;
        let marked = task::set_bit(c.pending, signal);
        lemma_updated_find(p.procs, 0, k, Proc { pending: marked, ..c }, other);
        lemma_updated_find(p.procs, 0, k, Proc { pending: task::clear_bit(marked, signal), ..c }, other);
    }
}

/// A core's queue with those who wait for a process on its list of whom to tell.
pub open spec fn queue_with_notices(q: queue::Queue, p: Proc) -> queue::Queue {
    queue::Queue { notifier_list: q.notifier_list.push(p.term_notify).push(p.init_notify), ..q }
}

impl ProcessTable {
    /// The arguments of the process that a core runs.
    pub fn get_current_process_args(&self, sched: &Scheduler, core: usize) -> (r: Option<Vec<Vec<u8>>>)
        requires
            core < sched.queues@.len(),
        ensures
            match current_process(sched@, core as int) {
                None => r is None,
                Some(id) => match self@.proc(id) {
                    None => r is None,
                    Some(p) => r is Some && util::strings(r->0@) == p.args,
                },
            },
    {
        let id: u64 = match get_current_process_id(sched, core) { Some(id) => id, None => { return None; } };
        let k: usize = match self.find(id) { Some(k) => k, None => { return None; } };
        let args: &Vec<Vec<u8>> = &self.procs[k].args;
        let mut out: Vec<Vec<u8>> = Vec::new();
        let mut i: usize = 0;
        while i < args.len()
            invariant
                i <= args@.len(),
                util::strings(out@) == util::strings(args@).take(i as int),
            decreases args@.len() - i,
        {
            let ghost before = out@;
            let c: Vec<u8> = bytes_copy(&args[i]);
            out.push(c);
            assert(util::strings(out@) =~= util::strings(before).push(args@[i as int]@));
            assert(util::strings(args@).take(i + 1) =~= util::strings(args@).take(i as int).push(args@[i as int]@));
            i = i + 1;
        }
        assert(util::strings(args@).take(i as int) =~= util::strings(args@));
        Some(out)
    }

    /// Ends the process that a core runs. Preemption must be on, so that its task can be given up.
    pub fn exit_process(&mut self, sched: &mut Scheduler, core: usize, exit_code: i64) -> (r: bool)
        requires
            old(self)@.well_formed(),
            old(sched)@.well_formed(),
            core < old(sched).queues@.len(),
            old(sched)@.queues[core as int].preemption_count == 0,
            current_process(old(sched)@, core as int) matches Some(id) && id != 0 && (old(self)@.proc(id) matches Some(p)
                ==> all_killable(old(sched)@, p.threads)),
        ensures
            (final(self)@, final(sched)@, r) == old(self)@.process_killed(
                old(sched)@,
                current_process(old(sched)@, core as int)->0,
                exit_code,
                core,
                old(sched)@.queues[core as int].running,
            ),
            final(self)@.well_formed(),
            final(sched)@.well_formed(),
    {
        let cur: Option<u64> = sched.get_current_task_id(core);
        match get_current_process_id(sched, core) {
            Some(id) => self.kill_process(sched, id, exit_code, core, cur),
            None => false,
        }
    }

    /// Lets a process that was made suspended start. Whether its thread had been suspended.
    pub fn resume_process(&mut self, sched: &mut Scheduler, id: u64) -> (r: bool)
        requires
            old(self)@.well_formed(),
            old(sched)@.well_formed(),
            old(self)@.proc(id) matches Some(p) ==> (p.status == ProcessStatus::Suspended ==> p.threads.len() == 1),
        ensures
            match old(self)@.proc(id) {
                None => !r && final(self)@ == old(self)@ && final(sched)@ == old(sched)@,
                Some(p) => {
                    &&& final(self)@ == (if p.status == ProcessStatus::Suspended {
                        old(self)@.with_proc(Proc { status: ProcessStatus::Ready, ..p })
                    } else {
                        old(self)@
                    })
                    &&& (final(sched)@, r) == (if p.threads.len() == 0 {
                        (old(sched)@, false)
                    } else {
                        old(sched)@.resumed(p.threads[0])
                    })
                },
            },
            final(self)@.well_formed(),
            final(sched)@.well_formed(),
    {
        let ghost v0 = self@;
        let i: usize = match self.find(id) { Some(i) => i, None => { return false; } };
        let ghost p0 = v0.procs[i as int];
        if self.procs[i].status == ProcessStatus::Suspended {
            self.procs[i].status = ProcessStatus::Ready;
            assert(self@.procs =~= v0.procs.update(i as int, Proc { status: ProcessStatus::Ready, ..p0 }));
        }
        match self.procs[i].get_first_task() {
            None => false,
            Some(t) => sched.resume_task(t),
        }
    }

    /// Clears away the first killed task of a core.
    pub fn reap_task(&mut self, sched: &mut Scheduler, core: usize) -> (r: Option<Reaped>)
        requires
            old(self)@.well_formed(),
            old(sched)@.well_formed(),
            core < old(sched).queues@.len(),
        ensures
            old(sched)@.queues[core as int].terminated.len() == 0 ==> r is None && final(self)@ == old(self)@
                && final(sched)@ == old(sched)@,
            old(sched)@.queues[core as int].terminated.len() > 0 ==> r is Some && (final(self)@, final(sched)@, r->0.work
                is Some) == old(self)@.task_reaped(old(sched)@, core as int) && old(sched)@.task(
                old(sched)@.queues[core as int].terminated[0]) == Some(r->0.task),
            r matches Some(d) ==> (d.work matches Some(w) ==> d.task.process matches Some(pid) && (old(self)@.proc(pid)
                matches Some(p) && w@ == left_behind(p))),
            final(self)@.well_formed(),
            final(sched)@.well_formed(),
    {
        let ghost s0 = sched@;
        let t: Task = match sched.reap_one(core) { Some(t) => t, None => { return None; } };
        let pid: u64 = match t.process {
            Some(p) => p,
            None => { return Some(Reaped { task: t, work: None }); },
        };
        let mut term: usize = 0;
        let mut init: usize = 0;
        if let Some(i) = self.find(pid) {
            term = self.procs[i].term_notify;
            init = self.procs[i].init_notify;
        }
        let work: Option<ProcessCleanupWork> = self.remove_thread(pid, t.id, t.exit_code);
        if work.is_some() {
            sched.add_notices(core, term, init);
        }
        Some(Reaped { task: t, work })
    }

    /// The processes of a process group, for a signal to all of them.
    pub fn group_processes(&self, pgid: u64) -> (r: Vec<u64>)
        ensures
            r@ == self@.group(pgid, self@.group_members.len()),
    {
        let mut out: Vec<u64> = Vec::new();
        let mut i: usize = 0;
        while i < self.group_members.len()
            invariant
                i <= self.group_members@.len(),
                out@ == self@.group(pgid, i as nat),
            decreases self.group_members@.len() - i,
        {
            if self.group_members[i].of == pgid {
                out.push(self.group_members[i].process);
            }
            i = i + 1;
        }
        out
    }

    /// Issues a signal to every process of a process group. Gives those that are to be killed.
    pub fn issue_pgrp(&mut self, sched: &mut Scheduler, pgid: u64, signal: u8) -> (r: Vec<u64>)
        requires
            old(self)@.well_formed(),
            old(sched)@.well_formed(),
            signal < MAX_SIGNALS,
            old(self)@.all_user(old(self)@.group(pgid, old(self)@.group_members.len())),
        ensures
            ({
                let ids = old(self)@.group(pgid, old(self)@.group_members.len());
                (final(self)@, final(sched)@, r@) == old(self)@.group_signalled(old(sched)@, ids, ids.len(), signal)
            }),
            final(self)@.well_formed(),
            final(sched)@.well_formed(),
    {
        let ids: Vec<u64> = self.group_processes(pgid);
        let ghost p0 = self@;
        let ghost s0 = sched@;
        let mut out: Vec<u64> = Vec::new();
        let mut i: usize = 0;
        while i < ids.len()
            invariant
                i <= ids@.len(),
                signal < MAX_SIGNALS,
                self@.well_formed(),
                sched@.well_formed(),
                self@.all_user(ids@),
                (self@, sched@, out@) == p0.group_signalled(s0, ids@, i as nat, signal),
            decreases ids@.len() - i,
        {
            let ghost p1 = self@;
            let ghost s1 = sched@;
            assert(p1.proc(ids@[i as int]) matches Some(p) ==> p.is_user);
            if self.issue_signal(sched, ids[i], signal) == SignalOutcome::Kill {
                out.push(ids[i]);
            }
            assert forall|k: int| 0 <= k < ids@.len() implies (self@.proc(#[trigger] ids@[k]) matches Some(p)
                ==> p.is_user) by {
                lemma_signal_keeps_kind(p1, s1, ids@[i as int], signal, ids@[k]);
            }
            i = i + 1;
        }
        out
    }

    /// Gives a handle of a process the lowest free number.
    pub fn add_handle_to_proc(&mut self, id: u64, h: Handle, is_inheritable: bool) -> (r: usize)
        requires
            old(self)@.well_formed(),
            old(self)@.proc(id) is Some,
        ensures
            r == handle::next_number(old(self)@.proc(id)->0.handles),
            final(self)@ == old(self)@.with_proc(Proc {
                handles: handle::handle_added(
                    old(self)@.proc(id)->0.handles, (HandleType { handle_info: h, is_inheritable })),
                ..old(self)@.proc(id)->0
            }),
            final(self)@.well_formed(),
    {
        let ghost v0 = self@;
        match self.find(id) {
            Some(i) => {
                let n: usize = handle::add_handle(&mut self.procs[i].handle_table, h, is_inheritable);
                assert(self@.procs =~= v0.procs.update(i as int, Proc {
                    handles: self@.procs[i as int].handles,
                    ..v0.procs[i as int]
                }));
                n
            },
            None => 0,
        }
    }

    /// Gives a handle of a process a number of the caller's choice.
    pub fn place_handle_in_proc(&mut self, id: u64, index: usize, h: Handle, is_inheritable: bool)
        requires
            old(self)@.well_formed(),
            old(self)@.proc(id) is Some,
            index < usize::MAX,
        ensures
            final(self)@ == old(self)@.with_proc(Proc {
                handles: handle::handle_placed(
                    old(self)@.proc(id)->0.handles, index as int, (HandleType { handle_info: h, is_inheritable })),
                ..old(self)@.proc(id)->0
            }),
            final(self)@.well_formed(),
    {
        let ghost v0 = self@;
        if let Some(i) = self.find(id) {
            handle::place_handle(&mut self.procs[i].handle_table, index, h, is_inheritable);
            assert(self@.procs =~= v0.procs.update(i as int, Proc {
                handles: self@.procs[i as int].handles,
                ..v0.procs[i as int]
            }));
        }
    }

    /// Records that the memory behind some addresses belongs to a process, so that it is freed with
    /// it.
    pub fn add_memory_range_to_cur_process(&mut self, id: u64, memory: &MemoryManager, virtual_base: u64, size: u64,
        is_user: bool)
        requires
            old(self)@.well_formed(),
            old(self)@.proc(id) is Some,
            memory.well_formed(),
            memory@.phys_at(virtual_base, is_user) is Some,
        ensures
            final(self)@ == old(self)@.with_proc(Proc {
                memory: old(self)@.proc(id)->0.memory.push(
                    MemoryRegion { base_address: memory@.phys_at(virtual_base, is_user)->0, size }),
                ..old(self)@.proc(id)->0
            }),
            final(self)@.well_formed(),
    {
        let ghost v0 = self@;
        if let Some(base_address) = memory.backing_address(virtual_base, is_user) {
            if let Some(i) = self.find(id) {
                self.procs[i].add_memory_range(base_address, size);
                assert(self@.procs =~= v0.procs.update(i as int, Proc {
                    memory: self@.procs[i as int].memory,
                    ..v0.procs[i as int]
                }));
            }
        }
    }

    /// Frees a handle number of a process.
    pub fn remove_handle(&mut self, id: u64, number: usize) -> (r: bool)
        requires
            old(self)@.well_formed(),
            old(self)@.proc(id) is Some,
        ensures
            r == (handle::handle_at(old(self)@.proc(id)->0.handles, number as int) is Some),
            final(self)@ == old(self)@.with_proc(Proc {
                handles: handle::handle_removed(old(self)@.proc(id)->0.handles, number as int),
                ..old(self)@.proc(id)->0
            }),
            final(self)@.well_formed(),
    {
        let ghost v0 = self@;
        match self.find(id) {
            Some(i) => {
                let there: bool = handle::remove_handle(&mut self.procs[i].handle_table, number);
                assert(self@.procs =~= v0.procs.update(i as int, Proc {
                    handles: self@.procs[i as int].handles,
                    ..v0.procs[i as int]
                }));
                there
            },
            None => false,
        }
    }

    pub fn get_handle(&self, id: u64, number: usize) -> (r: Option<Handle>)
        requires
            self@.proc(id) is Some,
        ensures
            r == handle::handle_at(self@.proc(id)->0.handles, number as int),
    {
        match self.find(id) {
            Some(i) => handle::get_handle(&self.procs[i].handle_table, number),
            None => None,
        }
    }

    /// Takes back that the memory behind some addresses belongs to a process.
    pub fn remove_memory_range_from_cur_process(&mut self, id: u64, memory: &MemoryManager, virtual_base: u64,
        size: u64, is_user: bool)
        requires
            old(self)@.well_formed(),
            memory.well_formed(),
            memory@.phys_at(virtual_base, is_user) is Some,
            old(self)@.proc(id) matches Some(p) && find_range(
                p.memory, 0, memory@.phys_at(virtual_base, is_user)->0, size) is Some,
        ensures
            final(self)@ == old(self)@.with_proc(Proc {
                memory: old(self)@.proc(id)->0.memory.remove(
                    find_range(
                        old(self)@.proc(id)->0.memory, 0, memory@.phys_at(virtual_base, is_user)->0, size)->0),
                ..old(self)@.proc(id)->0
            }),
            final(self)@.well_formed(),
    {
        if let Some(base_address) = memory.backing_address(virtual_base, is_user) {
            self.forget_memory_range(id, base_address, size);
        }
    }

    /// Takes back that some physical memory is a process's.
    pub fn forget_memory_range(&mut self, id: u64, base_address: u64, size: u64)
        requires
            old(self)@.well_formed(),
            old(self)@.proc(id) matches Some(p) && find_range(p.memory, 0, base_address, size) is Some,
        ensures
            final(self)@ == old(self)@.with_proc(Proc {
                memory: old(self)@.proc(id)->0.memory.remove(
                    find_range(old(self)@.proc(id)->0.memory, 0, base_address, size)->0),
                ..old(self)@.proc(id)->0
            }),
            final(self)@.well_formed(),
    {
        let ghost v0 = self@;
        if let Some(i) = self.find(id) {
            self.procs[i].remove_memory_range(base_address, size);
            assert(self@.procs =~= v0.procs.update(i as int, Proc {
                memory: self@.procs[i as int].memory,
                ..v0.procs[i as int]
            }));
        }
    }
}

/// A process that is told that some memory is its own, and then that it no longer is, has what it
/// had.
pub proof fn law_memory_range_forgotten(s: Seq<MemoryRegion>, r: MemoryRegion)
    requires
        find_range(s, 0, r.base_address, r.size) is None,
    ensures
        find_range(s.push(r), 0, r.base_address, r.size) is Some,
        s.push(r).remove(find_range(s.push(r), 0, r.base_address, r.size)->0) == s,
{
    lemma_range_pushed(s, 0, r);
    assert(s.push(r).remove(s.len() as int) =~= s);
}

proof fn lemma_range_pushed(s: Seq<MemoryRegion>, i: int, r: MemoryRegion)
    requires
        0 <= i <= s.len(),
        find_range(s, i, r.base_address, r.size) is None,
    ensures
        find_range(s.push(r), i, r.base_address, r.size) == Some(s.len() as int),
    decreases s.len() - i,
{
    if i < s.len() {
        assert(s.push(r)[i] == s[i]);
        lemma_range_pushed(s, i + 1, r);
    }
}

proof fn lemma_updated_find(s: Seq<Proc>, i: int, k: int, p: Proc, id: u64)
    requires
        0 <= i,
        0 <= k < s.len(),
        s[k].id == p.id,
    ensures
        find_proc(s.update(k, p), i, id) == find_proc(s, i, id),
    decreases s.len() - i,
{
    if i < s.len() {
        lemma_updated_find(s, i + 1, k, p, id);
    }
}

/// A process whose handles have changed is still found.
pub proof fn lemma_proc_named(s: Procs, id: u64)
    requires
        s.proc(id) is Some,
    ensures
        s.proc(id)->0.id == id,
{
    lemma_proc_found(s.procs, 0, id);
}

pub proof fn lemma_still_there(s: Procs, id: u64, q: Proc)
    requires
        s.proc(id) is Some,
        q.id == id,
    ensures
        s.with_proc(q).proc(id) == Some(q),
{
    lemma_proc_found(s.procs, 0, id);
    let k = find_proc(s.procs, 0, id)->0;
    lemma_updated_find(s.procs, 0, k, q, id);
}

/// A process that has become the leader of a process group is in that group, and the groups of the
/// others are as they were.
pub proof fn law_pgroup_leader(s: Procs, id: u64, other: u64)
    requires
        s.well_formed(),
        s.proc(id) is Some,
    ensures
        s.group_led(s.proc(id)->0).proc(id) matches Some(p) && p.pgroup == id,
        other != id ==> s.group_led(s.proc(id)->0).proc(other) == s.proc(other),
{
    lemma_proc_found(s.procs, 0, id);
    lemma_proc_found(s.procs, 0, other);
    let k = find_proc(s.procs, 0, id)->0;
    let p = Proc { pgroup: id, ..s.procs[k] };
    lemma_updated_find(s.procs, 0, k, p, id);
    lemma_updated_find(s.procs, 0, k, p, other);
}

/// A process that has become the leader of a session is in that session and leads it.
pub proof fn law_session_leader(s: Procs, id: u64)
    requires
        s.well_formed(),
        s.proc(id) is Some,
    ensures
        ({
            let r = s.session_led(s.proc(id)->0);
            &&& r.proc(id) matches Some(p) && p.session == id && r.leads(p)
        }),
{
    lemma_proc_found(s.procs, 0, id);
    let k = find_proc(s.procs, 0, id)->0;
    let p = Proc { session: id, ..s.procs[k] };
    lemma_updated_find(s.procs, 0, k, p, id);
    let r = s.session_led(s.procs[k]);
    let m = Member { of: id, process: id };
    assert(r.session_leaders == s.session_leaders.push(m));
    lemma_member_pushed(s.session_leaders, 0, m);
}

proof fn lemma_member_pushed(s: Seq<Member>, i: int, m: Member)
    requires
        0 <= i <= s.len(),
    ensures
        find_member(s.push(m), i, m.of, m.process) is Some,
    decreases s.len() - i,
{
    if i < s.len() {
        lemma_member_pushed(s, i + 1, m);
    }
}

/// A process can be killed once: the second time changes nothing.
pub proof fn law_killed_once(s: Procs, sched: Sched, id: u64, code: i64, here: usize, cur: Option<u64>, code2: i64)
    requires
        s.well_formed(),
    ensures
        ({
            let (p, t, _b) = s.process_killed(sched, id, code, here, cur);
            p.process_killed(t, id, code2, here, cur) == (p, t, false)
        }),
{
    lemma_proc_found(s.procs, 0, id);
    if let Some(k) = find_proc(s.procs, 0, id) {
        let q = s.procs[k];
        if q.status != ProcessStatus::Terminated {
            let r = Proc { status: ProcessStatus::Terminated, exit_code: code, ..q };
            lemma_updated_find(s.procs, 0, k, r, id);
        }
    }
}

impl Spinlock<Process> {
    /// Waits, on behalf of the task that runs on a core, until this process has ended.
    pub fn wait(&self, sched: &mut Scheduler, core: usize, is_interruptible: bool) -> (r: scheduler::WaitStep)
        requires
            old(sched)@.well_formed(),
            core < old(sched).queues@.len(),
            self.data.term_notify < old(sched).sems@.len(),
            old(sched)@.current(core as int) matches Some(t) && (t.status == TaskStatus::Running || t.status
                == TaskStatus::Terminated),
            old(sched)@.sems[self.data.term_notify as int].state.can_wait(),
            !old(sched)@.sems[self.data.term_notify as int].state.available() ==>
                !old(sched)@.queues[core as int].is_dw_mode && old(sched)@.queues[core as int].preemption_count == 0,
        ensures
            (final(sched)@, r) == old(sched)@.wait_begun(core as int, self.data.term_notify, None, is_interruptible),
            final(sched)@.well_formed(),
    {
        sched.do_wait(core, self.data.term_notify, None, is_interruptible)
    }
}

} // verus!
