use vstd::prelude::*;
use crate::error::KError;
use crate::intf::interface::{Interfaces, IntfEntry, IntfHandler};
use crate::intf::system;
use crate::intf::system::{IntfReply, reply_with};
use crate::registry;
use crate::sched::proc::ProcessStatus;
use crate::sched::user;
use crate::sched::user::push_word;
use crate::util;

verus! {

pub const INTF_PROCESS_GENERAL_INFO: u32 = 0;
pub const INTF_PROCESS_COMMAND_LINE: u32 = 1;

/// A request in memory: a type, a process, a buffer's address, and two sizes.
pub const REQUEST_SIZE: u64 = 40;

/// What is told about one process, in bytes.
pub const INFO_SIZE: u64 = 48;

/// What is told about a process.
#[derive(Clone, Copy, Debug, PartialEq, Eq, Structural)]
pub struct ProcessSnapshot {
    pub id: u64,
    pub ppid: u64,
    pub pgid: u64,
    pub sid: u64,
    pub num_threads: u64,
    pub status: ProcessStatus,
}

pub open spec fn status_code(s: ProcessStatus) -> u64 {
    match s {
        ProcessStatus::Ready => 0,
        ProcessStatus::Suspended => 1,
        ProcessStatus::Terminated => 2,
    }
}

/// What is told about a process as bytes: five words, and the status in a sixth.
pub open spec fn info_bytes(s: ProcessSnapshot) -> Seq<u8> {
    user::word(s.id) + user::word(s.ppid) + user::word(s.pgid) + user::word(s.sid) + user::word(s.num_threads)
        + user::word(status_code(s.status))
}

pub open spec fn all_info(s: Seq<ProcessSnapshot>, n: nat) -> Seq<u8>
    decreases n,
{
    if n == 0 { Seq::empty() } else { all_info(s, (n - 1) as nat) + info_bytes(s[n - 1]) }
}

pub proof fn lemma_info_len(s: Seq<ProcessSnapshot>, n: nat)
    ensures
        all_info(s, n).len() == INFO_SIZE * n,
    decreases n,
{
    if n > 0 {
        lemma_info_len(s, (n - 1) as nat);
    }
}

/// Tells about all processes. The room is for whole entries, and so is what is given.
pub fn handle_general_info(snapshot: &Vec<ProcessSnapshot>, needed: u64) -> (r: Result<IntfReply, KError>)
    requires
        INFO_SIZE * snapshot@.len() <= usize::MAX,
    ensures
        needed % INFO_SIZE != 0 ==> r is Err && r->Err_0 == KError::InvalidArgument,
        needed % INFO_SIZE == 0 ==> r is Ok && system::answers(
            r->Ok_0, all_info(snapshot@, snapshot@.len()), needed),
        needed % INFO_SIZE == 0 && needed > 0 ==> r->Ok_0->Bytes_0@.len() % INFO_SIZE as nat == 0,
{
    if needed % INFO_SIZE != 0 {
        return Err(KError::InvalidArgument);
    }
    let mut out: Vec<u8> = Vec::new();
    let mut i: usize = 0;
    while i < snapshot.len()
        invariant
            i <= snapshot@.len(),
            out@ == all_info(snapshot@, i as nat),
        decreases snapshot@.len() - i,
    {
        let s: ProcessSnapshot = snapshot[i];
        push_word(&mut out, s.id);
        push_word(&mut out, s.ppid);
        push_word(&mut out, s.pgid);
        push_word(&mut out, s.sid);
        push_word(&mut out, s.num_threads);
        let code: u64 = match s.status {
            ProcessStatus::Ready => 0,
            ProcessStatus::Suspended => 1,
            ProcessStatus::Terminated => 2,
        };
        push_word(&mut out, code);
        assert(out@ =~= all_info(snapshot@, (i + 1) as nat));
        i = i + 1;
    }
    proof {
        lemma_info_len(snapshot@, snapshot@.len());
    }
    Ok(reply_with(out, needed))
}

/// Arguments with spaces between them, among the first `n`.
pub open spec fn joined(s: Seq<Seq<u8>>, n: nat) -> Seq<u8>
    decreases n,
{
    if n == 0 {
        Seq::empty()
    } else if n == 1 {
        s[0]
    } else {
        joined(s, (n - 1) as nat).push(0x20) + s[n - 1]
    }
}

/// Tells the command line of a process, with a zero at its end.
pub fn handle_command_line(args: &Option<Vec<Vec<u8>>>, needed: u64) -> (r: Result<IntfReply, KError>)
    ensures
        match *args {
            None => r is Err && r->Err_0 == KError::NotFound,
            Some(a) => r is Ok && system::answers(
                r->Ok_0, joined(util::strings(a@), a@.len()).push(0), needed),
        },
{
    match args {
        None => Err(KError::NotFound),
        Some(a) => {
            let ghost v = util::strings(a@);
            let mut out: Vec<u8> = Vec::new();
            let mut i: usize = 0;
            while i < a.len()
                invariant
                    i <= a@.len(),
                    v == util::strings(a@),
                    out@ == joined(v, i as nat),
                decreases a@.len() - i,
            {
                if i > 0 {
                    out.push(0x20);
                }
                let ghost before = out@;
                let mut k: usize = 0;
                let ghost t = a@[i as int]@;
                while k < a[i].len()
                    invariant
                        i < a@.len(),
                        t == a@[i as int]@,
                        k <= t.len(),
                        out@ == before + t.take(k as int),
                    decreases t.len() - k,
                {
                    out.push(a[i][k]);
                    assert(out@ =~= before + t.take(k + 1));
                    k = k + 1;
                }
                assert(out@ =~= joined(v, (i + 1) as nat));
                i = i + 1;
            }
            out.push(0);
            Ok(reply_with(out, needed))
        },
    }
}

/// Answers a request to the process interface.
pub fn handle_process_request(
    req_type: u32,
    needed: u64,
    snapshot: &Vec<ProcessSnapshot>,
    args: &Option<Vec<Vec<u8>>>,
) -> (r: Result<IntfReply, KError>)
    requires
        INFO_SIZE * snapshot@.len() <= usize::MAX,
    ensures
        req_type > 1 ==> r is Err && r->Err_0 == KError::InvalidArgument,
        req_type == INTF_PROCESS_GENERAL_INFO ==> (if needed % INFO_SIZE != 0 {
            r is Err && r->Err_0 == KError::InvalidArgument
        } else {
            r is Ok && system::answers(r->Ok_0, all_info(snapshot@, snapshot@.len()), needed)
        }),
        req_type == INTF_PROCESS_COMMAND_LINE ==> match *args {
            None => r is Err && r->Err_0 == KError::NotFound,
            Some(a) => r is Ok && system::answers(
                r->Ok_0, joined(util::strings(a@), a@.len()).push(0), needed),
        },
{
    if req_type == INTF_PROCESS_GENERAL_INFO {
        handle_general_info(snapshot, needed)
    } else if req_type == INTF_PROCESS_COMMAND_LINE {
        handle_command_line(args, needed)
    } else {
        Err(KError::InvalidArgument)
    }
}

pub open spec fn name_spec() -> Seq<u8> {
    seq![0x70u8, 0x72u8, 0x6fu8, 0x63u8, 0x65u8, 0x73u8, 0x73u8]
}

/// The name of the interface: "process".
pub fn name() -> (r: Vec<u8>)
    ensures
        r@ == name_spec(),
{
    let mut v: Vec<u8> = Vec::new();
    v.push(0x70);
    v.push(0x72);
    v.push(0x6f);
    v.push(0x63);
    v.push(0x65);
    v.push(0x73);
    v.push(0x73);
    assert(v@ =~= name_spec());
    v
}

/// Makes the interface known.
pub fn init(interfaces: &mut Interfaces)
    requires
        registry::value_of(old(interfaces).entries@, 0, name_spec()) is None,
    ensures
        final(interfaces).entries@ == old(interfaces).entries@.push(
            (name_spec(), IntfEntry { handler: IntfHandler::Process, len: REQUEST_SIZE })),
{
    let n: Vec<u8> = name();
    let _ = interfaces.register_intf(n, IntfHandler::Process, REQUEST_SIZE);
}

} // verus!
