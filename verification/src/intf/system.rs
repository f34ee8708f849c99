use vstd::prelude::*;
use crate::error::KError;
use crate::intf::interface::{Interfaces, IntfEntry, IntfHandler};
use crate::logger::kring;
use crate::logger::kring::KernelRingBuf;
use crate::registry;
use crate::util;

verus! {

pub const INTF_SYSTEM_KLOG: u32 = 0;

/// A request in memory: a type, a buffer's address, and two sizes.
pub const REQUEST_SIZE: u64 = 32;

/// What a request is answered with.
pub enum IntfReply {
    /// So many bytes would be needed.
    Size(u64),
    /// These bytes go to the process's buffer.
    Bytes(Vec<u8>),
}

pub open spec fn name_spec() -> Seq<u8> {
    seq![0x73u8, 0x79u8, 0x73u8, 0x74u8, 0x65u8, 0x6du8]
}

/// The name of the interface: "system".
pub fn name() -> (r: Vec<u8>)
    ensures
        r@ == name_spec(),
{
    let mut v: Vec<u8> = Vec::new();
    v.push(0x73);
    v.push(0x79);
    v.push(0x73);
    v.push(0x74);
    v.push(0x65);
    v.push(0x6d);
    assert(v@ =~= name_spec());
    v
}

/// Strings one behind the other, among the first `n`.
pub open spec fn concatenated(s: Seq<Seq<u8>>, n: nat) -> Seq<u8>
    decreases n,
{
    if n == 0 { Seq::empty() } else { concatenated(s, (n - 1) as nat) + s[n - 1] }
}

/// What a process that has room for so many bytes gets. Without room it is told how much is needed.
pub open spec fn answer(all: Seq<u8>, needed: u64) -> Seq<u8> {
    if all.len() <= needed { all } else { all.take(needed as int) }
}

pub open spec fn answers(r: IntfReply, all: Seq<u8>, needed: u64) -> bool {
    match r {
        IntfReply::Size(n) => needed == 0 && n == all.len(),
        IntfReply::Bytes(b) => needed > 0 && b@ == answer(all, needed),
    }
}

/// Answers with bytes, as far as there is room for them.
pub fn reply_with(all: Vec<u8>, needed: u64) -> (r: IntfReply)
    ensures
        answers(r, all@, needed),
{
    let n: usize = all.len();
    if needed == 0 {
        return IntfReply::Size(n as u64);
    }
    if n as u64 <= needed {
        return IntfReply::Bytes(all);
    }
    let mut out: Vec<u8> = Vec::new();
    let mut i: usize = 0;
    while (i as u64) < needed
        invariant
            i <= needed < n,
            n == all@.len(),
            out@ == all@.take(i as int),
        decreases needed - i,
    {
        out.push(all[i]);
        assert(all@.take(i + 1) =~= all@.take(i as int).push(all@[i as int]));
        i = i + 1;
    }
    IntfReply::Bytes(out)
}

/// Everything in the kernel's log.
pub open spec fn log_bytes(c: Seq<u8>) -> Seq<u8> {
    concatenated(kring::all_shown(c), kring::all_shown(c).len())
}

/// Answers a request to the system interface.
pub fn handle_system_request(req_type: u32, needed: u64, ring: &KernelRingBuf) -> (r: Result<IntfReply, KError>)
    requires
        ring.well_formed(),
    ensures
        req_type != INTF_SYSTEM_KLOG ==> r is Err && r->Err_0 == KError::InvalidArgument,
        req_type == INTF_SYSTEM_KLOG ==> r is Ok && answers(r->Ok_0, log_bytes(ring@.bytes), needed),
{
    if req_type != INTF_SYSTEM_KLOG {
        return Err(KError::InvalidArgument);
    }
    let msgs: Vec<Vec<u8>> = ring.kring_log_for_each();
    let ghost v = util::strings(msgs@);
    let mut total: Vec<u8> = Vec::new();
    let mut i: usize = 0;
    while i < msgs.len()
        invariant
            i <= msgs@.len(),
            v == util::strings(msgs@),
            total@ == concatenated(v, i as nat),
        decreases msgs@.len() - i,
    {
        let ghost before = total@;
        let mut k: usize = 0;
        let ghost t = msgs@[i as int]@;
        while k < msgs[i].len()
            invariant
                i < msgs@.len(),
                t == msgs@[i as int]@,
                k <= t.len(),
                total@ == before + t.take(k as int),
            decreases t.len() - k,
        {
            total.push(msgs[i][k]);
            assert(total@ =~= before + t.take(k + 1));
            k = k + 1;
        }
        assert(total@ =~= concatenated(v, (i + 1) as nat));
        i = i + 1;
    }
    Ok(reply_with(total, needed))
}

/// Makes the interface known.
pub fn init(interfaces: &mut Interfaces)
    requires
        registry::value_of(old(interfaces).entries@, 0, name_spec()) is None,
    ensures
        final(interfaces).entries@ == old(interfaces).entries@.push(
            (name_spec(), IntfEntry { handler: IntfHandler::System, len: REQUEST_SIZE })),
{
    let n: Vec<u8> = name();
    let _ = interfaces.register_intf(n, IntfHandler::System, REQUEST_SIZE);
}

} // verus!
