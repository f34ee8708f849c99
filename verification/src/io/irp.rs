//! Requests to drivers: a request is admitted, waits in the list of its device and in that of the
//! thread that issued it, and is completed or cancelled.

use vstd::prelude::*;
use crate::error::KError;
use crate::io::driver::{DeviceObjectK, IoSystem, IrpMajor, IrpMinor, PendingIrp, Status};

verus! {

/// A request to a driver.
#[derive(Clone, Copy, Debug)]
pub struct Irp {
    pub id: u64,
    pub device: u64,
    pub thread_id: u64,
    pub major: IrpMajor,
    pub minor: IrpMinor,
    /// The issuer waits for the request, rather than being called back.
    pub is_sync: bool,
    pub has_cancel_routine: bool,
    pub is_cancelled: bool,
    pub is_completed: bool,
    /// Still in the list of the thread that issued it.
    pub is_issued: bool,
}

/// The requests that have not been freed.
pub struct IrpTable {
    pub irps: Vec<Irp>,
    pub next_irp_id: u64,
}

/// The model of an `IrpTable`.
#[verifier::ext_equal]
pub struct Irps {
    pub irps: Seq<Irp>,
    pub next: u64,
}

impl View for IrpTable {
    type V = Irps;

    open spec fn view(&self) -> Irps {
        Irps { irps: self.irps@, next: self.next_irp_id }
    }
}

/// Who is told of a completed request, and whether its device has no request left.
#[derive(Clone, Copy, Debug, PartialEq, Eq, Structural)]
pub struct Completion {
    pub is_sync: bool,
    pub drained: bool,
}

/// The position of a request, from `i` on.
pub open spec fn find_irp(s: Seq<Irp>, i: int, id: u64) -> Option<int>
    decreases s.len() - i,
{
    if i < 0 || i >= s.len() {
        None
    } else if s[i].id == id {
        Some(i)
    } else {
        find_irp(s, i + 1, id)
    }
}

/// Whether a request waits for a device.
pub open spec fn waits_for(p: Irp, device: u64) -> bool {
    p.device == device && !p.is_completed
}

/// The requests that wait for a device, among the first `n`, oldest first.
pub open spec fn pending_on(s: Seq<Irp>, n: nat, device: u64) -> Seq<PendingIrp>
    decreases n,
{
    if n == 0 {
        Seq::empty()
    } else {
        let rest = pending_on(s, (n - 1) as nat, device);
        let p = s[n - 1];
        if waits_for(p, device) {
            rest.push(PendingIrp { irp: p.id, thread_id: p.thread_id, major: p.major })
        } else {
            rest
        }
    }
}

/// Whether the death of a thread cancels a request: its device is there and not on its way out.
pub open spec fn swept(io: crate::io::driver::Io, p: Irp, thread: u64) -> bool {
    &&& p.is_issued
    &&& p.thread_id == thread
    &&& io.device(p.device) matches Some(d) && d.state != crate::io::driver::DeviceState::Removed
        && d.state != crate::io::driver::DeviceState::Removing
}

/// The requests that the death of a thread cancels, among the first `n`.
pub open spec fn to_cancel(io: crate::io::driver::Io, s: Seq<Irp>, n: nat, thread: u64) -> Seq<u64>
    decreases n,
{
    if n == 0 {
        Seq::empty()
    } else {
        let rest = to_cancel(io, s, (n - 1) as nat, thread);
        if swept(io, s[n - 1], thread) { rest.push(s[n - 1].id) } else { rest }
    }
}

/// A request taken off the list of a thread.
pub open spec fn let_go(p: Irp, thread: u64) -> Irp {
    if p.thread_id == thread { Irp { is_issued: false, ..p } } else { p }
}

impl Irps {
    pub open spec fn well_formed(self) -> bool {
        &&& forall|i: int, j: int| 0 <= i < j < self.irps.len() ==> (#[trigger] self.irps[i]).id != (#[trigger] self.irps[j]).id
        &&& forall|i: int| 0 <= i < self.irps.len() ==> {
            &&& (#[trigger] self.irps[i]).id < self.next
            &&& self.irps[i].is_completed == self.irps[i].is_cancelled
            &&& self.irps[i].is_completed ==> !self.irps[i].is_issued
        }
    }

    pub open spec fn irp(self, id: u64) -> Option<Irp> {
        match find_irp(self.irps, 0, id) {
            Some(i) => Some(self.irps[i]),
            None => None,
        }
    }

    /// The requests that wait for a device, oldest first.
    pub open spec fn pending(self, device: u64) -> Seq<PendingIrp> {
        pending_on(self.irps, self.irps.len(), device)
    }

    pub open spec fn allocated(self, device: u64, thread: u64, major: IrpMajor, minor: IrpMinor, is_sync: bool) -> Irps {
        Irps {
            irps: self.irps.push(Irp {
                id: self.next,
                device,
                thread_id: thread,
                major,
                minor,
                is_sync,
                has_cancel_routine: false,
                is_cancelled: false,
                is_completed: false,
                is_issued: true,
            }),
            next: (self.next + 1) as u64,
        }
    }

    /// The outcome of asking a device to take a request.
    pub open spec fn requested(self, d: DeviceObjectK, thread: u64, major: IrpMajor, minor: IrpMinor, is_sync: bool)
        -> (Irps, Result<(u64, u64), KError>) {
        match crate::io::driver::admission(d, major, minor) {
            Ok(drv) => (self.allocated(d.id, thread, major, minor, is_sync), Ok((self.next, drv))),
            Err(e) => (self, Err(e)),
        }
    }

    /// A completed request leaves both lists. It is freed, unless it was cancelled: then it is kept
    /// until its driver takes it up.
    pub open spec fn completed(self, id: u64, status: Status) -> (Irps, Completion) {
        let i = find_irp(self.irps, 0, id)->0;
        let p = self.irps[i];
        let next = if status == Status::Cancelled {
            Irps {
                irps: self.irps.update(i, Irp { is_cancelled: true, is_completed: true, is_issued: false, ..p }),
                ..self
            }
        } else {
            Irps { irps: self.irps.remove(i), ..self }
        };
        (next, Completion { is_sync: p.is_sync, drained: next.pending(p.device).len() == 0 })
    }

    /// A driver takes a request up: one that was cancelled is freed, another can no longer be
    /// cancelled.
    pub open spec fn taken_up(self, id: u64) -> (Irps, bool) {
        let i = find_irp(self.irps, 0, id)->0;
        let p = self.irps[i];
        if p.is_cancelled {
            (Irps { irps: self.irps.remove(i), ..self }, false)
        } else {
            (Irps { irps: self.irps.update(i, Irp { has_cancel_routine: false, ..p }), ..self }, true)
        }
    }

    /// Whether a request can be cancelled now.
    pub open spec fn cancellable(self, id: u64) -> bool {
        self.irp(id) matches Some(p) && p.has_cancel_routine && !p.is_cancelled
    }
}

proof fn lemma_found(s: Seq<Irp>, i: int, id: u64)
    requires
        0 <= i,
    ensures
        match find_irp(s, i, id) {
            Some(k) => i <= k < s.len() && s[k].id == id,
            None => forall|k: int| i <= k < s.len() ==> (#[trigger] s[k]).id != id,
        },
    decreases s.len() - i,
{
    if i < s.len() && s[i].id != id {
        lemma_found(s, i + 1, id);
    }
}

/// In a well-formed table a request is found where it is.
proof fn lemma_at(s: Irps, k: int)
    requires
        s.well_formed(),
        0 <= k < s.irps.len(),
    ensures
        find_irp(s.irps, 0, s.irps[k].id) == Some(k),
{
    lemma_found(s.irps, 0, s.irps[k].id);
}

proof fn lemma_completed_sound(s: Irps, id: u64, status: Status)
    requires
        s.well_formed(),
        s.irp(id) is Some,
    ensures
        s.completed(id, status).0.well_formed(),
{
    lemma_found(s.irps, 0, id);
}

proof fn lemma_taken_up_sound(s: Irps, id: u64)
    requires
        s.well_formed(),
        s.irp(id) is Some,
    ensures
        s.taken_up(id).0.well_formed(),
{
    lemma_found(s.irps, 0, id);
}

impl IrpTable {
    pub fn new() -> (r: IrpTable)
        ensures
            r@ == (Irps { irps: Seq::empty(), next: 1 }),
            r@.well_formed(),
    {
        IrpTable { irps: Vec::new(), next_irp_id: 1 }
    }

    fn position(&self, id: u64) -> (r: Option<usize>)
        ensures
            match r {
                Some(i) => find_irp(self.irps@, 0, id) == Some(i as int) && i < self.irps@.len()
                    && self.irps@[i as int].id == id,
                None => find_irp(self.irps@, 0, id) is None,
            },
    {
        let mut i: usize = 0;
        while i < self.irps.len()
            invariant
                i <= self.irps@.len(),
                find_irp(self.irps@, 0, id) == find_irp(self.irps@, i as int, id),
            decreases self.irps@.len() - i,
        {
            if self.irps[i].id == id {
                return Some(i);
            }
            i = i + 1;
        }
        None
    }

    /// A request that has not been freed.
    pub fn get_irp(&self, id: u64) -> (r: Option<Irp>)
        ensures
            r == self@.irp(id),
    {
        match self.position(id) {
            Some(i) => Some(self.irps[i]),
            None => None,
        }
    }

    /// The requests that wait for a device, oldest first.
    pub fn get_pending_irps(&self, device: u64) -> (r: Vec<PendingIrp>)
        ensures
            r@ == self@.pending(device),
    {
        let mut out: Vec<PendingIrp> = Vec::new();
        let mut i: usize = 0;
        while i < self.irps.len()
            invariant
                i <= self.irps@.len(),
                out@ == pending_on(self.irps@, i as nat, device),
            decreases self.irps@.len() - i,
        {
            let p: Irp = self.irps[i];
            if p.device == device && !p.is_completed {
                out.push(PendingIrp { irp: p.id, thread_id: p.thread_id, major: p.major });
            }
            i = i + 1;
        }
        out
    }

    /// Registers a request with its device and with the thread that issues it.
    pub fn allocate_irp(&mut self, device: u64, thread: u64, major: IrpMajor, minor: IrpMinor, is_sync: bool) -> (r: u64)
        requires
            old(self)@.well_formed(),
            old(self)@.next < u64::MAX,
        ensures
            final(self)@ == old(self)@.allocated(device, thread, major, minor, is_sync),
            r == old(self)@.next,
            final(self)@.well_formed(),
    {
        let id: u64 = self.next_irp_id;
        self.irps.push(Irp {
            id,
            device,
            thread_id: thread,
            major,
            minor,
            is_sync,
            has_cancel_routine: false,
            is_cancelled: false,
            is_completed: false,
            is_issued: true,
        });
        self.next_irp_id = id + 1;
        id
    }

    /// Asks a device to take a request for which the thread waits. Gives the request and the driver
    /// that is to handle it.
    pub fn io_request_sync(&mut self, d: &DeviceObjectK, thread: u64, major: IrpMajor, minor: IrpMinor)
        -> (r: Result<(u64, u64), KError>)
        requires
            old(self)@.well_formed(),
            old(self)@.next < u64::MAX,
        ensures
            (final(self)@, r) == old(self)@.requested(*d, thread, major, minor, true),
            final(self)@.well_formed(),
    {
        match d.accept_request(major, minor) {
            Ok(drv) => {
                let id: u64 = self.allocate_irp(d.id, thread, major, minor, true);
                Ok((id, drv))
            },
            Err(e) => Err(e),
        }
    }

    /// Asks a device to take a request whose completion is called back.
    pub fn io_request_async(&mut self, d: &DeviceObjectK, thread: u64, major: IrpMajor, minor: IrpMinor)
        -> (r: Result<(u64, u64), KError>)
        requires
            old(self)@.well_formed(),
            old(self)@.next < u64::MAX,
        ensures
            (final(self)@, r) == old(self)@.requested(*d, thread, major, minor, false),
            final(self)@.well_formed(),
    {
        match d.accept_request(major, minor) {
            Ok(drv) => {
                let id: u64 = self.allocate_irp(d.id, thread, major, minor, false);
                Ok((id, drv))
            },
            Err(e) => Err(e),
        }
    }

    /// Completes a request. A request is completed once, and never as pending.
    pub fn io_complete(&mut self, id: u64, status: Status) -> (r: Completion)
        requires
            old(self)@.well_formed(),
            old(self)@.irp(id) matches Some(p) && !p.is_completed,
            status != Status::Pending,
        ensures
            (final(self)@, r) == old(self)@.completed(id, status),
            final(self)@.well_formed(),
    {
        proof {
            lemma_completed_sound(self@, id, status);
        }
        let ghost s0 = self@;
        let i: usize = match self.position(id) {
            Some(i) => i,
            None => 0,
        };
        let p: Irp = self.irps[i];
        if status == Status::Cancelled {
            let q: Irp = Irp { is_cancelled: true, is_completed: true, is_issued: false, ..p };
            self.irps.set(i, q);
            assert(self@ =~= s0.completed(id, status).0);
        } else {
            self.irps.remove(i);
            assert(self@ =~= s0.completed(id, status).0);
        }
        let left: Vec<PendingIrp> = self.get_pending_irps(p.device);
        Completion { is_sync: p.is_sync, drained: left.len() == 0 }
    }

    /// A driver takes a request up. False: it was cancelled meanwhile, and is now freed.
    pub fn io_start_processing(&mut self, id: u64) -> (r: bool)
        requires
            old(self)@.well_formed(),
            old(self)@.irp(id) is Some,
        ensures
            (final(self)@, r) == old(self)@.taken_up(id),
            final(self)@.well_formed(),
    {
        proof {
            lemma_taken_up_sound(self@, id);
        }
        let ghost s0 = self@;
        let i: usize = match self.position(id) {
            Some(i) => i,
            None => 0,
        };
        let p: Irp = self.irps[i];
        if p.is_cancelled {
            self.irps.remove(i);
            assert(self@ =~= s0.taken_up(id).0);
            false
        } else {
            let q: Irp = Irp { has_cancel_routine: false, ..p };
            self.irps.set(i, q);
            assert(self@ =~= s0.taken_up(id).0);
            true
        }
    }

    /// A driver says that it can cancel a request, which it says once.
    pub fn io_set_cancel_routine(&mut self, id: u64)
        requires
            old(self)@.well_formed(),
            old(self)@.irp(id) matches Some(p) && !p.is_cancelled && !p.has_cancel_routine,
        ensures
            final(self)@.well_formed(),
            final(self)@.next == old(self)@.next,
            final(self)@.irps == old(self)@.irps.update(
                find_irp(old(self)@.irps, 0, id)->0,
                (Irp { has_cancel_routine: true, ..old(self)@.irp(id)->0 }),
            ),
    {
        let i: usize = match self.position(id) {
            Some(i) => i,
            None => 0,
        };
        let q: Irp = Irp { has_cancel_routine: true, ..self.irps[i] };
        self.irps.set(i, q);
    }

    /// Whether the cancel routine of a request is to be called: there is one, and the request has not
    /// been cancelled on another path.
    pub fn cancel_irp(&self, id: u64) -> (r: bool)
        ensures
            r == self@.cancellable(id),
    {
        match self.position(id) {
            Some(i) => self.irps[i].has_cancel_routine && !self.irps[i].is_cancelled,
            None => false,
        }
    }

    /// Empties the list of a dying thread. Gives the requests to cancel, those whose device is there
    /// and not on its way out.
    pub fn kill_sweep_irps(&mut self, io: &IoSystem, thread: u64) -> (r: Vec<u64>)
        requires
            old(self)@.well_formed(),
        ensures
            final(self)@.well_formed(),
            final(self)@.next == old(self)@.next,
            final(self)@.irps == old(self)@.irps.map_values(|p: Irp| let_go(p, thread)),
            r@ == to_cancel(io@, old(self)@.irps, old(self)@.irps.len(), thread),
    {
        let ghost s0 = self.irps@;
        let mut out: Vec<u64> = Vec::new();
        let mut i: usize = 0;
        while i < self.irps.len()
            invariant
                i <= self.irps@.len(),
                self.irps@.len() == s0.len(),
                self.next_irp_id == old(self)@.next,
                forall|k: int| 0 <= k < i ==> self.irps@[k] == let_go(s0[k], thread),
                forall|k: int| i <= k < s0.len() ==> self.irps@[k] == s0[k],
                out@ == to_cancel(io@, s0, i as nat, thread),
            decreases self.irps@.len() - i,
        {
            let p: Irp = self.irps[i];
            if p.thread_id == thread {
                if p.is_issued {
                    match io.get_device(p.device) {
                        Some(d) => {
                            if d.can_cancel() {
                                out.push(p.id);
                            }
                        },
                        None => {},
                    }
                }
                let q: Irp = Irp { is_issued: false, ..p };
                self.irps.set(i, q);
            }
            i = i + 1;
        }
        assert(self.irps@ =~= s0.map_values(|p: Irp| let_go(p, thread)));
        out
    }
}

/// A completed request is freed once: at its completion, or, when it was cancelled, when its driver
/// takes it up, which the driver is told.
pub proof fn law_freed_once(s: Irps, id: u64, status: Status)
    requires
        s.well_formed(),
        s.irp(id) matches Some(p) && !p.is_completed,
        status != Status::Pending,
    ensures
        status != Status::Cancelled ==> s.completed(id, status).0.irp(id) is None,
        status == Status::Cancelled ==> {
            let kept = s.completed(id, status).0;
            &&& kept.irp(id) is Some
            &&& !kept.cancellable(id)
            &&& !kept.taken_up(id).1
            &&& kept.taken_up(id).0.irp(id) is None
        },
{
    lemma_found(s.irps, 0, id);
    lemma_completed_sound(s, id, status);
    let kept = s.completed(id, status).0;
    let i = find_irp(s.irps, 0, id)->0;
    if status == Status::Cancelled {
        assert(kept.irps[i].id == id);
        lemma_at(kept, i);
        lemma_found(kept.taken_up(id).0.irps, 0, id);
    } else {
        lemma_found(kept.irps, 0, id);
    }
}

proof fn lemma_not_pending(s: Seq<Irp>, n: nat, device: u64, id: u64)
    requires
        n <= s.len(),
        forall|k: int| 0 <= k < n ==> ((#[trigger] s[k]).id != id || s[k].is_completed),
    ensures
        forall|k: int| 0 <= k < pending_on(s, n, device).len() ==> (#[trigger] pending_on(s, n, device)[k]).irp != id,
    decreases n,
{
    if n > 0 {
        lemma_not_pending(s, (n - 1) as nat, device, id);
    }
}

/// However a request completes, no device has it pending afterwards.
pub proof fn law_completed_not_pending(s: Irps, id: u64, status: Status, device: u64)
    requires
        s.well_formed(),
        s.irp(id) is Some,
    ensures
        forall|k: int|
            0 <= k < s.completed(id, status).0.pending(device).len() ==> (
            #[trigger] s.completed(id, status).0.pending(device)[k]).irp != id,
{
    lemma_found(s.irps, 0, id);
    let t = s.completed(id, status).0;
    lemma_not_pending(t.irps, t.irps.len(), device, id);
}

proof fn lemma_same_pending(s: Seq<Irp>, t: Seq<Irp>, n: nat, device: u64)
    requires
        n <= s.len(),
        n <= t.len(),
        forall|k: int| 0 <= k < n ==> s[k] == t[k],
    ensures
        pending_on(s, n, device) == pending_on(t, n, device),
    decreases n,
{
    if n > 0 {
        lemma_same_pending(s, t, (n - 1) as nat, device);
    }
}

/// A request that a device takes is the last of the requests pending there, and pending nowhere
/// else. One that is refused changes nothing.
pub proof fn law_admitted_is_pending(s: Irps, d: DeviceObjectK, thread: u64, major: IrpMajor, minor: IrpMinor,
    is_sync: bool, device: u64)
    requires
        s.next < u64::MAX,
    ensures
        match crate::io::driver::admission(d, major, minor) {
            Ok(_) => s.requested(d, thread, major, minor, is_sync).0.pending(device) == (if device == d.id {
                s.pending(device).push(PendingIrp { irp: s.next, thread_id: thread, major })
            } else {
                s.pending(device)
            }),
            Err(e) => s.requested(d, thread, major, minor, is_sync) == (s, Err::<(u64, u64), KError>(e)),
        },
{
    let t = s.allocated(d.id, thread, major, minor, is_sync);
    lemma_same_pending(s.irps, t.irps, s.irps.len(), device);
    assert(t.irps.len() == s.irps.len() + 1);
    assert(pending_on(t.irps, t.irps.len(), device) == t.pending(device));
}

}
