use vstd::prelude::*;
use crate::io::driver::{Io, IoSystem, Status};

verus! {

/// Work for the plug-and-play worker.
pub enum PnpRequest {
    /// What hangs off a device has changed.
    InvalidateDevice { device_id: u64 },
    StartDevice { device_id: u64 },
    StopDevice { device_id: u64 },
    RemoveDevice { device_id: u64 },
    RemoveDriver { name: Vec<u8> },
    AddConfig { name: Vec<u8> },
    /// Nothing but a sign that all earlier requests are done.
    Fence { event: u64 },
}

/// What the worker is left with once it has looked at a request.
#[derive(Clone, Copy, Debug, PartialEq, Eq, Structural)]
pub enum PnpAction {
    Nothing,
    /// The bus is asked what is on it.
    Enumerate(u64),
    Start(u64),
    /// The driver named in the request is unloaded.
    UnloadDriver,
    /// Whoever waits for the event goes on.
    Signal(u64),
}

/// The requests that wait for the worker, oldest first.
pub struct PnpQueue {
    pub requests: Vec<PnpRequest>,
    /// Whether the worker runs.
    pub started: bool,
    /// Whether the worker has been told that there is work.
    pub signalled: bool,
    pub next_event: u64,
}

impl PnpQueue {
    pub fn new() -> (r: PnpQueue)
        ensures
            r.requests@.len() == 0,
            !r.started,
            !r.signalled,
            r.next_event == 0,
    {
        PnpQueue { requests: Vec::new(), started: false, signalled: false, next_event: 0 }
    }

    /// Requests can be posted from now on.
    pub fn start_worker(&mut self)
        ensures
            final(self).started,
            final(self).requests == old(self).requests,
            final(self).signalled == old(self).signalled,
            final(self).next_event == old(self).next_event,
    {
        self.started = true;
    }

    pub fn pnp_post(&mut self, req: PnpRequest)
        requires
            old(self).started,
        ensures
            final(self).requests@ == old(self).requests@.push(req),
            final(self).signalled,
            final(self).started,
            final(self).next_event == old(self).next_event,
    {
        self.requests.push(req);
        self.signalled = true;
    }

    pub fn start_device(&mut self, device_id: u64)
        requires
            old(self).started,
        ensures
            final(self).requests@ == old(self).requests@.push(PnpRequest::StartDevice { device_id }),
            final(self).signalled && final(self).started,
            final(self).next_event == old(self).next_event,
    {
        self.pnp_post(PnpRequest::StartDevice { device_id });
    }

    pub fn stop_device(&mut self, device_id: u64)
        requires
            old(self).started,
        ensures
            final(self).requests@ == old(self).requests@.push(PnpRequest::StopDevice { device_id }),
            final(self).signalled && final(self).started,
            final(self).next_event == old(self).next_event,
    {
        self.pnp_post(PnpRequest::StopDevice { device_id });
    }

    pub fn remove_device_async(&mut self, device_id: u64)
        requires
            old(self).started,
        ensures
            final(self).requests@ == old(self).requests@.push(PnpRequest::RemoveDevice { device_id }),
            final(self).signalled && final(self).started,
            final(self).next_event == old(self).next_event,
    {
        self.pnp_post(PnpRequest::RemoveDevice { device_id });
    }

    /// A driver says that what hangs off a device has changed, if it is a device.
    pub fn io_invalidate_device(&mut self, io: &IoSystem, device: Option<u64>) -> (r: Status)
        requires
            old(self).started,
        ensures
            ({
                let there = device matches Some(id) && io@.device(id) is Some;
                &&& r == (if there { Status::Success } else { Status::Failed })
                &&& final(self).requests@ == (if there {
                    old(self).requests@.push(PnpRequest::InvalidateDevice { device_id: device->0 })
                } else {
                    old(self).requests@
                })
                &&& final(self).signalled == (old(self).signalled || there)
            }),
            final(self).started,
            final(self).next_event == old(self).next_event,
    {
        match device {
            None => Status::Failed,
            Some(device_id) => {
                if io.get_device(device_id).is_none() {
                    return Status::Failed;
                }
                self.pnp_post(PnpRequest::InvalidateDevice { device_id });
                Status::Success
            },
        }
    }

    pub fn add_config(&mut self, name: Vec<u8>)
        requires
            old(self).started,
        ensures
            final(self).requests@ == old(self).requests@.push(PnpRequest::AddConfig { name }),
            final(self).signalled && final(self).started,
            final(self).next_event == old(self).next_event,
    {
        self.pnp_post(PnpRequest::AddConfig { name });
    }

    /// Posts a fence and gives the event to wait for.
    pub fn pnp_fence(&mut self) -> (r: u64)
        requires
            old(self).started,
            old(self).next_event < u64::MAX,
        ensures
            r == old(self).next_event,
            final(self).requests@ == old(self).requests@.push(PnpRequest::Fence { event: r }),
            final(self).signalled && final(self).started,
            final(self).next_event == r + 1,
    {
        let event: u64 = self.next_event;
        self.next_event = event + 1;
        self.pnp_post(PnpRequest::Fence { event });
        event
    }

    /// Takes the oldest request.
    pub fn pop_one(&mut self) -> (r: Option<PnpRequest>)
        ensures
            r == (if old(self).requests@.len() == 0 { None } else { Some(old(self).requests@[0]) }),
            final(self).requests@ == (if r is None { old(self).requests@ } else { old(self).requests@.skip(1) }),
            final(self).signalled == old(self).signalled,
            final(self).started == old(self).started,
            final(self).next_event == old(self).next_event,
    {
        if self.requests.len() == 0 {
            return None;
        }
        let ghost q0 = self.requests@;
        let req: PnpRequest = self.requests.remove(0);
        assert(self.requests@ =~= q0.skip(1));
        Some(req)
    }
}

/// What is left to do for a request; a request for a device that is gone is dropped.
pub open spec fn action_for(req: PnpRequest, exists_device: bool) -> PnpAction {
    match req {
        PnpRequest::InvalidateDevice { device_id } =>
            if exists_device { PnpAction::Enumerate(device_id) } else { PnpAction::Nothing },
        PnpRequest::StartDevice { device_id } =>
            if exists_device { PnpAction::Start(device_id) } else { PnpAction::Nothing },
        PnpRequest::StopDevice { .. } => PnpAction::Nothing,
        PnpRequest::RemoveDevice { .. } => PnpAction::Nothing,
        PnpRequest::RemoveDriver { .. } => PnpAction::UnloadDriver,
        PnpRequest::AddConfig { .. } => PnpAction::Nothing,
        PnpRequest::Fence { event } => PnpAction::Signal(event),
    }
}

pub open spec fn target(req: PnpRequest) -> Option<u64> {
    match req {
        PnpRequest::InvalidateDevice { device_id } => Some(device_id),
        PnpRequest::StartDevice { device_id } => Some(device_id),
        PnpRequest::StopDevice { device_id } => Some(device_id),
        PnpRequest::RemoveDevice { device_id } => Some(device_id),
        _ => None,
    }
}

/// The device tree once a request has been handled as far as it goes there.
pub open spec fn handled(io: Io, req: PnpRequest) -> Io {
    match req {
        PnpRequest::StopDevice { device_id } => io.stopped(device_id, false),
        PnpRequest::RemoveDevice { device_id } => io.removed(device_id),
        _ => io,
    }
}

/// Handles a request as far as the device tree goes, and says what is left to do.
pub fn handle(io: &mut IoSystem, req: &PnpRequest) -> (r: PnpAction)
    requires
        old(io)@.well_formed(),
        *req != (PnpRequest::RemoveDevice { device_id: 0 }),
    ensures
        r == action_for(*req, target(*req) is Some && old(io)@.device(target(*req)->0) is Some),
        final(io)@ == handled(old(io)@, *req),
        final(io)@.well_formed(),
{
    match req {
        PnpRequest::InvalidateDevice { device_id } => {
            if io.get_device(*device_id).is_some() {
                PnpAction::Enumerate(*device_id)
            } else {
                PnpAction::Nothing
            }
        },
        PnpRequest::StartDevice { device_id } => {
            if io.get_device(*device_id).is_some() { PnpAction::Start(*device_id) } else { PnpAction::Nothing }
        },
        PnpRequest::StopDevice { device_id } => {
            let _ = io.stop(*device_id, false);
            PnpAction::Nothing
        },
        PnpRequest::RemoveDevice { device_id } => {
            io.remove_device(*device_id);
            PnpAction::Nothing
        },
        PnpRequest::RemoveDriver { .. } => PnpAction::UnloadDriver,
        PnpRequest::AddConfig { .. } => PnpAction::Nothing,
        PnpRequest::Fence { event } => PnpAction::Signal(*event),
    }
}

impl PnpQueue {
    /// One round of the worker: it takes the oldest request and handles it.
    pub fn work_one(&mut self, io: &mut IoSystem) -> (r: Option<(PnpRequest, PnpAction)>)
        requires
            old(io)@.well_formed(),
            old(self).requests@.len() > 0 ==> old(self).requests@[0] != (PnpRequest::RemoveDevice { device_id: 0 }),
        ensures
            final(self).signalled == old(self).signalled,
            final(self).started == old(self).started,
            final(self).next_event == old(self).next_event,
            final(self).requests@ == worked(Work { requests: old(self).requests@, handled: Seq::empty() }).requests,
            r is None <==> old(self).requests@.len() == 0,
            r is None ==> final(io)@ == old(io)@,
            r matches Some((req, action)) ==> {
                &&& worked(Work { requests: old(self).requests@, handled: Seq::empty() }).handled == seq![req]
                &&& action == action_for(req, target(req) is Some && old(io)@.device(target(req)->0) is Some)
                &&& final(io)@ == handled(old(io)@, req)
            },
            final(io)@.well_formed(),
    {
        match self.pop_one() {
            None => None,
            Some(req) => {
                let a: PnpAction = handle(io, &req);
                assert(Seq::<PnpRequest>::empty().push(req) =~= seq![req]);
                Some((req, a))
            },
        }
    }
}

/// What waits for the worker, and what it has handled.
#[verifier::ext_equal]
pub struct Work {
    pub requests: Seq<PnpRequest>,
    pub handled: Seq<PnpRequest>,
}

/// The worker has taken and handled the oldest request, if there is one.
pub open spec fn worked(w: Work) -> Work {
    if w.requests.len() == 0 {
        w
    } else {
        Work { requests: w.requests.skip(1), handled: w.handled.push(w.requests[0]) }
    }
}

/// What happens to the queue: a request is posted, or the worker takes one.
pub enum PnpStep {
    Post(PnpRequest),
    Round,
}

pub open spec fn after(w: Work, steps: Seq<PnpStep>, n: nat) -> Work
    decreases n,
{
    if n == 0 {
        w
    } else {
        let v = after(w, steps, (n - 1) as nat);
        match steps[n - 1] {
            PnpStep::Post(r) => Work { requests: v.requests.push(r), ..v },
            PnpStep::Round => worked(v),
        }
    }
}

/// The requests that have been posted in the first `n` steps.
pub open spec fn posted(steps: Seq<PnpStep>, n: nat) -> Seq<PnpRequest>
    decreases n,
{
    if n == 0 {
        Seq::empty()
    } else {
        match steps[n - 1] {
            PnpStep::Post(r) => posted(steps, (n - 1) as nat).push(r),
            PnpStep::Round => posted(steps, (n - 1) as nat),
        }
    }
}

/// Every request is handled once, in the order in which they were posted, whenever the worker gets to
/// them and whatever is posted meanwhile.
pub proof fn law_handled_in_order(w: Work, steps: Seq<PnpStep>, n: nat)
    requires
        n <= steps.len(),
    ensures
        after(w, steps, n).handled + after(w, steps, n).requests == (w.handled + w.requests) + posted(steps, n),
    decreases n,
{
    if n == 0 {
        assert((w.handled + w.requests) + posted(steps, 0) =~= w.handled + w.requests);
    } else {
        law_handled_in_order(w, steps, (n - 1) as nat);
        let v = after(w, steps, (n - 1) as nat);
        let u = after(w, steps, n);
        let all = w.handled + w.requests;
        match steps[n - 1] {
            PnpStep::Post(r) => {
                assert(u.handled + u.requests =~= (v.handled + v.requests).push(r));
                assert(all + posted(steps, n) =~= (all + posted(steps, (n - 1) as nat)).push(r));
            },
            PnpStep::Round => {
                assert(u.handled + u.requests =~= v.handled + v.requests);
            },
        }
    }
}

/// Once the worker has come to a fence, which ends the wait of whoever posted it, it has handled each
/// request that was posted before it once and in the order in which they were posted.
pub proof fn law_fence(steps: Seq<PnpStep>, n: nat, k: int, event: u64)
    requires
        n <= steps.len(),
        0 <= k < posted(steps, n).len(),
        posted(steps, n)[k] == (PnpRequest::Fence { event }),
        forall|j: int| 0 <= j < posted(steps, n).len() && j != k ==> (#[trigger] posted(steps, n)[j]) != (PnpRequest::Fence {
            event,
        }),
        after(Work { requests: Seq::empty(), handled: Seq::empty() }, steps, n).handled.contains(PnpRequest::Fence { event }),
    ensures
        ({
            let h = after(Work { requests: Seq::empty(), handled: Seq::empty() }, steps, n).handled;
            &&& k < h.len()
            &&& h.take(k) == posted(steps, n).take(k)
            &&& h[k] == (PnpRequest::Fence { event })
        }),
{
    let w = Work { requests: Seq::empty(), handled: Seq::empty() };
    law_handled_in_order(w, steps, n);
    let u = after(w, steps, n);
    let p = posted(steps, n);
    assert((w.handled + w.requests) + p =~= p);
    let i = choose|i: int| 0 <= i < u.handled.len() && u.handled[i] == (PnpRequest::Fence { event });
    assert(p[i] == (u.handled + u.requests)[i]);
    assert forall|j: int| 0 <= j < u.handled.len() implies u.handled[j] == p[j] by {
        assert((u.handled + u.requests)[j] == u.handled[j]);
    }
    assert(u.handled.take(k) =~= p.take(k));
}

/// The queue after `n` requests have been taken.
pub open spec fn popped(q: Seq<PnpRequest>, n: nat) -> Seq<PnpRequest>
    decreases n,
{
    if n == 0 {
        q
    } else {
        let s = popped(q, (n - 1) as nat);
        if s.len() == 0 { s } else { s.skip(1) }
    }
}

/// Requests are taken in the order in which they were posted: what was posted behind `n` others is
/// at the front once these have been taken. So a fence comes up when all earlier requests are done.
pub proof fn law_in_order(q: Seq<PnpRequest>, n: nat)
    requires
        n < q.len(),
    ensures
        popped(q, n).len() == q.len() - n,
        popped(q, n)[0] == q[n as int],
        popped(q, n) == q.skip(n as int),
    decreases n,
{
    if n == 0 {
        assert(q.skip(0) =~= q);
    } else {
        law_in_order(q, (n - 1) as nat);
        assert(popped(q, n) =~= q.skip(n as int));
    }
}

} // verus!
