//! The start of a device with everything below it that starts with it. Drivers answer start requests
//! in their own time, so the walk over the tree goes on with each answer.

use vstd::prelude::*;
use crate::error::KError;
use crate::io::driver::{Io, IoSystem, StartStep, Status};

verus! {

/// A device that is to be started, and whether on behalf of its parent.
#[derive(Clone, Copy, Debug, PartialEq, Eq, Structural)]
pub struct StartItem {
    pub id: u64,
    pub is_child: bool,
}

/// A start under way.
pub struct Starting {
    /// What is still to be started, the next device last.
    pub ahead: Vec<StartItem>,
    /// The device whose driver has a start request.
    pub waiting: Option<StartItem>,
    /// What came of the device that was asked for.
    pub result: Option<Result<Status, KError>>,
}

/// The model of a `Starting`.
#[verifier::ext_equal]
pub struct Walk {
    pub ahead: Seq<StartItem>,
    pub waiting: Option<StartItem>,
    pub result: Option<Result<Status, KError>>,
}

impl View for Starting {
    type V = Walk;

    open spec fn view(&self) -> Walk {
        Walk { ahead: self.ahead@, waiting: self.waiting, result: self.result }
    }
}

/// What is to be done next.
#[derive(Clone, Copy, Debug, PartialEq, Eq, Structural)]
pub enum StartNext {
    /// Send a start request to a driver, for a device.
    Dispatch { device: u64, driver: u64 },
    /// Take the next step.
    Again,
    Done,
}

/// The children of a device in the order in which they are taken from the end.
pub open spec fn behind(kids: Seq<u64>) -> Seq<StartItem> {
    Seq::new(kids.len(), |i: int| StartItem { id: kids[kids.len() - 1 - i], is_child: true })
}

impl Walk {
    /// Only the device that was asked for has a result to give.
    pub open spec fn with_result(self, it: StartItem, r: Result<Status, KError>) -> Walk {
        if it.is_child { self } else { Walk { result: Some(r), ..self } }
    }

    pub open spec fn with_children(self, io: Io, id: u64) -> Walk {
        Walk { ahead: self.ahead + behind(io.children(id)), ..self }
    }

    /// One step of the walk. A child that is neither a physical device nor enabled is passed over, and
    /// so is one that has gone.
    pub open spec fn stepped(self, io: Io) -> (Walk, Io, StartNext) {
        if self.ahead.len() == 0 {
            (self, io, StartNext::Done)
        } else {
            let it = self.ahead.last();
            let w = Walk { ahead: self.ahead.drop_last(), ..self };
            match io.device(it.id) {
                None => (w.with_result(it, Err(KError::DeviceRemoved)), io, StartNext::Again),
                Some(d) => if it.is_child && !(d.is_pdo || d.enabled) {
                    (w, io, StartNext::Again)
                } else {
                    let (io1, step) = io.start_begun(d);
                    match step {
                        Err(e) => (w.with_result(it, Err(e)), io1, StartNext::Again),
                        Ok(StartStep::Started) => (w.with_result(it, Ok(Status::Success)), io1, StartNext::Again),
                        Ok(StartStep::Children) => (
                            w.with_result(it, Ok(Status::Success)).with_children(io1, it.id),
                            io1,
                            StartNext::Again,
                        ),
                        Ok(StartStep::Dispatch(driver)) => (
                            Walk { waiting: Some(it), ..w },
                            io1,
                            StartNext::Dispatch { device: it.id, driver },
                        ),
                    }
                },
            }
        }
    }

    /// A driver has answered: the children follow, whatever it said, and each finds out for itself
    /// whether its parent has come up. A request that could not be made ends the matter.
    pub open spec fn answered(self, io: Io, answer: Result<Status, KError>) -> (Walk, Io) {
        let it = self.waiting->0;
        let w = Walk { waiting: None, ..self };
        match (answer, io.device(it.id)) {
            (Ok(status), Some(d)) => {
                let io1 = io.start_answered(d, it.is_child, status);
                (w.with_result(it, Ok(status)).with_children(io1, it.id), io1)
            },
            (Ok(status), None) => (w.with_result(it, Ok(status)), io),
            (Err(e), _) => (w.with_result(it, Err(e)), io),
        }
    }
}

impl Starting {
    /// Begins the start of a device.
    pub fn start(id: u64) -> (r: Starting)
        ensures
            r@ == (Walk { ahead: seq![StartItem { id, is_child: false }], waiting: None, result: None }),
    {
        let mut ahead: Vec<StartItem> = Vec::new();
        ahead.push(StartItem { id, is_child: false });
        let r: Starting = Starting { ahead, waiting: None, result: None };
        assert(r@.ahead =~= seq![StartItem { id, is_child: false }]);
        r
    }

    fn note(&mut self, it: StartItem, r: Result<Status, KError>)
        ensures
            final(self)@ == old(self)@.with_result(it, r),
    {
        if !it.is_child {
            self.result = Some(r);
        }
    }

    fn add_children(&mut self, io: &IoSystem, id: u64)
        requires
            io@.well_formed(),
        ensures
            final(self)@ == old(self)@.with_children(io@, id),
    {
        let ghost t0 = self.ahead@;
        let kids: Vec<u64> = io.children_snapshot(id);
        let mut i: usize = kids.len();
        assert(t0 + behind(kids@).take(0) =~= t0);
        while i > 0
            invariant
                i <= kids@.len(),
                self.ahead@ == t0 + behind(kids@).take(kids@.len() - i),
                self.waiting == old(self).waiting,
                self.result == old(self).result,
            decreases i,
        {
            let ghost k = kids@.len() - i;
            self.ahead.push(StartItem { id: kids[i - 1], is_child: true });
            assert(behind(kids@).take(k + 1) =~= behind(kids@).take(k).push(behind(kids@)[k]));
            assert(self.ahead@ =~= t0 + behind(kids@).take(k + 1));
            i = i - 1;
        }
        assert(behind(kids@).take(kids@.len() as int) =~= behind(kids@));
    }

    /// Takes one step.
    pub fn do_start(&mut self, io: &mut IoSystem) -> (r: StartNext)
        requires
            old(io)@.well_formed(),
            old(self)@.waiting is None,
        ensures
            (final(self)@, final(io)@, r) == old(self)@.stepped(old(io)@),
            final(io)@.well_formed(),
    {
        let ghost w0 = self@;
        let it: StartItem = match self.ahead.pop() {
            Some(it) => it,
            None => {
                assert(self@ =~= w0);
                return StartNext::Done;
            },
        };
        assert(self.ahead@ =~= w0.ahead.drop_last());
        if io.get_device(it.id).is_none() {
            self.note(it, Err(KError::DeviceRemoved));
            return StartNext::Again;
        }
        if it.is_child && !io.starts_with_parent(it.id) {
            return StartNext::Again;
        }
        match io.begin_start(it.id) {
            Err(e) => {
                self.note(it, Err(e));
                StartNext::Again
            },
            Ok(StartStep::Started) => {
                self.note(it, Ok(Status::Success));
                StartNext::Again
            },
            Ok(StartStep::Children) => {
                self.note(it, Ok(Status::Success));
                self.add_children(io, it.id);
                StartNext::Again
            },
            Ok(StartStep::Dispatch(driver)) => {
                self.waiting = Some(it);
                StartNext::Dispatch { device: it.id, driver }
            },
        }
    }

    /// Takes in a driver's answer to a start request, or that none could be made.
    pub fn on_answer(&mut self, io: &mut IoSystem, answer: Result<Status, KError>)
        requires
            old(io)@.well_formed(),
            old(self)@.waiting is Some,
        ensures
            (final(self)@, final(io)@) == old(self)@.answered(old(io)@, answer),
            final(io)@.well_formed(),
            final(self)@.waiting is None,
    {
        match self.waiting {
            None => {},
            Some(it) => {
                self.waiting = None;
                match answer {
                    Err(e) => {
                        self.note(it, Err(e));
                    },
                    Ok(status) => {
                        self.note(it, Ok(status));
                        if io.get_device(it.id).is_some() {
                            io.finish_start(it.id, it.is_child, status);
                            self.add_children(io, it.id);
                        }
                    },
                }
            },
        }
    }
}

/// A device whose parent is registered and not started gets no start request.
pub proof fn law_parent_first(w: Walk, io: Io)
    requires
        w.ahead.len() > 0,
        io.device(w.ahead.last().id) matches Some(d) && !d.is_class_device && (io.parent_of(d) matches Some(p) && p.state
            != crate::io::driver::DeviceState::Started),
    ensures
        w.stepped(io).2 == StartNext::Again,
        w.stepped(io).1 == io,
        w.stepped(io).0.ahead == w.ahead.drop_last(),
{
}

/// Only devices that a driver serves get a start request: never one that stands for something found
/// on a bus, nor one whose driver starts and stops it itself.
pub proof fn law_served_devices_start(w: Walk, io: Io)
    ensures
        w.stepped(io).2 matches StartNext::Dispatch { device, driver } ==> (io.device(device) matches Some(d) && !d.is_pdo
            && !d.is_class_device && d.driver == Some(driver)),
{
}

} // verus!
