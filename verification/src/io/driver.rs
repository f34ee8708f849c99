use vstd::prelude::*;
use crate::error::KError;
use crate::util;
use crate::util::bytes_eq;
use crate::io::stack::LevelState;
use crate::io::tree;
use crate::io::tree::Edge;

verus! {

/// Where a device is in its life.
#[derive(Clone, Copy, Debug, PartialEq, Eq, Structural)]
pub enum DeviceState {
    Stopped,
    Started,
    Stopping,
    Removing,
    Removed,
}

/// What a request asks of a device.
#[derive(Clone, Copy, Debug, PartialEq, Eq, Structural)]
pub enum IrpMajor {
    Read,
    Write,
    Pnp,
    Control,
    Open,
    Close,
}

/// What a request asks of a device in detail.
#[derive(Clone, Copy, Debug, PartialEq, Eq, Structural)]
pub enum IrpMinor {
    Plain,
    Start,
    Stop,
    Remove,
    Enumerate,
    Query,
    Resources,
    RegisterKeyboardHandler,
    SetForegroundPgrp,
    SetControllingTty,
    SetTtyMode,
    GetTtyMode,
}

/// What a driver says about a request.
#[derive(Clone, Copy, Debug, PartialEq, Eq, Structural)]
pub enum Status {
    Success,
    Failed,
    Pending,
    Unsupported,
    Cancelled,
}

/// Whether a device takes a request in its state. Class devices take no plug-and-play requests, and
/// physical ones nothing else.
pub open spec fn allowed(state: DeviceState, major: IrpMajor, minor: IrpMinor, is_class: bool, is_pdo: bool) -> bool {
    if major != IrpMajor::Pnp {
        state == DeviceState::Started && (is_class || !is_pdo)
    } else if is_class {
        false
    } else {
        match minor {
            IrpMinor::Enumerate | IrpMinor::Query | IrpMinor::Resources => state == DeviceState::Started,
            IrpMinor::Start => state == DeviceState::Stopped,
            IrpMinor::Stop => state == DeviceState::Stopping,
            IrpMinor::Remove => state == DeviceState::Removing,
            _ => false,
        }
    }
}

pub fn allowed_in_state(state: DeviceState, major: IrpMajor, minor: IrpMinor, is_class: bool, is_pdo: bool) -> (r: bool)
    ensures
        r == allowed(state, major, minor, is_class, is_pdo),
{
    if is_class {
        return match major {
            IrpMajor::Pnp => false,
            _ => state == DeviceState::Started,
        };
    }
    if is_pdo && major != IrpMajor::Pnp {
        return false;
    }
    match major {
        IrpMajor::Pnp => match minor {
            IrpMinor::Enumerate | IrpMinor::Query | IrpMinor::Resources => state == DeviceState::Started,
            IrpMinor::Start => state == DeviceState::Stopped,
            IrpMinor::Stop => state == DeviceState::Stopping,
            IrpMinor::Remove => state == DeviceState::Removing,
            _ => false,
        },
        _ => state == DeviceState::Started,
    }
}

/// Why a device refuses a request in its state.
pub open spec fn rejection(state: DeviceState, major: IrpMajor, minor: IrpMinor) -> KError {
    if state == DeviceState::Removed {
        KError::DeviceRemoved
    } else if major == IrpMajor::Pnp && minor == IrpMinor::Start && state == DeviceState::Started {
        KError::DeviceStarted
    } else {
        KError::DeviceStopped
    }
}

pub fn state_rejection_error(state: DeviceState, major: IrpMajor, minor: IrpMinor) -> (r: KError)
    ensures
        r == rejection(state, major, minor),
{
    if state == DeviceState::Removed {
        return KError::DeviceRemoved;
    }
    if major == IrpMajor::Pnp && minor == IrpMinor::Start && state == DeviceState::Started {
        return KError::DeviceStarted;
    }
    KError::DeviceStopped
}

/// A device as the kernel knows it.
#[derive(Clone, Copy, Debug)]
pub struct DeviceObjectK {
    pub id: u64,
    /// The root device alone has no driver.
    pub driver: Option<u64>,
    pub state: DeviceState,
    /// Created by a bus to stand for something found on it.
    pub is_pdo: bool,
    /// Started and stopped by its driver alone.
    pub is_class_device: bool,
    pub enabled: bool,
    pub has_name: bool,
    pub parent: Option<u64>,
    /// The device stack it is part of, and its level there.
    pub stack: Option<(u64, usize)>,
}

/// What comes next once a driver has answered a request.
#[derive(Clone, Copy, Debug, PartialEq, Eq, Structural)]
pub enum AfterDispatch {
    /// The caller waits until the request completes.
    Wait,
    /// The kernel completes the request in the driver's place.
    Complete,
    Nothing,
}

/// The outcome of asking a device to take a request.
pub open spec fn admission(d: DeviceObjectK, major: IrpMajor, minor: IrpMinor) -> Result<u64, KError> {
    if !allowed(d.state, major, minor, d.is_class_device, d.is_pdo) {
        Err(rejection(d.state, major, minor))
    } else {
        match d.driver {
            Some(drv) => Ok(drv),
            None => Err(KError::Unsupported),
        }
    }
}

impl DeviceObjectK {
    pub fn id(&self) -> (r: u64)
        ensures
            r == self.id,
    {
        self.id
    }

    pub fn parent_id(&self) -> (r: Option<u64>)
        ensures
            r == self.parent,
    {
        self.parent
    }

    pub fn state(&self) -> (r: DeviceState)
        ensures
            r == self.state,
    {
        self.state
    }

    pub fn is_pdo(&self) -> (r: bool)
        ensures
            r == self.is_pdo,
    {
        self.is_pdo
    }

    pub fn is_class_device(&self) -> (r: bool)
        ensures
            r == self.is_class_device,
    {
        self.is_class_device
    }

    /// Accepts a request, giving the driver that is to handle it, or refuses it.
    pub fn accept_request(&self, major: IrpMajor, minor: IrpMinor) -> (r: Result<u64, KError>)
        ensures
            r == admission(*self, major, minor),
    {
        if !allowed_in_state(self.state, major, minor, self.is_class_device, self.is_pdo) {
            return Err(state_rejection_error(self.state, major, minor));
        }
        match self.driver {
            Some(d) => Ok(d),
            None => Err(KError::Unsupported),
        }
    }

    /// Whether the close of a handle is passed on to the driver.
    pub fn close_reaches_driver(&self) -> (r: bool)
        ensures
            r == (self.state == DeviceState::Started && admission(*self, IrpMajor::Close, IrpMinor::Plain) is Ok),
    {
        match self.state {
            DeviceState::Started => self.accept_request(IrpMajor::Close, IrpMinor::Plain).is_ok(),
            _ => false,
        }
    }

    /// Whether the pending requests of a device can be cancelled one by one.
    pub fn can_cancel(&self) -> (r: bool)
        ensures
            r == (self.state != DeviceState::Removed && self.state != DeviceState::Removing),
    {
        self.state != DeviceState::Removed && self.state != DeviceState::Removing
    }
}

/// What a caller that waits for its request does after the driver's answer.
pub fn after_sync_dispatch(status: Status) -> (r: AfterDispatch)
    ensures
        r == (match status {
            Status::Pending => AfterDispatch::Wait,
            Status::Unsupported => AfterDispatch::Complete,
            _ => AfterDispatch::Nothing,
        }),
{
    match status {
        Status::Pending => AfterDispatch::Wait,
        Status::Unsupported => AfterDispatch::Complete,
        _ => AfterDispatch::Nothing,
    }
}

/// What a caller that does not wait does after the driver's answer.
pub fn after_async_dispatch(status: Status) -> (r: AfterDispatch)
    ensures
        r == (if status == Status::Unsupported { AfterDispatch::Complete } else { AfterDispatch::Nothing }),
{
    if status == Status::Unsupported { AfterDispatch::Complete } else { AfterDispatch::Nothing }
}

/// How a stop goes on.
#[derive(Clone, Copy, Debug, PartialEq, Eq)]
pub enum StopStep {
    /// The driver has been asked, and its answer is what comes of the stop.
    Asked,
    Done(Result<Status, KError>),
}

/// What comes of a stop, given the driver's answer if it was asked. A request that could not be made
/// counts as failed.
pub fn stop_result(step: StopStep, answer: Result<Status, KError>) -> (r: Result<Status, KError>)
    ensures
        r == (match step {
            StopStep::Asked => match answer {
                Ok(s) => Ok::<Status, KError>(s),
                Err(_) => Ok(Status::Failed),
            },
            StopStep::Done(d) => d,
        }),
{
    match step {
        StopStep::Asked => match answer {
            Ok(s) => Ok(s),
            Err(_) => Ok(Status::Failed),
        },
        StopStep::Done(d) => d,
    }
}

/// What the device tree asks of the world, in order.
#[derive(Clone, Copy, Debug, PartialEq, Eq, Structural)]
pub enum IoEffect {
    /// The device's driver gets a plug-and-play request.
    Dispatch { device: u64, minor: IrpMinor },
    /// A level of a device stack has a new state.
    LevelChanged { stack: u64, level: usize, state: LevelState },
    /// A device has left its stack.
    DeviceLeft { stack: u64, level: usize },
}

/// A device that can be opened by name.
pub struct NameEntry {
    pub name: Vec<u8>,
    pub id: u64,
}

/// A loaded driver.
#[derive(Clone, Copy, Debug, PartialEq, Eq, Structural)]
pub struct DriverObjectK {
    pub id: u64,
    pub unloaded: bool,
}

/// All devices and drivers.
pub struct IoSystem {
    pub devices: Vec<DeviceObjectK>,
    /// Parents and children, each parent's children in the order in which they were attached.
    pub edges: Vec<Edge>,
    pub names: Vec<NameEntry>,
    pub drivers: Vec<DriverObjectK>,
    /// Drivers by the name that the configuration gives them.
    pub driver_names: Vec<NameEntry>,
    pub next_device_id: u64,
    pub next_driver_id: u64,
    pub log: Vec<IoEffect>,
}

/// What is known of devices and drivers.
#[verifier::ext_equal]
pub struct Io {
    pub devices: Seq<DeviceObjectK>,
    pub edges: Seq<Edge>,
    pub names: Seq<(Seq<u8>, u64)>,
    pub drivers: Seq<DriverObjectK>,
    pub driver_names: Seq<(Seq<u8>, u64)>,
    pub next_device_id: u64,
    pub next_driver_id: u64,
    pub log: Seq<IoEffect>,
}

pub open spec fn name_views(v: Seq<NameEntry>) -> Seq<(Seq<u8>, u64)> {
    Seq::new(v.len(), |i: int| (v[i].name@, v[i].id))
}

impl View for IoSystem {
    type V = Io;

    open spec fn view(&self) -> Io {
        Io {
            devices: self.devices@,
            edges: self.edges@,
            names: name_views(self.names@),
            drivers: self.drivers@,
            driver_names: name_views(self.driver_names@),
            next_device_id: self.next_device_id,
            next_driver_id: self.next_driver_id,
            log: self.log@,
        }
    }
}

/// The index of the first device from `i` on with the id.
pub open spec fn find_device(s: Seq<DeviceObjectK>, i: int, id: u64) -> Option<int>
    decreases s.len() - i,
{
    if i < 0 || i >= s.len() {
        None
    } else if s[i].id == id {
        Some(i)
    } else {
        find_device(s, i + 1, id)
    }
}

pub open spec fn find_driver(s: Seq<DriverObjectK>, i: int, id: u64) -> Option<int>
    decreases s.len() - i,
{
    if i < 0 || i >= s.len() {
        None
    } else if s[i].id == id {
        Some(i)
    } else {
        find_driver(s, i + 1, id)
    }
}

/// The device that goes by a name.
pub open spec fn find_name(s: Seq<(Seq<u8>, u64)>, i: int, name: Seq<u8>) -> Option<u64>
    decreases s.len() - i,
{
    if i < 0 || i >= s.len() {
        None
    } else if s[i].0 == name {
        Some(s[i].1)
    } else {
        find_name(s, i + 1, name)
    }
}

pub proof fn lemma_device_found(s: Seq<DeviceObjectK>, i: int, id: u64)
    requires
        0 <= i,
    ensures
        match find_device(s, i, id) {
            Some(k) => i <= k < s.len() && s[k].id == id,
            None => forall|k: int| i <= k < s.len() ==> (#[trigger] s[k]).id != id,
        },
    decreases s.len() - i,
{
    if i < s.len() {
        lemma_device_found(s, i + 1, id);
    }
}

pub open spec fn other_edge(parent: u64, child: u64) -> spec_fn(Edge) -> bool {
    |e: Edge| !(e.parent == parent && e.child == child)
}

pub open spec fn other_device(id: u64) -> spec_fn(DeviceObjectK) -> bool {
    |d: DeviceObjectK| d.id != id
}

pub open spec fn other_name(id: u64) -> spec_fn((Seq<u8>, u64)) -> bool {
    |e: (Seq<u8>, u64)| e.1 != id
}

/// Ids are distinct and were handed out before, only the root device has no driver, and a device
/// that is registered is not on its way out.
pub open spec fn devices_sound(s: Seq<DeviceObjectK>, next: u64) -> bool {
    &&& forall|i: int, j: int| 0 <= i < j < s.len() ==> (#[trigger] s[i]).id != (#[trigger] s[j]).id
    &&& forall|i: int| 0 <= i < s.len() ==> {
        let d = #[trigger] s[i];
        &&& d.id < next
        &&& d.driver is None <==> d.id == 0
        &&& d.state != DeviceState::Removing
        &&& d.state != DeviceState::Removed
    }
}

/// Ids of parents and children were handed out before, the root device hangs below nothing, and nothing
/// hangs below itself.
pub open spec fn edges_sound(s: Seq<Edge>, next: u64) -> bool {
    &&& tree::acyclic(s)
    &&& forall|p: u64, c: u64| #[trigger] tree::hangs(s, p, c) ==> p < next && c < next && c != 0
}

pub open spec fn names_distinct(s: Seq<(Seq<u8>, u64)>) -> bool {
    forall|i: int, j: int| 0 <= i < j < s.len() ==> (#[trigger] s[i]).0 != (#[trigger] s[j]).0
}

pub open spec fn drivers_sound(s: Seq<DriverObjectK>, next: u64) -> bool {
    &&& forall|i: int| 0 <= i < s.len() ==> (#[trigger] s[i]).id < next
    &&& forall|i: int, j: int| 0 <= i < j < s.len() ==> (#[trigger] s[i]).id != (#[trigger] s[j]).id
}

impl Io {
    /// Ids are handed out in order, nothing hangs below itself, only the root device has no driver, and
    /// no two devices share an id or a name.
    pub open spec fn well_formed(self) -> bool {
        &&& 0 < self.next_device_id
        &&& devices_sound(self.devices, self.next_device_id)
        &&& edges_sound(self.edges, self.next_device_id)
        &&& names_distinct(self.names)
        &&& names_distinct(self.driver_names)
        &&& drivers_sound(self.drivers, self.next_driver_id)
    }

    pub open spec fn device(self, id: u64) -> Option<DeviceObjectK> {
        match find_device(self.devices, 0, id) { Some(i) => Some(self.devices[i]), None => None }
    }

    pub open spec fn children(self, id: u64) -> Seq<u64> {
        tree::children_of(self.edges, self.edges.len(), id)
    }

    /// The device with the id of `d` becomes `d`.
    pub open spec fn with_device(self, d: DeviceObjectK) -> Io {
        match find_device(self.devices, 0, d.id) {
            Some(i) => Io { devices: self.devices.update(i, d), ..self },
            None => self,
        }
    }

    pub open spec fn logged(self, e: IoEffect) -> Io {
        Io { log: self.log.push(e), ..self }
    }

    pub open spec fn level_logged(self, d: DeviceObjectK, state: LevelState) -> Io {
        match d.stack {
            Some((stack, level)) => self.logged(IoEffect::LevelChanged { stack, level, state }),
            None => self,
        }
    }

    pub open spec fn dispatched(self, d: DeviceObjectK, minor: IrpMinor) -> Io {
        if d.driver is Some { self.logged(IoEffect::Dispatch { device: d.id, minor }) } else { self }
    }

    /// A started device with a driver's stop behind it; physical devices and those not started are
    /// left alone. A stop on behalf of a parent does not disable the device.
    pub open spec fn self_stopped(self, d: DeviceObjectK, is_child: bool) -> Io {
        if d.is_pdo || d.state != DeviceState::Started {
            self
        } else {
            let e = DeviceObjectK {
                state: DeviceState::Stopped,
                enabled: if is_child { d.enabled } else { false },
                ..d
            };
            self.dispatched(d, IrpMinor::Stop).with_device(e).level_logged(d, LevelState::Stopped)
        }
    }

    /// The device tree once a device has been stopped: its children first, in order, then itself.
    pub open spec fn stopped(self, id: u64, is_child: bool) -> Io {
        self.stopped_within(id, is_child, tree::depth(self.edges, id))
    }

    /// The same where no way down from the device is longer than `n`.
    pub open spec fn stopped_within(self, id: u64, is_child: bool, n: nat) -> Io
        decreases n, 1int, 0nat,
    {
        match self.device(id) {
            None => self,
            Some(d) => if d.is_class_device {
                if d.state == DeviceState::Removed {
                    self
                } else {
                    self.with_device(DeviceObjectK { state: DeviceState::Stopped, ..d })
                }
            } else {
                let kids = self.children(id);
                let s = self.children_stopped(kids, kids.len(), n);
                match s.device(id) {
                    Some(e) => s.self_stopped(e, is_child),
                    None => s,
                }
            },
        }
    }

    /// How a stop goes on: a started device that its driver serves has its driver asked.
    pub open spec fn stop_step(self, id: u64, is_class_device: bool) -> StopStep {
        match self.device(id) {
            None => if is_class_device {
                StopStep::Done(Err(KError::DeviceRemoved))
            } else {
                StopStep::Done(Ok(Status::Success))
            },
            Some(d) => if d.is_class_device {
                if d.state == DeviceState::Removed {
                    StopStep::Done(Err(KError::DeviceRemoved))
                } else {
                    StopStep::Done(Ok(Status::Success))
                }
            } else if d.is_pdo || d.state != DeviceState::Started {
                StopStep::Done(Ok(Status::Success))
            } else {
                StopStep::Asked
            },
        }
    }

    pub open spec fn children_stopped(self, kids: Seq<u64>, k: nat, n: nat) -> Io
        decreases n, 0int, k,
    {
        if k == 0 || n == 0 {
            self
        } else {
            self.children_stopped(kids, (k - 1) as nat, n).stopped_within(kids[k - 1], true, (n - 1) as nat)
        }
    }

    pub open spec fn without_edge(self, parent: u64, child: u64) -> Io {
        Io { edges: self.edges.filter(other_edge(parent, child)), ..self }
    }

    pub open spec fn unregistered(self, id: u64) -> Io {
        Io {
            devices: self.devices.filter(other_device(id)),
            names: self.names.filter(other_name(id)),
            ..self
        }
    }

    /// The last steps of a removal, once the children are gone: the device is stopped and removed by
    /// its driver, leaves its parent and its stack, and is forgotten.
    pub open spec fn self_removed(self, d: DeviceObjectK) -> Io {
        let s = self.self_stopped(d, false);
        match s.device(d.id) {
            None => s,
            Some(e) => if e.state == DeviceState::Removing || e.state == DeviceState::Removed {
                s
            } else {
                let s1 = s.dispatched(e, IrpMinor::Remove);
                let s2 = match e.parent { Some(p) => s1.without_edge(p, e.id), None => s1 };
                let s3 = match e.stack {
                    Some((stack, level)) => s2.logged(IoEffect::DeviceLeft { stack, level }),
                    None => s2,
                };
                s3.unregistered(e.id)
            },
        }
    }

    /// The device tree once a device has been removed: its children first, in order, then itself.
    pub open spec fn removed(self, id: u64) -> Io {
        self.removed_within(id, tree::depth(self.edges, id))
    }

    /// The same where no way down from the device is longer than `n`.
    pub open spec fn removed_within(self, id: u64, n: nat) -> Io
        decreases n, 1int, 0nat,
    {
        match self.device(id) {
            None => self,
            Some(d) => if d.is_class_device {
                if d.state == DeviceState::Removed { self } else { self.unregistered(id) }
            } else {
                let kids = self.children(id);
                let s = self.children_removed(kids, kids.len(), n);
                match s.device(id) {
                    Some(e) => s.self_removed(e),
                    None => s,
                }
            },
        }
    }

    pub open spec fn children_removed(self, kids: Seq<u64>, k: nat, n: nat) -> Io
        decreases n, 0int, k,
    {
        if k == 0 || n == 0 {
            self
        } else {
            self.children_removed(kids, (k - 1) as nat, n).removed_within(kids[k - 1], (n - 1) as nat)
        }
    }
}

proof fn lemma_logged(s: Io, e: IoEffect)
    requires
        s.well_formed(),
    ensures
        s.logged(e).well_formed(),
{
    let t = s.logged(e);
    assert(t.devices == s.devices && t.edges == s.edges && t.names == s.names && t.drivers == s.drivers);
}

proof fn lemma_with_device(s: Io, d: DeviceObjectK)
    requires
        s.well_formed(),
        d.driver is None <==> d.id == 0,
        d.state != DeviceState::Removing,
        d.state != DeviceState::Removed,
    ensures
        s.with_device(d).well_formed(),
{
    lemma_device_found(s.devices, 0, d.id);
    let t = s.with_device(d);
    assert forall|i: int, j: int| 0 <= i < j < t.devices.len() implies (#[trigger] t.devices[i]).id
        != (#[trigger] t.devices[j]).id by {
        assert(s.devices[i].id == t.devices[i].id);
        assert(s.devices[j].id == t.devices[j].id);
        assert(s.devices[i].id != s.devices[j].id);
    }
    assert forall|i: int| 0 <= i < t.devices.len() implies (#[trigger] t.devices[i]).id < t.next_device_id && (
        t.devices[i].driver is None <==> t.devices[i].id == 0) && t.devices[i].state != DeviceState::Removing
        && t.devices[i].state != DeviceState::Removed by {
        assert(s.devices[i].id < s.next_device_id);
    }
}

impl IoSystem {
    fn index_of(&self, id: u64) -> (r: Option<usize>)
        ensures
            match r {
                Some(i) => find_device(self.devices@, 0, id) == Some(i as int) && i < self.devices@.len()
                    && self.devices@[i as int].id == id,
                None => find_device(self.devices@, 0, id) is None,
            },
    {
        let mut i: usize = 0;
        while i < self.devices.len()
            invariant
                i <= self.devices@.len(),
                find_device(self.devices@, 0, id) == find_device(self.devices@, i as int, id),
            decreases self.devices@.len() - i,
        {
            if self.devices[i].id == id {
                return Some(i);
            }
            i = i + 1;
        }
        None
    }

    /// The device with an id, while it is registered.
    pub fn get_device(&self, id: u64) -> (r: Option<DeviceObjectK>)
        ensures
            r == self@.device(id),
            r matches Some(d) ==> d.id == id,
    {
        match self.index_of(id) {
            Some(i) => Some(self.devices[i]),
            None => None,
        }
    }

    fn put_device(&mut self, d: DeviceObjectK)
        requires
            old(self)@.well_formed(),
            d.driver is None <==> d.id == 0,
            d.state != DeviceState::Removing,
            d.state != DeviceState::Removed,
        ensures
            final(self)@ == old(self)@.with_device(d),
            final(self)@.well_formed(),
    {
        proof {
            lemma_with_device(self@, d);
        }
        if let Some(i) = self.index_of(d.id) {
            self.devices.set(i, d);
        }
    }

    /// The ids of a device's children, in the order in which they were attached.
    pub fn children_snapshot(&self, id: u64) -> (r: Vec<u64>)
        requires
            self@.well_formed(),
        ensures
            r@ == self@.children(id),
            forall|k: int| 0 <= k < r@.len() ==> tree::hangs(self.edges@, id, #[trigger] r@[k]),
    {
        let mut r: Vec<u64> = Vec::new();
        let mut i: usize = 0;
        while i < self.edges.len()
            invariant
                i <= self.edges@.len(),
                r@ == tree::children_of(self.edges@, i as nat, id),
            decreases self.edges@.len() - i,
        {
            if self.edges[i].parent == id {
                r.push(self.edges[i].child);
            }
            i = i + 1;
        }
        proof {
            tree::lemma_children(self.edges@, self.edges@.len(), id);
        }
        r
    }

    fn dispatch(&mut self, d: &DeviceObjectK, minor: IrpMinor)
        ensures
            final(self)@ == old(self)@.dispatched(*d, minor),
    {
        if d.driver.is_some() {
            self.log.push(IoEffect::Dispatch { device: d.id, minor });
        }
    }

    fn log_level(&mut self, d: &DeviceObjectK, state: LevelState)
        ensures
            final(self)@ == old(self)@.level_logged(*d, state),
    {
        if let Some((stack, level)) = d.stack {
            self.log.push(IoEffect::LevelChanged { stack, level, state });
        }
    }

    fn stop_self(&mut self, d: DeviceObjectK, is_child: bool)
        requires
            old(self)@.well_formed(),
            d.driver is None <==> d.id == 0,
        ensures
            final(self)@ == old(self)@.self_stopped(d, is_child),
            final(self)@.well_formed(),
            final(self)@.edges == old(self)@.edges,
    {
        if d.is_pdo || d.state != DeviceState::Started {
            return;
        }
        self.dispatch(&d, IrpMinor::Stop);
        let mut e: DeviceObjectK = d;
        e.state = DeviceState::Stopped;
        if !is_child {
            e.enabled = false;
        }
        self.put_device(e);
        self.log_level(&d, LevelState::Stopped);
    }

    fn do_stop(&mut self, id: u64, is_child: bool, Ghost(n): Ghost<nat>)
        requires
            old(self)@.well_formed(),
            tree::within(old(self).edges@, id, n),
        ensures
            final(self)@ == old(self)@.stopped_within(id, is_child, n),
            final(self)@.well_formed(),
            final(self)@.edges == old(self)@.edges,
        decreases n,
    {
        let d: DeviceObjectK = match self.get_device(id) { Some(d) => d, None => { return; } };
        proof {
            lemma_device_found(self.devices@, 0, id);
        }
        if d.is_class_device {
            if d.state != DeviceState::Removed {
                let mut e: DeviceObjectK = d;
                e.state = DeviceState::Stopped;
                self.put_device(e);
            }
            return;
        }
        let ghost s0 = self@;
        let kids: Vec<u64> = self.children_snapshot(id);
        let mut i: usize = 0;
        while i < kids.len()
            invariant
                i <= kids@.len(),
                self@.well_formed(),
                self@ == s0.children_stopped(kids@, i as nat, n),
                self@.edges == s0.edges,
                tree::within(s0.edges, id, n),
                forall|k: int| 0 <= k < kids@.len() ==> tree::hangs(s0.edges, id, #[trigger] kids@[k]),
            decreases kids@.len() - i,
        {
            assert(tree::hangs(s0.edges, id, kids@[i as int]));
            self.do_stop(kids[i], true, Ghost((n - 1) as nat));
            i = i + 1;
        }
        proof {
            lemma_device_found(self.devices@, 0, id);
        }
        if let Some(e) = self.get_device(id) {
            self.stop_self(e, is_child);
        }
    }

    /// Stops a device, its children before it. Whoever asks knows whether it is a class device, also
    /// once it has been removed: one that is no class device has nothing left to stop then, and a
    /// class device refuses.
    pub fn stop(&mut self, id: u64, is_class_device: bool) -> (r: StopStep)
        requires
            old(self)@.well_formed(),
        ensures
            final(self)@ == old(self)@.stopped(id, false),
            final(self)@.well_formed(),
            r == old(self)@.stop_step(id, is_class_device),
    {
        let step: StopStep = match self.get_device(id) {
            None => if is_class_device {
                StopStep::Done(Err(KError::DeviceRemoved))
            } else {
                StopStep::Done(Ok(Status::Success))
            },
            Some(d) => if d.is_class_device {
                if d.state == DeviceState::Removed {
                    StopStep::Done(Err(KError::DeviceRemoved))
                } else {
                    StopStep::Done(Ok(Status::Success))
                }
            } else if d.is_pdo || d.state != DeviceState::Started {
                StopStep::Done(Ok(Status::Success))
            } else {
                StopStep::Asked
            },
        };
        proof {
            tree::lemma_depth(self.edges@, id);
        }
        self.do_stop(id, false, Ghost(tree::depth(self.edges@, id)));
        step
    }

    fn drop_edge(&mut self, parent: u64, child: u64)
        requires
            old(self)@.well_formed(),
        ensures
            final(self)@ == old(self)@.without_edge(parent, child),
            final(self)@.well_formed(),
            tree::part_of(final(self).edges@, old(self).edges@),
    {
        let ghost e0 = self.edges@;
        let ghost keep = other_edge(parent, child);
        let mut kept: Vec<Edge> = Vec::new();
        let mut i: usize = 0;
        assert(e0.take(0).filter(keep) =~= Seq::empty()) by {
            reveal(Seq::filter);
        }
        while i < self.edges.len()
            invariant
                i <= self.edges@.len(),
                *self == *old(self),
                e0 == self.edges@,
                self@.well_formed(),
                keep == other_edge(parent, child),
                kept@ == e0.take(i as int).filter(keep),
            decreases self.edges@.len() - i,
        {
            let e: Edge = self.edges[i];
            proof {
                util::lemma_filter_step(e0, i as int, keep);
            }
            if !(e.parent == parent && e.child == child) {
                kept.push(e);
            }
            i = i + 1;
        }
        assert(e0.take(i as int) =~= e0);
        self.edges = kept;
        proof {
            tree::lemma_filter_part(e0, keep);
            tree::lemma_part_acyclic(e0, self.edges@);
        }
    }

    fn unregister(&mut self, id: u64)
        requires
            old(self)@.well_formed(),
        ensures
            final(self)@ == old(self)@.unregistered(id),
            final(self)@.well_formed(),
            final(self).edges == old(self).edges,
    {
        let ghost d0 = self.devices@;
        let ghost n0 = name_views(self.names@);
        let ghost keep_d = other_device(id);
        let ghost keep_n = other_name(id);
        let mut kept: Vec<DeviceObjectK> = Vec::new();
        let mut i: usize = 0;
        assert(d0.take(0).filter(keep_d) =~= Seq::empty()) by {
            reveal(Seq::filter);
        }
        while i < self.devices.len()
            invariant
                i <= self.devices@.len(),
                *self == *old(self),
                d0 == self.devices@,
                self@.well_formed(),
                keep_d == other_device(id),
                kept@ == d0.take(i as int).filter(keep_d),
                forall|k: int| 0 <= k < kept@.len() ==> {
                    let d = #[trigger] kept@[k];
                    &&& d.id < self.next_device_id
                    &&& d.driver is None <==> d.id == 0
                    &&& d.state != DeviceState::Removing
                    &&& d.state != DeviceState::Removed
                },
                forall|a: int, b: int| 0 <= a < b < kept@.len() ==> (#[trigger] kept@[a]).id != (#[trigger] kept@[b]).id,
                forall|a: int, b: int| 0 <= a < kept@.len() && i <= b < d0.len()
                    ==> (#[trigger] kept@[a]).id != (#[trigger] d0[b]).id,
            decreases self.devices@.len() - i,
        {
            let d: DeviceObjectK = self.devices[i];
            assert(d0[i as int].id < self.next_device_id);
            proof {
                util::lemma_filter_step(d0, i as int, keep_d);
            }
            if d.id != id {
                let ghost k0 = kept@;
                kept.push(d);
                assert forall|a: int, b: int| 0 <= a < kept@.len() && i + 1 <= b < d0.len() implies (
                #[trigger] kept@[a]).id != (#[trigger] d0[b]).id by {
                    if a < k0.len() {
                        assert(k0[a].id != d0[b].id);
                    } else {
                        assert(d0[i as int].id != d0[b].id);
                    }
                }
                assert forall|a: int, b: int| 0 <= a < b < kept@.len() implies (#[trigger] kept@[a]).id
                    != (#[trigger] kept@[b]).id by {
                    if b == k0.len() {
                        assert(k0[a].id != d0[i as int].id);
                    }
                }
            }
            i = i + 1;
        }
        assert(d0.take(i as int) =~= d0);
        let ghost mut j: int = 0;
        let mut k: usize = 0;
        assert(n0.take(0).filter(keep_n) =~= Seq::empty()) by {
            reveal(Seq::filter);
        }
        assert(name_views(self.names@) =~= n0.take(0).filter(keep_n) + n0.skip(0));
        let ghost old_self = *self;
        while k < self.names.len()
            invariant
                0 <= j <= n0.len(),
                keep_n == other_name(id),
                k == n0.take(j).filter(keep_n).len(),
                name_views(self.names@) == n0.take(j).filter(keep_n) + n0.skip(j),
                self.devices == old_self.devices,
                self.edges == old_self.edges,
                self.drivers == old_self.drivers,
                self.driver_names == old_self.driver_names,
                self.next_device_id == old_self.next_device_id,
                self.next_driver_id == old_self.next_driver_id,
                self.log == old_self.log,
            decreases self.names@.len() - k,
        {
            let ghost head = n0.take(j).filter(keep_n);
            let ghost nv = name_views(self.names@);
            proof {
                util::lemma_filter_step(n0, j, keep_n);
                assert(nv[k as int] == n0.skip(j)[0]);
                assert(n0.skip(j) =~= seq![n0[j]] + n0.skip(j + 1));
            }
            if self.names[k].id != id {
                assert(nv =~= head.push(n0[j]) + n0.skip(j + 1));
                k = k + 1;
            } else {
                let _ = self.names.remove(k);
                assert(name_views(self.names@) =~= nv.remove(k as int));
                assert(nv.remove(k as int) =~= head + n0.skip(j + 1));
            }
            proof {
                j = j + 1;
            }
        }
        assert(j == n0.len());
        assert(n0.take(j) =~= n0);
        assert(n0.skip(j) =~= Seq::empty());
        assert(name_views(self.names@) =~= n0.filter(keep_n));
        self.devices = kept;
        proof {
            assert(n0 == old(self)@.names);
            lemma_names_distinct(n0, keep_n, n0.len());
            assert(n0.take(n0.len() as int) =~= n0);
        }
    }
}

proof fn lemma_names_distinct(n: Seq<(Seq<u8>, u64)>, keep: spec_fn((Seq<u8>, u64)) -> bool, k: nat)
    requires
        k <= n.len(),
        forall|i: int, j: int| 0 <= i < j < n.len() ==> (#[trigger] n[i]).0 != (#[trigger] n[j]).0,
    ensures
        ({
            let f = n.take(k as int).filter(keep);
            &&& forall|i: int, j: int| 0 <= i < j < f.len() ==> (#[trigger] f[i]).0 != (#[trigger] f[j]).0
            &&& forall|i: int, j: int| 0 <= i < f.len() && k <= j < n.len()
                ==> (#[trigger] f[i]).0 != (#[trigger] n[j]).0
        }),
    decreases k,
{
    if k == 0 {
        reveal(Seq::filter);
        assert(n.take(0).filter(keep) =~= Seq::empty());
    } else {
        lemma_names_distinct(n, keep, (k - 1) as nat);
        util::lemma_filter_step(n, k - 1, keep);
        let g = n.take(k - 1).filter(keep);
        let f = n.take(k as int).filter(keep);
        assert forall|i: int, j: int| 0 <= i < j < f.len() implies (#[trigger] f[i]).0 != (#[trigger] f[j]).0 by {
            if j == g.len() {
                assert(g[i].0 != n[k - 1].0);
            }
        }
        assert forall|i: int, j: int| 0 <= i < f.len() && k <= j < n.len() implies (#[trigger] f[i]).0
            != (#[trigger] n[j]).0 by {
            if i < g.len() {
                assert(g[i].0 != n[j].0);
            } else {
                assert(n[k - 1].0 != n[j].0);
            }
        }
    }
}

impl IoSystem {
    fn remove_self(&mut self, d: DeviceObjectK)
        requires
            old(self)@.well_formed(),
            d.driver is None <==> d.id == 0,
        ensures
            final(self)@ == old(self)@.self_removed(d),
            final(self)@.well_formed(),
            tree::part_of(final(self).edges@, old(self).edges@),
    {
        self.stop_self(d, false);
        let e: DeviceObjectK = match self.get_device(d.id) { Some(e) => e, None => { return; } };
        if e.state == DeviceState::Removing || e.state == DeviceState::Removed {
            return;
        }
        self.dispatch(&e, IrpMinor::Remove);
        if let Some(p) = e.parent {
            self.drop_edge(p, e.id);
        }
        let ghost before = self@;
        if let Some((stack, level)) = e.stack {
            self.log.push(IoEffect::DeviceLeft { stack, level });
            assert(self@ =~= before.logged(IoEffect::DeviceLeft { stack, level }));
            proof {
                lemma_logged(before, IoEffect::DeviceLeft { stack, level });
            }
        }
        self.unregister(e.id);
    }

    fn do_remove(&mut self, id: u64, Ghost(n): Ghost<nat>)
        requires
            old(self)@.well_formed(),
            id != 0,
            tree::within(old(self).edges@, id, n),
        ensures
            final(self)@ == old(self)@.removed_within(id, n),
            final(self)@.well_formed(),
            tree::part_of(final(self).edges@, old(self).edges@),
        decreases n,
    {
        let d: DeviceObjectK = match self.get_device(id) { Some(d) => d, None => { return; } };
        if d.is_class_device {
            if d.state != DeviceState::Removed {
                self.unregister(id);
            }
            return;
        }
        let ghost s0 = self@;
        let kids: Vec<u64> = self.children_snapshot(id);
        let mut i: usize = 0;
        while i < kids.len()
            invariant
                i <= kids@.len(),
                s0.well_formed(),
                self@.well_formed(),
                self@ == s0.children_removed(kids@, i as nat, n),
                tree::part_of(self@.edges, s0.edges),
                tree::within(s0.edges, id, n),
                forall|k: int| 0 <= k < kids@.len() ==> tree::hangs(s0.edges, id, #[trigger] kids@[k]),
            decreases kids@.len() - i,
        {
            assert(tree::hangs(s0.edges, id, kids@[i as int]));
            proof {
                tree::lemma_within_part(s0.edges, self.edges@, kids@[i as int], (n - 1) as nat);
            }
            self.do_remove(kids[i], Ghost((n - 1) as nat));
            i = i + 1;
        }
        proof {
            lemma_device_found(self.devices@, 0, id);
        }
        if let Some(e) = self.get_device(id) {
            self.remove_self(e);
        }
    }

    /// Takes a device and everything below it out of the tree.
    pub fn remove_device(&mut self, id: u64)
        requires
            old(self)@.well_formed(),
            id != 0,
        ensures
            final(self)@ == old(self)@.removed(id),
            final(self)@.well_formed(),
    {
        proof {
            tree::lemma_depth(self.edges@, id);
        }
        self.do_remove(id, Ghost(tree::depth(self.edges@, id)));
    }
}

/// How the start of a device goes on.
#[derive(Clone, Copy, Debug, PartialEq, Eq, Structural)]
pub enum StartStep {
    /// The device is started.
    Started,
    /// This driver gets a start request.
    Dispatch(u64),
    /// A physical device counts as started: its children follow.
    Children,
}

impl Io {
    /// The parent of a device, while it is registered.
    pub open spec fn parent_of(self, d: DeviceObjectK) -> Option<DeviceObjectK> {
        match d.parent { Some(p) => self.device(p), None => None }
    }

    /// The outcome of the first step of a start. The device's parent must be started.
    pub open spec fn start_begun(self, d: DeviceObjectK) -> (Io, Result<StartStep, KError>) {
        if d.is_class_device {
            if d.state == DeviceState::Removed {
                (self, Err(KError::DeviceRemoved))
            } else {
                (self.with_device(DeviceObjectK { state: DeviceState::Started, ..d }), Ok(StartStep::Started))
            }
        } else if self.parent_of(d) is Some && self.parent_of(d)->0.state != DeviceState::Started {
            (self, Err(KError::DeviceStopped))
        } else if d.is_pdo {
            (self, Ok(StartStep::Children))
        } else {
            match admission(d, IrpMajor::Pnp, IrpMinor::Start) {
                Ok(drv) => (self, Ok(StartStep::Dispatch(drv))),
                Err(e) => (self, Err(e)),
            }
        }
    }

    /// The device tree once a driver has answered a start request. A start that a parent asked for
    /// does not enable the device.
    pub open spec fn start_answered(self, d: DeviceObjectK, is_child: bool, status: Status) -> Io {
        if status != Status::Success {
            self
        } else {
            self.with_device(DeviceObjectK {
                state: DeviceState::Started,
                enabled: if is_child { d.enabled } else { true },
                ..d
            }).level_logged(d, LevelState::Started)
        }
    }

    pub open spec fn edge_added(self, parent: u64, child: u64) -> Io {
        Io { edges: self.edges.push(Edge { parent, child }), ..self }
    }

    /// The outcome of a driver's request for a new device. An empty name is none. The id is used up even
    /// where the name is taken.
    pub open spec fn created(self, driver: u64, given: Option<Seq<u8>>, parent: Option<u64>, is_class: bool)
        -> (Io, Option<u64>)
    {
        let name = if given is Some && given->0.len() == 0 { None } else { given };
        let found = find_driver(self.drivers, 0, driver);
        if found is None || self.drivers[found->0].unloaded {
            (self, None)
        } else {
            let id = self.next_device_id;
            let s = Io { next_device_id: (id + 1) as u64, ..self };
            if name is Some && find_name(self.names, 0, name->0) is Some {
                (s, None)
            } else {
                let p = if is_class { None } else { parent };
                let d = DeviceObjectK {
                    id,
                    driver: Some(driver),
                    state: DeviceState::Stopped,
                    is_pdo: false,
                    is_class_device: is_class,
                    enabled: false,
                    has_name: name is Some,
                    parent: p,
                    stack: None,
                };
                let s1 = Io {
                    devices: s.devices.push(d),
                    names: match name { Some(n) => s.names.push((n, id)), None => s.names },
                    ..s
                };
                let s2 = if p is Some && s1.device(p->0) is Some { s1.edge_added(p->0, id) } else { s1 };
                (s2, Some(id))
            }
        }
    }
}

fn name_index(names: &Vec<NameEntry>, name: &Vec<u8>) -> (r: Option<usize>)
    ensures
        match r {
            Some(i) => i < names@.len() && find_name(name_views(names@), 0, name@) == Some(names@[i as int].id)
                && names@[i as int].name@ == name@,
            None => find_name(name_views(names@), 0, name@) is None
                && forall|k: int| 0 <= k < names@.len() ==> (#[trigger] names@[k]).name@ != name@,
        },
{
    let ghost v = name_views(names@);
    let mut i: usize = 0;
    while i < names.len()
        invariant
            i <= names@.len(),
            v == name_views(names@),
            find_name(v, 0, name@) == find_name(v, i as int, name@),
            forall|k: int| 0 <= k < i ==> (#[trigger] names@[k]).name@ != name@,
        decreases names@.len() - i,
    {
        if bytes_eq(&names[i].name, name) {
            return Some(i);
        }
        i = i + 1;
    }
    None
}

impl IoSystem {
    /// A tree with the root device alone, which is always started.
    pub fn init() -> (r: IoSystem)
        ensures
            r@.well_formed(),
            r.devices@.len() == 1,
            r.devices@[0] == (DeviceObjectK {
                id: 0,
                driver: None,
                state: DeviceState::Started,
                is_pdo: true,
                is_class_device: false,
                enabled: false,
                has_name: false,
                parent: None,
                stack: None,
            }),
            r.next_device_id == 1,
            r.next_driver_id == 0,
            r.edges@.len() == 0 && r.names@.len() == 0 && r.drivers@.len() == 0 && r.driver_names@.len() == 0,
            r.log@.len() == 0,
    {
        let mut devices: Vec<DeviceObjectK> = Vec::new();
        devices.push(DeviceObjectK {
            id: 0,
            driver: None,
            state: DeviceState::Started,
            is_pdo: true,
            is_class_device: false,
            enabled: false,
            has_name: false,
            parent: None,
            stack: None,
        });
        let edges: Vec<Edge> = Vec::new();
        proof {
            tree::lemma_nothing_hangs();
            assert(edges@ =~= Seq::<Edge>::empty());
        }
        IoSystem {
            devices,
            edges,
            names: Vec::new(),
            drivers: Vec::new(),
            driver_names: Vec::new(),
            next_device_id: 1,
            next_driver_id: 0,
            log: Vec::new(),
        }
    }

    /// Begins the start of a registered device.
    pub fn begin_start(&mut self, id: u64) -> (r: Result<StartStep, KError>)
        requires
            old(self)@.well_formed(),
            old(self)@.device(id) is Some,
        ensures
            (final(self)@, r) == old(self)@.start_begun(old(self)@.device(id)->0),
            final(self)@.well_formed(),
    {
        proof {
            lemma_device_found(self.devices@, 0, id);
        }
        let d: DeviceObjectK = match self.get_device(id) {
            Some(d) => d,
            None => { return Err(KError::InvalidArgument); },
        };
        if d.is_class_device {
            if d.state == DeviceState::Removed {
                return Err(KError::DeviceRemoved);
            }
            let mut e: DeviceObjectK = d;
            e.state = DeviceState::Started;
            self.put_device(e);
            return Ok(StartStep::Started);
        }
        if let Some(p) = d.parent {
            if let Some(q) = self.get_device(p) {
                if q.state != DeviceState::Started {
                    return Err(KError::DeviceStopped);
                }
            }
        }
        if d.is_pdo {
            return Ok(StartStep::Children);
        }
        match d.accept_request(IrpMajor::Pnp, IrpMinor::Start) {
            Ok(drv) => Ok(StartStep::Dispatch(drv)),
            Err(e) => Err(e),
        }
    }

    /// Takes a driver's answer to a start request.
    pub fn finish_start(&mut self, id: u64, is_child: bool, status: Status)
        requires
            old(self)@.well_formed(),
            old(self)@.device(id) is Some,
        ensures
            final(self)@ == old(self)@.start_answered(old(self)@.device(id)->0, is_child, status),
            final(self)@.well_formed(),
    {
        proof {
            lemma_device_found(self.devices@, 0, id);
        }
        if status != Status::Success {
            return;
        }
        if let Some(d) = self.get_device(id) {
            let mut e: DeviceObjectK = d;
            e.state = DeviceState::Started;
            if !is_child {
                e.enabled = true;
            }
            self.put_device(e);
            self.log_level(&d, LevelState::Started);
        }
    }

    /// Whether the start of a parent brings this child up: physical devices and enabled ones do.
    pub fn starts_with_parent(&self, id: u64) -> (r: bool)
        ensures
            r == (match self@.device(id) { Some(d) => d.is_pdo || d.enabled, None => false }),
    {
        match self.get_device(id) {
            Some(d) => d.is_pdo || d.enabled,
            None => false,
        }
    }

    /// Makes a device for a driver, under a parent unless it is a class device. An empty name is none.
    /// Gives nothing for an unknown or unloaded driver and for a name that is taken.
    pub fn io_create_device(&mut self, driver_id: u64, given: Option<Vec<u8>>, parent: Option<u64>, is_class: bool)
        -> (r: Option<u64>)
        requires
            old(self)@.well_formed(),
            old(self).next_device_id < u64::MAX,
            parent is Some ==> parent->0 < old(self).next_device_id,
        ensures
            (final(self)@, r) == old(self)@.created(
                driver_id, (match given { Some(n) => Some(n@), None => None }), parent, is_class),
            final(self)@.well_formed(),
    {
        let mut k: usize = 0;
        while k < self.drivers.len() && self.drivers[k].id != driver_id
            invariant
                k <= self.drivers@.len(),
                *self == *old(self),
                find_driver(self.drivers@, 0, driver_id) == find_driver(self.drivers@, k as int, driver_id),
            decreases self.drivers@.len() - k,
        {
            k = k + 1;
        }
        if k >= self.drivers.len() {
            return None;
        }
        assert(find_driver(self.drivers@, k as int, driver_id) == Some(k as int));
        if self.drivers[k].unloaded {
            return None;
        }
        let id: u64 = self.next_device_id;
        self.next_device_id = id + 1;
        let name: Option<Vec<u8>> = match given {
            Some(n) => if n.len() == 0 { None } else { Some(n) },
            None => None,
        };
        if let Some(n) = &name {
            if name_index(&self.names, n).is_some() {
                return None;
            }
        }
        let p: Option<u64> = if is_class { None } else { parent };
        let has_name: bool = name.is_some();
        let d: DeviceObjectK = DeviceObjectK {
            id,
            driver: Some(driver_id),
            state: DeviceState::Stopped,
            is_pdo: false,
            is_class_device: is_class,
            enabled: false,
            has_name,
            parent: p,
            stack: None,
        };
        self.devices.push(d);
        if let Some(n) = name {
            let ghost n0 = name_views(self.names@);
            proof {
                lemma_no_name(n0, 0, n@);
            }
            self.names.push(NameEntry { name: n, id });
            assert(name_views(self.names@) =~= n0.push((n@, id)));
        }
        if let Some(q) = p {
            if self.get_device(q).is_some() {
                proof {
                    let e = self.edges@;
                    let x = Edge { parent: q, child: id };
                    assert forall|c: u64| !(#[trigger] tree::hangs(e, id, c)) by {}
                    tree::lemma_leaf(e, id, q);
                    tree::lemma_pushed_acyclic(e, x);
                    tree::lemma_pushed(e, x);
                }
                self.edges.push(Edge { parent: q, child: id });
            }
        }
        Some(id)
    }
}

proof fn lemma_no_name(s: Seq<(Seq<u8>, u64)>, i: int, name: Seq<u8>)
    requires
        0 <= i,
        find_name(s, i, name) is None,
    ensures
        forall|k: int| i <= k < s.len() ==> (#[trigger] s[k]).0 != name,
    decreases s.len() - i,
{
    if i < s.len() {
        lemma_no_name(s, i + 1, name);
    }
}

/// Whether an id is in a list.
pub open spec fn among(ids: Seq<u64>, id: u64) -> bool {
    exists|i: int| 0 <= i < ids.len() && ids[i] == id
}

/// The ids of `new` that are not in `known`, in order.
pub open spec fn not_among(new: Seq<u64>, n: nat, known: Seq<u64>) -> Seq<u64>
    decreases n,
{
    if n == 0 {
        Seq::empty()
    } else {
        let rest = not_among(new, (n - 1) as nat, known);
        if among(known, new[n - 1]) { rest } else { rest.push(new[n - 1]) }
    }
}

fn contains_id(ids: &Vec<u64>, id: u64) -> (r: bool)
    ensures
        r == among(ids@, id),
{
    let mut i: usize = 0;
    while i < ids.len()
        invariant
            i <= ids@.len(),
            forall|k: int| 0 <= k < i ==> ids@[k] != id,
        decreases ids@.len() - i,
    {
        if ids[i] == id {
            return true;
        }
        i = i + 1;
    }
    false
}

/// The ids that are new in a list.
pub fn ids_added(new: &Vec<u64>, known: &Vec<u64>) -> (r: Vec<u64>)
    ensures
        r@ == not_among(new@, new@.len(), known@),
{
    let mut out: Vec<u64> = Vec::new();
    let mut i: usize = 0;
    while i < new.len()
        invariant
            i <= new@.len(),
            out@ == not_among(new@, i as nat, known@),
        decreases new@.len() - i,
    {
        if !contains_id(known, new[i]) {
            out.push(new[i]);
        }
        i = i + 1;
    }
    out
}

/// A request that waits for its device.
#[derive(Clone, Copy, Debug, PartialEq, Eq, Structural)]
pub struct PendingIrp {
    pub irp: u64,
    pub thread_id: u64,
    pub major: IrpMajor,
}

/// The requests of a thread that can be cancelled, among the first `n`: plug-and-play requests
/// cannot.
pub open spec fn cancellable(s: Seq<PendingIrp>, n: nat, tid: u64) -> Seq<u64>
    decreases n,
{
    if n == 0 {
        Seq::empty()
    } else {
        let rest = cancellable(s, (n - 1) as nat, tid);
        if s[n - 1].thread_id == tid && s[n - 1].major != IrpMajor::Pnp { rest.push(s[n - 1].irp) } else { rest }
    }
}

impl DeviceObjectK {
    /// The pending requests of a thread to be cancelled. A device on its way out drains its requests
    /// itself.
    pub fn cancel_pending_irp(&self, pending: &Vec<PendingIrp>, tid: u64) -> (r: Vec<u64>)
        ensures
            r@ == (if self.state == DeviceState::Removed || self.state == DeviceState::Removing {
                Seq::empty()
            } else {
                cancellable(pending@, pending@.len(), tid)
            }),
    {
        let mut out: Vec<u64> = Vec::new();
        if !self.can_cancel() {
            return out;
        }
        let mut i: usize = 0;
        while i < pending.len()
            invariant
                i <= pending@.len(),
                out@ == cancellable(pending@, i as nat, tid),
            decreases pending@.len() - i,
        {
            if pending[i].thread_id == tid && pending[i].major != IrpMajor::Pnp {
                out.push(pending[i].irp);
            }
            i = i + 1;
        }
        out
    }
}

/// The ids of a driver's devices among the first `n`, in the order of their creation.
pub open spec fn devices_of(s: Seq<DeviceObjectK>, n: nat, driver: u64) -> Seq<u64>
    decreases n,
{
    if n == 0 {
        Seq::empty()
    } else {
        let rest = devices_of(s, (n - 1) as nat, driver);
        if s[n - 1].driver == Some(driver) { rest.push(s[n - 1].id) } else { rest }
    }
}

pub open spec fn other_driver(id: u64) -> spec_fn(DriverObjectK) -> bool {
    |d: DriverObjectK| d.id != id
}

pub open spec fn named_otherwise(name: Seq<u8>) -> spec_fn((Seq<u8>, u64)) -> bool {
    |e: (Seq<u8>, u64)| e.0 != name
}

impl Io {
    /// The outcome of opening a device by name: the device, and whether an open request reaches its
    /// driver. Devices on their way out can still be opened.
    pub open spec fn opened(self, name: Seq<u8>) -> Result<(u64, bool), KError> {
        match find_name(self.names, 0, name) {
            None => Err(KError::InvalidArgument),
            Some(id) => match self.device(id) {
                None => Err(KError::InvalidArgument),
                Some(d) => if d.state == DeviceState::Stopping || d.state == DeviceState::Stopped {
                    Err(KError::DeviceStopped)
                } else {
                    Ok((id, admission(d, IrpMajor::Open, IrpMinor::Plain) is Ok))
                },
            },
        }
    }

    /// A child that a bus reported hangs below it.
    pub open spec fn attached(self, parent: u64, child: u64) -> Io {
        let s = self.edge_added(parent, child);
        match s.device(child) {
            Some(d) => s.with_device(DeviceObjectK { parent: Some(parent), ..d }),
            None => s,
        }
    }

    pub open spec fn each_removed(self, ids: Seq<u64>, n: nat) -> Io
        decreases n,
    {
        if n == 0 { self } else { self.each_removed(ids, (n - 1) as nat).removed(ids[n - 1]) }
    }

    /// The outcome of unloading a driver by its configured name; `own` is the name in its image.
    pub open spec fn driver_unloaded(self, name: Seq<u8>, own: Seq<u8>) -> (Io, Result<u64, KError>) {
        match find_name(self.driver_names, 0, name) {
            None => (self, Err(KError::InvalidArgument)),
            Some(driver) => {
                let ids = devices_of(self.devices, self.devices.len(), driver);
                let s = self.each_removed(ids, ids.len());
                (Io {
                    drivers: s.drivers.filter(other_driver(driver)),
                    driver_names: s.driver_names.filter(named_otherwise(own)),
                    ..s
                }, Ok(driver))
            },
        }
    }
}

impl IoSystem {
    /// Looks up a device to be opened, and says whether its driver gets an open request.
    pub fn open_device_handle(&self, name: &Vec<u8>) -> (r: Result<(u64, bool), KError>)
        ensures
            r == self@.opened(name@),
    {
        match name_index(&self.names, name) {
            None => Err(KError::InvalidArgument),
            Some(i) => {
                let id: u64 = self.names[i].id;
                match self.get_device(id) {
                    None => Err(KError::InvalidArgument),
                    Some(d) => {
                        if d.state == DeviceState::Stopping || d.state == DeviceState::Stopped {
                            return Err(KError::DeviceStopped);
                        }
                        Ok((id, d.accept_request(IrpMajor::Open, IrpMinor::Plain).is_ok()))
                    },
                }
            },
        }
    }

    /// Children of a device that were not there before.
    pub fn children_added(&self, id: u64, before: &Vec<u64>) -> (r: Vec<u64>)
        requires
            self@.well_formed(),
        ensures
            r@ == not_among(self@.children(id), self@.children(id).len(), before@),
    {
        let kids: Vec<u64> = self.children_snapshot(id);
        ids_added(&kids, before)
    }

    /// Hangs a device that a bus has reported below the bus. The bus must not hang below the device, and
    /// the device must not be the root.
    pub fn attach_child(&mut self, parent: u64, child: u64)
        requires
            old(self)@.well_formed(),
            parent < old(self).next_device_id,
            child < old(self).next_device_id,
            child != 0,
            !tree::under(old(self).edges@, child, parent),
        ensures
            final(self)@ == old(self)@.attached(parent, child),
            final(self)@.well_formed(),
    {
        proof {
            tree::lemma_pushed_acyclic(self.edges@, Edge { parent, child });
            tree::lemma_pushed(self.edges@, Edge { parent, child });
        }
        self.edges.push(Edge { parent, child });
        proof {
            lemma_device_found(self.devices@, 0, child);
        }
        if let Some(d) = self.get_device(child) {
            let mut e: DeviceObjectK = d;
            e.parent = Some(parent);
            self.put_device(e);
        }
    }

    /// Marks a device that a bus has reported as a started physical device. A device with a name
    /// cannot be one.
    pub fn mark_started_pdo(&mut self, id: u64) -> (r: bool)
        requires
            old(self)@.well_formed(),
            old(self)@.device(id) is Some,
        ensures
            r == !old(self)@.device(id)->0.has_name,
            final(self)@ == (if r {
                old(self)@.with_device(DeviceObjectK {
                    is_pdo: true,
                    state: DeviceState::Started,
                    ..old(self)@.device(id)->0
                })
            } else {
                old(self)@
            }),
            final(self)@.well_formed(),
    {
        proof {
            lemma_device_found(self.devices@, 0, id);
        }
        match self.get_device(id) {
            Some(d) => {
                if d.has_name {
                    return false;
                }
                let mut e: DeviceObjectK = d;
                e.is_pdo = true;
                e.state = DeviceState::Started;
                self.put_device(e);
                true
            },
            None => false,
        }
    }

    /// Makes a device part of a stack. It is part of at most one.
    pub fn set_stack(&mut self, id: u64, stack: u64, level: usize)
        requires
            old(self)@.well_formed(),
            old(self)@.device(id) is Some,
            old(self)@.device(id)->0.stack is None,
        ensures
            final(self)@ == old(self)@.with_device(
                DeviceObjectK { stack: Some((stack, level)), ..old(self)@.device(id)->0 }),
            final(self)@.well_formed(),
    {
        proof {
            lemma_device_found(self.devices@, 0, id);
        }
        if let Some(d) = self.get_device(id) {
            let mut e: DeviceObjectK = d;
            e.stack = Some((stack, level));
            self.put_device(e);
        }
    }

    /// The driver that goes by a name, if it is loaded.
    pub fn driver_by_name(&self, name: &Vec<u8>) -> (r: Option<u64>)
        ensures
            r == find_name(self@.driver_names, 0, name@),
    {
        match name_index(&self.driver_names, name) {
            Some(i) => Some(self.driver_names[i].id),
            None => None,
        }
    }

    /// Registers the driver of an image. The driver's entry point runs afterwards, so that it can
    /// make devices; without one the image is no driver, and only the id is used up.
    pub fn register_driver(&mut self, has_entry: bool) -> (r: Result<u64, KError>)
        requires
            old(self)@.well_formed(),
            old(self).next_driver_id < u64::MAX,
        ensures
            r == (if has_entry { Ok(old(self).next_driver_id) } else { Err(KError::ModuleNotDriver) }),
            final(self)@ == (Io {
                next_driver_id: (old(self).next_driver_id + 1) as u64,
                drivers: if has_entry {
                    old(self)@.drivers.push(DriverObjectK { id: old(self).next_driver_id, unloaded: false })
                } else {
                    old(self)@.drivers
                },
                ..old(self)@
            }),
            final(self)@.well_formed(),
    {
        let id: u64 = self.next_driver_id;
        self.next_driver_id = id + 1;
        if !has_entry {
            return Err(KError::ModuleNotDriver);
        }
        self.drivers.push(DriverObjectK { id, unloaded: false });
        Ok(id)
    }

    fn forget_driver(&mut self, id: u64)
        requires
            old(self)@.well_formed(),
        ensures
            final(self)@ == (Io { drivers: old(self)@.drivers.filter(other_driver(id)), ..old(self)@ }),
            final(self)@.well_formed(),
    {
        let ghost d0 = self.drivers@;
        let ghost keep = other_driver(id);
        let mut out: Vec<DriverObjectK> = Vec::new();
        let mut i: usize = 0;
        while i < self.drivers.len()
            invariant
                i <= self.drivers@.len(),
                *self == *old(self),
                d0 == self.drivers@,
                keep == other_driver(id),
                drivers_sound(d0, self.next_driver_id),
                out@ == d0.take(i as int).filter(keep),
                drivers_sound(out@, self.next_driver_id),
                forall|a: int, b: int| 0 <= a < out@.len() && i <= b < d0.len() ==> (#[trigger] out@[a]).id != (
                    #[trigger] d0[b]).id,
            decreases self.drivers@.len() - i,
        {
            proof {
                util::lemma_filter_step(d0, i as int, keep);
            }
            if self.drivers[i].id != id {
                out.push(self.drivers[i]);
            }
            i = i + 1;
        }
        assert(d0.take(i as int) =~= d0);
        self.drivers = out;
    }

    /// Takes the answer of a driver's entry point. A driver that failed is forgotten, any other goes
    /// by its configured name from now on.
    pub fn finish_load(&mut self, id: u64, name: Vec<u8>, status: Status) -> (r: Result<u64, KError>)
        requires
            old(self)@.well_formed(),
            find_name(old(self)@.driver_names, 0, name@) is None,
        ensures
            status == Status::Failed ==> r == Err::<u64, KError>(KError::DriverLoadFailed) && final(self)@ == (Io {
                drivers: old(self)@.drivers.filter(other_driver(id)),
                ..old(self)@
            }),
            status != Status::Failed ==> r == Ok::<u64, KError>(id) && final(self)@ == (Io {
                driver_names: old(self)@.driver_names.push((name@, id)),
                ..old(self)@
            }),
            final(self)@.well_formed(),
    {
        if status == Status::Failed {
            self.forget_driver(id);
            return Err(KError::DriverLoadFailed);
        }
        let ghost n0 = name_views(self.driver_names@);
        proof {
            lemma_no_name(n0, 0, name@);
        }
        self.driver_names.push(NameEntry { name, id });
        assert(name_views(self.driver_names@) =~= n0.push((name@, id)));
        Ok(id)
    }
}

proof fn lemma_all_named_otherwise(s: Seq<(Seq<u8>, u64)>, name: Seq<u8>, n: nat)
    requires
        n <= s.len(),
        forall|i: int| 0 <= i < n ==> (#[trigger] s[i]).0 != name,
    ensures
        s.take(n as int).filter(named_otherwise(name)) == s.take(n as int),
    decreases n,
{
    if n == 0 {
        reveal(Seq::filter);
        assert(s.take(0).filter(named_otherwise(name)) =~= s.take(0));
    } else {
        lemma_all_named_otherwise(s, name, (n - 1) as nat);
        util::lemma_filter_step(s, n - 1, named_otherwise(name));
        assert(s.take(n as int) =~= s.take(n - 1).push(s[n - 1]));
    }
}

/// Where names are distinct, leaving one out is taking its entry out.
proof fn lemma_one_name_out(s: Seq<(Seq<u8>, u64)>, k: int, n: nat)
    requires
        0 <= k < n <= s.len(),
        names_distinct(s),
    ensures
        s.take(n as int).filter(named_otherwise(s[k].0)) == s.take(n as int).remove(k),
    decreases n,
{
    let name = s[k].0;
    util::lemma_filter_step(s, n - 1, named_otherwise(name));
    if k == n - 1 {
        assert forall|i: int| 0 <= i < n - 1 implies (#[trigger] s[i]).0 != name by {
            assert(s[i].0 != s[k].0);
        }
        lemma_all_named_otherwise(s, name, (n - 1) as nat);
        assert(s.take(n as int).remove(k) =~= s.take(n - 1));
    } else {
        lemma_one_name_out(s, k, (n - 1) as nat);
        assert(s[k].0 != s[n - 1].0);
        assert(s.take(n as int).remove(k) =~= s.take(n - 1).remove(k).push(s[n - 1]));
    }
}

impl IoSystem {
    fn driver_devices(&self, driver: u64) -> (r: Vec<u64>)
        requires
            self@.well_formed(),
        ensures
            r@ == devices_of(self.devices@, self.devices@.len(), driver),
            forall|k: int| 0 <= k < r@.len() ==> #[trigger] r@[k] != 0,
    {
        let mut out: Vec<u64> = Vec::new();
        let mut i: usize = 0;
        while i < self.devices.len()
            invariant
                i <= self.devices@.len(),
                self@.well_formed(),
                out@ == devices_of(self.devices@, i as nat, driver),
                forall|k: int| 0 <= k < out@.len() ==> #[trigger] out@[k] != 0,
            decreases self.devices@.len() - i,
        {
            let d: DeviceObjectK = self.devices[i];
            if let Some(v) = d.driver {
                if v == driver {
                    out.push(d.id);
                }
            }
            i = i + 1;
        }
        out
    }

    fn forget_driver_name(&mut self, name: &Vec<u8>)
        requires
            old(self)@.well_formed(),
        ensures
            final(self)@ == (Io {
                driver_names: old(self)@.driver_names.filter(named_otherwise(name@)),
                ..old(self)@
            }),
            final(self)@.well_formed(),
    {
        let ghost n0 = name_views(self.driver_names@);
        proof {
            assert(n0.take(n0.len() as int) =~= n0);
            lemma_names_distinct(n0, named_otherwise(name@), n0.len());
        }
        match name_index(&self.driver_names, name) {
            Some(i) => {
                proof {
                    lemma_one_name_out(n0, i as int, n0.len());
                }
                let _ = self.driver_names.remove(i);
                assert(name_views(self.driver_names@) =~= n0.remove(i as int));
            },
            None => {
                proof {
                    lemma_no_name(n0, 0, name@);
                    lemma_all_named_otherwise(n0, name@, n0.len());
                }
            },
        }
    }

    /// Unloads a driver: its devices are removed in the order in which they were made, and the driver
    /// is forgotten. What is left is to run its unload routine, if it has one.
    pub fn unload_driver(&mut self, name: &Vec<u8>, own_name: &Vec<u8>) -> (r: Result<u64, KError>)
        requires
            old(self)@.well_formed(),
        ensures
            (final(self)@, r) == old(self)@.driver_unloaded(name@, own_name@),
            final(self)@.well_formed(),
    {
        let driver: u64 = match self.driver_by_name(name) {
            Some(d) => d,
            None => { return Err(KError::InvalidArgument); },
        };
        let ghost s0 = self@;
        let ids: Vec<u64> = self.driver_devices(driver);
        let mut i: usize = 0;
        while i < ids.len()
            invariant
                i <= ids@.len(),
                self@.well_formed(),
                self@ == s0.each_removed(ids@, i as nat),
                forall|k: int| 0 <= k < ids@.len() ==> #[trigger] ids@[k] != 0,
            decreases ids@.len() - i,
        {
            self.remove_device(ids[i]);
            i = i + 1;
        }
        self.forget_driver(driver);
        self.forget_driver_name(own_name);
        Ok(driver)
    }
}

proof fn lemma_filter_from(s: Seq<DeviceObjectK>, p: spec_fn(DeviceObjectK) -> bool, n: nat, a: int)
    requires
        n <= s.len(),
        0 <= a < s.take(n as int).filter(p).len(),
    ensures
        exists|b: int| 0 <= b < n && #[trigger] s[b] == s.take(n as int).filter(p)[a],
    decreases n,
{
    if n == 0 {
        reveal(Seq::filter);
    } else {
        util::lemma_filter_step(s, n - 1, p);
        let g = s.take(n - 1).filter(p);
        if a < g.len() {
            lemma_filter_from(s, p, (n - 1) as nat, a);
            let b = choose|b: int| 0 <= b < n - 1 && #[trigger] s[b] == g[a];
            assert(s[b] == s.take(n as int).filter(p)[a]);
        } else {
            assert(s[n - 1] == s.take(n as int).filter(p)[a]);
        }
    }
}

/// No two devices share an id.
pub open spec fn ids_distinct(s: Seq<DeviceObjectK>) -> bool {
    forall|i: int, j: int| 0 <= i < j < s.len() ==> (#[trigger] s[i]).id != (#[trigger] s[j]).id
}

/// Forgetting a device forgets that device and no other.
pub proof fn law_unregistered(s: Io, id: u64, other: u64)
    requires
        ids_distinct(s.devices),
    ensures
        s.unregistered(id).device(other) == (if other == id { None } else { s.device(other) }),
{
    let d = s.devices;
    let keep = other_device(id);
    let f = d.filter(keep);
    assert(d.take(d.len() as int) =~= d);
    lemma_device_found(d, 0, other);
    lemma_device_found(f, 0, other);
    if let Some(k) = find_device(d, 0, other) {
        if other != id {
            d.lemma_filter_contains(keep, k);
            let c = choose|c: int| 0 <= c < f.len() && f[c] == d[k];
            assert(f[c].id == other);
        }
    }
    if let Some(a) = find_device(f, 0, other) {
        d.lemma_filter_pred(keep, a);
        lemma_filter_from(d, keep, d.len(), a);
        let b = choose|b: int| 0 <= b < d.len() && #[trigger] d[b] == f[a];
        assert(d[b].id == other);
        if let Some(k) = find_device(d, 0, other) {
            if b < k {
                assert(d[b].id != d[k].id);
            } else if k < b {
                assert(d[k].id != d[b].id);
            }
        }
    }
}

/// One log continues another.
pub open spec fn continues(a: Seq<IoEffect>, b: Seq<IoEffect>) -> bool {
    a.len() <= b.len() && b.take(a.len() as int) == a
}

proof fn lemma_continues(a: Seq<IoEffect>, b: Seq<IoEffect>, c: Seq<IoEffect>)
    requires
        continues(a, b),
        continues(b, c),
    ensures
        continues(a, c),
{
    assert(c.take(a.len() as int) =~= b.take(a.len() as int)) by {
        assert forall|i: int| 0 <= i < a.len() implies c.take(a.len() as int)[i] == b.take(a.len() as int)[i] by {
            assert(b[i] == c.take(b.len() as int)[i]);
        }
    }
}

/// Stopping a device adds to the log and takes nothing back.
pub proof fn law_stopped_log(s: Io, id: u64, is_child: bool)
    ensures
        continues(s.log, s.stopped(id, is_child).log),
{
    lemma_stopped_log(s, id, is_child, tree::depth(s.edges, id));
}

proof fn lemma_stopped_log(s: Io, id: u64, is_child: bool, n: nat)
    ensures
        continues(s.log, s.stopped_within(id, is_child, n).log),
    decreases n, 1int, 0nat,
{
    assert(continues(s.log, s.log)) by {
        assert(s.log.take(s.log.len() as int) =~= s.log);
    }
    if let Some(d) = s.device(id) {
        if !d.is_class_device {
            let kids = s.children(id);
            lemma_children_stopped_log(s, kids, kids.len(), n);
            let t = s.children_stopped(kids, kids.len(), n);
            if let Some(e) = t.device(id) {
                lemma_self_stopped_log(t, e, is_child);
                lemma_continues(s.log, t.log, t.self_stopped(e, is_child).log);
            }
        }
    }
}

proof fn lemma_self_stopped_log(s: Io, d: DeviceObjectK, is_child: bool)
    ensures
        continues(s.log, s.self_stopped(d, is_child).log),
{
    let t = s.self_stopped(d, is_child);
    assert(t.log.take(s.log.len() as int) =~= s.log);
}

proof fn lemma_children_stopped_log(s: Io, kids: Seq<u64>, k: nat, n: nat)
    ensures
        continues(s.log, s.children_stopped(kids, k, n).log),
    decreases n, 0int, k,
{
    if k == 0 || n == 0 {
        assert(s.log.take(s.log.len() as int) =~= s.log);
    } else {
        lemma_children_stopped_log(s, kids, (k - 1) as nat, n);
        let t = s.children_stopped(kids, (k - 1) as nat, n);
        lemma_stopped_log(t, kids[k - 1], true, (n - 1) as nat);
        lemma_continues(s.log, t.log, s.children_stopped(kids, k, n).log);
    }
}

/// Removing a device adds to the log and takes nothing back.
pub proof fn law_removed_log(s: Io, id: u64)
    ensures
        continues(s.log, s.removed(id).log),
{
    lemma_removed_log(s, id, tree::depth(s.edges, id));
}

proof fn lemma_removed_log(s: Io, id: u64, n: nat)
    ensures
        continues(s.log, s.removed_within(id, n).log),
    decreases n, 1int, 0nat,
{
    assert(continues(s.log, s.log)) by {
        assert(s.log.take(s.log.len() as int) =~= s.log);
    }
    if let Some(d) = s.device(id) {
        if !d.is_class_device {
            let kids = s.children(id);
            lemma_children_removed_log(s, kids, kids.len(), n);
            let t = s.children_removed(kids, kids.len(), n);
            if let Some(e) = t.device(id) {
                let u = t.self_removed(e);
                lemma_self_stopped_log(t, e, false);
                let v = t.self_stopped(e, false);
                assert(u.log.take(v.log.len() as int) =~= v.log);
                lemma_continues(t.log, v.log, u.log);
                lemma_continues(s.log, t.log, u.log);
            }
        }
    }
}

proof fn lemma_children_removed_log(s: Io, kids: Seq<u64>, k: nat, n: nat)
    ensures
        continues(s.log, s.children_removed(kids, k, n).log),
    decreases n, 0int, k,
{
    if k == 0 || n == 0 {
        assert(s.log.take(s.log.len() as int) =~= s.log);
    } else {
        lemma_children_removed_log(s, kids, (k - 1) as nat, n);
        let t = s.children_removed(kids, (k - 1) as nat, n);
        lemma_removed_log(t, kids[k - 1], (n - 1) as nat);
        lemma_continues(s.log, t.log, s.children_removed(kids, k, n).log);
    }
}

/// Registered devices have distinct ids, and none is on its way out.
pub open spec fn settled(s: Io) -> bool {
    &&& ids_distinct(s.devices)
    &&& forall|i: int| 0 <= i < s.devices.len() ==> (#[trigger] s.devices[i]).state != DeviceState::Removing
        && s.devices[i].state != DeviceState::Removed
}

/// `t` is `s` without some devices, each of which is `id` or hangs below it.
pub open spec fn trimmed(s: Io, t: Io, id: u64) -> bool {
    &&& settled(t)
    &&& tree::part_of(t.edges, s.edges)
    &&& t.next_device_id == s.next_device_id
    &&& forall|o: u64| !tree::under(s.edges, id, o) ==> #[trigger] t.device(o) == s.device(o)
    &&& forall|o: u64| (#[trigger] t.device(o)) is None || t.device(o) == s.device(o)
}

proof fn lemma_update_at(s: Io, d: DeviceObjectK)
    requires
        settled(s),
        s.device(d.id) is Some,
        d.state != DeviceState::Removing && d.state != DeviceState::Removed,
    ensures
        settled(s.with_device(d)),
        s.with_device(d).device(d.id) == Some(d),
        forall|o: u64| o != d.id ==> #[trigger] s.with_device(d).device(o) == s.device(o),
{
    let t = s.with_device(d);
    let k = find_device(s.devices, 0, d.id)->0;
    lemma_device_found(s.devices, 0, d.id);
    lemma_found_after_update(s.devices, 0, d.id, k, d);
    assert forall|i: int, j: int| 0 <= i < j < t.devices.len() implies (#[trigger] t.devices[i]).id
        != (#[trigger] t.devices[j]).id by {
        assert(s.devices[i].id != s.devices[j].id);
    }
    assert forall|o: u64| o != d.id implies #[trigger] t.device(o) == s.device(o) by {
        lemma_device_found(s.devices, 0, o);
        lemma_device_found(t.devices, 0, o);
        if let Some(a) = find_device(s.devices, 0, o) {
            assert(t.devices[a].id == o);
            if let Some(b) = find_device(t.devices, 0, o) {
                if a < b {
                    assert(t.devices[a].id != t.devices[b].id);
                } else if b < a {
                    assert(t.devices[b].id != t.devices[a].id);
                }
            }
        } else if let Some(b) = find_device(t.devices, 0, o) {
            assert(s.devices[b].id == o);
        }
    }
}

proof fn lemma_filter_settled(s: Io, id: u64)
    requires
        settled(s),
    ensures
        settled(s.unregistered(id)),
{
    let keep = other_device(id);
    let f = s.devices.filter(keep);
    assert(s.devices.take(s.devices.len() as int) =~= s.devices);
    lemma_filter_distinct(s.devices, keep, s.devices.len());
    assert forall|a: int| 0 <= a < f.len() implies (#[trigger] f[a]).state != DeviceState::Removing && f[a].state
        != DeviceState::Removed by {
        lemma_filter_from(s.devices, keep, s.devices.len(), a);
    }
}

proof fn lemma_filter_distinct(s: Seq<DeviceObjectK>, p: spec_fn(DeviceObjectK) -> bool, n: nat)
    requires
        n <= s.len(),
        ids_distinct(s),
    ensures
        ids_distinct(s.take(n as int).filter(p)),
    decreases n,
{
    if n == 0 {
        reveal(Seq::filter);
    } else {
        lemma_filter_distinct(s, p, (n - 1) as nat);
        util::lemma_filter_step(s, n - 1, p);
        let g = s.take(n - 1).filter(p);
        let h = s.take(n as int).filter(p);
        assert forall|i: int, j: int| 0 <= i < j < h.len() implies (#[trigger] h[i]).id != (#[trigger] h[j]).id by {
            lemma_filter_from(s, p, (n - 1) as nat, i);
            let b = choose|b: int| 0 <= b < n - 1 && #[trigger] s[b] == g[i];
            assert(s[b].id != s[n - 1].id);
        }
    }
}

proof fn lemma_self_removed(s: Io, d: DeviceObjectK)
    requires
        settled(s),
        s.device(d.id) == Some(d),
    ensures
        settled(s.self_removed(d)),
        tree::part_of(s.self_removed(d).edges, s.edges),
        s.self_removed(d).next_device_id == s.next_device_id,
        forall|o: u64| #[trigger] s.self_removed(d).device(o) == (if o == d.id { None } else { s.device(o) }),
{
    lemma_device_found(s.devices, 0, d.id);
    let t = s.self_stopped(d, false);
    let e = DeviceObjectK { state: DeviceState::Stopped, enabled: false, ..d };
    lemma_update_at(s.dispatched(d, IrpMinor::Stop), e);
    assert(settled(t));
    assert(t.device(d.id) == Some(if d.is_pdo || d.state != DeviceState::Started { d } else { e }));
    let f = t.device(d.id)->0;
    let t1 = t.dispatched(f, IrpMinor::Remove);
    let t2 = match f.parent { Some(p) => t1.without_edge(p, f.id), None => t1 };
    let t3 = match f.stack {
        Some((stack, level)) => t2.logged(IoEffect::DeviceLeft { stack, level }),
        None => t2,
    };
    assert(t3.devices == t.devices);
    if let Some(p) = f.parent {
        tree::lemma_filter_part(s.edges, other_edge(p, f.id));
    }
    lemma_filter_settled(t3, d.id);
    assert(s.self_removed(d) == t3.unregistered(d.id));
    assert forall|o: u64| true implies #[trigger] s.self_removed(d).device(o) == (if o == d.id {
        None
    } else {
        s.device(o)
    }) by {
        law_unregistered(t3, d.id, o);
        assert(t3.device(o) == t.device(o));
        if o != d.id {
            assert(s.dispatched(d, IrpMinor::Stop).device(o) == s.device(o));
        }
    }
}

proof fn lemma_gone(s: Io, id: u64, n: nat)
    requires
        settled(s),
        tree::within(s.edges, id, n),
    ensures
        trimmed(s, s.removed_within(id, n), id),
        s.removed_within(id, n).device(id) is None,
        s.device(id) matches Some(d) && !d.is_class_device ==> forall|k: int|
            0 <= k < s.children(id).len() ==> s.removed_within(id, n).device(#[trigger] s.children(id)[k]) is None,
    decreases n, 1int, 0nat,
{
    tree::lemma_under_self(s.edges, id);
    if let Some(d) = s.device(id) {
        lemma_device_found(s.devices, 0, id);
        if d.is_class_device {
            lemma_filter_settled(s, id);
            assert forall|o: u64| true implies #[trigger] s.removed_within(id, n).device(o) == (if o == id {
                None
            } else {
                s.device(o)
            }) by {
                law_unregistered(s, id, o);
            }
        } else {
            let kids = s.children(id);
            let t = s.children_removed(kids, kids.len(), n);
            tree::lemma_children(s.edges, s.edges.len(), id);
            lemma_children_gone(s, id, kids, kids.len(), n);
            lemma_self_removed(t, d);
            let u = s.removed_within(id, n);
            assert(u == t.self_removed(d));
            assert forall|k: int| 0 <= k < kids.len() implies u.device(#[trigger] kids[k]) is None by {
                assert(t.device(kids[k]) is None);
            }
            assert forall|o: u64| !tree::under(s.edges, id, o) implies #[trigger] u.device(o) == s.device(o) by {
                assert(t.device(o) == s.device(o));
            }
            assert forall|o: u64| (#[trigger] u.device(o)) is None || u.device(o) == s.device(o) by {
                assert(t.device(o) is None || t.device(o) == s.device(o));
            }
        }
    }
}

proof fn lemma_children_gone(s: Io, id: u64, kids: Seq<u64>, k: nat, n: nat)
    requires
        settled(s),
        k <= kids.len(),
        tree::within(s.edges, id, n),
        forall|j: int| 0 <= j < kids.len() ==> tree::hangs(s.edges, id, #[trigger] kids[j]),
    ensures
        ({
            let t = s.children_removed(kids, k, n);
            &&& trimmed(s, t, id)
            &&& t.device(id) == s.device(id)
            &&& forall|j: int| 0 <= j < k ==> t.device(#[trigger] kids[j]) is None
        }),
    decreases n, 0int, k,
{
    if k > 0 {
        let kid = kids[k - 1];
        assert(tree::hangs(s.edges, id, kid));
        lemma_children_gone(s, id, kids, (k - 1) as nat, n);
        let t = s.children_removed(kids, (k - 1) as nat, n);
        let u = s.children_removed(kids, k, n);
        tree::lemma_within_part(s.edges, t.edges, kid, (n - 1) as nat);
        lemma_gone(t, kid, (n - 1) as nat);
        assert forall|o: u64| o == id || !tree::under(s.edges, id, o) implies #[trigger] u.device(o) == s.device(o) by {
            assert(t.device(o) == s.device(o));
            if tree::under(t.edges, kid, o) {
                tree::lemma_under_part(s.edges, t.edges, kid, o);
                tree::lemma_under_step(s.edges, id, kid, o);
                tree::lemma_no_way_back(s.edges, id, kid, n);
            }
        }
        assert forall|o: u64| (#[trigger] u.device(o)) is None || u.device(o) == s.device(o) by {
            assert(t.device(o) is None || t.device(o) == s.device(o));
        }
        assert forall|j: int| 0 <= j < k implies u.device(#[trigger] kids[j]) is None by {
            if j < k - 1 {
                assert(t.device(kids[j]) is None);
            }
        }
    }
}

pub proof fn lemma_removed_is_gone(s: Io, id: u64)
    requires
        settled(s),
        tree::acyclic(s.edges),
    ensures
        trimmed(s, s.removed(id), id),
{
    tree::lemma_depth(s.edges, id);
    lemma_gone(s, id, tree::depth(s.edges, id));
}

/// Removing a device leaves neither it nor, unless it is a class device, any of its children
/// registered. No device that does not hang below it is touched, and of the others each is gone or as it
/// was.
pub proof fn law_removed_is_gone(s: Io, id: u64)
    requires
        s.well_formed(),
    ensures
        trimmed(s, s.removed(id), id),
        s.removed(id).device(id) is None,
        s.device(id) matches Some(d) && !d.is_class_device ==> forall|k: int|
            0 <= k < s.children(id).len() ==> s.removed(id).device(#[trigger] s.children(id)[k]) is None,
{
    tree::lemma_depth(s.edges, id);
    lemma_gone(s, id, tree::depth(s.edges, id));
}

impl Io {
    /// Some devices have been stopped on behalf of their parent, one after the other.
    pub open spec fn each_stopped(self, ids: Seq<u64>, n: nat) -> Io
        decreases n,
    {
        if n == 0 { self } else { self.each_stopped(ids, (n - 1) as nat).stopped(ids[n - 1], true) }
    }
}

proof fn lemma_stopped_edges(s: Io, id: u64, is_child: bool, n: nat)
    ensures
        s.stopped_within(id, is_child, n).edges == s.edges,
    decreases n, 1int, 0nat,
{
    let kids = s.children(id);
    lemma_children_stopped_edges(s, kids, kids.len(), n);
}

proof fn lemma_children_stopped_edges(s: Io, kids: Seq<u64>, k: nat, n: nat)
    ensures
        s.children_stopped(kids, k, n).edges == s.edges,
    decreases n, 0int, k,
{
    if k > 0 && n > 0 {
        lemma_children_stopped_edges(s, kids, (k - 1) as nat, n);
        lemma_stopped_edges(s.children_stopped(kids, (k - 1) as nat, n), kids[k - 1], true, (n - 1) as nat);
    }
}

/// It does not matter how far down there could be something to stop.
proof fn lemma_stopped_alike(s: Io, id: u64, is_child: bool, n: nat, m: nat)
    requires
        tree::within(s.edges, id, n),
        tree::within(s.edges, id, m),
    ensures
        s.stopped_within(id, is_child, n) == s.stopped_within(id, is_child, m),
    decreases n, 1int, 0nat,
{
    let kids = s.children(id);
    tree::lemma_children(s.edges, s.edges.len(), id);
    lemma_children_stopped_alike(s, id, kids, kids.len(), n, m);
}

proof fn lemma_children_stopped_alike(s: Io, id: u64, kids: Seq<u64>, k: nat, n: nat, m: nat)
    requires
        k <= kids.len(),
        tree::within(s.edges, id, n),
        tree::within(s.edges, id, m),
        forall|j: int| 0 <= j < kids.len() ==> tree::hangs(s.edges, id, #[trigger] kids[j]),
    ensures
        s.children_stopped(kids, k, n) == s.children_stopped(kids, k, m),
    decreases n, 0int, k,
{
    if k > 0 {
        assert(tree::hangs(s.edges, id, kids[k - 1]));
        lemma_children_stopped_alike(s, id, kids, (k - 1) as nat, n, m);
        lemma_children_stopped_edges(s, kids, (k - 1) as nat, n);
        lemma_stopped_alike(
            s.children_stopped(kids, (k - 1) as nat, n), kids[k - 1], true, (n - 1) as nat, (m - 1) as nat);
    }
}

proof fn lemma_each_stopped(s: Io, id: u64, kids: Seq<u64>, k: nat, n: nat)
    requires
        k <= kids.len(),
        tree::acyclic(s.edges),
        tree::within(s.edges, id, n),
        forall|j: int| 0 <= j < kids.len() ==> tree::hangs(s.edges, id, #[trigger] kids[j]),
    ensures
        s.children_stopped(kids, k, n) == s.each_stopped(kids, k),
    decreases k,
{
    if k > 0 {
        let kid = kids[k - 1];
        assert(tree::hangs(s.edges, id, kid));
        lemma_each_stopped(s, id, kids, (k - 1) as nat, n);
        lemma_children_stopped_edges(s, kids, (k - 1) as nat, n);
        tree::lemma_depth(s.edges, kid);
        lemma_stopped_alike(
            s.children_stopped(kids, (k - 1) as nat, n), kid, true, (n - 1) as nat, tree::depth(s.edges, kid));
    }
}

/// A stop goes over the whole tree below a device: each child is stopped in the same way before the
/// device itself.
pub proof fn law_children_stop_first(s: Io, id: u64, is_child: bool)
    requires
        s.well_formed(),
        s.device(id) matches Some(d) && !d.is_class_device,
    ensures
        ({
            let kids = s.children(id);
            let t = s.each_stopped(kids, kids.len());
            s.stopped(id, is_child) == (match t.device(id) {
                Some(e) => t.self_stopped(e, is_child),
                None => t,
            })
        }),
{
    let kids = s.children(id);
    tree::lemma_children(s.edges, s.edges.len(), id);
    tree::lemma_depth(s.edges, id);
    lemma_each_stopped(s, id, kids, kids.len(), tree::depth(s.edges, id));
}

proof fn lemma_self_removed_edges(s: Io, d: DeviceObjectK)
    ensures
        tree::part_of(s.self_removed(d).edges, s.edges),
{
    let t = s.self_stopped(d, false);
    if let Some(e) = t.device(d.id) {
        if let Some(p) = e.parent {
            tree::lemma_filter_part(s.edges, other_edge(p, e.id));
        }
    }
}

proof fn lemma_removed_edges(s: Io, id: u64, n: nat)
    ensures
        tree::part_of(s.removed_within(id, n).edges, s.edges),
    decreases n, 1int, 0nat,
{
    let kids = s.children(id);
    lemma_children_removed_edges(s, kids, kids.len(), n);
    let t = s.children_removed(kids, kids.len(), n);
    if let Some(e) = t.device(id) {
        lemma_self_removed_edges(t, e);
    }
}

proof fn lemma_children_removed_edges(s: Io, kids: Seq<u64>, k: nat, n: nat)
    ensures
        tree::part_of(s.children_removed(kids, k, n).edges, s.edges),
    decreases n, 0int, k,
{
    if k > 0 && n > 0 {
        lemma_children_removed_edges(s, kids, (k - 1) as nat, n);
        lemma_removed_edges(s.children_removed(kids, (k - 1) as nat, n), kids[k - 1], (n - 1) as nat);
    }
}

/// It does not matter how far down there could be something to remove.
proof fn lemma_removed_alike(s: Io, id: u64, n: nat, m: nat)
    requires
        tree::within(s.edges, id, n),
        tree::within(s.edges, id, m),
    ensures
        s.removed_within(id, n) == s.removed_within(id, m),
    decreases n, 1int, 0nat,
{
    let kids = s.children(id);
    tree::lemma_children(s.edges, s.edges.len(), id);
    lemma_children_removed_alike(s, id, kids, kids.len(), n, m);
}

proof fn lemma_children_removed_alike(s: Io, id: u64, kids: Seq<u64>, k: nat, n: nat, m: nat)
    requires
        k <= kids.len(),
        tree::within(s.edges, id, n),
        tree::within(s.edges, id, m),
        forall|j: int| 0 <= j < kids.len() ==> tree::hangs(s.edges, id, #[trigger] kids[j]),
    ensures
        s.children_removed(kids, k, n) == s.children_removed(kids, k, m),
    decreases n, 0int, k,
{
    if k > 0 {
        let kid = kids[k - 1];
        assert(tree::hangs(s.edges, id, kid));
        lemma_children_removed_alike(s, id, kids, (k - 1) as nat, n, m);
        lemma_children_removed_edges(s, kids, (k - 1) as nat, n);
        let t = s.children_removed(kids, (k - 1) as nat, n);
        tree::lemma_within_part(s.edges, t.edges, kid, (n - 1) as nat);
        tree::lemma_within_part(s.edges, t.edges, kid, (m - 1) as nat);
        lemma_removed_alike(t, kid, (n - 1) as nat, (m - 1) as nat);
    }
}

proof fn lemma_each_removed(s: Io, id: u64, kids: Seq<u64>, k: nat, n: nat)
    requires
        k <= kids.len(),
        tree::acyclic(s.edges),
        tree::within(s.edges, id, n),
        forall|j: int| 0 <= j < kids.len() ==> tree::hangs(s.edges, id, #[trigger] kids[j]),
    ensures
        s.children_removed(kids, k, n) == s.each_removed(kids, k),
    decreases k,
{
    if k > 0 {
        let kid = kids[k - 1];
        assert(tree::hangs(s.edges, id, kid));
        lemma_each_removed(s, id, kids, (k - 1) as nat, n);
        lemma_children_removed_edges(s, kids, (k - 1) as nat, n);
        let t = s.children_removed(kids, (k - 1) as nat, n);
        tree::lemma_part_acyclic(s.edges, t.edges);
        tree::lemma_within_part(s.edges, t.edges, kid, (n - 1) as nat);
        tree::lemma_depth(t.edges, kid);
        lemma_removed_alike(t, kid, (n - 1) as nat, tree::depth(t.edges, kid));
    }
}

/// A removal goes over the whole tree below a device: each child is removed in the same way before the
/// device itself.
pub proof fn law_children_removed_first(s: Io, id: u64)
    requires
        s.well_formed(),
        s.device(id) matches Some(d) && !d.is_class_device,
    ensures
        ({
            let kids = s.children(id);
            let t = s.each_removed(kids, kids.len());
            s.removed(id) == (match t.device(id) {
                Some(e) => t.self_removed(e),
                None => t,
            })
        }),
{
    let kids = s.children(id);
    tree::lemma_children(s.edges, s.edges.len(), id);
    tree::lemma_depth(s.edges, id);
    lemma_each_removed(s, id, kids, kids.len(), tree::depth(s.edges, id));
}

pub proof fn lemma_not_among_from(new: Seq<u64>, n: nat, known: Seq<u64>)
    requires
        n <= new.len(),
    ensures
        forall|k: int| 0 <= k < not_among(new, n, known).len() ==> exists|i: int|
            0 <= i < n && new[i] == #[trigger] not_among(new, n, known)[k],
    decreases n,
{
    if n > 0 {
        lemma_not_among_from(new, (n - 1) as nat, known);
        let rest = not_among(new, (n - 1) as nat, known);
        let all = not_among(new, n, known);
        assert forall|k: int| 0 <= k < all.len() implies exists|i: int| 0 <= i < n && new[i] == #[trigger] all[k] by {
            if k < rest.len() {
                let i = choose|i: int| 0 <= i < n - 1 && new[i] == rest[k];
                assert(new[i] == all[k]);
            } else {
                assert(new[n - 1] == all[k]);
            }
        }
    }
}

/// A device that is found stays so when it changes.
proof fn lemma_found_after_update(s: Seq<DeviceObjectK>, i: int, id: u64, k: int, d: DeviceObjectK)
    requires
        0 <= i,
        find_device(s, i, id) == Some(k),
        d.id == id,
    ensures
        find_device(s.update(k, d), i, id) == Some(k),
    decreases s.len() - i,
{
    lemma_device_found(s, i, id);
    if s[i].id != id {
        lemma_found_after_update(s, i + 1, id, k, d);
    }
}

pub proof fn lemma_attached_device(s: Io, parent: u64, child: u64)
    requires
        s.device(child) is Some,
    ensures
        s.attached(parent, child).device(child) == Some(
            DeviceObjectK { parent: Some(parent), ..s.device(child)->0 }),
{
    let k = find_device(s.devices, 0, child)->0;
    lemma_device_found(s.devices, 0, child);
    let d = DeviceObjectK { parent: Some(parent), ..s.devices[k] };
    lemma_found_after_update(s.devices, 0, child, k, d);
}

/// The same devices are there, and each is of the kind that it was.
pub open spec fn same_kinds(s: Io, t: Io) -> bool {
    forall|x: u64| match (s.device(x), #[trigger] t.device(x)) {
        (Some(a), Some(b)) => a.is_pdo == b.is_pdo && a.is_class_device == b.is_class_device,
        (None, None) => true,
        _ => false,
    }
}

/// What was added to a log from `from` on asks only drivers that serve a device themselves.
pub open spec fn asks_served(s: Io, log: Seq<IoEffect>, from: int) -> bool {
    forall|i: int| from <= i < log.len() ==> ((#[trigger] log[i]) matches IoEffect::Dispatch { device, .. } ==> (
        s.device(device) matches Some(d) && !d.is_pdo && !d.is_class_device))
}

/// A device that changes is the only one that does.
pub proof fn lemma_one_changed(s: Io, d: DeviceObjectK, x: u64)
    requires
        s.device(d.id) is Some,
    ensures
        s.with_device(d).device(x) == (if x == d.id { Some(d) } else { s.device(x) }),
{
    let k = find_device(s.devices, 0, d.id)->0;
    lemma_device_found(s.devices, 0, d.id);
    lemma_device_found(s.devices, 0, x);
    lemma_same_place(s.devices, 0, x, k, d);
}

proof fn lemma_same_place(s: Seq<DeviceObjectK>, i: int, x: u64, k: int, d: DeviceObjectK)
    requires
        0 <= i,
        0 <= k < s.len(),
        s[k].id == d.id,
    ensures
        find_device(s.update(k, d), i, x) == find_device(s, i, x),
    decreases s.len() - i,
{
    if i < s.len() {
        lemma_same_place(s, i + 1, x, k, d);
    }
}

proof fn lemma_kind_kept(s: Io, d: DeviceObjectK)
    requires
        s.device(d.id) matches Some(o) && o.is_pdo == d.is_pdo && o.is_class_device == d.is_class_device,
    ensures
        same_kinds(s, s.with_device(d)),
{
    let k = find_device(s.devices, 0, d.id)->0;
    lemma_device_found(s.devices, 0, d.id);
    assert forall|x: u64| match (s.device(x), #[trigger] s.with_device(d).device(x)) {
        (Some(a), Some(b)) => a.is_pdo == b.is_pdo && a.is_class_device == b.is_class_device,
        (None, None) => true,
        _ => false,
    } by {
        lemma_device_found(s.devices, 0, x);
        lemma_same_place(s.devices, 0, x, k, d);
    }
}

/// Stopping a device sends requests only for devices that their drivers serve: never for one that
/// stands for something found on a bus, nor for one whose driver stops it itself.
pub proof fn law_served_devices_stop(s: Io, id: u64, is_child: bool)
    ensures
        same_kinds(s, s.stopped(id, is_child)),
        asks_served(s, s.stopped(id, is_child).log, s.log.len() as int),
{
    lemma_served_stop(s, id, is_child, tree::depth(s.edges, id));
}

proof fn lemma_served_stop(s: Io, id: u64, is_child: bool, n: nat)
    ensures
        same_kinds(s, s.stopped_within(id, is_child, n)),
        asks_served(s, s.stopped_within(id, is_child, n).log, s.log.len() as int),
    decreases n, 1int, 0nat,
{
    if let Some(d) = s.device(id) {
        lemma_device_found(s.devices, 0, id);
        if d.is_class_device {
            lemma_kind_kept(s, DeviceObjectK { state: DeviceState::Stopped, ..d });
        } else {
            let kids = s.children(id);
            lemma_served_children_stop(s, kids, kids.len(), n);
            lemma_children_stopped_log(s, kids, kids.len(), n);
            let t = s.children_stopped(kids, kids.len(), n);
            if let Some(e) = t.device(id) {
                lemma_device_found(t.devices, 0, id);
                let u = DeviceObjectK {
                    state: DeviceState::Stopped,
                    enabled: if is_child { e.enabled } else { false },
                    ..e
                };
                let t1 = t.dispatched(e, IrpMinor::Stop);
                assert(t1.devices == t.devices);
                lemma_kind_kept(t1, u);
                let r = t.self_stopped(e, is_child);
                assert forall|x: u64| match (s.device(x), #[trigger] r.device(x)) {
                    (Some(a), Some(b)) => a.is_pdo == b.is_pdo && a.is_class_device == b.is_class_device,
                    (None, None) => true,
                    _ => false,
                } by {
                    assert(t1.device(x) == t.device(x));
                    assert(t1.with_device(u).device(x) == t1.with_device(u).device(x));
                }
                lemma_self_stopped_log(t, e, is_child);
                assert forall|i: int| s.log.len() <= i < r.log.len() implies ((#[trigger] r.log[i]) matches IoEffect::Dispatch {
                    device,
                    ..
                } ==> (s.device(device) matches Some(d) && !d.is_pdo && !d.is_class_device)) by {
                    if i < t.log.len() {
                        assert(r.log.take(t.log.len() as int)[i] == t.log[i]);
                    }
                }
            }
        }
    }
}

proof fn lemma_served_children_stop(s: Io, kids: Seq<u64>, k: nat, n: nat)
    ensures
        same_kinds(s, s.children_stopped(kids, k, n)),
        asks_served(s, s.children_stopped(kids, k, n).log, s.log.len() as int),
    decreases n, 0int, k,
{
    if k > 0 && n > 0 {
        lemma_served_children_stop(s, kids, (k - 1) as nat, n);
        lemma_children_stopped_log(s, kids, (k - 1) as nat, n);
        let t = s.children_stopped(kids, (k - 1) as nat, n);
        lemma_served_stop(t, kids[k - 1], true, (n - 1) as nat);
        lemma_stopped_log(t, kids[k - 1], true, (n - 1) as nat);
        let r = t.stopped_within(kids[k - 1], true, (n - 1) as nat);
        assert forall|x: u64| match (s.device(x), #[trigger] r.device(x)) {
            (Some(a), Some(b)) => a.is_pdo == b.is_pdo && a.is_class_device == b.is_class_device,
            (None, None) => true,
            _ => false,
        } by {
            assert(t.device(x) == t.device(x));
        }
        assert forall|i: int| s.log.len() <= i < r.log.len() implies ((#[trigger] r.log[i]) matches IoEffect::Dispatch {
            device,
            ..
        } ==> (s.device(device) matches Some(d) && !d.is_pdo && !d.is_class_device)) by {
            if i < t.log.len() {
                assert(r.log.take(t.log.len() as int)[i] == t.log[i]);
            } else if let IoEffect::Dispatch { device, .. } = r.log[i] {
                assert(t.device(device) is Some);
            }
        }
    }
}

} // verus!
