//! The bringing up of a device stack, level by level. Drivers are loaded, add devices and start them in
//! their own time, so the walk over the levels goes on with each answer.

use vstd::prelude::*;
use crate::error::KError;
use crate::io::config;
use crate::io::config::{BootConfig, Text};
use crate::io::driver;
use crate::io::driver::{DeviceObjectK, Io, IoSystem, Status};
use crate::io::stack;
use crate::io::stack::{Instance, LevelInfo, LevelState, StackTable, Stacks};

verus! {

/// A stack that is being brought up.
#[derive(Clone, Copy, Debug, PartialEq, Eq, Structural)]
pub struct BringUp {
    pub stack: u64,
    /// The level that is worked on, and how many there are.
    pub level: usize,
    pub levels: usize,
    /// The device that the level builds on, and the one that has been added to it.
    pub parent: u64,
    pub device: u64,
}

/// What is to be done next.
#[derive(Clone, Copy, Debug, PartialEq, Eq, Structural)]
pub enum BringNext {
    /// Load the driver of the level.
    Load,
    /// Ask the driver to add a device below the parent.
    Add { driver: u64 },
    /// Start the device of the level.
    Start,
    /// Look for what is on the device, which may be a bus.
    Enumerate,
    /// Every level is up.
    Complete,
    /// The level has failed.
    Failed,
    /// The device that was added has gone again.
    Gone,
}

/// The walk reaches a level, from which what is left over from an earlier attempt is removed.
pub open spec fn at_level(t: Stacks, io: Io, b: BringUp) -> (Stacks, Io, BringUp, BringNext) {
    if b.level >= b.levels {
        (t, io, b, BringNext::Complete)
    } else {
        let (t1, io1) = t.level_prepared(io, b.stack, b.level as int);
        (t1, io1, b, BringNext::Load)
    }
}

/// The beginning of the walk.
pub open spec fn begun(t: Stacks, io: Io, id: u64, from_level: usize, levels: usize) -> (Stacks, Io, BringUp, BringNext) {
    match t.parent_for(io, id, from_level as int) {
        None => (
            t.level_state(id, from_level as int, LevelState::Failed),
            io,
            BringUp { stack: id, level: from_level, levels, parent: 0, device: 0 },
            BringNext::Failed,
        ),
        Some(parent) => at_level(t, io, BringUp { stack: id, level: from_level, levels, parent, device: 0 }),
    }
}

pub open spec fn loaded(t: Stacks, b: BringUp, r: Result<u64, KError>) -> (Stacks, BringNext) {
    match r {
        Ok(driver) => (t, BringNext::Add { driver }),
        Err(_) => (t.level_state(b.stack, b.level as int, LevelState::Failed), BringNext::Failed),
    }
}

pub open spec fn added(t: Stacks, io: Io, b: BringUp, status: Status, ids: Seq<u64>) -> (Stacks, Io, BringUp, BringNext) {
    let (t1, io1, d) = t.device_added(io, b.stack, b.level as int, status, ids);
    match d {
        Some(device) => (t1, io1, BringUp { device, ..b }, BringNext::Start),
        None => (t1, io1, b, if status == Status::Success && ids.len() == 1 { BringNext::Gone } else { BringNext::Failed }),
    }
}

pub open spec fn started(t: Stacks, b: BringUp, r: Result<Status, KError>) -> (Stacks, BringNext) {
    if r == Ok::<Status, KError>(Status::Success) {
        (t, BringNext::Enumerate)
    } else {
        (t.level_state(b.stack, b.level as int, LevelState::Failed), BringNext::Failed)
    }
}

pub open spec fn enumerated(t: Stacks, io: Io, b: BringUp) -> (Stacks, Io, BringUp, BringNext) {
    at_level(t, io, BringUp { level: (b.level + 1) as usize, parent: b.device, ..b })
}

fn reach_level(stacks: &mut StackTable, io: &mut IoSystem, b: &BringUp) -> (r: BringNext)
    requires
        old(stacks)@.well_formed(),
        old(io)@.well_formed(),
        old(stacks)@.stack(b.stack) matches Some(t) ==> t.device_at(b.level as int) != Some(0u64),
    ensures
        (final(stacks)@, final(io)@, *b, r) == at_level(old(stacks)@, old(io)@, *b),
        final(stacks)@.well_formed(),
        final(io)@.well_formed(),
{
    if b.level >= b.levels {
        return BringNext::Complete;
    }
    stacks.prepare_level(io, b.stack, b.level);
    BringNext::Load
}

impl StackTable {
    /// Begins to bring a stack up from a level on. Without a device to build on the level has failed.
    pub fn continue_stack(&mut self, io: &mut IoSystem, id: u64, from_level: usize, levels: usize)
        -> (r: (BringUp, BringNext))
        requires
            old(self)@.well_formed(),
            old(io)@.well_formed(),
            old(self)@.stack(id) matches Some(t) ==> t.device_at(from_level as int) != Some(0u64),
        ensures
            (final(self)@, final(io)@, r.0, r.1) == begun(old(self)@, old(io)@, id, from_level, levels),
            final(self)@.well_formed(),
            final(io)@.well_formed(),
    {
        match self.find_parent(io, id, from_level) {
            None => (BringUp { stack: id, level: from_level, levels, parent: 0, device: 0 }, BringNext::Failed),
            Some(parent) => {
                let b: BringUp = BringUp { stack: id, level: from_level, levels, parent, device: 0 };
                let n: BringNext = reach_level(self, io, &b);
                (b, n)
            },
        }
    }
}

impl BringUp {
    /// Takes in what came of loading the driver.
    pub fn on_loaded(&mut self, stacks: &mut StackTable, r: Result<u64, KError>) -> (n: BringNext)
        requires
            old(stacks)@.well_formed(),
        ensures
            (final(stacks)@, n) == loaded(old(stacks)@, *old(self), r),
            *final(self) == *old(self),
            final(stacks)@.well_formed(),
    {
        match stacks.driver_loaded(self.stack, self.level, r) {
            Some(driver) => BringNext::Add { driver },
            None => BringNext::Failed,
        }
    }

    /// Takes in the driver's answer, and which devices have appeared below the parent.
    pub fn on_added(&mut self, stacks: &mut StackTable, io: &mut IoSystem, status: Status, ids: &Vec<u64>)
        -> (n: BringNext)
        requires
            old(stacks)@.well_formed(),
            old(io)@.well_formed(),
            status == Status::Success && ids@.len() == 1 ==> (old(io)@.device(ids@[0]) matches Some(d)
                ==> !d.is_class_device && d.stack is None),
        ensures
            (final(stacks)@, final(io)@, *final(self), n) == added(old(stacks)@, old(io)@, *old(self), status, ids@),
            final(stacks)@.well_formed(),
            final(io)@.well_formed(),
    {
        match stacks.device_added(io, self.stack, self.level, status, ids) {
            Some(device) => {
                self.device = device;
                BringNext::Start
            },
            None => if status == Status::Success && ids.len() == 1 { BringNext::Gone } else { BringNext::Failed },
        }
    }

    /// Takes in what came of starting the device, once the stacks have taken up what the device tree
    /// has logged of it.
    pub fn on_started(&mut self, stacks: &mut StackTable, r: Result<Status, KError>) -> (n: BringNext)
        requires
            old(stacks)@.well_formed(),
        ensures
            (final(stacks)@, n) == started(old(stacks)@, *old(self), r),
            *final(self) == *old(self),
            final(stacks)@.well_formed(),
    {
        if stacks.device_started(self.stack, self.level, r) { BringNext::Enumerate } else { BringNext::Failed }
    }

    /// Goes on to the next level, once what is on the device has been looked for.
    pub fn on_enumerated(&mut self, stacks: &mut StackTable, io: &mut IoSystem) -> (n: BringNext)
        requires
            old(stacks)@.well_formed(),
            old(io)@.well_formed(),
            old(self).level < old(self).levels,
            old(stacks)@.stack(old(self).stack) matches Some(t) ==> t.device_at(old(self).level + 1) != Some(0u64),
        ensures
            (final(stacks)@, final(io)@, *final(self), n) == enumerated(old(stacks)@, old(io)@, *old(self)),
            final(stacks)@.well_formed(),
            final(io)@.well_formed(),
    {
        self.level = self.level + 1;
        self.parent = self.device;
        reach_level(stacks, io, self)
    }
}

/// What the world does while one level is brought up: how its driver is loaded, the device tree after
/// it was asked to add a device and what it answered, the stacks after the device was started and the
/// answer to that, and the stacks and the device tree after its children were looked for.
pub struct LevelRun {
    pub loaded: Result<u64, KError>,
    pub io_added: Io,
    pub status: Status,
    pub ids: Seq<u64>,
    pub stacks_started: Stacks,
    pub started: Result<Status, KError>,
    pub stacks_after: Stacks,
    pub io_after: Io,
}

/// One level of the walk.
pub open spec fn level_walked(t: Stacks, io: Io, b: BringUp, w: LevelRun) -> (Stacks, Io, BringUp, BringNext) {
    let (t1, n1) = loaded(t, b, w.loaded);
    if !(n1 is Add) {
        (t1, io, b, n1)
    } else {
        let (t2, io2, b2, n2) = added(t1, w.io_added, b, w.status, w.ids);
        if !(n2 is Start) {
            (t2, io2, b2, n2)
        } else {
            let (t3, n3) = started(w.stacks_started, b2, w.started);
            if !(n3 is Enumerate) {
                (t3, io2, b2, n3)
            } else {
                enumerated(w.stacks_after, w.io_after, b2)
            }
        }
    }
}

/// The walk over `n` levels, or up to where it has ended.
pub open spec fn walked(t: Stacks, io: Io, id: u64, from_level: usize, levels: usize, world: Seq<LevelRun>, n: nat)
    -> (Stacks, Io, BringUp, BringNext)
    decreases n,
{
    if n == 0 {
        begun(t, io, id, from_level, levels)
    } else {
        let (t1, io1, b1, n1) = walked(t, io, id, from_level, levels, world, (n - 1) as nat);
        if n1 is Load { level_walked(t1, io1, b1, world[n - 1]) } else { (t1, io1, b1, n1) }
    }
}

/// The world lets a stack be while one of its levels is brought up: a start changes the state of the
/// level alone, to started if it succeeds, and the rest changes nothing of it.
pub open spec fn lets_be(t: Stacks, b: BringUp, w: LevelRun) -> bool {
    let s = added(t, w.io_added, b, w.status, w.ids).0.stack(b.stack);
    &&& w.stacks_started.well_formed() && w.stacks_after.well_formed()
    &&& s matches Some(i) ==> {
        &&& w.stacks_started.stack(b.stack) matches Some(j) && j == i.with_state(
            b.level as int, j.levels[b.level as int].state) && (w.started == Ok::<Status, KError>(Status::Success)
            ==> j.levels[b.level as int].state == LevelState::Started)
        &&& w.stacks_after.stack(b.stack) == w.stacks_started.stack(b.stack)
    }
}

/// A level that is up.
pub open spec fn is_up(l: LevelInfo) -> bool {
    l.device is Some && l.state == LevelState::Started
}

/// How a stack looks while it is being brought up: the levels from the first on are up, up to the one
/// that is worked on, and the others are as they were.
pub open spec fn half_way(was: Instance, now: Instance, from_level: int, level: int) -> bool {
    &&& now.id == was.id && now.base_pdo == was.base_pdo && now.descriptor == was.descriptor
    &&& now.levels.len() == was.levels.len()
    &&& forall|j: int| from_level <= j < level ==> is_up(#[trigger] now.levels[j])
    &&& forall|j: int| 0 <= j < from_level || level < j < now.levels.len() ==> (#[trigger] now.levels[j]) == was.levels[j]
}

proof fn lemma_changed_stack(t: Stacks, i: Instance, id: u64)
    requires
        t.stack(i.id) is Some,
    ensures
        t.with_stack(i).stack(id) == (if id == i.id { Some(i) } else { t.stack(id) }),
{
    stack::lemma_stack_found(t.stacks, 0, i.id);
    let k = stack::find_stack(t.stacks, 0, i.id)->0;
    lemma_same_place(t.stacks, 0, k, i, id);
    stack::lemma_stack_found(t.stacks, 0, id);
}

proof fn lemma_same_place(s: Seq<Instance>, a: int, k: int, i: Instance, id: u64)
    requires
        0 <= a,
        0 <= k < s.len(),
        s[k].id == i.id,
    ensures
        stack::find_stack(s.update(k, i), a, id) == stack::find_stack(s, a, id),
    decreases s.len() - a,
{
    if a < s.len() {
        lemma_same_place(s, a + 1, k, i, id);
    }
}

proof fn lemma_named(t: Stacks, id: u64)
    requires
        t.stack(id) is Some,
    ensures
        t.stack(id)->0.id == id,
{
    stack::lemma_stack_found(t.stacks, 0, id);
}

/// What is true of the walk at every level.
spec fn on_the_way(was: Instance, t: Stacks, b: BringUp, n: BringNext, from_level: usize) -> bool {
    &&& t.stack(was.id) matches Some(now) && half_way(was, now, from_level as int, b.level as int) && (n is Load
        || n is Complete ==> (b.level < was.levels.len() ==> now.levels[b.level as int] == was.levels[b.level as int]))
        && (n is Failed && b.level < was.levels.len() ==> now.levels[b.level as int].state == LevelState::Failed)
    &&& b.stack == was.id && b.levels == was.levels.len()
    &&& from_level <= b.level <= b.levels
    &&& n is Load ==> b.level < b.levels
    &&& n is Complete ==> b.level == b.levels
    &&& n is Load || n is Complete || n is Failed || n is Gone
    &&& n is Failed || n is Gone ==> b.level < b.levels || b.level == from_level
}

proof fn lemma_level_state(t: Stacks, id: u64, level: int, state: LevelState)
    requires
        t.stack(id) is Some,
    ensures
        t.level_state(id, level, state).stack(id) == Some(t.stack(id)->0.with_state(level, state)),
{
    lemma_named(t, id);
    lemma_changed_stack(t, t.stack(id)->0.with_state(level, state), id);
}

proof fn lemma_level_walked(was: Instance, t: Stacks, io: Io, b: BringUp, w: LevelRun, from_level: usize)
    requires
        on_the_way(was, t, b, BringNext::Load, from_level),
        lets_be(t, b, w),
        forall|j: int| from_level <= j < was.levels.len() ==> (#[trigger] was.levels[j]).device is None,
    ensures
        ({
            let (t1, io1, b1, n1) = level_walked(t, io, b, w);
            on_the_way(was, t1, b1, n1, from_level)
        }),
{
    let id = was.id;
    let l = b.level as int;
    let now = t.stack(id)->0;
    lemma_named(t, id);
    lemma_level_state(t, id, l, LevelState::Failed);
    if w.loaded is Ok {
        let (t2, io2, b2, n2) = added(t, w.io_added, b, w.status, w.ids);
        if n2 is Start {
            let up = now.with_device(l, b2.device);
            lemma_changed_stack(t, up, id);
            assert(t2.stack(id) == Some(up));
            let j = w.stacks_started.stack(id)->0;
            assert(j == up.with_state(l, j.levels[l].state));
            lemma_level_state(w.stacks_started, id, l, LevelState::Failed);
            if w.started == Ok::<Status, KError>(Status::Success) {
                let f = w.stacks_after.stack(id)->0;
                assert(is_up(f.levels[l]));
                assert(half_way(was, f, from_level as int, l + 1)) by {
                    assert forall|k: int| from_level <= k < l + 1 implies is_up(#[trigger] f.levels[k]) by {
                        if k < l {
                            assert(is_up(now.levels[k]));
                        }
                    }
                    assert forall|k: int| 0 <= k < from_level || l + 1 < k < f.levels.len() implies (#[trigger] f.levels[k])
                        == was.levels[k] by {
                        assert(now.levels[k] == was.levels[k]);
                    }
                }
                if l + 1 < was.levels.len() {
                    assert(now.levels[l + 1] == was.levels[l + 1]);
                    assert(was.levels[l + 1].device is None);
                }
            }
        }
    }
}

/// A stack whose levels from one on hold no device is brought up from there. Where that stops at a
/// level, because nothing is there to build on, its driver cannot be loaded or does not add exactly one
/// device, or the device does not start, the level has failed, every level between is up, and those
/// above it and those below the first are as they were. Where nothing stops it, all of them are up.
pub proof fn law_brought_up(t: Stacks, io: Io, id: u64, from_level: usize, world: Seq<LevelRun>, n: nat)
    requires
        t.stack(id) matches Some(was) && was.levels.len() <= usize::MAX && from_level <= was.levels.len() && forall|j: int|
            from_level <= j < was.levels.len() ==> (#[trigger] was.levels[j]).device is None,
        n <= world.len(),
        forall|k: int| 0 <= k < n ==> ({
            let (s, _, b, _) = walked(t, io, id, from_level, t.stack(id)->0.levels.len() as usize, world, k as nat);
            lets_be(s, b, #[trigger] world[k])
        }),
    ensures
        ({
            let was = t.stack(id)->0;
            let (s, _, b, next) = walked(t, io, id, from_level, was.levels.len() as usize, world, n);
            &&& s.stack(id) matches Some(now) && half_way(was, now, from_level as int, b.level as int) && (next is Failed
                && b.level < was.levels.len() ==> now.levels[b.level as int].state == LevelState::Failed)
            &&& next is Complete ==> b.level == was.levels.len()
            &&& next is Load || next is Complete || next is Failed || next is Gone
            &&& next is Load ==> b.level == from_level + n
        }),
    decreases n,
{
    lemma_named(t, id);
    lemma_on_the_way(t, io, id, from_level, world, n);
}

proof fn lemma_on_the_way(t: Stacks, io: Io, id: u64, from_level: usize, world: Seq<LevelRun>, n: nat)
    requires
        t.stack(id) matches Some(was) && was.levels.len() <= usize::MAX && from_level <= was.levels.len() && forall|j: int|
            from_level <= j < was.levels.len() ==> (#[trigger] was.levels[j]).device is None,
        n <= world.len(),
        forall|k: int| 0 <= k < n ==> ({
            let (s, _, b, _) = walked(t, io, id, from_level, t.stack(id)->0.levels.len() as usize, world, k as nat);
            lets_be(s, b, #[trigger] world[k])
        }),
    ensures
        ({
            let was = t.stack(id)->0;
            let (s, _, b, next) = walked(t, io, id, from_level, was.levels.len() as usize, world, n);
            &&& on_the_way(was, s, b, next, from_level)
            &&& next is Load ==> b.level == from_level + n
        }),
    decreases n,
{
    let was = t.stack(id)->0;
    let levels = was.levels.len() as usize;
    lemma_named(t, id);
    if n == 0 {
        lemma_level_state(t, id, from_level as int, LevelState::Failed);
    } else {
        lemma_on_the_way(t, io, id, from_level, world, (n - 1) as nat);
        let (s, io1, b, next) = walked(t, io, id, from_level, levels, world, (n - 1) as nat);
        if next is Load {
            assert(lets_be(s, b, world[n - 1]));
            lemma_level_walked(was, s, io1, b, world[n - 1], from_level);
        }
    }
}

/// A device on a level of a stack that has started makes the level a started one, and changes nothing
/// else of any stack.
pub proof fn law_started_level(t: Stacks, io: Io, d: DeviceObjectK, is_child: bool)
    requires
        d.stack is Some,
    ensures
        ({
            let r = io.start_answered(d, is_child, Status::Success);
            let (id, level) = d.stack->0;
            t.effects(r.log, io.log.len() as int, r.log.len() as int) == t.level_state(
                id, level as int, LevelState::Started)
        }),
{
    let r = io.start_answered(d, is_child, Status::Success);
    let n = io.log.len() as int;
    assert(r.log.len() == n + 1);
    assert(t.effects(r.log, n, n) == t);
    assert(t.effects(r.log, n, n + 1) == t.effects(r.log, n, n).effect(r.log[n]));
}

/// How the driver of a level is come by.
pub enum DriverSource {
    /// It is loaded already.
    Loaded(u64),
    /// Its image is to be loaded from a path.
    Image(Text),
}

/// Finds out how to come by a driver: one that goes by the name already is used, and the configuration
/// says where the image of any other is. `bytes` are the bytes of the name.
pub fn load_driver_by_name(io: &IoSystem, conf: &BootConfig, name: &Text, bytes: &Vec<u8>)
    -> (r: Result<DriverSource, KError>)
    ensures
        match driver::find_name(io@.driver_names, 0, bytes@) {
            Some(d) => r == Ok::<DriverSource, KError>(DriverSource::Loaded(d)),
            None => match config::path_of(config::info_views(conf.drivers@), 0, name@) {
                Some(p) => r matches Ok(DriverSource::Image(path)) && path@ == p,
                None => r == Err::<DriverSource, KError>(KError::InvalidArgument),
            },
        },
{
    if let Some(d) = io.driver_by_name(bytes) {
        return Ok(DriverSource::Loaded(d));
    }
    match conf.get_driver_path(name) {
        Some(path) => Ok(DriverSource::Image(path)),
        None => Err(KError::InvalidArgument),
    }
}

/// The stacks once the first `n` of those that the configuration has for the root device have been
/// begun.
pub open spec fn roots_started(t: Stacks, conf: &BootConfig, roots: Seq<usize>, n: nat) -> Stacks
    decreases n,
{
    if n == 0 {
        t
    } else {
        let k = roots[n - 1];
        roots_started(t, conf, roots, (n - 1) as nat).started(k, 0, conf.stacks@[k as int].driver_names@.len())
    }
}

impl StackTable {
    /// Begins the stacks that the configuration has for the root device, which are to be brought up in
    /// this order. The root device itself belongs to none of them.
    pub fn load_root_stacks(&mut self, io: &mut IoSystem, conf: &BootConfig) -> (r: Vec<u64>)
        requires
            old(self)@.well_formed(),
            old(io)@.well_formed(),
            old(self).next_id + conf.stacks@.len() < u64::MAX,
        ensures
            exists|roots: Seq<usize>| #[trigger] conf.are_roots(roots) && final(self)@ == roots_started(
                old(self)@, conf, roots, roots.len()) && r@ == Seq::new(
                roots.len(), |i: int| (old(self).next_id + i) as u64),
            final(io)@ == old(io)@,
            final(self)@.well_formed(),
    {
        let ghost t0 = self@;
        let roots: Vec<usize> = conf.root_stacks();
        assert(conf.are_roots(roots@));
        let mut out: Vec<u64> = Vec::new();
        let mut i: usize = 0;
        while i < roots.len()
            invariant
                i <= roots@.len(),
                roots@.len() <= conf.stacks@.len(),
                forall|k: int| 0 <= k < roots@.len() ==> #[trigger] roots@[k] < conf.stacks@.len(),
                self@.well_formed(),
                io@.well_formed(),
                io@ == old(io)@,
                t0.next_id + conf.stacks@.len() < u64::MAX,
                self@.next_id == t0.next_id + i,
                self@ == roots_started(t0, conf, roots@, i as nat),
                out@ == Seq::new(i as nat, |j: int| (t0.next_id + j) as u64),
            decreases roots@.len() - i,
        {
            let k: usize = roots[i];
            assert(roots@[i as int] < conf.stacks@.len());
            let id: u64 = self.start_stack_instance(io, conf, k, 0, false);
            out.push(id);
            i = i + 1;
            assert(out@ =~= Seq::new(i as nat, |j: int| (t0.next_id + j) as u64));
        }
        out
    }
}

} // verus!
