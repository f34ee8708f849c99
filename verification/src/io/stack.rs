use vstd::prelude::*;
use crate::error::KError;
use crate::io::config;
use crate::io::config::{BootConfig, Text};
use crate::io::driver;
use crate::io::driver::{DeviceObjectK, DeviceState, Io, IoEffect, IoSystem, Status, ids_added};
use crate::io::tree;

verus! {

/// The most devices that a bus can report at once.
pub const MAX_ENUMERATE_DEVICES: u64 = 16;

/// The level of a stack's base device, which is below the numbered ones.
pub const BASE_LEVEL: usize = usize::MAX;

/// Where a level of a device stack is in its life.
#[derive(Clone, Copy, Debug, PartialEq, Eq, Structural)]
pub enum LevelState {
    NotStarted,
    Started,
    Stopped,
    Failed,
}

/// A level of a stack and the device on it.
#[derive(Clone, Copy, Debug)]
pub struct LevelInfo {
    pub device: Option<u64>,
    pub state: LevelState,
}

/// Drivers stacked on one base device, one device to a level.
pub struct DeviceStack {
    pub id: u64,
    /// Which description of the configuration it follows.
    pub descriptor: usize,
    pub base_pdo: u64,
    pub levels: Vec<LevelInfo>,
}

#[verifier::ext_equal]
pub struct Instance {
    pub id: u64,
    pub descriptor: usize,
    pub base_pdo: u64,
    pub levels: Seq<LevelInfo>,
}

impl View for DeviceStack {
    type V = Instance;

    open spec fn view(&self) -> Instance {
        Instance { id: self.id, descriptor: self.descriptor, base_pdo: self.base_pdo, levels: self.levels@ }
    }
}

/// Whether a level needs work: it failed, or nothing has been started on it. A stopped level was
/// stopped on purpose.
pub open spec fn incomplete(l: LevelInfo) -> bool {
    l.state == LevelState::Failed || l.state == LevelState::NotStarted
}

pub open spec fn first_incomplete(s: Seq<LevelInfo>, i: int) -> Option<int>
    decreases s.len() - i,
{
    if i < 0 || i >= s.len() {
        None
    } else if incomplete(s[i]) {
        Some(i)
    } else {
        first_incomplete(s, i + 1)
    }
}

impl Instance {
    /// Levels that do not exist cannot change.
    pub open spec fn with_level(self, level: int, l: LevelInfo) -> Instance {
        if 0 <= level < self.levels.len() { Instance { levels: self.levels.update(level, l), ..self } } else { self }
    }

    pub open spec fn with_state(self, level: int, state: LevelState) -> Instance {
        self.with_level(level, LevelInfo { state, ..self.levels[level] })
    }

    pub open spec fn with_device(self, level: int, id: u64) -> Instance {
        self.with_level(level, LevelInfo { device: Some(id), ..self.levels[level] })
    }

    pub open spec fn cleared(self, level: int) -> Instance {
        self.with_level(level, LevelInfo { device: None, state: LevelState::NotStarted })
    }

    pub open spec fn device_at(self, level: int) -> Option<u64> {
        if 0 <= level < self.levels.len() { self.levels[level].device } else { None }
    }

    /// The device that a level builds on, which may be gone.
    pub open spec fn below(self, level: int) -> Option<u64> {
        if level == 0 { Some(self.base_pdo) } else { self.device_at(level - 1) }
    }
}

impl DeviceStack {
    /// A stack with nothing on its levels.
    pub fn new(id: u64, descriptor: usize, base_pdo: u64, levels: usize) -> (r: DeviceStack)
        ensures
            r@ == (Instance {
                id,
                descriptor,
                base_pdo,
                levels: Seq::new(levels as nat, |i: int| LevelInfo { device: None, state: LevelState::NotStarted }),
            }),
    {
        let mut v: Vec<LevelInfo> = Vec::new();
        let mut i: usize = 0;
        while i < levels
            invariant
                i <= levels,
                v@ == Seq::new(i as nat, |i: int| LevelInfo { device: None, state: LevelState::NotStarted }),
            decreases levels - i,
        {
            v.push(LevelInfo { device: None, state: LevelState::NotStarted });
            i = i + 1;
        }
        DeviceStack { id, descriptor, base_pdo, levels: v }
    }

    pub fn set_level_state(&mut self, level: usize, state: LevelState)
        ensures
            final(self)@ == old(self)@.with_state(level as int, state),
    {
        if level < self.levels.len() {
            let l: LevelInfo = self.levels[level];
            self.levels.set(level, LevelInfo { device: l.device, state });
        }
    }

    pub fn set_level_device(&mut self, level: usize, id: u64)
        ensures
            final(self)@ == old(self)@.with_device(level as int, id),
    {
        if level < self.levels.len() {
            let l: LevelInfo = self.levels[level];
            self.levels.set(level, LevelInfo { device: Some(id), state: l.state });
        }
    }

    pub fn level_device(&self, level: usize) -> (r: Option<u64>)
        ensures
            r == self@.device_at(level as int),
    {
        if level < self.levels.len() { self.levels[level].device } else { None }
    }

    /// Forgets the device of a level, so that a later refresh adds one again.
    pub fn clear_level(&mut self, level: usize)
        ensures
            final(self)@ == old(self)@.cleared(level as int),
    {
        if level < self.levels.len() {
            self.levels.set(level, LevelInfo { device: None, state: LevelState::NotStarted });
        }
    }

    /// The lowest level that needs work.
    pub fn first_incomplete_level(&self) -> (r: Option<usize>)
        ensures
            match r {
                Some(l) => first_incomplete(self.levels@, 0) == Some(l as int) && l < self.levels@.len(),
                None => first_incomplete(self.levels@, 0) is None,
            },
    {
        let mut i: usize = 0;
        while i < self.levels.len()
            invariant
                i <= self.levels@.len(),
                first_incomplete(self.levels@, 0) == first_incomplete(self.levels@, i as int),
            decreases self.levels@.len() - i,
        {
            let s: LevelState = self.levels[i].state;
            if s == LevelState::Failed || s == LevelState::NotStarted {
                return Some(i);
            }
            i = i + 1;
        }
        None
    }

    fn below_level(&self, level: usize) -> (r: Option<u64>)
        ensures
            r == self@.below(level as int),
    {
        if level == 0 { Some(self.base_pdo) } else { self.level_device(level - 1) }
    }
}

/// All stacks, oldest first.
pub struct StackTable {
    pub stacks: Vec<DeviceStack>,
    pub next_id: u64,
}

#[verifier::ext_equal]
pub struct Stacks {
    pub stacks: Seq<Instance>,
    pub next_id: u64,
}

pub open spec fn instances(v: Seq<DeviceStack>) -> Seq<Instance> {
    Seq::new(v.len(), |i: int| v[i]@)
}

impl View for StackTable {
    type V = Stacks;

    open spec fn view(&self) -> Stacks {
        Stacks { stacks: instances(self.stacks@), next_id: self.next_id }
    }
}

pub open spec fn find_stack(s: Seq<Instance>, i: int, id: u64) -> Option<int>
    decreases s.len() - i,
{
    if i < 0 || i >= s.len() {
        None
    } else if s[i].id == id {
        Some(i)
    } else {
        find_stack(s, i + 1, id)
    }
}

impl Stacks {
    /// No two stacks share an id.
    pub open spec fn well_formed(self) -> bool {
        &&& forall|i: int, j: int| 0 <= i < j < self.stacks.len() ==> (#[trigger] self.stacks[i]).id != (
            #[trigger] self.stacks[j]).id
        &&& forall|i: int| 0 <= i < self.stacks.len() ==> (#[trigger] self.stacks[i]).id < self.next_id
    }

    pub open spec fn stack(self, id: u64) -> Option<Instance> {
        match find_stack(self.stacks, 0, id) { Some(i) => Some(self.stacks[i]), None => None }
    }

    /// The stack with the id of `t` becomes `t`.
    pub open spec fn with_stack(self, t: Instance) -> Stacks {
        match find_stack(self.stacks, 0, t.id) {
            Some(i) => Stacks { stacks: self.stacks.update(i, t), ..self },
            None => self,
        }
    }

    pub open spec fn level_state(self, id: u64, level: int, state: LevelState) -> Stacks {
        match self.stack(id) { Some(t) => self.with_stack(t.with_state(level, state)), None => self }
    }

    pub open spec fn level_cleared(self, id: u64, level: int) -> Stacks {
        match self.stack(id) { Some(t) => self.with_stack(t.cleared(level)), None => self }
    }

    pub open spec fn level_occupied(self, id: u64, level: int, device: u64) -> Stacks {
        match self.stack(id) { Some(t) => self.with_stack(t.with_device(level, device)), None => self }
    }

    pub open spec fn without(self, id: u64) -> Stacks {
        match find_stack(self.stacks, 0, id) {
            Some(i) => Stacks { stacks: self.stacks.remove(i), ..self },
            None => self,
        }
    }

    /// A device has left a stack. Without its base device the stack is gone, any other device leaves
    /// its level empty.
    pub open spec fn device_left(self, id: u64, level: usize) -> Stacks {
        if level == BASE_LEVEL { self.without(id) } else { self.level_cleared(id, level as int) }
    }

    pub open spec fn effect(self, e: IoEffect) -> Stacks {
        match e {
            IoEffect::Dispatch { .. } => self,
            IoEffect::LevelChanged { stack, level, state } => self.level_state(stack, level as int, state),
            IoEffect::DeviceLeft { stack, level } => self.device_left(stack, level),
        }
    }

    /// What the entries `a..b` of a log make of the stacks.
    pub open spec fn effects(self, log: Seq<IoEffect>, a: int, b: int) -> Stacks
        decreases b - a,
    {
        if b <= a { self } else { self.effects(log, a, b - 1).effect(log[b - 1]) }
    }

    pub open spec fn started(self, descriptor: usize, base: u64, levels: nat) -> Stacks {
        Stacks {
            stacks: self.stacks.push(Instance {
                id: self.next_id,
                descriptor,
                base_pdo: base,
                levels: Seq::new(levels, |i: int| LevelInfo { device: None, state: LevelState::NotStarted }),
            }),
            next_id: (self.next_id + 1) as u64,
        }
    }

    /// The registered device that a level of a stack builds on.
    pub open spec fn parent_for(self, io: Io, id: u64, level: int) -> Option<u64> {
        match self.stack(id) {
            None => None,
            Some(t) => match t.below(level) {
                Some(p) => if io.device(p) is Some { Some(p) } else { None },
                None => None,
            },
        }
    }
}

pub proof fn lemma_stack_found(s: Seq<Instance>, i: int, id: u64)
    requires
        0 <= i,
    ensures
        match find_stack(s, i, id) {
            Some(k) => i <= k < s.len() && s[k].id == id,
            None => forall|k: int| i <= k < s.len() ==> (#[trigger] s[k]).id != id,
        },
    decreases s.len() - i,
{
    if i < s.len() {
        lemma_stack_found(s, i + 1, id);
    }
}

impl StackTable {
    pub fn new() -> (r: StackTable)
        ensures
            r@ == (Stacks { stacks: Seq::empty(), next_id: 0 }),
            r@.well_formed(),
    {
        StackTable { stacks: Vec::new(), next_id: 0 }
    }

    pub fn index_of(&self, id: u64) -> (r: Option<usize>)
        ensures
            match r {
                Some(i) => find_stack(self@.stacks, 0, id) == Some(i as int) && i < self.stacks@.len()
                    && self.stacks@[i as int].id == id,
                None => find_stack(self@.stacks, 0, id) is None,
            },
    {
        let mut i: usize = 0;
        while i < self.stacks.len()
            invariant
                i <= self.stacks@.len(),
                find_stack(self@.stacks, 0, id) == find_stack(self@.stacks, i as int, id),
            decreases self.stacks@.len() - i,
        {
            if self.stacks[i].id == id {
                return Some(i);
            }
            i = i + 1;
        }
        None
    }

    pub fn set_state(&mut self, id: u64, level: usize, state: LevelState)
        requires
            old(self)@.well_formed(),
        ensures
            final(self)@ == old(self)@.level_state(id, level as int, state),
            final(self)@.well_formed(),
    {
        let ghost v0 = self@.stacks;
        if let Some(i) = self.index_of(id) {
            self.stacks[i].set_level_state(level, state);
            assert(self@.stacks =~= v0.update(i as int, v0[i as int].with_state(level as int, state)));
        }
    }

    fn clear(&mut self, id: u64, level: usize)
        requires
            old(self)@.well_formed(),
        ensures
            final(self)@ == old(self)@.level_cleared(id, level as int),
            final(self)@.well_formed(),
    {
        let ghost v0 = self@.stacks;
        if let Some(i) = self.index_of(id) {
            self.stacks[i].clear_level(level);
            assert(self@.stacks =~= v0.update(i as int, v0[i as int].cleared(level as int)));
        }
    }

    fn occupy(&mut self, id: u64, level: usize, device: u64)
        requires
            old(self)@.well_formed(),
        ensures
            final(self)@ == old(self)@.level_occupied(id, level as int, device),
            final(self)@.well_formed(),
    {
        let ghost v0 = self@.stacks;
        if let Some(i) = self.index_of(id) {
            self.stacks[i].set_level_device(level, device);
            assert(self@.stacks =~= v0.update(i as int, v0[i as int].with_device(level as int, device)));
        }
    }

    pub fn remove_instance(&mut self, id: u64)
        requires
            old(self)@.well_formed(),
        ensures
            final(self)@ == old(self)@.without(id),
            final(self)@.well_formed(),
    {
        let ghost v0 = self@.stacks;
        if let Some(i) = self.index_of(id) {
            let _ = self.stacks.remove(i);
            assert(self@.stacks =~= v0.remove(i as int));
            let ghost v1 = self@.stacks;
            assert forall|a: int, b: int| 0 <= a < b < v1.len() implies (#[trigger] v1[a]).id != (#[trigger] v1[b]).id by {
                let c = if a < i { a } else { a + 1 };
                let d = if b < i { b } else { b + 1 };
                assert(v0[c].id != v0[d].id);
            }
            assert forall|a: int| 0 <= a < v1.len() implies (#[trigger] v1[a]).id < self.next_id by {
                let c = if a < i { a } else { a + 1 };
                assert(v0[c].id < self.next_id);
            }
        }
    }

    /// Called once a device that belongs to a stack is gone.
    pub fn on_device_removed(&mut self, stack: u64, level: usize)
        requires
            old(self)@.well_formed(),
        ensures
            final(self)@ == old(self)@.device_left(stack, level),
            final(self)@.well_formed(),
    {
        if level == BASE_LEVEL {
            self.remove_instance(stack);
        } else {
            self.clear(stack, level);
        }
    }

    /// Takes up what the device tree has logged from an index on.
    pub fn take_effects(&mut self, io: &IoSystem, from: usize)
        requires
            old(self)@.well_formed(),
            from <= io.log@.len(),
        ensures
            final(self)@ == old(self)@.effects(io.log@, from as int, io.log@.len() as int),
            final(self)@.well_formed(),
    {
        let mut i: usize = from;
        while i < io.log.len()
            invariant
                from <= i <= io.log@.len(),
                self@.well_formed(),
                self@ == old(self)@.effects(io.log@, from as int, i as int),
            decreases io.log@.len() - i,
        {
            match io.log[i] {
                IoEffect::Dispatch { .. } => {},
                IoEffect::LevelChanged { stack, level, state } => {
                    self.set_state(stack, level, state);
                },
                IoEffect::DeviceLeft { stack, level } => {
                    self.on_device_removed(stack, level);
                },
            }
            i = i + 1;
        }
    }

    /// Makes a stack on a base device. The root device is the base of many stacks and part of none.
    pub fn start_stack_instance(
        &mut self,
        io: &mut IoSystem,
        conf: &BootConfig,
        descriptor: usize,
        base: u64,
        attach_base: bool,
    ) -> (r: u64)
        requires
            old(self)@.well_formed(),
            old(self).next_id < u64::MAX,
            old(io)@.well_formed(),
            descriptor < conf.stacks@.len(),
            attach_base ==> old(io)@.device(base) is Some && old(io)@.device(base)->0.stack is None,
        ensures
            r == old(self).next_id,
            final(self)@ == old(self)@.started(
                descriptor, base, conf.stacks@[descriptor as int].driver_names@.len()),
            final(io)@ == (if attach_base {
                old(io)@.with_device(DeviceObjectK { stack: Some((r, BASE_LEVEL)), ..old(io)@.device(base)->0 })
            } else {
                old(io)@
            }),
            final(self)@.well_formed(),
            final(io)@.well_formed(),
    {
        let ghost v0 = self@.stacks;
        let id: u64 = self.next_id;
        let t: DeviceStack = DeviceStack::new(id, descriptor, base, conf.stacks[descriptor].driver_names.len());
        let ghost tv = t@;
        if attach_base {
            io.set_stack(base, id, BASE_LEVEL);
        }
        self.stacks.push(t);
        self.next_id = id + 1;
        assert(self@.stacks =~= v0.push(tv));
        id
    }

    /// The registered device that a level builds on.
    pub fn parent_for_level(&self, io: &IoSystem, id: u64, level: usize) -> (r: Option<u64>)
        ensures
            r == self@.parent_for(io@, id, level as int),
    {
        match self.index_of(id) {
            None => None,
            Some(i) => match self.stacks[i].below_level(level) {
                Some(p) => if io.get_device(p).is_some() { Some(p) } else { None },
                None => None,
            },
        }
    }

    /// The first stack from an index on that needs work, of those in a snapshot, and the level to go
    /// on from.
    pub fn do_refresh_device_tree(&self, snapshot: &Vec<u64>, from: usize) -> (r: Option<(usize, usize)>)
        ensures
            r == next_incomplete(self@, snapshot@, from as int),
    {
        let mut i: usize = from;
        while i < snapshot.len()
            invariant
                from <= i,
                next_incomplete(self@, snapshot@, from as int) == next_incomplete(self@, snapshot@, i as int),
            decreases snapshot@.len() - i,
        {
            if let Some(k) = self.index_of(snapshot[i]) {
                if let Some(level) = self.stacks[k].first_incomplete_level() {
                    return Some((i, level));
                }
            }
            i = i + 1;
        }
        None
    }
}

/// Where, from an index of a snapshot on, the first stack with an incomplete level is, and which
/// level that is.
pub open spec fn next_incomplete(t: Stacks, snapshot: Seq<u64>, i: int) -> Option<(usize, usize)>
    decreases snapshot.len() - i,
{
    if i < 0 || i >= snapshot.len() {
        None
    } else {
        match t.stack(snapshot[i]) {
            Some(s) => match first_incomplete(s.levels, 0) {
                Some(l) => Some((i as usize, l as usize)),
                None => next_incomplete(t, snapshot, i + 1),
            },
            None => next_incomplete(t, snapshot, i + 1),
        }
    }
}

impl Stacks {
    /// A level with nothing left over from an earlier attempt, together with the device tree.
    pub open spec fn level_prepared(self, io: Io, id: u64, level: int) -> (Stacks, Io) {
        match self.stack(id) {
            None => (self, io),
            Some(t) => match t.device_at(level) {
                None => (self, io),
                Some(d) => {
                    let io1 = io.removed(d);
                    let s1 = self.effects(io1.log, io.log.len() as int, io1.log.len() as int);
                    (s1.level_cleared(id, level), io1)
                },
            },
        }
    }

    /// The outcome of a driver's adding a device to a level. Exactly one device is expected.
    pub open spec fn device_added(self, io: Io, id: u64, level: int, status: Status, added: Seq<u64>)
        -> (Stacks, Io, Option<u64>)
    {
        if status != Status::Success || added.len() != 1 {
            (self.level_state(id, level, LevelState::Failed), io, None)
        } else {
            match io.device(added[0]) {
                None => (self, io, None),
                Some(d) => (
                    self.level_occupied(id, level, added[0]),
                    io.with_device(DeviceObjectK { stack: Some((id, level as usize)), ..d }),
                    Some(added[0]),
                ),
            }
        }
    }
}

impl StackTable {
    /// Looks up the device that a level builds on. Without one the level has failed.
    pub fn find_parent(&mut self, io: &IoSystem, id: u64, from_level: usize) -> (r: Option<u64>)
        requires
            old(self)@.well_formed(),
        ensures
            r == old(self)@.parent_for(io@, id, from_level as int),
            final(self)@ == (if r is Some {
                old(self)@
            } else {
                old(self)@.level_state(id, from_level as int, LevelState::Failed)
            }),
            final(self)@.well_formed(),
    {
        let p: Option<u64> = self.parent_for_level(io, id, from_level);
        if p.is_none() {
            self.set_state(id, from_level, LevelState::Failed);
        }
        p
    }

    /// Removes a device that an earlier attempt has left on a level.
    pub fn prepare_level(&mut self, io: &mut IoSystem, id: u64, level: usize)
        requires
            old(self)@.well_formed(),
            old(io)@.well_formed(),
            old(self)@.stack(id) matches Some(t) ==> t.device_at(level as int) != Some(0u64),
        ensures
            (final(self)@, final(io)@) == old(self)@.level_prepared(old(io)@, id, level as int),
            final(self)@.well_formed(),
            final(io)@.well_formed(),
    {
        if let Some(i) = self.index_of(id) {
            if let Some(d) = self.stacks[i].level_device(level) {
                let from: usize = io.log.len();
                proof {
                    driver::law_removed_log(io@, d);
                }
                io.remove_device(d);
                self.take_effects(io, from);
                self.clear(id, level);
            }
        }
    }

    /// Takes the outcome of loading a level's driver. Without a driver the level has failed.
    pub fn driver_loaded(&mut self, id: u64, level: usize, loaded: Result<u64, KError>) -> (r: Option<u64>)
        requires
            old(self)@.well_formed(),
        ensures
            r == (match loaded { Ok(d) => Some(d), Err(_) => None }),
            final(self)@ == (if loaded is Ok {
                old(self)@
            } else {
                old(self)@.level_state(id, level as int, LevelState::Failed)
            }),
            final(self)@.well_formed(),
    {
        match loaded {
            Ok(d) => Some(d),
            Err(_) => {
                self.set_state(id, level, LevelState::Failed);
                None
            },
        }
    }

    /// Takes a driver's answer to being asked to add a device, and the devices that have appeared
    /// below the parent. Gives the device to be started.
    pub fn device_added(&mut self, io: &mut IoSystem, id: u64, level: usize, status: Status, added: &Vec<u64>)
        -> (r: Option<u64>)
        requires
            old(self)@.well_formed(),
            old(io)@.well_formed(),
            status == Status::Success && added@.len() == 1 ==> (old(io)@.device(added@[0]) matches Some(d)
                ==> !d.is_class_device && d.stack is None),
        ensures
            (final(self)@, final(io)@, r) == old(self)@.device_added(old(io)@, id, level as int, status, added@),
            final(self)@.well_formed(),
            final(io)@.well_formed(),
    {
        if status != Status::Success || added.len() != 1 {
            self.set_state(id, level, LevelState::Failed);
            return None;
        }
        let fdo: u64 = added[0];
        if io.get_device(fdo).is_none() {
            return None;
        }
        io.set_stack(fdo, id, level);
        self.occupy(id, level, fdo);
        Some(fdo)
    }

    /// Takes the outcome of starting a level's device. Whether its children are to be looked for and
    /// the next level brought up.
    pub fn device_started(&mut self, id: u64, level: usize, started: Result<Status, KError>) -> (r: bool)
        requires
            old(self)@.well_formed(),
        ensures
            r == (started == Ok::<Status, KError>(Status::Success)),
            final(self)@ == (if r {
                old(self)@
            } else {
                old(self)@.level_state(id, level as int, LevelState::Failed)
            }),
            final(self)@.well_formed(),
    {
        if let Ok(s) = started {
            if s == Status::Success {
                return true;
            }
        }
        self.set_state(id, level, LevelState::Failed);
        false
    }

    /// Starts a stack on a device that a bus has reported, if the configuration describes one for the
    /// id that the bus gave it.
    pub fn detect(&mut self, io: &mut IoSystem, conf: &BootConfig, pdo: u64, match_id: &Option<Text>)
        -> (r: Option<u64>)
        requires
            old(self)@.well_formed(),
            old(self).next_id < u64::MAX,
            old(io)@.well_formed(),
            old(io)@.device(pdo) is Some,
            old(io)@.device(pdo)->0.stack is None,
        ensures
            match description_for(conf, *match_id) {
                None => r is None && final(self)@ == old(self)@ && final(io)@ == old(io)@,
                Some(k) => {
                    &&& r == Some(old(self).next_id)
                    &&& final(self)@ == old(self)@.started(
                        k as usize, pdo, conf.stacks@[k].driver_names@.len())
                    &&& final(io)@ == old(io)@.with_device(
                        DeviceObjectK { stack: Some((r->0, BASE_LEVEL)), ..old(io)@.device(pdo)->0 })
                },
            },
            final(self)@.well_formed(),
            final(io)@.well_formed(),
    {
        match match_id {
            None => None,
            Some(m) => {
                if m.len() == 0 {
                    return None;
                }
                match conf.find_descriptor(m) {
                    Some(k) => Some(self.start_stack_instance(io, conf, k, pdo, true)),
                    None => None,
                }
            },
        }
    }
}

/// The description of the stack for an id. An empty id is none.
pub open spec fn description_for(conf: &BootConfig, match_id: Option<Text>) -> Option<int> {
    match match_id {
        None => None,
        Some(m) => if m@.len() == 0 {
            None
        } else {
            config::stack_for(config::stack_views(conf.stacks@), 0, m@)
        },
    }
}

/// The id that a device has given when it was asked for it. Without a device that answers, or with an
/// empty answer, there is none.
pub fn query_id(reply: Result<Status, KError>, id: Text) -> (r: Option<Text>)
    ensures
        r == (if reply == Ok::<Status, KError>(Status::Success) && id@.len() > 0 { Some(id) } else { None }),
{
    match reply {
        Ok(Status::Success) => if id.len() > 0 { Some(id) } else { None },
        _ => None,
    }
}

/// The ids that a bus has written into the first part of its buffer.
pub fn parse_enumerate_buffer(ids: &Vec<u64>, base_address: u64, bytes_completed: u64) -> (r: Vec<u64>)
    requires
        bytes_completed / 8 <= ids@.len(),
    ensures
        r@ == (if bytes_completed == 0 || base_address == 0 {
            Seq::empty()
        } else {
            ids@.take((bytes_completed / 8) as int)
        }),
{
    let mut out: Vec<u64> = Vec::new();
    if bytes_completed == 0 || base_address == 0 {
        return out;
    }
    let count: u64 = bytes_completed / 8;
    let mut i: usize = 0;
    while i < ids.len() && (i as u64) < count
        invariant
            i <= count <= ids@.len(),
            out@ == ids@.take(i as int),
        decreases count - i,
    {
        out.push(ids[i]);
        assert(ids@.take(i + 1) =~= ids@.take(i as int).push(ids@[i as int]));
        i = i + 1;
    }
    out
}

/// The device tree and the devices to adopt, once a bus has reported what is on it now: those that
/// are gone have been removed.
pub open spec fn reconciled(io: Io, fdo: u64, reply: Result<Status, KError>, reported: Seq<u64>) -> (Io, Seq<u64>) {
    if reply != Ok::<Status, KError>(Status::Success) {
        (io, Seq::empty())
    } else {
        let known = io.children(fdo);
        let gone = driver::not_among(known, known.len(), reported);
        (io.each_removed(gone, gone.len()), driver::not_among(reported, reported.len(), known))
    }
}

/// Compares what a bus reports with its children. Children that are gone are removed, and the ids of
/// new ones are given back.
pub fn enumerate_and_detect(io: &mut IoSystem, fdo: u64, reply: Result<Status, KError>, reported: &Vec<u64>)
    -> (r: Vec<u64>)
    requires
        old(io)@.well_formed(),
    ensures
        (final(io)@, r@) == reconciled(old(io)@, fdo, reply, reported@),
        final(io)@.well_formed(),
{
    let ok: bool = match reply {
        Ok(s) => s == Status::Success,
        Err(_) => false,
    };
    if !ok {
        return Vec::new();
    }
    let known: Vec<u64> = io.children_snapshot(fdo);
    let added: Vec<u64> = ids_added(reported, &known);
    let gone: Vec<u64> = ids_added(&known, reported);
    proof {
        driver::lemma_not_among_from(known@, known@.len(), reported@);
    }
    let ghost s0 = io@;
    assert forall|k: int| 0 <= k < gone@.len() implies #[trigger] gone@[k] != 0 by {
        let j = choose|j: int| 0 <= j < known@.len() && known@[j] == gone@[k];
        assert(tree::hangs(io.edges@, fdo, known@[j]));
    }
    let mut i: usize = 0;
    while i < gone.len()
        invariant
            i <= gone@.len(),
            io@.well_formed(),
            io@ == s0.each_removed(gone@, i as nat),
            forall|k: int| 0 <= k < gone@.len() ==> #[trigger] gone@[k] != 0,
        decreases gone@.len() - i,
    {
        assert(gone@[i as int] != 0);
        io.remove_device(gone[i]);
        i = i + 1;
    }
    added
}

/// A bus may report a device: if it is registered it is not the root, no class device, and nothing that
/// the bus itself hangs below.
pub open spec fn can_hang(io: Io, fdo: u64, id: u64) -> bool {
    &&& fdo < io.next_device_id
    &&& io.device(id) matches Some(d) ==> id != 0 && !d.is_class_device && !tree::under(io.edges, id, fdo)
}

/// A newly reported device hangs below its bus and counts as started. One with a name stays as it is.
pub open spec fn adopted(io: Io, fdo: u64, id: u64) -> Io {
    let t = io.attached(fdo, id);
    if t.device(id)->0.has_name {
        t
    } else {
        t.with_device(DeviceObjectK { is_pdo: true, state: DeviceState::Started, ..t.device(id)->0 })
    }
}

/// Hangs a newly reported device below its bus and marks it as started. The bus must not hang below the
/// device. Whether there is such a device.
pub fn adopt_pdo(io: &mut IoSystem, fdo: u64, id: u64) -> (r: bool)
    requires
        old(io)@.well_formed(),
        can_hang(old(io)@, fdo, id),
    ensures
        r == (old(io)@.device(id) is Some),
        !r ==> final(io)@ == old(io)@,
        r ==> old(io)@.attached(fdo, id).device(id) is Some && final(io)@ == adopted(old(io)@, fdo, id),
        final(io)@.well_formed(),
{
    if io.get_device(id).is_none() {
        return false;
    }
    let ghost s0 = io@;
    proof {
        driver::lemma_device_found(io.devices@, 0, id);
    }
    io.attach_child(fdo, id);
    proof {
        driver::lemma_attached_device(s0, fdo, id);
    }
    let _ = io.mark_started_pdo(id);
    true
}

proof fn lemma_first_incomplete(s: Seq<LevelInfo>, i: int)
    requires
        0 <= i,
    ensures
        match first_incomplete(s, i) {
            Some(k) => i <= k < s.len() && incomplete(s[k]) && forall|j: int| i <= j < k ==> !incomplete(#[trigger] s[j]),
            None => forall|j: int| i <= j < s.len() ==> !incomplete(#[trigger] s[j]),
        },
    decreases s.len() - i,
{
    if i < s.len() && !incomplete(s[i]) {
        lemma_first_incomplete(s, i + 1);
    }
}

/// Work is taken up at the lowest level of a stack that failed or was never started. A level that was
/// stopped on purpose is not started again for it.
pub proof fn law_stopped_stays_stopped(t: Stacks, snapshot: Seq<u64>, i: int)
    requires
        0 <= i,
        snapshot.len() <= usize::MAX,
        forall|id: u64| (#[trigger] t.stack(id)) matches Some(s) ==> s.levels.len() <= usize::MAX,
    ensures
        next_incomplete(t, snapshot, i) matches Some((k, level)) ==> {
            &&& i <= k < snapshot.len()
            &&& t.stack(snapshot[k as int]) matches Some(s) && level < s.levels.len() && (s.levels[level as int].state
                == LevelState::Failed || s.levels[level as int].state == LevelState::NotStarted) && forall|j: int|
                0 <= j < level ==> (#[trigger] s.levels[j]).state != LevelState::Failed && s.levels[j].state
                    != LevelState::NotStarted
        },
    decreases snapshot.len() - i,
{
    if i < snapshot.len() {
        if let Some(s) = t.stack(snapshot[i]) {
            lemma_first_incomplete(s.levels, 0);
        }
        law_stopped_stays_stopped(t, snapshot, i + 1);
    }
}

} // verus!
