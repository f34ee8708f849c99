//! What becomes of the devices that a bus reports: those that are gone are removed, new ones are hung
//! below the bus, asked for their id, and get a stack if the configuration describes one for it.

use vstd::prelude::*;
use crate::error::KError;
use crate::io::config::{BootConfig, Text};
use crate::io::driver;
use crate::io::driver::{DeviceObjectK, Io, IoSystem, Status};
use crate::io::stack;
use crate::io::tree;
use crate::io::tree::Edge;
use crate::io::stack::{BASE_LEVEL, Instance, LevelInfo, LevelState, StackTable, Stacks, adopt_pdo, enumerate_and_detect, query_id};

verus! {

/// New devices of a bus that are being taken up.
pub struct Adopting {
    pub fdo: u64,
    /// Those that are still to be taken up, the next one first.
    pub ahead: Vec<u64>,
}

/// A bus may report each of some devices.
pub open spec fn all_can_hang(io: Io, fdo: u64, ids: Seq<u64>) -> bool {
    forall|i: int| 0 <= i < ids.len() ==> stack::can_hang(io, fdo, #[trigger] ids[i])
}

/// The first of some devices, from `i` on, that is registered.
pub open spec fn first_there(io: Io, ids: Seq<u64>, i: int) -> Option<int>
    decreases ids.len() - i,
{
    if i < 0 || i >= ids.len() {
        None
    } else if io.device(ids[i]) is Some {
        Some(i)
    } else {
        first_there(io, ids, i + 1)
    }
}

/// Takes in what a bus has reported. Those of its children that it no longer reports are removed, along
/// with what they have to do with stacks, before any new one is taken up.
pub fn begin_adopting(stacks: &mut StackTable, io: &mut IoSystem, fdo: u64, reply: Result<Status, KError>,
    reported: &Vec<u64>) -> (r: Adopting)
    requires
        old(stacks)@.well_formed(),
        old(io)@.well_formed(),
    ensures
        r.fdo == fdo,
        (final(io)@, r.ahead@) == stack::reconciled(old(io)@, fdo, reply, reported@),
        final(stacks)@ == old(stacks)@.effects(final(io).log@, old(io).log@.len() as int, final(io).log@.len() as int),
        all_can_hang(old(io)@, fdo, reported@) ==> all_can_hang(final(io)@, fdo, r.ahead@),
        final(stacks)@.well_formed(),
        final(io)@.well_formed(),
{
    let from: usize = io.log.len();
    proof {
        lemma_reconciled_log(io@, fdo, reply, reported@);
    }
    let ahead: Vec<u64> = enumerate_and_detect(io, fdo, reply, reported);
    proof {
        lemma_reconciled_can_hang(old(io)@, fdo, reply, reported@);
    }
    stacks.take_effects(io, from);
    Adopting { fdo, ahead }
}

/// Removing devices only adds to the log.
proof fn lemma_each_removed_log(io: Io, ids: Seq<u64>, n: nat)
    ensures
        io.each_removed(ids, n).log.len() >= io.log.len(),
    decreases n,
{
    if n > 0 {
        lemma_each_removed_log(io, ids, (n - 1) as nat);
        driver::law_removed_log(io.each_removed(ids, (n - 1) as nat), ids[n - 1]);
    }
}

proof fn lemma_reconciled_log(io: Io, fdo: u64, reply: Result<Status, KError>, reported: Seq<u64>)
    ensures
        stack::reconciled(io, fdo, reply, reported).0.log.len() >= io.log.len(),
{
    let known = io.children(fdo);
    let gone = driver::not_among(known, known.len(), reported);
    lemma_each_removed_log(io, gone, gone.len());
}

/// What has been removed does not stand in the way of what hangs below something.
proof fn lemma_each_removed_hangs(io: Io, ids: Seq<u64>, n: nat)
    requires
        io.well_formed(),
    ensures
        ({
            let t = io.each_removed(ids, n);
            &&& driver::settled(t)
            &&& tree::part_of(t.edges, io.edges)
            &&& tree::acyclic(t.edges)
            &&& t.next_device_id == io.next_device_id
            &&& forall|o: u64| (#[trigger] t.device(o)) is None || t.device(o) == io.device(o)
        }),
    decreases n,
{
    if n > 0 {
        lemma_each_removed_hangs(io, ids, (n - 1) as nat);
        let t = io.each_removed(ids, (n - 1) as nat);
        let u = io.each_removed(ids, n);
        driver::lemma_removed_is_gone(t, ids[n - 1]);
        tree::lemma_part_acyclic(t.edges, u.edges);
        assert forall|o: u64| (#[trigger] u.device(o)) is None || u.device(o) == io.device(o) by {
            assert(t.device(o) is None || t.device(o) == io.device(o));
        }
    }
}

proof fn lemma_reconciled_can_hang(io: Io, fdo: u64, reply: Result<Status, KError>, reported: Seq<u64>)
    requires
        io.well_formed(),
    ensures
        ({
            let (io1, new) = stack::reconciled(io, fdo, reply, reported);
            all_can_hang(io, fdo, reported) ==> all_can_hang(io1, fdo, new)
        }),
{
    let known = io.children(fdo);
    let gone = driver::not_among(known, known.len(), reported);
    let (io1, new) = stack::reconciled(io, fdo, reply, reported);
    if reply == Ok::<Status, KError>(Status::Success) && all_can_hang(io, fdo, reported) {
        lemma_each_removed_hangs(io, gone, gone.len());
        driver::lemma_not_among_from(reported, reported.len(), known);
        assert forall|i: int| 0 <= i < new.len() implies stack::can_hang(io1, fdo, #[trigger] new[i]) by {
            let k = choose|k: int| 0 <= k < reported.len() && reported[k] == new[i];
            assert(stack::can_hang(io, fdo, reported[k]));
            assert(io1.device(new[i]) is None || io1.device(new[i]) == io.device(new[i]));
            if tree::under(io1.edges, new[i], fdo) {
                tree::lemma_under_part(io.edges, io1.edges, new[i], fdo);
            }
        }
    }
}

impl Adopting {
    /// Hangs the next new device below the bus. It is to be asked for its id.
    pub fn next(&mut self, io: &mut IoSystem) -> (r: Option<u64>)
        requires
            old(io)@.well_formed(),
            all_can_hang(old(io)@, old(self).fdo, old(self).ahead@),
        ensures
            final(self).fdo == old(self).fdo,
            match first_there(old(io)@, old(self).ahead@, 0) {
                None => r is None && final(self).ahead@.len() == 0 && final(io)@ == old(io)@,
                Some(k) => {
                    &&& r == Some(old(self).ahead@[k])
                    &&& final(self).ahead@ == old(self).ahead@.skip(k + 1)
                    &&& final(io)@ == stack::adopted(old(io)@, old(self).fdo, old(self).ahead@[k])
                },
            },
            all_can_hang(final(io)@, final(self).fdo, final(self).ahead@),
            final(io)@.well_formed(),
    {
        let ghost a0 = self.ahead@;
        let ghost mut k: int = 0;
        assert(a0.skip(0) =~= a0);
        while self.ahead.len() > 0
            invariant
                0 <= k <= a0.len(),
                self.ahead@ == a0.skip(k),
                self.fdo == old(self).fdo,
                io@ == old(io)@,
                io@.well_formed(),
                a0 == old(self).ahead@,
                first_there(io@, a0, 0) == first_there(io@, a0, k),
                all_can_hang(io@, self.fdo, a0),
            decreases a0.len() - k,
        {
            let id: u64 = self.ahead.remove(0);
            assert(id == a0[k]);
            assert(self.ahead@ =~= a0.skip(k + 1));
            assert(stack::can_hang(io@, self.fdo, a0[k]));
            if adopt_pdo(io, self.fdo, id) {
                proof {
                    assert forall|i: int| 0 <= i < self.ahead@.len() implies stack::can_hang(
                        io@, self.fdo, #[trigger] self.ahead@[i]) by {
                        assert(stack::can_hang(old(io)@, self.fdo, a0[k + 1 + i]));
                        lemma_adopted(old(io)@, self.fdo, id, self.ahead@[i]);
                        if tree::under(io@.edges, self.ahead@[i], self.fdo) {
                            tree::lemma_under_pushed(
                                old(io)@.edges, Edge { parent: self.fdo, child: id }, self.ahead@[i]);
                        }
                    }
                }
                return Some(id);
            }
            proof {
                k = k + 1;
            }
        }
        assert(first_there(io@, a0, k) is None);
        None
    }

    /// Takes in what a new device has answered when it was asked for its id. If the configuration
    /// describes a stack for it, that is begun and is to be brought up.
    pub fn on_id(&self, stacks: &mut StackTable, io: &mut IoSystem, conf: &BootConfig, pdo: u64,
        reply: Result<Status, KError>, id: Text) -> (r: Option<u64>)
        requires
            old(stacks)@.well_formed(),
            old(stacks).next_id < u64::MAX,
            old(io)@.well_formed(),
            old(io)@.device(pdo) matches Some(d) && d.stack is None,
        ensures
            ({
                let named = reply == Ok::<Status, KError>(Status::Success) && id@.len() > 0;
                match if named { stack::description_for(conf, Some(id)) } else { None } {
                    None => r is None && final(stacks)@ == old(stacks)@ && final(io)@ == old(io)@,
                    Some(k) => {
                        &&& r == Some(old(stacks).next_id)
                        &&& (final(io)@, final(stacks)@) == based(
                            old(io)@, old(stacks)@, pdo, k as usize, conf.stacks@[k].driver_names@.len())
                    },
                }
            }),
            final(stacks)@.well_formed(),
            final(io)@.well_formed(),
    {
        let m: Option<Text> = query_id(reply, id);
        stacks.detect(io, conf, pdo, &m)
    }
}

/// A device has become the base of a fresh stack.
pub open spec fn based(io: Io, t: Stacks, pdo: u64, descriptor: usize, levels: nat) -> (Io, Stacks) {
    (
        io.with_device(DeviceObjectK { stack: Some((t.next_id, BASE_LEVEL)), ..io.device(pdo)->0 }),
        t.started(descriptor, pdo, levels),
    )
}

/// A stack that the configuration describes: which it is, and how many levels it has.
pub struct Described {
    pub descriptor: usize,
    pub levels: nat,
}

/// The device tree and the stacks once a new device has been taken up, if it is there.
pub open spec fn one_taken_up(io: Io, t: Stacks, fdo: u64, id: u64, described: Option<Described>) -> (Io, Stacks) {
    if io.device(id) is None {
        (io, t)
    } else {
        let io1 = stack::adopted(io, fdo, id);
        match described {
            Some(d) => based(io1, t, id, d.descriptor, d.levels),
            None => (io1, t),
        }
    }
}

/// The device tree and the stacks once the first `n` of some new devices have been taken up, if
/// `described[i]` is what the configuration has for the id of the `i`th.
pub open spec fn taken_up(io: Io, t: Stacks, fdo: u64, ids: Seq<u64>, described: Seq<Option<Described>>, n: nat)
    -> (Io, Stacks)
    decreases n,
{
    if n == 0 {
        (io, t)
    } else {
        let (io1, t1) = taken_up(io, t, fdo, ids, described, (n - 1) as nat);
        one_taken_up(io1, t1, fdo, ids[n - 1], described[n - 1])
    }
}

/// How many of the first `n` have a stack described for them.
pub open spec fn how_many(described: Seq<Option<Described>>, n: nat) -> nat
    decreases n,
{
    if n == 0 { 0 } else { how_many(described, (n - 1) as nat) + (if described[n - 1] is Some { 1nat } else { 0 }) }
}

proof fn lemma_adopted(io: Io, fdo: u64, id: u64, x: u64)
    requires
        io.device(id) is Some,
    ensures
        x != id ==> stack::adopted(io, fdo, id).device(x) == io.device(x),
        stack::adopted(io, fdo, id).device(id) matches Some(d) && d.parent == Some(fdo) && d.id == id && d.stack
            == io.device(id)->0.stack && d.is_class_device == io.device(id)->0.is_class_device,
        stack::adopted(io, fdo, id).next_device_id == io.next_device_id,
        stack::adopted(io, fdo, id).edges == io.edges.push(Edge { parent: fdo, child: id }),
{
    let s = io.edge_added(fdo, id);
    driver::lemma_device_found(io.devices, 0, id);
    assert(s.device(id) == io.device(id));
    assert(s.device(x) == io.device(x));
    let d = DeviceObjectK { parent: Some(fdo), ..s.device(id)->0 };
    driver::lemma_one_changed(s, d, x);
    driver::lemma_one_changed(s, d, id);
    let t = io.attached(fdo, id);
    let e = DeviceObjectK { is_pdo: true, state: driver::DeviceState::Started, ..t.device(id)->0 };
    driver::lemma_one_changed(t, e, x);
    driver::lemma_one_changed(t, e, id);
}

/// One new device is taken up, and nothing else is touched.
proof fn lemma_one_taken_up(io: Io, t: Stacks, fdo: u64, id: u64, described: Option<Described>, x: u64)
    requires
        io.device(id) is Some,
    ensures
        ({
            let (io1, t1) = one_taken_up(io, t, fdo, id, described);
            &&& x != id ==> io1.device(x) == io.device(x)
            &&& io1.device(id) matches Some(d) && d.parent == Some(fdo)
            &&& io1.edges == io.edges.push(Edge { parent: fdo, child: id })
            &&& match described {
                Some(d) => t1.stacks == t.stacks.push(fresh(t.next_id, id, d)) && t1.next_id == (t.next_id + 1) as u64
                    && io1.device(id)->0.stack == Some((t.next_id, BASE_LEVEL)),
                None => t1 == t,
            }
        }),
{
    lemma_adopted(io, fdo, id, x);
    let io2 = stack::adopted(io, fdo, id);
    let d = DeviceObjectK { stack: Some((t.next_id, BASE_LEVEL)), ..io2.device(id)->0 };
    driver::lemma_one_changed(io2, d, x);
    driver::lemma_one_changed(io2, d, id);
}

/// Exactly the new devices of a bus are hung below it. Every other device is left alone.
pub proof fn law_new_devices_adopted(io: Io, t: Stacks, fdo: u64, ids: Seq<u64>, described: Seq<Option<Described>>, n: nat)
    requires
        n <= ids.len(),
        forall|i: int, j: int| 0 <= i < j < ids.len() ==> #[trigger] ids[i] != #[trigger] ids[j],
        forall|i: int| 0 <= i < ids.len() ==> io.device(#[trigger] ids[i]) is Some,
    ensures
        ({
            let io1 = taken_up(io, t, fdo, ids, described, n).0;
            &&& forall|x: u64| !ids.take(n as int).contains(x) ==> #[trigger] io1.device(x) == io.device(x)
            &&& forall|i: int| 0 <= i < n ==> (io1.device(#[trigger] ids[i]) matches Some(d) && d.parent == Some(fdo))
            &&& io1.edges == io.edges + Seq::new(n, |i: int| Edge { parent: fdo, child: ids[i] })
        }),
    decreases n,
{
    if n == 0 {
        assert(io.edges + Seq::new(0, |i: int| Edge { parent: fdo, child: ids[i] }) =~= io.edges);
    } else {
        let m = (n - 1) as nat;
        law_new_devices_adopted(io, t, fdo, ids, described, m);
        let (io0, t0) = taken_up(io, t, fdo, ids, described, m);
        let io1 = taken_up(io, t, fdo, ids, described, n).0;
        let id = ids[m as int];
        lemma_not_yet(ids, m);
        assert(io0.device(id) == io.device(id));
        lemma_one_taken_up(io0, t0, fdo, id, described[m as int], id);
        assert forall|x: u64| !ids.take(n as int).contains(x) implies #[trigger] io1.device(x) == io.device(x) by {
            lemma_one_taken_up(io0, t0, fdo, id, described[m as int], x);
            assert(ids.take(n as int)[m as int] == id);
            if ids.take(m as int).contains(x) {
                let i = choose|i: int| 0 <= i < m && ids.take(m as int)[i] == x;
                assert(ids.take(n as int)[i] == x);
            }
        }
        assert forall|i: int| 0 <= i < n implies (io1.device(#[trigger] ids[i]) matches Some(d) && d.parent == Some(fdo)) by {
            if i < m {
                assert(ids[i] != ids[m as int]);
                lemma_one_taken_up(io0, t0, fdo, id, described[m as int], ids[i]);
            }
        }
        assert(io1.edges =~= io.edges + Seq::new(n, |i: int| Edge { parent: fdo, child: ids[i] }));
    }
}

proof fn lemma_not_yet(ids: Seq<u64>, m: nat)
    requires
        m < ids.len(),
        forall|i: int, j: int| 0 <= i < j < ids.len() ==> #[trigger] ids[i] != #[trigger] ids[j],
    ensures
        !ids.take(m as int).contains(ids[m as int]),
{
    assert forall|i: int| 0 <= i < m implies ids.take(m as int)[i] != ids[m as int] by {
        assert(ids[i] != ids[m as int]);
    }
}

/// Each new device whose id the configuration has a stack for becomes the base of a fresh one, and no
/// other stack is made or touched.
pub proof fn law_new_devices_get_stacks(io: Io, t: Stacks, fdo: u64, ids: Seq<u64>, described: Seq<Option<Described>>,
    n: nat, i: int)
    requires
        n <= ids.len(),
        t.next_id + n <= u64::MAX,
        forall|i: int, j: int| 0 <= i < j < ids.len() ==> #[trigger] ids[i] != #[trigger] ids[j],
        forall|i: int| 0 <= i < ids.len() ==> io.device(#[trigger] ids[i]) is Some,
        0 <= i < n,
    ensures
        ({
            let (io1, t1) = taken_up(io, t, fdo, ids, described, n);
            let c = how_many(described, i as nat);
            &&& t1.stacks.len() == t.stacks.len() + how_many(described, n)
            &&& t1.stacks.take(t.stacks.len() as int) == t.stacks
            &&& described[i] matches Some(d) ==> {
                &&& c < how_many(described, n)
                &&& t1.stacks[(t.stacks.len() + c) as int] == fresh((t.next_id + c) as u64, ids[i], d)
                &&& io1.device(ids[i]) matches Some(x) && x.stack == Some(((t.next_id + c) as u64, BASE_LEVEL))
            }
        }),
    decreases n,
{
    let m = (n - 1) as nat;
    lemma_stack_count(io, t, fdo, ids, described, n);
    lemma_stack_count(io, t, fdo, ids, described, m);
    law_new_devices_adopted(io, t, fdo, ids, described, m);
    lemma_not_yet(ids, m);
    let (io0, t0) = taken_up(io, t, fdo, ids, described, m);
    let (io1, t1) = taken_up(io, t, fdo, ids, described, n);
    let id = ids[m as int];
    assert(io0.device(id) == io.device(id));
    lemma_one_taken_up(io0, t0, fdo, id, described[m as int], ids[i]);
    if i < m {
        assert(ids[i] != ids[m as int]);
        law_new_devices_get_stacks(io, t, fdo, ids, described, m, i);
    }
}

proof fn lemma_stack_count(io: Io, t: Stacks, fdo: u64, ids: Seq<u64>, described: Seq<Option<Described>>, n: nat)
    requires
        n <= ids.len(),
        t.next_id + n <= u64::MAX,
        forall|i: int, j: int| 0 <= i < j < ids.len() ==> #[trigger] ids[i] != #[trigger] ids[j],
        forall|i: int| 0 <= i < ids.len() ==> io.device(#[trigger] ids[i]) is Some,
    ensures
        ({
            let t1 = taken_up(io, t, fdo, ids, described, n).1;
            &&& t1.stacks.len() == t.stacks.len() + how_many(described, n)
            &&& t1.next_id == t.next_id + how_many(described, n)
            &&& how_many(described, n) <= n
            &&& t1.stacks.take(t.stacks.len() as int) == t.stacks
        }),
    decreases n,
{
    if n == 0 {
        assert(t.stacks.take(t.stacks.len() as int) =~= t.stacks);
    } else {
        let m = (n - 1) as nat;
        lemma_stack_count(io, t, fdo, ids, described, m);
        law_new_devices_adopted(io, t, fdo, ids, described, m);
        lemma_not_yet(ids, m);
        let (io0, t0) = taken_up(io, t, fdo, ids, described, m);
        let t1 = taken_up(io, t, fdo, ids, described, n).1;
        let id = ids[m as int];
        assert(io0.device(id) == io.device(id));
        lemma_one_taken_up(io0, t0, fdo, id, described[m as int], id);
        assert(t1.stacks.take(t.stacks.len() as int) =~= t0.stacks.take(t.stacks.len() as int));
    }
}

/// A stack with nothing on its levels.
pub open spec fn fresh(id: u64, base: u64, d: Described) -> Instance {
    Instance {
        id,
        descriptor: d.descriptor,
        base_pdo: base,
        levels: Seq::new(d.levels, |i: int| LevelInfo { device: None, state: LevelState::NotStarted }),
    }
}

proof fn lemma_among(new: Seq<u64>, n: nat, known: Seq<u64>, x: u64)
    requires
        n <= new.len(),
    ensures
        driver::not_among(new, n, known).contains(x) <==> (new.take(n as int).contains(x) && !known.contains(x)),
    decreases n,
{
    if n == 0 {
        assert(new.take(0) =~= Seq::empty());
    } else {
        let m = (n - 1) as nat;
        lemma_among(new, m, known, x);
        let rest = driver::not_among(new, m, known);
        let all = driver::not_among(new, n, known);
        assert(new.take(n as int) =~= new.take(m as int).push(new[m as int]));
        assert(new.take(n as int).contains(x) <==> (new.take(m as int).contains(x) || new[m as int] == x)) by {
            if new.take(m as int).contains(x) {
                let k = choose|k: int| 0 <= k < m && new.take(m as int)[k] == x;
                assert(new.take(n as int)[k] == x);
            }
            if new[m as int] == x {
                assert(new.take(n as int)[m as int] == x);
            }
        }
        if !known.contains(new[m as int]) {
            assert(all == rest.push(new[m as int]));
            if rest.contains(x) {
                let k = choose|k: int| 0 <= k < rest.len() && rest[k] == x;
                assert(all[k] == x);
            }
            if new[m as int] == x {
                assert(all[rest.len() as int] == x);
            }
        }
    }
}

/// When a bus reports what is on it, exactly those of its children that it no longer reports are to
/// be removed, and exactly those that are no children of it yet are to be taken up. A device that is
/// a child and is reported is neither.
pub proof fn law_gone_and_new(io: Io, fdo: u64, reported: Seq<u64>, x: u64)
    ensures
        ({
            let known = io.children(fdo);
            let gone = driver::not_among(known, known.len(), reported);
            let (io1, new) = stack::reconciled(io, fdo, Ok(Status::Success), reported);
            &&& io1 == io.each_removed(gone, gone.len())
            &&& gone.contains(x) <==> known.contains(x) && !reported.contains(x)
            &&& new.contains(x) <==> reported.contains(x) && !known.contains(x)
        }),
{
    let known = io.children(fdo);
    lemma_among(known, known.len(), reported, x);
    lemma_among(reported, reported.len(), known, x);
    assert(known.take(known.len() as int) =~= known);
    assert(reported.take(reported.len() as int) =~= reported);
}

} // verus!
