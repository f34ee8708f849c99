use vstd::prelude::*;
use crate::error::KError;
use crate::io::bring_up;
use crate::io::bring_up::{BringNext, BringUp};
use crate::io::config;
use crate::io::config::{BootConfig, InfoView, StackView, Text};
use crate::io::driver;
use crate::io::driver::{
    DeviceObjectK, DeviceState, Io, IoEffect, IrpMajor, IrpMinor, PendingIrp, StartStep, Status, lemma_device_found,
};
use crate::io::irp;
use crate::io::irp::{Irp, Irps};
use crate::io::pnp;
use crate::io::pnp::{PnpAction, PnpRequest};
use crate::io::start::Walk;
use crate::io::stack;
use crate::io::stack::{Instance, LevelInfo, LevelState, Stacks, lemma_stack_found};
use crate::io::tree;

verus! {

/// A request other than plug and play reaches a device only while the device runs, and one that a bus
/// made to stand for something only if it is a class device.
pub proof fn law_request_admitted(d: DeviceObjectK, major: IrpMajor, minor: IrpMinor)
    requires
        major != IrpMajor::Pnp,
    ensures
        match driver::admission(d, major, minor) {
            Ok(drv) => d.state == DeviceState::Started && d.driver == Some(drv) && (d.is_pdo ==> d.is_class_device),
            Err(e) => {
                &&& d.state != DeviceState::Started || d.driver is None || d.is_pdo && !d.is_class_device
                &&& d.state == DeviceState::Removed ==> e == KError::DeviceRemoved
                &&& d.state != DeviceState::Removed && d.state != DeviceState::Started ==> e == KError::DeviceStopped
            },
        },
{
}

/// A plug-and-play request reaches a device in the one state that it is for: a device is started when it
/// is stopped, stopped when it is stopping, removed when it is being removed, and asked about while it
/// runs. Class devices get none.
pub proof fn law_pnp_admitted(d: DeviceObjectK, minor: IrpMinor)
    ensures
        ({
            let r = driver::admission(d, IrpMajor::Pnp, minor);
            &&& r is Ok ==> d.driver == Some(r->Ok_0) && !d.is_class_device
            &&& r is Ok ==> {
                ||| minor == IrpMinor::Start && d.state == DeviceState::Stopped
                ||| minor == IrpMinor::Stop && d.state == DeviceState::Stopping
                ||| minor == IrpMinor::Remove && d.state == DeviceState::Removing
                ||| (minor == IrpMinor::Enumerate || minor == IrpMinor::Query || minor == IrpMinor::Resources)
                    && d.state == DeviceState::Started
            }
            &&& d.driver is Some && !d.is_class_device ==> {
                &&& minor == IrpMinor::Start && d.state == DeviceState::Stopped ==> r is Ok
                &&& minor == IrpMinor::Stop && d.state == DeviceState::Stopping ==> r is Ok
                &&& minor == IrpMinor::Remove && d.state == DeviceState::Removing ==> r is Ok
                &&& (minor == IrpMinor::Enumerate || minor == IrpMinor::Query || minor == IrpMinor::Resources)
                    && d.state == DeviceState::Started ==> r is Ok
            }
            &&& d.state == DeviceState::Removed ==> r == Err::<u64, KError>(KError::DeviceRemoved)
            &&& minor == IrpMinor::Start && d.state == DeviceState::Started
                ==> r == Err::<u64, KError>(KError::DeviceStarted)
        }),
{
}

/// The device with the number is the `k`-th.
pub open spec fn device_is(s: Io, id: u64, k: int) -> bool {
    0 <= k < s.devices.len() && s.devices[k].id == id
}

/// A device is found by its number.
pub proof fn law_device_found(s: Io, id: u64)
    requires
        driver::ids_distinct(s.devices),
    ensures
        match s.device(id) {
            Some(d) => d.id == id && exists|k: int| #[trigger] device_is(s, id, k) && s.devices[k] == d,
            None => forall|k: int| !#[trigger] device_is(s, id, k),
        },
{
    lemma_device_found(s.devices, 0, id);
    if let Some(k) = driver::find_device(s.devices, 0, id) {
        assert(device_is(s, id, k));
    }
}

proof fn lemma_pushed_device(s: Seq<DeviceObjectK>, i: int, d: DeviceObjectK, id: u64)
    requires
        0 <= i <= s.len(),
        forall|k: int| 0 <= k < s.len() ==> (#[trigger] s[k]).id != d.id,
    ensures
        id != d.id ==> driver::find_device(s.push(d), i, id) == driver::find_device(s, i, id),
        id == d.id ==> driver::find_device(s.push(d), i, id) == Some(s.len() as int),
    decreases s.len() - i,
{
    if i < s.len() {
        lemma_pushed_device(s, i + 1, d, id);
    } else {
        assert(driver::find_device(s.push(d), i + 1, id) is None);
    }
}

proof fn lemma_pushed_name(s: Seq<(Seq<u8>, u64)>, i: int, e: (Seq<u8>, u64), name: Seq<u8>)
    requires
        0 <= i <= s.len(),
        driver::find_name(s, i, e.0) is None,
    ensures
        name != e.0 ==> driver::find_name(s.push(e), i, name) == driver::find_name(s, i, name),
        name == e.0 ==> driver::find_name(s.push(e), i, name) == Some(e.1),
    decreases s.len() - i,
{
    if i < s.len() {
        lemma_pushed_name(s, i + 1, e, name);
    } else {
        assert(driver::find_name(s.push(e), i + 1, name) is None);
    }
}

/// A device that a loaded driver makes is new, stopped, and belongs to the driver. It is found under its
/// number and, if it got a name, under its name; it hangs under its parent; and nothing else changes.
pub proof fn law_device_made(s: Io, drv: u64, name: Option<Seq<u8>>, parent: Option<u64>, is_class: bool, other: u64, text: Seq<u8>)
    requires
        s.well_formed(),
        s.next_device_id < u64::MAX,
        s.created(drv, name, parent, is_class).1 is Some,
    ensures
        ({
            let (t, made) = s.created(drv, name, parent, is_class);
            let id = made->0;
            &&& s.device(id) is None
            &&& t.device(id) matches Some(d) && d.id == id && d.driver == Some(drv) && d.state == DeviceState::Stopped
                && !d.is_pdo && !d.enabled && d.is_class_device == is_class && d.stack is None
                && d.parent == (if is_class { None } else { parent })
                && d.has_name == (name is Some && name->0.len() > 0)
            &&& other != id ==> t.device(other) == s.device(other)
            &&& name is Some && name->0.len() > 0 ==> driver::find_name(s.names, 0, name->0) is None
                && driver::find_name(t.names, 0, name->0) == Some(id)
            &&& !(name is Some && name->0 == text) ==> driver::find_name(t.names, 0, text)
                == driver::find_name(s.names, 0, text)
            &&& t.edges == (if !is_class && parent is Some && (s.device(parent->0) is Some || parent->0 == id) {
                s.edges.push(tree::Edge { parent: parent->0, child: id })
            } else {
                s.edges
            })
            &&& t.drivers == s.drivers && t.log == s.log
        }),
{
    let (t, made) = s.created(drv, name, parent, is_class);
    let id = made->0;
    let d = t.devices.last();
    assert(forall|k: int| 0 <= k < s.devices.len() ==> (#[trigger] s.devices[k]).id != id);
    lemma_device_found(s.devices, 0, id);
    assert(t.devices == s.devices.push(d));
    lemma_pushed_device(s.devices, 0, d, id);
    lemma_pushed_device(s.devices, 0, d, other);
    if parent is Some {
        lemma_pushed_device(s.devices, 0, d, parent->0);
    }
    if name is Some && name->0.len() > 0 {
        lemma_pushed_name(s.names, 0, (name->0, id), name->0);
        lemma_pushed_name(s.names, 0, (name->0, id), text);
    }
    lemma_device_found(s.devices, 0, other);
}

/// No device is made for a driver that is not there or has been unloaded, nor under a name that is taken.
pub proof fn law_device_not_made(s: Io, drv: u64, name: Option<Seq<u8>>, parent: Option<u64>, is_class: bool)
    ensures
        ({
            let found = driver::find_driver(s.drivers, 0, drv);
            let taken = name is Some && name->0.len() > 0 && driver::find_name(s.names, 0, name->0) is Some;
            &&& s.created(drv, name, parent, is_class).1 is None <==> found is None || s.drivers[found->0].unloaded || taken
            &&& s.created(drv, name, parent, is_class).1 is None ==> s.created(drv, name, parent, is_class).0.devices
                == s.devices && s.created(drv, name, parent, is_class).0.names == s.names
                && s.created(drv, name, parent, is_class).0.edges == s.edges
        }),
{
}

/// A device is opened by its name while it runs; one that is stopped, or is stopping, cannot be opened.
pub proof fn law_opened(s: Io, name: Seq<u8>)
    requires
        s.well_formed(),
    ensures
        match s.opened(name) {
            Ok((id, asked)) => driver::find_name(s.names, 0, name) == Some(id) && s.device(id) is Some
                && s.device(id)->0.state == DeviceState::Started
                && asked == (s.device(id)->0.driver is Some && (s.device(id)->0.is_class_device || !s.device(id)->0.is_pdo)),
            Err(e) => {
                ||| e == KError::InvalidArgument && (driver::find_name(s.names, 0, name) is None
                    || s.device(driver::find_name(s.names, 0, name)->0) is None)
                ||| e == KError::DeviceStopped && {
                    let id = driver::find_name(s.names, 0, name)->0;
                    driver::find_name(s.names, 0, name) is Some && s.device(id) is Some
                        && s.device(id)->0.state != DeviceState::Started
                }
            },
        },
{
    if let Some(id) = driver::find_name(s.names, 0, name) {
        lemma_device_found(s.devices, 0, id);
    }
}

/// A device is started only under a parent that runs. Its driver is asked first, unless it is a class
/// device, which starts by itself, or stands for something on a bus.
pub proof fn law_start_begun(s: Io, d: DeviceObjectK)
    ensures
        ({
            let (t, r) = s.start_begun(d);
            let idle = d.parent is Some && s.device(d.parent->0) is Some
                && s.device(d.parent->0)->0.state != DeviceState::Started;
            &&& !d.is_class_device ==> t == s
            &&& !d.is_class_device && idle ==> r == Err::<StartStep, KError>(KError::DeviceStopped)
            &&& !d.is_class_device && !idle && d.is_pdo ==> r == Ok::<StartStep, KError>(StartStep::Children)
            &&& !d.is_class_device && !idle && !d.is_pdo ==> {
                &&& d.state == DeviceState::Stopped && d.driver is Some
                    ==> r == Ok::<StartStep, KError>(StartStep::Dispatch(d.driver->0))
                &&& d.state == DeviceState::Started ==> r == Err::<StartStep, KError>(KError::DeviceStarted)
            }
            &&& d.is_class_device && d.state == DeviceState::Removed
                ==> t == s && r == Err::<StartStep, KError>(KError::DeviceRemoved)
            &&& d.is_class_device && d.state != DeviceState::Removed ==> r == Ok::<StartStep, KError>(StartStep::Started)
        }),
{
}

proof fn lemma_updated_device(s: Seq<DeviceObjectK>, i: int, k: int, d: DeviceObjectK, id: u64)
    requires
        0 <= i,
        0 <= k < s.len(),
        s[k].id == d.id,
    ensures
        driver::find_device(s.update(k, d), i, id) == driver::find_device(s, i, id),
    decreases s.len() - i,
{
    if i < s.len() {
        lemma_updated_device(s, i + 1, k, d, id);
    }
}

/// Putting a device in changes that device and no other.
pub proof fn law_device_changed(s: Io, d: DeviceObjectK, other: u64)
    requires
        s.device(d.id) is Some,
    ensures
        s.with_device(d).device(d.id) == Some(d),
        other != d.id ==> s.with_device(d).device(other) == s.device(other),
{
    let k = driver::find_device(s.devices, 0, d.id)->0;
    lemma_device_found(s.devices, 0, d.id);
    lemma_updated_device(s.devices, 0, k, d, d.id);
    lemma_updated_device(s.devices, 0, k, d, other);
    lemma_device_found(s.devices, 0, other);
}

/// A device runs once its driver says so, and is enabled unless it is started for the sake of another. If
/// the driver says anything else, nothing changes.
pub proof fn law_start_answered(s: Io, d: DeviceObjectK, is_child: bool, status: Status)
    requires
        s.device(d.id) is Some,
    ensures
        status != Status::Success ==> s.start_answered(d, is_child, status) == s,
        status == Status::Success ==> {
            let t = s.start_answered(d, is_child, status);
            &&& t.device(d.id) matches Some(e) && e.state == DeviceState::Started && e.enabled == (d.enabled || !is_child)
            &&& t.edges == s.edges && t.names == s.names
            &&& d.stack matches Some(p) ==> t.log == s.log.push(
                IoEffect::LevelChanged { stack: p.0, level: p.1, state: LevelState::Started })
            &&& d.stack is None ==> t.log == s.log
        },
{
    let e = DeviceObjectK { state: DeviceState::Started, enabled: if is_child { d.enabled } else { true }, ..d };
    law_device_changed(s, e, d.id);
}

/// The requests that wait for a device are those to it that have not been completed.
pub proof fn law_pending(s: Irps, device: u64, r: PendingIrp)
    ensures
        s.pending(device).contains(r) <==> exists|i: int| 0 <= i < s.irps.len() && (#[trigger] s.irps[i]).device == device
            && !s.irps[i].is_completed && r.irp == s.irps[i].id && r.thread_id == s.irps[i].thread_id
            && r.major == s.irps[i].major,
{
    lemma_pending(s.irps, s.irps.len(), device, r);
}

pub open spec fn asks(p: Irp, device: u64, r: PendingIrp) -> bool {
    p.device == device && !p.is_completed && r.irp == p.id && r.thread_id == p.thread_id && r.major == p.major
}

proof fn lemma_pending(s: Seq<Irp>, n: nat, device: u64, r: PendingIrp)
    requires
        n <= s.len(),
    ensures
        irp::pending_on(s, n, device).contains(r) <==> exists|i: int| 0 <= i < n && asks(#[trigger] s[i], device, r),
    decreases n,
{
    if n > 0 {
        lemma_pending(s, (n - 1) as nat, device, r);
        let rest = irp::pending_on(s, (n - 1) as nat, device);
        let all = irp::pending_on(s, n, device);
        if irp::waits_for(s[n - 1], device) {
            let x = all.last();
            assert(all == rest.push(x));
            assert(all[all.len() - 1] == x);
            if rest.contains(r) {
                let k = choose|k: int| 0 <= k < rest.len() && rest[k] == r;
                assert(all[k] == r);
            }
            if all.contains(r) && !rest.contains(r) {
                let k = choose|k: int| 0 <= k < all.len() && all[k] == r;
                if k < rest.len() {
                    assert(rest[k] == r);
                }
                assert(asks(s[n - 1], device, r));
            }
            if asks(s[n - 1], device, r) {
                assert(x == r);
            }
        }
        if rest.contains(r) {
            let i = choose|i: int| 0 <= i < n - 1 && asks(#[trigger] s[i], device, r);
            assert(asks(s[i], device, r));
        }
    }
}

proof fn lemma_irp_found(s: Seq<Irp>, i: int, id: u64)
    requires
        0 <= i,
    ensures
        match irp::find_irp(s, i, id) {
            Some(k) => i <= k < s.len() && s[k].id == id,
            None => forall|k: int| i <= k < s.len() ==> (#[trigger] s[k]).id != id,
        },
    decreases s.len() - i,
{
    if i < s.len() {
        lemma_irp_found(s, i + 1, id);
    }
}

/// A request is found by its number.
pub proof fn law_request_found(s: Irps, id: u64)
    requires
        s.well_formed(),
    ensures
        match s.irp(id) {
            Some(p) => p.id == id && exists|k: int| 0 <= k < s.irps.len() && #[trigger] s.irps[k] == p,
            None => forall|k: int| 0 <= k < s.irps.len() ==> (#[trigger] s.irps[k]).id != id,
        },
{
    lemma_irp_found(s.irps, 0, id);
    if let Some(k) = irp::find_irp(s.irps, 0, id) {
        assert(s.irps[k] == s.irp(id)->0);
    }
}

/// Completing a request leaves every other as it was. One that was cancelled stays, completed and no
/// longer with its thread, until its driver takes it up; any other is gone.
pub proof fn law_others_not_completed(s: Irps, id: u64, status: Status, other: u64)
    requires
        s.well_formed(),
        s.irp(id) is Some,
    ensures
        ({
            let (t, c) = s.completed(id, status);
            &&& other != id ==> t.irp(other) == s.irp(other)
            &&& status == Status::Cancelled ==> (t.irp(id) matches Some(p) && p.is_completed && p.is_cancelled && !p.is_issued
                && p.device == s.irp(id)->0.device && p.thread_id == s.irp(id)->0.thread_id)
            &&& status != Status::Cancelled ==> t.irp(id) is None
            &&& c.is_sync == s.irp(id)->0.is_sync
            &&& c.drained <==> t.pending(s.irp(id)->0.device).len() == 0
            &&& t.next == s.next
        }),
{
    lemma_irp_found(s.irps, 0, id);
    lemma_irp_found(s.irps, 0, other);
    let (t, c) = s.completed(id, status);
    let k = irp::find_irp(s.irps, 0, id)->0;
    lemma_irp_found(t.irps, 0, id);
    lemma_irp_found(t.irps, 0, other);
    if status == Status::Cancelled {
        assert(t.irps[k].id == id);
        if let Some(m) = irp::find_irp(t.irps, 0, id) {
            assert(s.irps[m].id == id);
            assert(m == k);
        }
        if other != id {
            lemma_irp_same_place(s.irps, t.irps, k, other);
        }
    } else {
        assert forall|m: int| 0 <= m < t.irps.len() implies (#[trigger] t.irps[m]).id != id by {
            let q = if m < k { m } else { m + 1 };
            assert(t.irps[m] == s.irps[q]);
            assert(s.irps[k].id == id);
        }
        if other != id {
            if let Some(q) = irp::find_irp(s.irps, 0, other) {
                let m = if q < k { q } else { q - 1 };
                assert(t.irps[m] == s.irps[q]);
                let z = irp::find_irp(t.irps, 0, other)->0;
                let y = if z < k { z } else { z + 1 };
                assert(s.irps[y].id == other);
                assert(y == q);
            } else if let Some(z) = irp::find_irp(t.irps, 0, other) {
                let y = if z < k { z } else { z + 1 };
                assert(s.irps[y].id == other);
            }
        }
    }
}

proof fn lemma_irp_same_place(s: Seq<Irp>, t: Seq<Irp>, k: int, other: u64)
    requires
        s.len() == t.len(),
        0 <= k < s.len(),
        s[k].id != other,
        forall|i: int| 0 <= i < s.len() ==> (#[trigger] t[i]).id == s[i].id,
        forall|i: int| 0 <= i < s.len() && i != k ==> #[trigger] t[i] == s[i],
    ensures
        irp::find_irp(t, 0, other) == irp::find_irp(s, 0, other),
        irp::find_irp(s, 0, other) matches Some(m) ==> t[m] == s[m],
{
    lemma_irp_index(s, t, 0, other);
    lemma_irp_found(s, 0, other);
}

proof fn lemma_irp_index(s: Seq<Irp>, t: Seq<Irp>, i: int, other: u64)
    requires
        0 <= i,
        s.len() == t.len(),
        forall|i: int| 0 <= i < s.len() ==> (#[trigger] t[i]).id == s[i].id,
    ensures
        irp::find_irp(t, i, other) == irp::find_irp(s, i, other),
    decreases s.len() - i,
{
    if i < s.len() {
        assert(t[i].id == s[i].id);
        lemma_irp_index(s, t, i + 1, other);
    }
}

/// When a thread goes, those of its requests are cancelled that it still has in its list and whose device
/// has not been removed and is not being removed.
pub proof fn law_swept(io: Io, s: Seq<Irp>, n: nat, thread: u64, id: u64)
    requires
        n <= s.len(),
    ensures
        irp::to_cancel(io, s, n, thread).contains(id) <==> exists|i: int| 0 <= i < n && (#[trigger] s[i]).id == id
            && s[i].is_issued && s[i].thread_id == thread && io.device(s[i].device) is Some
            && io.device(s[i].device)->0.state != DeviceState::Removed
            && io.device(s[i].device)->0.state != DeviceState::Removing,
    decreases n,
{
    if n > 0 {
        law_swept(io, s, (n - 1) as nat, thread, id);
        let rest = irp::to_cancel(io, s, (n - 1) as nat, thread);
        let all = irp::to_cancel(io, s, n, thread);
        if irp::swept(io, s[n - 1], thread) {
            assert(all == rest.push(s[n - 1].id));
            assert(all[all.len() - 1] == s[n - 1].id);
            if rest.contains(id) {
                let k = choose|k: int| 0 <= k < rest.len() && rest[k] == id;
                assert(all[k] == id);
            }
            if all.contains(id) && !rest.contains(id) {
                let k = choose|k: int| 0 <= k < all.len() && all[k] == id;
                if k < rest.len() {
                    assert(rest[k] == id);
                }
                assert(s[n - 1].id == id);
            }
        }
    }
}

/// The requests of a thread that can be cancelled are all but plug and play.
pub proof fn law_cancellable(s: Seq<PendingIrp>, n: nat, thread: u64, id: u64)
    requires
        n <= s.len(),
    ensures
        driver::cancellable(s, n, thread).contains(id) <==> exists|i: int| 0 <= i < n && (#[trigger] s[i]).irp == id
            && s[i].thread_id == thread && s[i].major != IrpMajor::Pnp,
    decreases n,
{
    if n > 0 {
        law_cancellable(s, (n - 1) as nat, thread, id);
        let rest = driver::cancellable(s, (n - 1) as nat, thread);
        let all = driver::cancellable(s, n, thread);
        if s[n - 1].thread_id == thread && s[n - 1].major != IrpMajor::Pnp {
            assert(all == rest.push(s[n - 1].irp));
            assert(all[all.len() - 1] == s[n - 1].irp);
            if rest.contains(id) {
                let k = choose|k: int| 0 <= k < rest.len() && rest[k] == id;
                assert(all[k] == id);
            }
            if all.contains(id) && !rest.contains(id) {
                let k = choose|k: int| 0 <= k < all.len() && all[k] == id;
                if k < rest.len() {
                    assert(rest[k] == id);
                }
                assert(s[n - 1].irp == id);
            }
        }
    }
}

/// The devices of a driver are those that name it.
pub proof fn law_devices_of_driver(s: Seq<DeviceObjectK>, n: nat, drv: u64, id: u64)
    requires
        n <= s.len(),
    ensures
        driver::devices_of(s, n, drv).contains(id) <==> exists|i: int| 0 <= i < n && (#[trigger] s[i]).id == id
            && s[i].driver == Some(drv),
    decreases n,
{
    if n > 0 {
        law_devices_of_driver(s, (n - 1) as nat, drv, id);
        let rest = driver::devices_of(s, (n - 1) as nat, drv);
        let all = driver::devices_of(s, n, drv);
        if s[n - 1].driver == Some(drv) {
            assert(all == rest.push(s[n - 1].id));
            assert(all[all.len() - 1] == s[n - 1].id);
            if rest.contains(id) {
                let k = choose|k: int| 0 <= k < rest.len() && rest[k] == id;
                assert(all[k] == id);
            }
            if all.contains(id) && !rest.contains(id) {
                let k = choose|k: int| 0 <= k < all.len() && all[k] == id;
                if k < rest.len() {
                    assert(rest[k] == id);
                }
                assert(s[n - 1].id == id);
            }
        }
    }
}

proof fn lemma_path_of(s: Seq<InfoView>, i: int, name: Seq<char>)
    requires
        0 <= i,
    ensures
        match config::path_of(s, i, name) {
            Some(p) => exists|k: int| i <= k < s.len() && (#[trigger] s[k]).name == name && s[k].path == p
                && forall|j: int| i <= j < k ==> (#[trigger] s[j]).name != name,
            None => forall|j: int| i <= j < s.len() ==> (#[trigger] s[j]).name != name,
        },
    decreases s.len() - i,
{
    if i < s.len() {
        if s[i].name != name {
            lemma_path_of(s, i + 1, name);
            if let Some(p) = config::path_of(s, i + 1, name) {
                let k = choose|k: int| i + 1 <= k < s.len() && (#[trigger] s[k]).name == name && s[k].path == p
                    && forall|j: int| i + 1 <= j < k ==> (#[trigger] s[j]).name != name;
                assert(s[k].name == name);
            }
        } else {
            assert(s[i].name == name && s[i].path == s[i].path);
        }
    }
}

/// A driver is found at the path of its record.
pub proof fn law_driver_path(s: Seq<InfoView>, name: Seq<char>, k: int)
    requires
        config::drivers_distinct(s),
        0 <= k < s.len(),
    ensures
        s[k].name == name ==> config::path_of(s, 0, name) == Some(s[k].path),
        config::path_of(s, 0, name) is None ==> s[k].name != name,
{
    lemma_path_of(s, 0, name);
}

proof fn lemma_stack_for(s: Seq<StackView>, i: int, id: Seq<char>)
    requires
        0 <= i,
    ensures
        match config::stack_for(s, i, id) {
            Some(k) => i <= k < s.len() && s[k].match_id == id
                && forall|j: int| i <= j < k ==> (#[trigger] s[j]).match_id != id,
            None => forall|j: int| i <= j < s.len() ==> (#[trigger] s[j]).match_id != id,
        },
    decreases s.len() - i,
{
    if i < s.len() {
        lemma_stack_for(s, i + 1, id);
    }
}

/// A device that says what it is gets the first device stack that is listed for it; one that says
/// nothing gets none.
pub proof fn law_stack_for_device(conf: &BootConfig, match_id: Option<Text>)
    ensures
        ({
            let s = config::stack_views(conf.stacks@);
            match stack::description_for(conf, match_id) {
                Some(k) => match_id is Some && match_id->0@.len() > 0 && 0 <= k < s.len() && s[k].match_id == match_id->0@
                    && forall|j: int| 0 <= j < k ==> (#[trigger] s[j]).match_id != match_id->0@,
                None => match_id is None || match_id->0@.len() == 0
                    || forall|j: int| 0 <= j < s.len() ==> (#[trigger] s[j]).match_id != match_id->0@,
            }
        }),
{
    if let Some(m) = match_id {
        lemma_stack_for(config::stack_views(conf.stacks@), 0, m@);
    }
}

/// The drivers that are started with the system are those whose records say so, in their order.
pub proof fn law_started_at_boot(s: Seq<config::DriverInformation>, n: nat, k: int, a: int, b: int)
    requires
        n <= s.len() <= usize::MAX,
    ensures
        ({
            let r = config::boot_started(s, n);
            &&& 0 <= k < n ==> (r.contains(k as usize) <==> s[k].boot_start)
            &&& forall|j: int| 0 <= j < r.len() ==> #[trigger] r[j] < n
            &&& 0 <= a < b < r.len() ==> r[a] < r[b]
        }),
    decreases n,
{
    if n > 0 {
        let m = (n - 1) as nat;
        law_started_at_boot(s, m, k, a, b);
        let rest = config::boot_started(s, m);
        let all = config::boot_started(s, n);
        if s[n - 1].boot_start {
            assert(all == rest.push((n - 1) as usize));
            assert(all[all.len() - 1] == n - 1);
            if 0 <= k < n {
                if rest.contains(k as usize) {
                    let j = choose|j: int| 0 <= j < rest.len() && rest[j] == k as usize;
                    assert(all[j] == k as usize);
                }
                if all.contains(k as usize) && k < n - 1 {
                    let j = choose|j: int| 0 <= j < all.len() && all[j] == k as usize;
                    assert(rest[j] == k as usize);
                }
            }
        } else if k == n - 1 && all.contains(k as usize) {
            let j = choose|j: int| 0 <= j < all.len() && all[j] == k as usize;
            assert(rest[j] < m);
        }
    }
}

/// The first level that has not been started, or has failed.
pub proof fn law_first_incomplete(s: Seq<LevelInfo>, i: int)
    requires
        0 <= i,
    ensures
        match stack::first_incomplete(s, i) {
            Some(k) => i <= k < s.len() && (s[k].state == LevelState::Failed || s[k].state == LevelState::NotStarted)
                && forall|j: int| i <= j < k ==> (#[trigger] s[j]).state == LevelState::Started
                    || s[j].state == LevelState::Stopped,
            None => forall|j: int| i <= j < s.len() ==> (#[trigger] s[j]).state == LevelState::Started
                || s[j].state == LevelState::Stopped,
        },
    decreases s.len() - i,
{
    if i < s.len() {
        law_first_incomplete(s, i + 1);
    }
}

proof fn lemma_stack_same_place(s: Seq<Instance>, i: int, k: int, t: Instance, id: u64)
    requires
        0 <= i,
        0 <= k < s.len(),
        s[k].id == t.id,
    ensures
        stack::find_stack(s.update(k, t), i, id) == stack::find_stack(s, i, id),
    decreases s.len() - i,
{
    if i < s.len() {
        lemma_stack_same_place(s, i + 1, k, t, id);
    }
}

proof fn lemma_with_stack(s: Stacks, t: Instance, other: u64)
    requires
        s.stack(t.id) is Some,
    ensures
        s.with_stack(t).stack(t.id) == Some(t),
        other != t.id ==> s.with_stack(t).stack(other) == s.stack(other),
{
    let k = stack::find_stack(s.stacks, 0, t.id)->0;
    lemma_stack_found(s.stacks, 0, t.id);
    lemma_stack_found(s.stacks, 0, other);
    lemma_stack_same_place(s.stacks, 0, k, t, t.id);
    lemma_stack_same_place(s.stacks, 0, k, t, other);
}

/// A driver that was asked to add a device to a level has done so if it says that it succeeded and exactly
/// one device came of it. That device then is on the level, and knows it; otherwise the level has failed.
pub proof fn law_level_filled(t: Stacks, io: Io, id: u64, level: int, status: Status, added: Seq<u64>)
    requires
        t.stack(id) is Some,
        t.stack(id)->0.id == id,
        0 <= level < t.stack(id)->0.levels.len(),
        level <= usize::MAX,
    ensures
        ({
            let (s, o, r) = t.device_added(io, id, level, status, added);
            let ok = status == Status::Success && added.len() == 1;
            &&& r is Some <==> ok && io.device(added[0]) is Some
            &&& r is Some ==> r->0 == added[0] && s.stack(id)->0.levels[level].device == Some(added[0])
                && s.stack(id)->0.levels[level].state == t.stack(id)->0.levels[level].state
                && o.device(added[0]) is Some && o.device(added[0])->0.stack == Some((id, level as usize))
            &&& !ok ==> o == io && s.stack(id)->0.levels[level].state == LevelState::Failed
                && s.stack(id)->0.levels[level].device == t.stack(id)->0.levels[level].device
            &&& forall|k: int| 0 <= k < t.stack(id)->0.levels.len() && k != level
                ==> #[trigger] s.stack(id)->0.levels[k] == t.stack(id)->0.levels[k]
        }),
{
    let x = t.stack(id)->0;
    lemma_with_stack(t, x.with_state(level, LevelState::Failed), id);
    if status == Status::Success && added.len() == 1 {
        lemma_with_stack(t, x.with_device(level, added[0]), id);
        if let Some(d) = io.device(added[0]) {
            lemma_device_found(io.devices, 0, added[0]);
            law_device_changed(io, DeviceObjectK { stack: Some((id, level as usize)), ..d }, added[0]);
        }
    }
}

/// What a device stack is told by its devices: a level that has started or stopped is noted, a device
/// that leaves clears its level, and the device at the base takes the whole stack with it.
pub proof fn law_stack_told(t: Stacks, id: u64, level: usize, state: LevelState)
    requires
        t.well_formed(),
        t.stack(id) is Some,
        level < t.stack(id)->0.levels.len(),
        level < usize::MAX,
    ensures
        ({
            let a = t.effect(IoEffect::LevelChanged { stack: id, level, state });
            let b = t.effect(IoEffect::DeviceLeft { stack: id, level });
            let c = t.effect(IoEffect::DeviceLeft { stack: id, level: usize::MAX });
            &&& a.stack(id) is Some && a.stack(id)->0.levels[level as int].state == state
                && a.stack(id)->0.levels[level as int].device == t.stack(id)->0.levels[level as int].device
            &&& b.stack(id) is Some && b.stack(id)->0.levels[level as int].state == LevelState::NotStarted
                && b.stack(id)->0.levels[level as int].device is None
            &&& c.stack(id) is None
        }),
{
    lemma_stack_found(t.stacks, 0, id);
    let x = t.stack(id)->0;
    lemma_with_stack(t, x.with_state(level as int, state), id);
    lemma_with_stack(t, x.cleared(level as int), id);
    let k = stack::find_stack(t.stacks, 0, id)->0;
    let c = t.without(id);
    lemma_stack_found(c.stacks, 0, id);
    if let Some(m) = stack::find_stack(c.stacks, 0, id) {
        let q = if m < k { m } else { m + 1 };
        assert(c.stacks[m] == t.stacks[q]);
        assert(t.stacks[k].id == id);
    }
}

/// The device on a level is added on top of the one below: that of the next lower level, or the one at
/// the base for the lowest.
pub proof fn law_level_below(t: Stacks, io: Io, id: u64, level: int)
    requires
        t.stack(id) is Some,
        0 <= level < t.stack(id)->0.levels.len(),
    ensures
        ({
            let below = if level == 0 { Some(t.stack(id)->0.base_pdo) } else { t.stack(id)->0.levels[level - 1].device };
            t.parent_for(io, id, level) == (if below is Some && io.device(below->0) is Some { below } else { None })
        }),
{
}

/// A bus that does not answer a question for its devices well changes nothing.
pub proof fn law_bus_failed(io: Io, fdo: u64, reply: Result<Status, KError>, reported: Seq<u64>)
    requires
        !(reply is Ok && reply->Ok_0 == Status::Success),
    ensures
        stack::reconciled(io, fdo, reply, reported).0 == io,
        stack::reconciled(io, fdo, reply, reported).1.len() == 0,
{
}

/// What a plug-and-play request comes to. A bus that says that it has changed is asked for its devices, and a device
/// is started, if they are there; a stop and a removal are carried out at once; a fence tells who waits for it.
pub proof fn law_pnp_request(io: Io, id: u64, there: bool)
    ensures
        pnp::action_for(PnpRequest::InvalidateDevice { device_id: id }, true) == PnpAction::Enumerate(id),
        pnp::action_for(PnpRequest::StartDevice { device_id: id }, true) == PnpAction::Start(id),
        pnp::action_for(PnpRequest::InvalidateDevice { device_id: id }, false) == PnpAction::Nothing,
        pnp::action_for(PnpRequest::StartDevice { device_id: id }, false) == PnpAction::Nothing,
        pnp::action_for(PnpRequest::Fence { event: id }, there) == PnpAction::Signal(id),
        pnp::handled(io, PnpRequest::StopDevice { device_id: id }) == io.stopped(id, false),
        pnp::handled(io, PnpRequest::RemoveDevice { device_id: id }) == io.removed(id),
        pnp::handled(io, PnpRequest::InvalidateDevice { device_id: id }) == io,
        pnp::handled(io, PnpRequest::StartDevice { device_id: id }) == io,
        pnp::handled(io, PnpRequest::Fence { event: id }) == io,
{
}

/// On the way through the devices that are to be started, a device under the first that is neither enabled nor a
/// stand-in of a bus is passed over; one that has gone is an answer only for the first.
pub proof fn law_walk_passes_over(w: Walk, io: Io)
    requires
        w.ahead.len() > 0,
    ensures
        ({
            let it = w.ahead.last();
            let (v, o, next) = w.stepped(io);
            &&& v.ahead.len() >= w.ahead.len() - 1
            &&& io.device(it.id) is None ==> o == io && next is Again && v.ahead == w.ahead.drop_last()
                && v.result == (if it.is_child { w.result } else { Some(Err(KError::DeviceRemoved)) })
            &&& it.is_child && io.device(it.id) is Some && !io.device(it.id)->0.is_pdo && !io.device(it.id)->0.enabled
                ==> o == io && next is Again && v.ahead == w.ahead.drop_last() && v.result == w.result
        }),
{
}

/// The devices under one that has been started come next, the first of them first.
pub proof fn law_children_come_next(w: Walk, io: Io, id: u64, i: int)
    requires
        0 <= i < io.children(id).len(),
    ensures
        ({
            let v = w.with_children(io, id);
            let n = io.children(id).len();
            &&& v.ahead.len() == w.ahead.len() + n
            &&& v.ahead[v.ahead.len() - 1 - i].id == io.children(id)[i] && v.ahead[v.ahead.len() - 1 - i].is_child
        }),
{
}

/// A level of a device stack that fails to load its driver, to get its device or to start it, fails; with it the
/// stack goes no further up. One that has started is asked for its devices, and then the next is built on it.
pub proof fn law_level_steps(t: Stacks, io: Io, b: BringUp, e: KError, drv: u64, r: Result<Status, KError>)
    requires
        t.stack(b.stack) is Some,
        t.stack(b.stack)->0.id == b.stack,
        b.level < t.stack(b.stack)->0.levels.len(),
        b.level < usize::MAX,
    ensures
        bring_up::loaded(t, b, Ok(drv)) == (t, BringNext::Add { driver: drv }),
        bring_up::loaded(t, b, Err(e)).1 is Failed,
        bring_up::loaded(t, b, Err(e)).0.stack(b.stack)->0.levels[b.level as int].state == LevelState::Failed,
        r is Ok && r->Ok_0 == Status::Success ==> bring_up::started(t, b, r) == (t, BringNext::Enumerate),
        !(r is Ok && r->Ok_0 == Status::Success) ==> bring_up::started(t, b, r).1 is Failed
            && bring_up::started(t, b, r).0.stack(b.stack)->0.levels[b.level as int].state == LevelState::Failed,
        bring_up::enumerated(t, io, b).2.level == b.level + 1,
        bring_up::enumerated(t, io, b).2.parent == b.device,
        bring_up::enumerated(t, io, b).3 is Complete <==> b.level + 1 >= b.levels,
{
    let x = t.stack(b.stack)->0;
    lemma_with_stack(t, x.with_state(b.level as int, LevelState::Failed), b.stack);
}

} // verus!
