use aris::error::KError;
use aris::io::adopt::begin_adopting;
use aris::io::bring_up::{BringNext, BringUp, DriverSource, load_driver_by_name};
use aris::io::config::{BootConfig, Text, parse, try_parse};
use aris::io::driver::{
    AfterDispatch, DeviceState, IoEffect, IoSystem, IrpMajor, IrpMinor, PendingIrp, StartStep, Status, StopStep,
    after_async_dispatch, after_sync_dispatch, allowed_in_state, ids_added, state_rejection_error, stop_result,
};
use aris::io::irp::{Completion, IrpTable};
use aris::io::pnp::{PnpAction, PnpQueue, PnpRequest, handle};
use aris::io::stack::{DeviceStack, LevelState, StackTable, adopt_pdo, enumerate_and_detect, parse_enumerate_buffer};

fn text(s: &str) -> Text {
    s.chars().collect()
}

fn bytes(s: &str) -> Vec<u8> {
    s.as_bytes().to_vec()
}

fn driver(io: &mut IoSystem, name: &str) -> u64 {
    let id = io.register_driver(true).unwrap();
    io.finish_load(id, bytes(name), Status::Success).unwrap()
}

fn start(io: &mut IoSystem, id: u64) {
    match io.begin_start(id).unwrap() {
        StartStep::Dispatch(_) => io.finish_start(id, false, Status::Success),
        _ => {}
    }
}

const CONF: &str = "# boot configuration
[description]
name = acpi
path = /sys/drivers/acpi.so
boot_start = true

[description]
name = i8042
path = /sys/drivers/i8042.so

[DeviceStack]
Root
acpi

[DeviceStack]
PNP0303
i8042
input
";

#[test]
fn boot_conf_is_read() {
    let conf = parse(&text(CONF));
    assert_eq!(conf.drivers.len(), 2);
    assert_eq!(conf.drivers[0].name, text("acpi"));
    assert_eq!(conf.drivers[0].path, text("/sys/drivers/acpi.so"));
    assert!(conf.drivers[0].boot_start);
    assert!(!conf.drivers[1].boot_start);
    assert_eq!(conf.stacks.len(), 2);
    assert_eq!(conf.stacks[1].match_id, text("PNP0303"));
    assert_eq!(conf.stacks[1].driver_names, vec![text("i8042"), text("input")]);
    assert_eq!(conf.root_stacks(), vec![0]);
    assert_eq!(conf.find_descriptor(&text("PNP0303")), Some(1));
    assert_eq!(conf.find_descriptor(&text("PNP0999")), None);
    assert_eq!(conf.get_driver_path(&text("i8042")), Some(text("/sys/drivers/i8042.so")));
    assert_eq!(conf.get_driver_path(&text("none")), None);
}

#[test]
fn bad_boot_conf_is_refused() {
    assert!(try_parse(&text("")).is_some());
    assert!(try_parse(&text("stray line\n[DeviceStack]\nA\nb\n")).is_some());
    assert!(try_parse(&text("[description]\nname = a\n[DeviceStack]\nRoot\n")).is_none());
    assert!(try_parse(&text("[description]\nname = a\npath = b\nboot_start = maybe\n")).is_none());
    assert!(try_parse(&text("[description]\nname = a\npath = b\nno equals sign\n")).is_none());
    let twice = "[description]\nname = a\npath = b\n[description]\nname = a\npath = c\n[DeviceStack]\nX\n";
    assert!(try_parse(&text(twice)).is_none());
    assert!(try_parse(&text("[DeviceStack]\nA\nb\n[DeviceStack]\nA\nc\n")).is_none());
    assert!(try_parse(&text("[DeviceStack]\nRoot\nb\n[DeviceStack]\nRoot\nc\n")).is_some());
}

#[test]
fn requests_by_state() {
    let ok = |s, a, i| allowed_in_state(s, a, i, false, false);
    assert!(ok(DeviceState::Started, IrpMajor::Read, IrpMinor::Plain));
    assert!(!ok(DeviceState::Stopped, IrpMajor::Read, IrpMinor::Plain));
    assert!(ok(DeviceState::Stopped, IrpMajor::Pnp, IrpMinor::Start));
    assert!(ok(DeviceState::Stopping, IrpMajor::Pnp, IrpMinor::Stop));
    assert!(ok(DeviceState::Removing, IrpMajor::Pnp, IrpMinor::Remove));
    assert!(!ok(DeviceState::Started, IrpMajor::Pnp, IrpMinor::Plain));
    assert!(allowed_in_state(DeviceState::Started, IrpMajor::Read, IrpMinor::Plain, true, false));
    assert!(!allowed_in_state(DeviceState::Stopped, IrpMajor::Pnp, IrpMinor::Start, true, false));
    assert!(!allowed_in_state(DeviceState::Started, IrpMajor::Read, IrpMinor::Plain, false, true));
    assert!(allowed_in_state(DeviceState::Started, IrpMajor::Pnp, IrpMinor::Query, false, true));

    assert_eq!(state_rejection_error(DeviceState::Removed, IrpMajor::Read, IrpMinor::Plain), KError::DeviceRemoved);
    assert_eq!(state_rejection_error(DeviceState::Started, IrpMajor::Pnp, IrpMinor::Start), KError::DeviceStarted);
    assert_eq!(state_rejection_error(DeviceState::Stopped, IrpMajor::Read, IrpMinor::Plain), KError::DeviceStopped);

    assert_eq!(after_sync_dispatch(Status::Pending), AfterDispatch::Wait);
    assert_eq!(after_sync_dispatch(Status::Unsupported), AfterDispatch::Complete);
    assert_eq!(after_sync_dispatch(Status::Success), AfterDispatch::Nothing);
    assert_eq!(after_async_dispatch(Status::Pending), AfterDispatch::Nothing);
    assert_eq!(after_async_dispatch(Status::Unsupported), AfterDispatch::Complete);
}

#[test]
fn a_device_is_created_started_stopped_and_removed() {
    let mut io = IoSystem::init();
    let drv = driver(&mut io, "i8042");
    assert_eq!(io.driver_by_name(&bytes("i8042")), Some(drv));
    assert_eq!(io.driver_by_name(&bytes("nvme")), None);
    let id = io.io_create_device(drv, Some(bytes("ps/2_port0")), Some(0), false).unwrap();
    assert_eq!(io.children_snapshot(0), vec![id]);
    assert!(io.io_create_device(drv, Some(bytes("ps/2_port0")), None, false).is_none());

    let mut irps = IrpTable::new();
    let d = io.get_device(id).unwrap();
    assert_eq!(irps.io_request_sync(&d, 3, IrpMajor::Read, IrpMinor::Plain), Err(KError::DeviceStopped));

    start(&mut io, id);
    let d = io.get_device(id).unwrap();
    assert_eq!(d.state, DeviceState::Started);
    assert!(d.enabled);
    assert_eq!(io.begin_start(id).err(), Some(KError::DeviceStarted));
    assert_eq!(io.open_device_handle(&bytes("ps/2_port0")).map(|r| r.0), Ok(id));
    assert!(irps.io_request_sync(&d, 3, IrpMajor::Read, IrpMinor::Plain).is_ok());

    io.stop(id, false);
    assert_eq!(io.get_device(id).unwrap().state, DeviceState::Stopped);
    assert!(!io.get_device(id).unwrap().enabled);
    assert!(io.log.contains(&IoEffect::Dispatch { device: id, minor: IrpMinor::Stop }));

    start(&mut io, id);
    io.remove_device(id);
    assert!(io.get_device(id).is_none());
    assert_eq!(io.children_snapshot(0), Vec::<u64>::new());
    assert!(io.open_device_handle(&bytes("ps/2_port0")).is_err());
    assert!(io.log.contains(&IoEffect::Dispatch { device: id, minor: IrpMinor::Remove }));
}

#[test]
fn removing_a_device_removes_what_is_below_it() {
    let mut io = IoSystem::init();
    let drv = driver(&mut io, "bus");
    let bus = io.io_create_device(drv, None, Some(0), false).unwrap();
    let a = io.io_create_device(drv, None, Some(bus), false).unwrap();
    let b = io.io_create_device(drv, None, Some(a), false).unwrap();
    let other = io.io_create_device(drv, None, Some(0), false).unwrap();
    start(&mut io, bus);
    start(&mut io, a);
    start(&mut io, b);
    io.remove_device(bus);
    assert!(io.get_device(bus).is_none());
    assert!(io.get_device(a).is_none());
    assert!(io.get_device(b).is_none());
    assert!(io.get_device(other).is_some());
    let removed: Vec<u64> = io
        .log
        .iter()
        .filter_map(|e| match e {
            IoEffect::Dispatch { device, minor: IrpMinor::Remove } => Some(*device),
            _ => None,
        })
        .collect();
    assert_eq!(removed, vec![b, a, bus]);
}

#[test]
fn a_child_cannot_start_before_its_parent() {
    let mut io = IoSystem::init();
    let drv = driver(&mut io, "bus");
    let bus = io.io_create_device(drv, None, Some(0), false).unwrap();
    let a = io.io_create_device(drv, None, Some(bus), false).unwrap();
    assert_eq!(io.begin_start(a).err(), Some(KError::DeviceStopped));
    start(&mut io, bus);
    start(&mut io, a);
    // A child that was stopped with its parent comes back with it.
    io.stop(bus, false);
    assert_eq!(io.get_device(a).unwrap().state, DeviceState::Stopped);
    assert!(io.starts_with_parent(a));
    io.stop(a, false);
    assert!(io.starts_with_parent(a));
}

#[test]
fn class_devices_and_physical_ones() {
    let mut io = IoSystem::init();
    let drv = driver(&mut io, "input");
    let class = io.io_create_device(drv, Some(bytes("input")), None, true).unwrap();
    assert!(matches!(io.begin_start(class), Ok(StartStep::Started)));
    assert_eq!(io.get_device(class).unwrap().state, DeviceState::Started);
    assert!(!io.mark_started_pdo(class));
    let pdo = io.io_create_device(drv, None, Some(0), false).unwrap();
    assert!(io.mark_started_pdo(pdo));
    assert!(io.get_device(pdo).unwrap().is_pdo);
    io.stop(pdo, false);
    assert_eq!(io.get_device(pdo).unwrap().state, DeviceState::Started);
    assert_eq!(io.get_device(pdo).unwrap().accept_request(IrpMajor::Read, IrpMinor::Plain), Err(KError::DeviceStopped));
}

#[test]
fn drivers_are_loaded_and_unloaded() {
    let mut io = IoSystem::init();
    assert!(io.register_driver(false).is_err());
    let id = io.register_driver(true).unwrap();
    assert!(io.finish_load(id, bytes("bad"), Status::Failed).is_err());
    assert_eq!(io.driver_by_name(&bytes("bad")), None);
    let drv = driver(&mut io, "good");
    let dev = io.io_create_device(drv, None, Some(0), false).unwrap();
    assert!(io.unload_driver(&bytes("missing"), &bytes("missing")).is_err());
    assert_eq!(io.unload_driver(&bytes("good"), &bytes("good")), Ok(drv));
    assert!(io.get_device(dev).is_none());
    assert_eq!(io.driver_by_name(&bytes("good")), None);
}

#[test]
fn requests_complete_once() {
    let mut io = IoSystem::init();
    let drv = driver(&mut io, "disk");
    let dev = io.io_create_device(drv, None, Some(0), false).unwrap();
    start(&mut io, dev);
    let d = io.get_device(dev).unwrap();
    let mut irps = IrpTable::new();
    let (a, by) = irps.io_request_sync(&d, 3, IrpMajor::Read, IrpMinor::Plain).unwrap();
    assert_eq!(by, drv);
    let (b, _) = irps.io_request_async(&d, 4, IrpMajor::Write, IrpMinor::Plain).unwrap();
    assert_eq!(irps.get_pending_irps(dev).len(), 2);
    assert_eq!(irps.io_complete(a, Status::Success), Completion { is_sync: true, drained: false });
    assert!(irps.get_irp(a).is_none());
    assert_eq!(irps.io_complete(b, Status::Failed), Completion { is_sync: false, drained: true });
    assert_eq!(irps.get_pending_irps(dev), Vec::<PendingIrp>::new());
}

#[test]
fn cancelled_requests_wait_for_their_driver() {
    let mut io = IoSystem::init();
    let drv = driver(&mut io, "disk");
    let dev = io.io_create_device(drv, None, Some(0), false).unwrap();
    start(&mut io, dev);
    let d = io.get_device(dev).unwrap();
    let mut irps = IrpTable::new();
    let (a, _) = irps.io_request_sync(&d, 3, IrpMajor::Read, IrpMinor::Plain).unwrap();
    let (b, _) = irps.io_request_sync(&d, 3, IrpMajor::Read, IrpMinor::Plain).unwrap();
    let (c, _) = irps.io_request_sync(&d, 5, IrpMajor::Read, IrpMinor::Plain).unwrap();
    assert!(!irps.cancel_irp(a));
    irps.io_set_cancel_routine(a);
    assert!(irps.cancel_irp(a));
    assert_eq!(d.cancel_pending_irp(&irps.get_pending_irps(dev), 3), vec![a, b]);
    assert_eq!(d.cancel_pending_irp(&irps.get_pending_irps(dev), 5), vec![c]);
    let _ = irps.io_complete(a, Status::Cancelled);
    assert!(irps.get_irp(a).is_some());
    assert!(!irps.cancel_irp(a));
    assert!(!irps.io_start_processing(a));
    assert!(irps.get_irp(a).is_none());
    irps.io_set_cancel_routine(b);
    assert!(irps.io_start_processing(b));
    assert!(!irps.cancel_irp(b));
    // The death of a thread cancels what it has issued.
    assert_eq!(irps.kill_sweep_irps(&io, 3), vec![b]);
    assert_eq!(irps.kill_sweep_irps(&io, 3), Vec::<u64>::new());
    io.remove_device(dev);
    assert_eq!(irps.kill_sweep_irps(&io, 5), Vec::<u64>::new());
}

#[test]
fn pnp_requests_are_handled_in_order() {
    let mut q = PnpQueue::new();
    q.start_worker();
    q.start_device(1);
    q.stop_device(2);
    q.remove_device_async(3);
    q.add_config(bytes("extra"));
    let event = q.pnp_fence();
    assert!(q.signalled);
    assert!(matches!(q.pop_one(), Some(PnpRequest::StartDevice { device_id: 1 })));
    assert!(matches!(q.pop_one(), Some(PnpRequest::StopDevice { device_id: 2 })));
    assert!(matches!(q.pop_one(), Some(PnpRequest::RemoveDevice { device_id: 3 })));
    assert!(matches!(q.pop_one(), Some(PnpRequest::AddConfig { .. })));
    match q.pop_one() {
        Some(PnpRequest::Fence { event: e }) => assert_eq!(e, event),
        _ => panic!("the fence comes last"),
    }
    assert!(q.pop_one().is_none());

    let mut io = IoSystem::init();
    let drv = driver(&mut io, "d");
    let dev = io.io_create_device(drv, None, Some(0), false).unwrap();
    assert!(matches!(handle(&mut io, &PnpRequest::StartDevice { device_id: dev }), PnpAction::Start(i) if i == dev));
    assert!(matches!(handle(&mut io, &PnpRequest::Fence { event: 9 }), PnpAction::Signal(9)));
    assert!(matches!(handle(&mut io, &PnpRequest::StopDevice { device_id: 99 }), PnpAction::Nothing));
    assert!(matches!(handle(&mut io, &PnpRequest::RemoveDevice { device_id: dev }), PnpAction::Nothing));
    assert!(io.get_device(dev).is_none());
    assert!(matches!(handle(&mut io, &PnpRequest::RemoveDriver { name: bytes("d") }), PnpAction::UnloadDriver));
}

fn stack_of(conf: &BootConfig, io: &mut IoSystem, stacks: &mut StackTable) -> u64 {
    stacks.start_stack_instance(io, conf, 1, 0, false)
}

#[test]
fn a_stack_is_built_level_by_level() {
    let conf = parse(&text(CONF));
    let mut io = IoSystem::init();
    let mut stacks = StackTable::new();
    let s = stack_of(&conf, &mut io, &mut stacks);
    assert_eq!(stacks.find_parent(&io, s, 0), Some(0));
    let drv = driver(&mut io, "i8042");
    assert_eq!(stacks.driver_loaded(s, 0, Ok(drv)), Some(drv));
    let before = io.children_snapshot(0);
    let fdo = io.io_create_device(drv, None, Some(0), false).unwrap();
    let added = io.children_added(0, &before);
    assert_eq!(added, vec![fdo]);
    assert_eq!(stacks.device_added(&mut io, s, 0, Status::Success, &added), Some(fdo));
    assert_eq!(io.get_device(fdo).unwrap().stack, Some((s, 0)));
    start(&mut io, fdo);
    assert!(stacks.device_started(s, 0, Ok(Status::Success)));
    stacks.take_effects(&io, 0);
    assert_eq!(stacks.parent_for_level(&io, s, 1), Some(fdo));
    assert_eq!(stacks.do_refresh_device_tree(&vec![s], 0), Some((0, 1)));

    // The next level fails for want of its driver, and can be tried again.
    assert_eq!(stacks.driver_loaded(s, 1, Err(KError::NotFound)), None);
    assert_eq!(stacks.do_refresh_device_tree(&vec![s], 0), Some((0, 1)));

    assert_eq!(io.get_device(fdo).unwrap().parent_id(), Some(0));
    assert!(io.get_device(fdo).unwrap().close_reaches_driver());
    assert!(!io.get_device(0).unwrap().close_reaches_driver());

    // A level is made ready by removing what an earlier attempt has left.
    stacks.prepare_level(&mut io, s, 1);
    assert!(io.get_device(fdo).is_some());
    stacks.prepare_level(&mut io, s, 0);
    assert!(io.get_device(fdo).is_none());
    assert_eq!(stacks.do_refresh_device_tree(&vec![s], 0), Some((0, 0)));
    let fdo = io.io_create_device(drv, None, Some(0), false).unwrap();
    assert_eq!(stacks.device_added(&mut io, s, 0, Status::Success, &vec![fdo]), Some(fdo));
    start(&mut io, fdo);
    assert!(stacks.device_started(s, 0, Ok(Status::Success)));

    // A device that leaves clears its level.
    let from = io.log.len();
    io.remove_device(fdo);
    stacks.take_effects(&io, from);
    assert_eq!(stacks.do_refresh_device_tree(&vec![s], 0), Some((0, 0)));
}

#[test]
fn levels_of_a_stack() {
    let mut d = DeviceStack::new(1, 0, 0, 3);
    assert_eq!(d.first_incomplete_level(), Some(0));
    d.set_level_state(0, LevelState::Started);
    d.set_level_state(1, LevelState::Stopped);
    assert_eq!(d.first_incomplete_level(), Some(2));
    d.set_level_device(2, 77);
    assert_eq!(d.level_device(2), Some(77));
    assert_eq!(d.level_device(9), None);
    d.set_level_state(2, LevelState::Started);
    assert_eq!(d.first_incomplete_level(), None);
    d.clear_level(1);
    assert_eq!(d.first_incomplete_level(), Some(1));
}

#[test]
fn enumeration_reconciles_children() {
    let mut io = IoSystem::init();
    let drv = driver(&mut io, "bus");
    let bus = io.io_create_device(drv, None, Some(0), false).unwrap();
    start(&mut io, bus);
    let a = io.io_create_device(drv, None, None, false).unwrap();
    let b = io.io_create_device(drv, None, None, false).unwrap();
    assert_eq!(parse_enumerate_buffer(&vec![a, b], 0x1000, 16), vec![a, b]);
    assert_eq!(parse_enumerate_buffer(&vec![a, b], 0x1000, 8), vec![a]);
    assert_eq!(parse_enumerate_buffer(&vec![a, b], 0, 16), Vec::<u64>::new());

    let new = enumerate_and_detect(&mut io, bus, Ok(Status::Success), &vec![a, b]);
    assert_eq!(new, vec![a, b]);
    assert!(adopt_pdo(&mut io, bus, a));
    assert!(adopt_pdo(&mut io, bus, b));
    assert_eq!(io.children_snapshot(bus), vec![a, b]);
    // A child that the bus no longer reports is removed, and the others stay.
    let new = enumerate_and_detect(&mut io, bus, Ok(Status::Success), &vec![b]);
    assert_eq!(new, Vec::<u64>::new());
    assert!(io.get_device(a).is_none());
    assert_eq!(io.children_snapshot(bus), vec![b]);
    assert_eq!(enumerate_and_detect(&mut io, bus, Err(KError::DeviceStopped), &vec![]), Vec::<u64>::new());
    assert!(io.get_device(b).is_some());
    assert_eq!(ids_added(&vec![1, 2, 3], &vec![2]), vec![1, 3]);
}

#[test]
fn a_bus_can_report_a_device_that_is_older_than_itself() {
    let mut io = IoSystem::init();
    let drv = driver(&mut io, "bus");
    let old = io.io_create_device(drv, None, None, false).unwrap();
    let below = io.io_create_device(drv, None, Some(old), false).unwrap();
    let bus = io.io_create_device(drv, None, Some(0), false).unwrap();
    assert!(old < bus);
    start(&mut io, bus);
    let mut stacks = StackTable::new();
    let mut adopting = begin_adopting(&mut stacks, &mut io, bus, Ok(Status::Success), &vec![old]);
    assert_eq!(adopting.next(&mut io), Some(old));
    assert_eq!(adopting.next(&mut io), None);
    assert_eq!(io.children_snapshot(bus), vec![old]);
    assert_eq!(io.get_device(old).unwrap().parent_id(), Some(bus));
    start(&mut io, below);

    // What hangs below the bus is stopped and removed with it, the lowest first.
    let from = io.log.len();
    let _ = io.stop(bus, false);
    assert_eq!(
        io.log[from..],
        [
            IoEffect::Dispatch { device: below, minor: IrpMinor::Stop },
            IoEffect::Dispatch { device: bus, minor: IrpMinor::Stop },
        ]
    );
    let from = io.log.len();
    io.remove_device(bus);
    assert_eq!(
        io.log[from..],
        [
            IoEffect::Dispatch { device: below, minor: IrpMinor::Remove },
            IoEffect::Dispatch { device: old, minor: IrpMinor::Remove },
            IoEffect::Dispatch { device: bus, minor: IrpMinor::Remove },
        ]
    );
    for id in [old, below, bus] {
        assert!(io.get_device(id).is_none());
    }
    assert!(io.get_device(0).is_some());
}

#[test]
fn an_empty_name_is_none() {
    let mut io = IoSystem::init();
    let drv = driver(&mut io, "d");
    let a = io.io_create_device(drv, Some(Vec::new()), None, false).unwrap();
    let b = io.io_create_device(drv, Some(Vec::new()), None, false).unwrap();
    assert_ne!(a, b);
    assert!(!io.get_device(a).unwrap().has_name);
    assert_eq!(io.open_device_handle(&Vec::new()), Err(KError::InvalidArgument));
    // A name that is not empty can be had once.
    assert!(io.io_create_device(drv, Some(bytes("n")), None, false).is_some());
    assert!(io.io_create_device(drv, Some(bytes("n")), None, false).is_none());
}

#[test]
fn a_found_device_gets_the_stack_for_its_id() {
    let conf = parse(&text(CONF));
    let mut io = IoSystem::init();
    let mut stacks = StackTable::new();
    let drv = driver(&mut io, "bus");
    let pdo = io.io_create_device(drv, None, Some(0), false).unwrap();
    assert!(stacks.detect(&mut io, &conf, pdo, &Some(text("PNP0999"))).is_none());
    assert!(stacks.detect(&mut io, &conf, pdo, &None).is_none());
    assert!(stacks.detect(&mut io, &conf, pdo, &Some(text("PNP0303"))).is_some());
    assert!(io.get_device(pdo).unwrap().stack.is_some());
}

/// A driver adds one device below the parent, which starts.
fn bring_level(b: &mut BringUp, stacks: &mut StackTable, io: &mut IoSystem, drv: u64) -> BringNext {
    assert_eq!(b.on_loaded(stacks, Ok(drv)), BringNext::Add { driver: drv });
    let before = io.children_snapshot(b.parent);
    let fdo = io.io_create_device(drv, None, Some(b.parent), false).unwrap();
    let added = io.children_added(b.parent, &before);
    assert_eq!(b.on_added(stacks, io, Status::Success, &added), BringNext::Start);
    assert_eq!(b.device, fdo);
    let from = io.log.len();
    start(io, fdo);
    stacks.take_effects(io, from);
    assert_eq!(b.on_started(stacks, Ok(Status::Success)), BringNext::Enumerate);
    b.on_enumerated(stacks, io)
}

#[test]
fn a_stack_is_brought_up_as_far_as_it_goes() {
    let conf = parse(&text(CONF));
    let mut io = IoSystem::init();
    let mut stacks = StackTable::new();
    let s = stack_of(&conf, &mut io, &mut stacks);
    let drv = driver(&mut io, "i8042");
    let (mut b, next) = stacks.continue_stack(&mut io, s, 0, 2);
    assert_eq!((next, b.level, b.parent), (BringNext::Load, 0, 0));
    assert_eq!(bring_level(&mut b, &mut stacks, &mut io, drv), BringNext::Load);
    assert_eq!((b.level, b.parent), (1, b.device));
    let states = |t: &StackTable| -> Vec<LevelState> { t.stacks[0].levels.iter().map(|l| l.state).collect() };

    // The level above fails, and what is below it stays up.
    assert_eq!(b.on_loaded(&mut stacks, Err(KError::NotFound)), BringNext::Failed);
    assert_eq!(states(&stacks), vec![LevelState::Started, LevelState::Failed]);
    let (mut b, next) = stacks.continue_stack(&mut io, s, 1, 2);
    assert_eq!(next, BringNext::Load);
    let _ = b.on_loaded(&mut stacks, Ok(drv));
    assert_eq!(b.on_added(&mut stacks, &mut io, Status::Failed, &vec![]), BringNext::Failed);
    let _ = b.on_loaded(&mut stacks, Ok(drv));
    assert_eq!(b.on_added(&mut stacks, &mut io, Status::Success, &vec![]), BringNext::Failed);
    let _ = b.on_loaded(&mut stacks, Ok(drv));
    assert_eq!(b.on_added(&mut stacks, &mut io, Status::Success, &vec![999]), BringNext::Gone);
    let (mut b, _) = stacks.continue_stack(&mut io, s, 1, 2);
    assert_eq!(bring_level(&mut b, &mut stacks, &mut io, drv), BringNext::Complete);
    assert_eq!(states(&stacks), vec![LevelState::Started, LevelState::Started]);
    assert_eq!(b.on_started(&mut stacks, Err(KError::DeviceStopped)), BringNext::Failed);

    // A level with nothing below it fails.
    let lower = stacks.stacks[0].levels[0].device.unwrap();
    let from = io.log.len();
    io.remove_device(lower);
    stacks.take_effects(&io, from);
    let (_, next) = stacks.continue_stack(&mut io, s, 1, 2);
    assert_eq!(next, BringNext::Failed);
    assert_eq!(states(&stacks), vec![LevelState::NotStarted, LevelState::Failed]);
}

#[test]
fn new_devices_of_a_bus_are_taken_up() {
    let conf = parse(&text(CONF));
    let mut io = IoSystem::init();
    let mut stacks = StackTable::new();
    let drv = driver(&mut io, "bus");
    let bus = io.io_create_device(drv, None, Some(0), false).unwrap();
    start(&mut io, bus);
    let a = io.io_create_device(drv, None, None, false).unwrap();
    let b = io.io_create_device(drv, None, None, false).unwrap();
    let mut adopting = begin_adopting(&mut stacks, &mut io, bus, Ok(Status::Success), &vec![a, b]);
    assert_eq!(adopting.next(&mut io), Some(a));
    let s = adopting.on_id(&mut stacks, &mut io, &conf, a, Ok(Status::Success), text("PNP0303")).unwrap();
    assert_eq!(adopting.next(&mut io), Some(b));
    assert_eq!(adopting.on_id(&mut stacks, &mut io, &conf, b, Ok(Status::Failed), text("PNP0303")), None);
    assert_eq!(adopting.next(&mut io), None);
    assert_eq!(io.get_device(a).unwrap().stack, Some((s, usize::MAX)));
    assert_eq!(io.get_device(a).unwrap().parent_id(), Some(bus));
    assert_eq!(io.get_device(b).unwrap().stack, None);
    assert_eq!((stacks.stacks.len(), stacks.stacks[0].base_pdo), (1, a));

    // A device that is gone is removed along with its stack, a known one is left alone.
    let c = io.io_create_device(drv, None, None, false).unwrap();
    let mut adopting = begin_adopting(&mut stacks, &mut io, bus, Ok(Status::Success), &vec![b, c, 999]);
    assert!(io.get_device(a).is_none());
    assert_eq!(stacks.stacks.len(), 0);
    assert_eq!(adopting.next(&mut io), Some(c));
    assert_eq!(adopting.next(&mut io), None);
    assert_eq!(io.children_snapshot(bus), vec![b, c]);
}

#[test]
fn a_fence_comes_after_what_was_posted_before_it() {
    let mut io = IoSystem::init();
    let mut q = PnpQueue::new();
    q.start_worker();
    q.start_device(7);
    q.stop_device(8);
    let event = q.pnp_fence();
    q.start_device(9);
    let mut seen = Vec::new();
    loop {
        let (req, action) = q.work_one(&mut io).unwrap();
        if action == PnpAction::Signal(event) {
            break;
        }
        seen.push(match req {
            PnpRequest::StartDevice { device_id } => device_id,
            PnpRequest::StopDevice { device_id } => device_id,
            _ => panic!("not posted"),
        });
    }
    assert_eq!(seen, vec![7, 8]);
    assert!(q.work_one(&mut io).is_some());
    assert!(q.work_one(&mut io).is_none());
}

#[test]
fn what_comes_of_a_stop() {
    let mut io = IoSystem::init();
    let drv = driver(&mut io, "d");
    let dev = io.io_create_device(drv, None, Some(0), false).unwrap();
    start(&mut io, dev);
    let asked = io.stop(dev, false);
    assert_eq!(asked, StopStep::Asked);
    assert_eq!(stop_result(asked, Ok(Status::Cancelled)), Ok(Status::Cancelled));
    assert_eq!(stop_result(asked, Err(KError::DeviceStopped)), Ok(Status::Failed));
    // It is stopped already.
    assert_eq!(stop_result(io.stop(dev, false), Ok(Status::Failed)), Ok(Status::Success));
    io.remove_device(dev);
    assert_eq!(stop_result(io.stop(dev, false), Ok(Status::Failed)), Ok(Status::Success));
    let class = io.io_create_device(drv, None, None, true).unwrap();
    assert_eq!(io.stop(class, true), StopStep::Done(Ok(Status::Success)));
    io.remove_device(class);
    assert_eq!(io.stop(class, true), StopStep::Done(Err(KError::DeviceRemoved)));
}

#[test]
fn the_root_stacks_come_first() {
    let conf = parse(&text(CONF));
    let mut io = IoSystem::init();
    let mut stacks = StackTable::new();
    let ids = stacks.load_root_stacks(&mut io, &conf);
    assert_eq!(ids, vec![0]);
    assert_eq!((stacks.stacks[0].descriptor, stacks.stacks[0].base_pdo), (0, 0));
    assert_eq!(io.get_device(0).unwrap().stack, None);

    match load_driver_by_name(&io, &conf, &text("acpi"), &bytes("acpi")) {
        Ok(DriverSource::Image(p)) => assert_eq!(p, text("/sys/drivers/acpi.so")),
        _ => panic!("the configuration has it"),
    }
    assert_eq!(load_driver_by_name(&io, &conf, &text("none"), &bytes("none")).err(), Some(KError::InvalidArgument));
    let drv = driver(&mut io, "acpi");
    assert!(matches!(
        load_driver_by_name(&io, &conf, &text("acpi"), &bytes("acpi")),
        Ok(DriverSource::Loaded(d)) if d == drv
    ));
    let mut q = PnpQueue::new();
    q.start_worker();
    assert_eq!(q.io_invalidate_device(&io, None), Status::Failed);
    assert_eq!(q.io_invalidate_device(&io, Some(99)), Status::Failed);
    assert!(q.requests.is_empty());
    assert_eq!(q.io_invalidate_device(&io, Some(0)), Status::Success);
    assert_eq!(q.requests.len(), 1);
}
