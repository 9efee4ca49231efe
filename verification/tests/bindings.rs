use wpilib::command::{Command, Event};
use wpilib::manager::CommandManager;
use wpilib::subsystem::{AccessError, SubsystemRegistry};
use wpilib::trigger::{BindingKind, ConditionalScheduler};

#[test]
fn rising_edge_fires_once() {
    let mut t = ConditionalScheduler::new();
    let c = Command::new(1, vec![0], true);
    t.add_binding(c, BindingKind::ScheduleOnRise);
    assert_eq!(t.num_bindings(), 1);
    assert_eq!(t.poll(&vec![true]).len(), 1);
    assert_eq!(t.poll(&vec![true]).len(), 0);
    assert_eq!(t.poll(&vec![false]).len(), 0);
    assert_eq!(t.poll(&vec![true]).len(), 1);
}

#[test]
fn trigger_drives_scheduler_cycle() {
    let mut m = CommandManager::new();
    let r0 = m.register_subsystem();
    let mut t = ConditionalScheduler::new();
    t.add_binding(Command::new(1, vec![r0], true), BindingKind::ScheduleOnRise);
    t.add_binding(Command::new(1, vec![r0], true), BindingKind::CancelOnRise);
    // button pressed: the schedule binding fires, the cancel binding's
    // condition stays false
    let reqs = t.poll(&vec![true, false]);
    let evs = m.run(&reqs, &vec![]);
    assert_eq!(
        evs,
        vec![Event::Initialize { id: 1 }, Event::Periodic { resource: r0 }]
    );
    assert!(m.is_scheduled(1));
    // second button pressed: the cancel binding fires
    let reqs = t.poll(&vec![true, true]);
    let evs = m.run(&reqs, &vec![]);
    assert_eq!(
        evs,
        vec![
            Event::End { id: 1, interrupted: true },
            Event::Periodic { resource: r0 },
        ]
    );
    assert!(!m.is_scheduled(1));
}

#[test]
fn registry_ids_are_stable_and_ordered() {
    let mut reg = SubsystemRegistry::new();
    assert_eq!(reg.register(), 0);
    assert_eq!(reg.register(), 1);
    assert_eq!(reg.register(), 2);
    assert_eq!(reg.num_subsystems(), 3);
}

#[test]
fn acquisition_is_mutually_exclusive() {
    let mut reg = SubsystemRegistry::new();
    let a = reg.register();
    let b = reg.register();
    assert_eq!(reg.acquire(a), Ok(()));
    assert!(reg.in_use(a));
    assert_eq!(reg.acquire(a), Err(AccessError::InUse));
    // another subsystem is unaffected
    assert!(!reg.in_use(b));
    assert_eq!(reg.acquire(b), Ok(()));
    assert_eq!(reg.release(a), Ok(()));
    assert_eq!(reg.acquire(a), Ok(()));
}

#[test]
fn registry_access_errors() {
    let mut reg = SubsystemRegistry::new();
    let a = reg.register();
    assert_eq!(reg.acquire(7), Err(AccessError::UnknownSubsystem));
    assert_eq!(reg.release(7), Err(AccessError::UnknownSubsystem));
    assert_eq!(reg.release(a), Err(AccessError::NotAcquired));
}
