use wpilib::command::{Command, Event, Request};
use wpilib::manager::{CommandManager, ConfigError};

fn count_event(evs: &[Event], e: Event) -> usize {
    evs.iter().filter(|x| **x == e).count()
}

#[test]
fn mutual_exclusion_single_holder() {
    let mut m = CommandManager::new();
    let r0 = m.register_subsystem();
    let r1 = m.register_subsystem();
    let c1 = Command::new(1, vec![r0, r1], true);
    let evs = m.schedule(&c1);
    assert!(evs.is_empty());
    assert_eq!(m.holder_of(r0), Some(1));
    assert_eq!(m.holder_of(r1), Some(1));
    assert!(m.is_scheduled(1));
}

#[test]
fn interruption_end_before_initialize() {
    let mut m = CommandManager::new();
    let r0 = m.register_subsystem();
    let c1 = Command::new(1, vec![r0], true);
    let evs = m.run(&vec![Request::Schedule(c1)], &vec![]);
    assert_eq!(
        evs,
        vec![Event::Initialize { id: 1 }, Event::Periodic { resource: r0 }]
    );
    let c2 = Command::new(2, vec![r0], true);
    let evs = m.run(&vec![Request::Schedule(c2)], &vec![]);
    assert_eq!(
        evs,
        vec![
            Event::End { id: 1, interrupted: true },
            Event::Initialize { id: 2 },
            Event::Periodic { resource: r0 },
        ]
    );
    assert_eq!(m.holder_of(r0), Some(2));
    assert!(!m.is_scheduled(1));
}

#[test]
fn non_interruptible_holder_rejects() {
    let mut m = CommandManager::new();
    let r0 = m.register_subsystem();
    let c1 = Command::new(1, vec![r0], false);
    m.schedule(&c1);
    let c2 = Command::new(2, vec![r0], true);
    let evs = m.schedule(&c2);
    assert!(evs.is_empty());
    assert!(m.is_scheduled(1));
    assert!(!m.is_scheduled(2));
    assert_eq!(m.holder_of(r0), Some(1));
}

#[test]
fn default_command_backfills_idle_subsystem() {
    let mut m = CommandManager::new();
    let r0 = m.register_subsystem();
    let d = Command::new(10, vec![r0], true);
    assert_eq!(m.set_default_command(r0, d), Ok(()));
    assert!(m.has_default(r0));
    let evs = m.run(&vec![], &vec![]);
    assert_eq!(evs, vec![Event::Periodic { resource: r0 }]);
    assert_eq!(m.holder_of(r0), Some(10));
    let evs = m.run(&vec![], &vec![]);
    assert_eq!(
        evs,
        vec![Event::Initialize { id: 10 }, Event::Periodic { resource: r0 }]
    );
    // once another command claims the subsystem, the default is interrupted
    let c2 = Command::new(2, vec![r0], true);
    let evs = m.schedule(&c2);
    assert_eq!(evs, vec![Event::End { id: 10, interrupted: true }]);
    assert_eq!(m.holder_of(r0), Some(2));
}

#[test]
fn periodic_upkeep_exactly_once_per_cycle() {
    let mut m = CommandManager::new();
    let r0 = m.register_subsystem();
    let r1 = m.register_subsystem();
    let c1 = Command::new(1, vec![r0], true);
    m.schedule(&c1);
    for _ in 0..3 {
        let evs = m.run(&vec![], &vec![]);
        assert_eq!(count_event(&evs, Event::Periodic { resource: r0 }), 1);
        assert_eq!(count_event(&evs, Event::Periodic { resource: r1 }), 1);
    }
}

#[test]
fn schedule_twice_is_noop() {
    let mut m = CommandManager::new();
    let r0 = m.register_subsystem();
    let c1 = Command::new(1, vec![r0], true);
    m.run(&vec![Request::Schedule(c1.clone())], &vec![]);
    let evs = m.schedule(&c1);
    assert!(evs.is_empty());
    let evs = m.run(&vec![Request::Schedule(c1)], &vec![]);
    assert_eq!(count_event(&evs, Event::Initialize { id: 1 }), 0);
    assert_eq!(count_event(&evs, Event::Execute { id: 1 }), 1);
}

#[test]
fn drive_arm_scenario() {
    let mut m = CommandManager::new();
    let drive = m.register_subsystem();
    let arm = m.register_subsystem();
    let c1 = Command::new(1, vec![drive], true);
    let c2 = Command::new(2, vec![drive, arm], true);
    // cycle 1: schedule C1; it claims the drive
    let evs = m.run(&vec![Request::Schedule(c1)], &vec![]);
    assert_eq!(
        evs,
        vec![
            Event::Initialize { id: 1 },
            Event::Periodic { resource: drive },
            Event::Periodic { resource: arm },
        ]
    );
    assert_eq!(m.holder_of(drive), Some(1));
    assert_eq!(m.holder_of(arm), None);
    // cycle 2: schedule C2; C1 ends interrupted, C2 claims both
    let evs = m.run(&vec![Request::Schedule(c2)], &vec![]);
    assert_eq!(
        evs,
        vec![
            Event::End { id: 1, interrupted: true },
            Event::Initialize { id: 2 },
            Event::Periodic { resource: drive },
            Event::Periodic { resource: arm },
        ]
    );
    assert_eq!(m.holder_of(drive), Some(2));
    assert_eq!(m.holder_of(arm), Some(2));
    // cycle 3: cancel C2; it ends interrupted this cycle
    let evs = m.run(&vec![Request::Cancel(2)], &vec![]);
    assert_eq!(
        evs,
        vec![
            Event::End { id: 2, interrupted: true },
            Event::Periodic { resource: drive },
            Event::Periodic { resource: arm },
        ]
    );
    // cycle 4: both subsystems are empty; with no defaults they stay so
    assert_eq!(m.holder_of(drive), None);
    assert_eq!(m.holder_of(arm), None);
    let evs = m.run(&vec![], &vec![]);
    assert_eq!(
        evs,
        vec![
            Event::Periodic { resource: drive },
            Event::Periodic { resource: arm },
        ]
    );
}

#[test]
fn finish_predicate_ends_uninterrupted() {
    let mut m = CommandManager::new();
    let r0 = m.register_subsystem();
    let c1 = Command::new(1, vec![r0], true);
    m.run(&vec![Request::Schedule(c1)], &vec![]);
    let evs = m.run(&vec![], &vec![1]);
    assert_eq!(
        evs,
        vec![
            Event::Execute { id: 1 },
            Event::End { id: 1, interrupted: false },
            Event::Periodic { resource: r0 },
        ]
    );
    assert_eq!(m.holder_of(r0), None);
    assert!(!m.is_scheduled(1));
}

#[test]
fn empty_requirement_set_never_conflicts() {
    let mut m = CommandManager::new();
    let r0 = m.register_subsystem();
    let free = Command::new(1, vec![], true);
    let holder = Command::new(2, vec![r0], true);
    m.schedule(&free);
    let evs = m.schedule(&holder);
    assert!(evs.is_empty());
    assert!(m.is_scheduled(1));
    assert!(m.is_scheduled(2));
    assert_eq!(m.holder_of(r0), Some(2));
    // the free command still executes each cycle
    let evs = m.run(&vec![], &vec![]);
    assert_eq!(count_event(&evs, Event::Initialize { id: 1 }), 1);
    assert_eq!(count_event(&evs, Event::Initialize { id: 2 }), 1);
}

#[test]
fn cancel_of_inactive_id_is_noop() {
    let mut m = CommandManager::new();
    let r0 = m.register_subsystem();
    let evs = m.cancel(42);
    assert!(evs.is_empty());
    assert_eq!(m.holder_of(r0), None);
}

#[test]
fn default_command_config_errors() {
    let mut m = CommandManager::new();
    let r0 = m.register_subsystem();
    let ok = Command::new(10, vec![r0], true);
    assert_eq!(
        m.set_default_command(5, ok.clone()),
        Err(ConfigError::UnknownSubsystem)
    );
    let elsewhere = Command::new(11, vec![], true);
    assert_eq!(
        m.set_default_command(r0, elsewhere),
        Err(ConfigError::DoesNotRequireSubsystem)
    );
    let phantom = Command::new(12, vec![r0, 99], true);
    assert_eq!(
        m.set_default_command(r0, phantom),
        Err(ConfigError::UnknownRequirement)
    );
    let stubborn = Command::new(13, vec![r0], false);
    assert_eq!(
        m.set_default_command(r0, stubborn),
        Err(ConfigError::NotInterruptible)
    );
    assert_eq!(m.set_default_command(r0, ok.clone()), Ok(()));
    assert_eq!(
        m.set_default_command(r0, ok),
        Err(ConfigError::DefaultAlreadySet)
    );
}

#[test]
fn duplicate_requirement_entries_are_harmless() {
    let mut m = CommandManager::new();
    let r0 = m.register_subsystem();
    let c1 = Command::new(1, vec![r0, r0], true);
    m.schedule(&c1);
    assert_eq!(m.holder_of(r0), Some(1));
    let c2 = Command::new(2, vec![r0], true);
    let evs = m.schedule(&c2);
    // the doubly-declared holder still ends exactly once
    assert_eq!(evs, vec![Event::End { id: 1, interrupted: true }]);
    assert_eq!(m.holder_of(r0), Some(2));
}

#[test]
fn multi_requirement_default_interrupts_at_backfill() {
    let mut m = CommandManager::new();
    let r0 = m.register_subsystem();
    let r1 = m.register_subsystem();
    let c1 = Command::new(1, vec![r1], true);
    m.run(&vec![Request::Schedule(c1)], &vec![]);
    let d = Command::new(10, vec![r0, r1], true);
    assert_eq!(m.set_default_command(r0, d), Ok(()));
    // r0 is idle, so backfill admits the default, which pre-empts the
    // interruptible holder of r1 in the same admission step
    let evs = m.run(&vec![], &vec![]);
    assert_eq!(
        evs,
        vec![
            Event::Execute { id: 1 },
            Event::End { id: 1, interrupted: true },
            Event::Periodic { resource: r0 },
            Event::Periodic { resource: r1 },
        ]
    );
    assert_eq!(m.holder_of(r0), Some(10));
    assert_eq!(m.holder_of(r1), Some(10));
}

#[test]
fn composite_requirements_resolve_as_a_unit() {
    // a multi-requirement command interrupts every conflicting holder in
    // one admission, never partially
    let mut m = CommandManager::new();
    let r0 = m.register_subsystem();
    let r1 = m.register_subsystem();
    let a = Command::new(1, vec![r0], true);
    let b = Command::new(2, vec![r1], true);
    m.schedule(&a);
    m.schedule(&b);
    let both = Command::new(3, vec![r0, r1], true);
    let evs = m.schedule(&both);
    assert_eq!(
        evs,
        vec![
            Event::End { id: 1, interrupted: true },
            Event::End { id: 2, interrupted: true },
        ]
    );
    assert_eq!(m.holder_of(r0), Some(3));
    assert_eq!(m.holder_of(r1), Some(3));
}

#[test]
fn blocked_composite_changes_nothing() {
    // one non-interruptible holder rejects the whole composite admission
    let mut m = CommandManager::new();
    let r0 = m.register_subsystem();
    let r1 = m.register_subsystem();
    let a = Command::new(1, vec![r0], true);
    let b = Command::new(2, vec![r1], false);
    m.schedule(&a);
    m.schedule(&b);
    let both = Command::new(3, vec![r0, r1], true);
    let evs = m.schedule(&both);
    assert!(evs.is_empty());
    assert_eq!(m.holder_of(r0), Some(1));
    assert_eq!(m.holder_of(r1), Some(2));
    assert!(!m.is_scheduled(3));
}
