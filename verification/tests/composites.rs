use wpilib::command::{Command, Event};
use wpilib::composite::{union_requirements, Composition, CompositeState};
use wpilib::manager::CommandManager;

#[test]
fn sequence_runs_children_in_order() {
    let mut c = CompositeState::new(Composition::Sequence, 3);
    assert_eq!(c.num_children(), 3);
    assert_eq!(c.running_children(), vec![0]);
    assert!(!c.is_finished());
    // child 0 does not finish yet
    let inter = c.step(&vec![false, false, false]);
    assert!(inter.is_empty());
    assert_eq!(c.running_children(), vec![0]);
    // child 0 finishes: child 1 starts
    c.step(&vec![true, false, false]);
    assert_eq!(c.running_children(), vec![1]);
    assert!(!c.is_finished());
    c.step(&vec![false, true, false]);
    assert_eq!(c.running_children(), vec![2]);
    c.step(&vec![false, false, true]);
    assert_eq!(c.running_children(), Vec::<usize>::new());
    assert!(c.is_finished());
}

#[test]
fn parallel_finishes_when_all_children_finish() {
    let mut c = CompositeState::new(Composition::Parallel, 3);
    assert_eq!(c.running_children(), vec![0, 1, 2]);
    let inter = c.step(&vec![true, false, true]);
    assert!(inter.is_empty());
    assert_eq!(c.running_children(), vec![1]);
    assert!(!c.is_finished());
    c.step(&vec![false, true, false]);
    assert!(c.is_finished());
    assert_eq!(c.running_children(), Vec::<usize>::new());
}

#[test]
fn race_interrupts_the_losers() {
    let mut c = CompositeState::new(Composition::Race, 3);
    assert_eq!(c.running_children(), vec![0, 1, 2]);
    let inter = c.step(&vec![false, true, false]);
    assert_eq!(inter, vec![0, 2]);
    assert!(c.is_finished());
    assert_eq!(c.running_children(), Vec::<usize>::new());
}

#[test]
fn race_without_finisher_keeps_running() {
    let mut c = CompositeState::new(Composition::Race, 2);
    let inter = c.step(&vec![false, false]);
    assert!(inter.is_empty());
    assert_eq!(c.running_children(), vec![0, 1]);
    assert!(!c.is_finished());
}

#[test]
fn union_of_child_requirements_has_no_duplicates() {
    let children = vec![
        Command::new(1, vec![0, 1], true),
        Command::new(2, vec![1, 2], true),
        Command::new(3, vec![], true),
        Command::new(4, vec![2, 0], true),
    ];
    let union = union_requirements(&children);
    assert_eq!(union, vec![0, 1, 2]);
}

#[test]
fn composite_admission_is_atomic() {
    // a composite built from the union of its children's requirements
    // interrupts every conflicting holder in one admission step
    let mut m = CommandManager::new();
    let r0 = m.register_subsystem();
    let r1 = m.register_subsystem();
    let a = Command::new(1, vec![r0], true);
    let b = Command::new(2, vec![r1], true);
    m.schedule(&a);
    m.schedule(&b);
    let children = vec![
        Command::new(31, vec![r0], true),
        Command::new(32, vec![r1], true),
    ];
    let composite = Command::new(3, union_requirements(&children), true);
    let evs = m.schedule(&composite);
    assert_eq!(
        evs,
        vec![
            Event::End { id: 1, interrupted: true },
            Event::End { id: 2, interrupted: true },
        ]
    );
    assert_eq!(m.holder_of(r0), Some(3));
    assert_eq!(m.holder_of(r1), Some(3));
}
