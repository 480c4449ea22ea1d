use apartments::apartments::model::Building;
use apartments::apartments::run_commands;
use apartments::app::{AppOptions, Commands, RunExercises};

fn seeded() -> Building {
    let mut b = Building::default();
    b.ensure_seeded();
    b
}

#[test]
fn fresh_run_starts_clean() {
    let r = RunExercises::new();
    assert_eq!(r.exit_code, 0);
    assert_eq!(r.options.verbosity, 0);
    assert!(r.options.command.is_none());

    let o = AppOptions::default();
    assert_eq!(o.verbosity, 0);
    assert!(o.command.is_none());
}

#[test]
fn add_and_occupy_run_in_one_invocation() {
    let mut b = seeded();
    let cmd = Commands::Apartments {
        list: false,
        occupy: Some("1A".to_string()),
        add: Some("3D".to_string()),
    };
    let failed = run_commands(&mut b, &cmd);
    assert!(!failed);
    assert_eq!(b.floors.len(), 3);
    assert_eq!(b.floors[2].number, 3);
    assert!(b.floors[0].apartments[0].occupied);
}

#[test]
fn one_failing_operation_fails_the_invocation() {
    let mut b = seeded();
    let cmd = Commands::Apartments {
        list: true,
        occupy: Some("9Z".to_string()),
        add: None,
    };
    assert!(run_commands(&mut b, &cmd));

    let conflict = Commands::Apartments {
        list: false,
        occupy: None,
        add: Some("1A".to_string()),
    };
    assert!(run_commands(&mut b, &conflict));
}

#[test]
fn other_commands_touch_nothing() {
    let mut b = seeded();
    let before = b.to_text();
    assert!(!run_commands(&mut b, &Commands::Bookshelf {}));
    assert_eq!(b.to_text(), before);
}
