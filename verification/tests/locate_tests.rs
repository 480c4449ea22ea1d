use apartments::apartments::locate::{
    path_is_absolute, save_plan, DataAction, DataFileSearch, FsPath, LocateAction, MainLocator,
    UpwardOutcome, UpwardSearch,
};
use apartments::apartments::model::{Building, StoreError};

fn abs(parts: &[&str]) -> FsPath {
    FsPath { absolute: true, parts: parts.iter().map(|p| p.to_string()).collect() }
}

fn rel(parts: &[&str]) -> FsPath {
    FsPath { absolute: false, parts: parts.iter().map(|p| p.to_string()).collect() }
}

fn parts_of(p: &FsPath) -> Vec<String> {
    p.parts.clone()
}

#[test]
fn upward_search_probes_each_ancestor() {
    let mut s = UpwardSearch::new(abs(&["home", "user", "proj"]), "marker.txt".to_string());
    let p = s.probe();
    assert_eq!(parts_of(&p), vec!["home", "user", "proj", "marker.txt"]);
    assert!(matches!(s.advance(false), UpwardOutcome::Continue));
    assert_eq!(parts_of(&s.probe()), vec!["home", "user", "marker.txt"]);
    assert!(matches!(s.advance(false), UpwardOutcome::Continue));
    match s.advance(true) {
        UpwardOutcome::Found(d) => assert_eq!(parts_of(&d), vec!["home"]),
        _ => panic!("expected a hit"),
    }
}

#[test]
fn upward_search_exhausts_at_the_root() {
    let mut s = UpwardSearch::new(abs(&["a"]), "m".to_string());
    assert!(matches!(s.advance(false), UpwardOutcome::Continue));
    assert!(matches!(s.advance(false), UpwardOutcome::Exhausted));
}

#[test]
fn locator_finds_marker_in_working_directory_chain() {
    let mut l = MainLocator::new(Some(abs(&["srv", "app"])), "anchor".to_string());
    match l.action() {
        LocateAction::ProbeFile(p) => assert_eq!(parts_of(&p), vec!["srv", "app", "anchor"]),
        _ => panic!("expected a probe"),
    }
    l.on_exists(true);
    match l.action() {
        LocateAction::Done(Some(d)) => assert_eq!(parts_of(&d), vec!["srv", "app"]),
        _ => panic!("expected a hit"),
    }
}

#[test]
fn locator_falls_back_to_program_directory() {
    let mut l = MainLocator::new(Some(abs(&["tmp"])), "anchor".to_string());
    l.on_exists(false); // tmp
    l.on_exists(false); // root
    assert!(matches!(l.action(), LocateAction::NeedExeDir));
    l.on_exe_dir(Some(abs(&["opt", "bin"])));
    match l.action() {
        LocateAction::ProbeFile(p) => assert_eq!(parts_of(&p), vec!["opt", "bin", "anchor"]),
        _ => panic!("expected a probe"),
    }
    l.on_exists(true);
    match l.action() {
        LocateAction::Done(Some(d)) => assert_eq!(parts_of(&d), vec!["opt", "bin"]),
        _ => panic!("expected a hit"),
    }
}

#[test]
fn locator_without_any_marker_yields_nothing_and_load_seeds() {
    let mut l = MainLocator::new(Some(abs(&["x", "y"])), "anchor".to_string());
    loop {
        match l.action() {
            LocateAction::ProbeFile(_) => l.on_exists(false),
            LocateAction::NeedExeDir => l.on_exe_dir(Some(abs(&["z"]))),
            LocateAction::Done(found) => {
                assert!(found.is_none());
                break;
            },
        }
    }
    // with no data file found, the load falls back and the caller seeds
    let mut b = Building::load_or_default(None);
    assert_eq!(b.floors.len(), 0);
    b.ensure_seeded();
    assert_eq!(b.floors.len(), 2);
    assert_eq!(b.floors[0].number, 1);
    assert_eq!(b.floors[1].number, 2);
}

#[test]
fn locator_without_working_directory_is_done_at_once() {
    let l = MainLocator::new(None, "anchor".to_string());
    assert!(matches!(l.action(), LocateAction::Done(None)));
}

#[test]
fn data_search_tries_data_directory_then_main() {
    let mut s = DataFileSearch::new(abs(&["proj"]), "store.txt".to_string());
    match s.action() {
        DataAction::ProbeFile(p) => assert_eq!(parts_of(&p), vec!["proj", "data", "store.txt"]),
        _ => panic!("expected a probe"),
    }
    s.on_exists(false); // proj/data
    s.on_exists(false); // proj
    s.on_exists(false); // root of the first climb
    // the second climb starts again from the main directory
    match s.action() {
        DataAction::ProbeFile(p) => assert_eq!(parts_of(&p), vec!["proj", "store.txt"]),
        _ => panic!("expected a probe"),
    }
    s.on_exists(true);
    match s.action() {
        DataAction::Done(Some(f)) => assert_eq!(parts_of(&f), vec!["proj", "store.txt"]),
        _ => panic!("expected a hit"),
    }
}

#[test]
fn data_search_can_end_empty_handed() {
    let mut s = DataFileSearch::new(abs(&[]), "store.txt".to_string());
    s.on_exists(false); // <root>/data
    s.on_exists(false); // <root>, first climb ends
    s.on_exists(false); // <root>, second climb ends
    assert!(matches!(s.action(), DataAction::Done(None)));
}

#[test]
fn save_plan_writes_absolute_paths_directly() {
    let file = abs(&["var", "store.txt"]);
    assert!(path_is_absolute(&file));
    let plan = save_plan(&file, None).unwrap();
    assert!(plan.target.absolute);
    assert_eq!(parts_of(&plan.target), vec!["var", "store.txt"]);
    assert!(plan.dir_to_create.is_none());
}

#[test]
fn save_plan_needs_the_main_directory_for_relative_paths() {
    let file = rel(&["store.txt"]);
    assert!(!path_is_absolute(&file));
    match save_plan(&file, None) {
        Err(e) => assert_eq!(e, StoreError::NotFound),
        Ok(_) => panic!("expected a failure without a main directory"),
    }

    let main = abs(&["proj"]);
    let plan = save_plan(&file, Some(&main)).unwrap();
    assert_eq!(parts_of(&plan.target), vec!["proj", "data", "store.txt"]);
    let dir = plan.dir_to_create.unwrap();
    assert_eq!(parts_of(&dir), vec!["proj", "data"]);
    assert!(dir.absolute);
}
