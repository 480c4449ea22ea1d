use apartments::apartments::model::{Apartment, Building, Floor, StoreError};

fn seeded() -> Building {
    let mut b = Building::default();
    b.ensure_seeded();
    b
}

fn doors(f: &Floor) -> Vec<String> {
    f.apartments.iter().map(|a| a.door.clone()).collect()
}

#[test]
fn parse_code_buckets_digits_and_letters() {
    let a = Apartment::from_code("1a", false);
    assert_eq!(a.floor, 1);
    assert_eq!(a.door, "A");
    assert_eq!(a.code, "1A");
    assert!(!a.occupied);

    let b = Apartment::from_code("1A", true);
    assert_eq!(b.floor, 1);
    assert_eq!(b.door, "A");
    assert_eq!(b.code, "1A");
    assert!(b.occupied);

    let c = Apartment::from_code("A1", false);
    assert_eq!(c.floor, 1);
    assert_eq!(c.door, "A");
    assert_eq!(c.code, "A1");
}

#[test]
fn parse_code_ignores_punctuation() {
    let a = Apartment::from_code("1-A-", false);
    assert_eq!(a.floor, 1);
    assert_eq!(a.door, "A");
    assert_eq!(a.code, "1-A-");
}

#[test]
fn parse_code_interleaved_classes() {
    let a = Apartment::from_code("1a2b", false);
    assert_eq!(a.floor, 12);
    assert_eq!(a.door, "AB");
    assert_eq!(a.code, "1A2B");
}

#[test]
fn parse_code_defaults_floor_to_zero() {
    let no_digits = Apartment::from_code("abc", false);
    assert_eq!(no_digits.floor, 0);
    assert_eq!(no_digits.door, "ABC");

    let too_large = Apartment::from_code("99999999x", false);
    assert_eq!(too_large.floor, 0);
    assert_eq!(too_large.door, "X");
}

#[test]
fn from_floor_door_composes_code() {
    let a = Apartment::from_floor_door(3, "d", false);
    assert_eq!(a.code, "3D");
    assert_eq!(a.floor, 3);
    assert_eq!(a.door, "D");
    assert!(!a.occupied);
}

#[test]
fn seed_gives_two_floors_of_three() {
    let b = seeded();
    assert_eq!(b.floors.len(), 2);
    assert_eq!(b.floors[0].number, 1);
    assert_eq!(b.floors[1].number, 2);
    for f in &b.floors {
        assert_eq!(doors(f), vec!["A", "B", "C"]);
        for a in &f.apartments {
            assert!(!a.occupied);
            assert_eq!(a.floor, f.number);
        }
    }
    assert_eq!(b.floors[0].apartments[0].code, "1A");
    assert_eq!(b.floors[1].apartments[2].code, "2C");
    assert!(b.check_wf());
}

#[test]
fn seed_leaves_populated_building_alone() {
    let mut b = seeded();
    b.occupy_apartment("1A").unwrap();
    let before = b.to_text();
    b.ensure_seeded();
    assert_eq!(b.to_text(), before);
}

#[test]
fn add_on_new_floor_creates_it_sorted() {
    let mut b = seeded();
    assert_eq!(b.add_apartment("3D"), Ok(()));
    let numbers: Vec<u16> = b.floors.iter().map(|f| f.number).collect();
    assert_eq!(numbers, vec![1, 2, 3]);
    assert_eq!(b.floors[2].apartments.len(), 1);
    assert_eq!(b.floors[2].apartments[0].door, "D");
    assert_eq!(b.floors[2].apartments[0].code, "3D");
    assert!(!b.floors[2].apartments[0].occupied);
    assert!(b.check_wf());
}

#[test]
fn add_between_floors_keeps_order() {
    let mut b = seeded();
    assert_eq!(b.add_apartment("5A"), Ok(()));
    assert_eq!(b.add_apartment("3A"), Ok(()));
    let numbers: Vec<u16> = b.floors.iter().map(|f| f.number).collect();
    assert_eq!(numbers, vec![1, 2, 3, 5]);
    assert!(b.check_wf());
}

#[test]
fn add_existing_door_conflicts_and_changes_nothing() {
    let mut b = seeded();
    let before = b.to_text();
    assert_eq!(b.add_apartment("1A"), Err(StoreError::LogicConflict));
    assert_eq!(b.to_text(), before);
}

#[test]
fn add_sorts_doors_within_floor() {
    let mut b = seeded();
    assert_eq!(b.add_apartment("1D"), Ok(()));
    assert_eq!(b.add_apartment("1"), Ok(()));
    // a code without letters has an empty door, which sorts first
    assert_eq!(doors(&b.floors[0]), vec!["", "A", "B", "C", "D"]);
    assert!(b.check_wf());
}

#[test]
fn occupy_sets_flag_once() {
    let mut b = seeded();
    assert_eq!(b.occupy_apartment("2b"), Ok(()));
    assert!(b.floors[1].apartments[1].occupied);
    let before = b.to_text();
    assert_eq!(b.occupy_apartment("2B"), Err(StoreError::LogicConflict));
    assert_eq!(b.to_text(), before);
}

#[test]
fn occupy_missing_floor_or_door_is_not_found() {
    let mut b = seeded();
    let before = b.to_text();
    assert_eq!(b.occupy_apartment("9Z"), Err(StoreError::NotFound));
    assert_eq!(b.occupy_apartment("1Z"), Err(StoreError::NotFound));
    assert_eq!(b.to_text(), before);
}

#[test]
fn check_wf_rejects_disorder() {
    let b = Building {
        floors: vec![
            Floor { number: 2, apartments: vec![] },
            Floor { number: 1, apartments: vec![] },
        ],
    };
    assert!(!b.check_wf());

    let c = Building {
        floors: vec![Floor {
            number: 1,
            apartments: vec![
                Apartment::from_floor_door(1, "B", false),
                Apartment::from_floor_door(1, "A", false),
            ],
        }],
    };
    assert!(!c.check_wf());
}
