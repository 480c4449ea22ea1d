use apartments::apartments::model::{Apartment, Building, Floor, StoreError};

fn seeded() -> Building {
    let mut b = Building::default();
    b.ensure_seeded();
    b
}

const SEEDED_TEXT: &str = "floors:\n\
- number: 1\n\
\x20 apartments:\n\
\x20 - code: 1A\n\
\x20   floor: 1\n\
\x20   door: A\n\
\x20   occupied: false\n\
\x20 - code: 1B\n\
\x20   floor: 1\n\
\x20   door: B\n\
\x20   occupied: false\n\
\x20 - code: 1C\n\
\x20   floor: 1\n\
\x20   door: C\n\
\x20   occupied: false\n\
- number: 2\n\
\x20 apartments:\n\
\x20 - code: 2A\n\
\x20   floor: 2\n\
\x20   door: A\n\
\x20   occupied: false\n\
\x20 - code: 2B\n\
\x20   floor: 2\n\
\x20   door: B\n\
\x20   occupied: false\n\
\x20 - code: 2C\n\
\x20   floor: 2\n\
\x20   door: C\n\
\x20   occupied: false\n";

#[test]
fn to_text_writes_the_exact_document() {
    let b = seeded();
    assert_eq!(b.to_text(), SEEDED_TEXT);
}

#[test]
fn empty_building_writes_empty_list() {
    let b = Building::default();
    assert_eq!(b.to_text(), "floors: []\n");
    let back = Building::from_text("floors: []\n").unwrap();
    assert_eq!(back.floors.len(), 0);
}

#[test]
fn save_then_load_then_save_is_byte_identical() {
    let mut b = seeded();
    b.occupy_apartment("2C").unwrap();
    b.add_apartment("4f").unwrap();
    let text = b.to_text();
    let reloaded = Building::from_text(text.as_str()).unwrap();
    assert_eq!(reloaded.to_text(), text);
    assert_eq!(reloaded.floors.len(), 3);
    assert!(reloaded.floors[1].apartments[2].occupied);
    assert_eq!(reloaded.floors[2].apartments[0].code, "4F");
}

#[test]
fn empty_floor_round_trips() {
    let b = Building { floors: vec![Floor { number: 7, apartments: vec![] }] };
    let text = b.to_text();
    assert_eq!(text, "floors:\n- number: 7\n  apartments: []\n");
    let back = Building::from_text(text.as_str()).unwrap();
    assert_eq!(back.to_text(), text);
}

#[test]
fn punctuated_code_round_trips() {
    let b = Building {
        floors: vec![Floor {
            number: 1,
            apartments: vec![Apartment::from_code("1-A-", true)],
        }],
    };
    let text = b.to_text();
    let back = Building::from_text(text.as_str()).unwrap();
    assert_eq!(back.floors[0].apartments[0].code, "1-A-");
    assert!(back.floors[0].apartments[0].occupied);
    assert_eq!(back.to_text(), text);
}

#[test]
fn malformed_text_is_rejected() {
    match Building::from_text("") {
        Err(e) => assert_eq!(e, StoreError::ParseFailure),
        Ok(_) => panic!("an empty text is no document"),
    }
    assert!(Building::from_text("floors: []").is_err());
    assert!(Building::from_text("floors: []\nextra").is_err());
    assert!(Building::from_text("floors:\n- number: x\n  apartments: []\n").is_err());
    assert!(Building::from_text("floors:\n- number: 70000\n  apartments: []\n").is_err());
    assert!(Building::from_text("not a building at all").is_err());
    assert!(Building::from_text(SEEDED_TEXT.trim_end()).is_err());
}

#[test]
fn load_or_default_falls_back() {
    let missing = Building::load_or_default(None);
    assert_eq!(missing.floors.len(), 0);

    let garbled = Building::load_or_default(Some("plainly broken"));
    assert_eq!(garbled.floors.len(), 0);

    let good = Building::load_or_default(Some(SEEDED_TEXT));
    assert_eq!(good.floors.len(), 2);
    assert_eq!(good.to_text(), SEEDED_TEXT);
}

#[test]
fn unknown_fields_are_ignored_on_read() {
    // an extra top-level entry after the floors list
    let trailing = format!("{}version: 2\n", SEEDED_TEXT);
    let b = Building::from_text(trailing.as_str()).unwrap();
    assert_eq!(b.to_text(), SEEDED_TEXT);

    // an extra top-level entry, with a nested block, before the floors list
    let leading = format!("meta:\n  author: someone\n{}", SEEDED_TEXT);
    let b = Building::from_text(leading.as_str()).unwrap();
    assert_eq!(b.to_text(), SEEDED_TEXT);

    // an unknown field inside a floor record
    let floor_extra = "floors:\n- number: 7\n  label: west wing\n  apartments: []\n";
    let b = Building::from_text(floor_extra).unwrap();
    assert_eq!(b.floors.len(), 1);
    assert_eq!(b.floors[0].number, 7);
    assert_eq!(b.to_text(), "floors:\n- number: 7\n  apartments: []\n");

    // unknown fields inside an apartment record, between and after the known ones
    let apt_extra = "floors:\n- number: 1\n  apartments:\n  - code: 1A\n    tenant: nobody\n    floor: 1\n    door: A\n    occupied: false\n    area: 40\n";
    let b = Building::from_text(apt_extra).unwrap();
    assert_eq!(b.floors[0].apartments.len(), 1);
    assert_eq!(b.floors[0].apartments[0].code, "1A");
    assert!(!b.floors[0].apartments[0].occupied);
}

#[test]
fn stray_list_items_still_fail_the_parse() {
    // a malformed floor entry is no unknown field: the load falls back
    let broken = format!("{}- number: x\n  apartments: []\n", SEEDED_TEXT);
    assert!(Building::from_text(broken.as_str()).is_err());
    assert_eq!(Building::load_or_default(Some(broken.as_str())).floors.len(), 0);
}

#[test]
fn line_breaks_in_codes_round_trip() {
    let b = Building {
        floors: vec![Floor {
            number: 1,
            apartments: vec![Apartment::from_code("1A\nB", true)],
        }],
    };
    assert_eq!(b.floors[0].apartments[0].code, "1A\nB");
    let text = b.to_text();
    let back = Building::from_text(text.as_str()).unwrap();
    assert_eq!(back.floors[0].apartments[0].code, "1A\nB");
    assert_eq!(back.to_text(), text);

    let c = Building {
        floors: vec![Floor {
            number: 2,
            apartments: vec![Apartment::from_code("2\\n", false)],
        }],
    };
    let text = c.to_text();
    let back = Building::from_text(text.as_str()).unwrap();
    assert_eq!(back.floors[0].apartments[0].code, "2\\N");
    assert_eq!(back.to_text(), text);
}
