use provmap::color::Rgba;
use provmap::owners::{InsertResult, OwnerColorTable};
use provmap::recolor::recolor_and_mask;
use provmap::registry::Province;
use provmap::resolver::{resolve, SaveState, StateDef};

fn rgba(r: u8, g: u8, b: u8, a: u8) -> Rgba {
    Rgba { r, g, b, a }
}

fn table_with(tag: &[u8], r: u8, g: u8, b: u8) -> OwnerColorTable {
    let mut t = OwnerColorTable::new();
    match t.insert_owner(tag.to_vec(), r, g, b) {
        InsertResult::Added(_) => {},
        _ => panic!("expected an insert"),
    }
    t
}

#[test]
fn resolve_known_owner_uses_table_color() {
    let table = table_with(b"AAA", 200, 0, 0);
    let defs = vec![StateDef { id: 1, provinces: vec![10, 11] }];
    let saves = vec![SaveState { id: 1, owner: b"AAA".to_vec() }];
    let asgs = resolve(&saves, &defs, &table);
    assert_eq!(asgs.len(), 1);
    assert_eq!(asgs[0].province_ids, vec![10, 11]);
    assert_eq!(asgs[0].color, rgba(200, 0, 0, 255));
}

#[test]
fn resolve_unknown_owner_is_transparent() {
    let table = table_with(b"AAA", 200, 0, 0);
    let defs = vec![StateDef { id: 1, provinces: vec![10, 11] }];
    let saves = vec![SaveState { id: 1, owner: b"XYZ".to_vec() }];
    let asgs = resolve(&saves, &defs, &table);
    assert_eq!(asgs.len(), 1);
    assert_eq!(asgs[0].province_ids, vec![10, 11]);
    assert_eq!(asgs[0].color, rgba(0, 0, 0, 0));
}

#[test]
fn resolve_missing_state_definition_is_skipped() {
    let table = table_with(b"AAA", 200, 0, 0);
    let defs = vec![StateDef { id: 1, provinces: vec![10] }];
    let saves = vec![SaveState { id: 99, owner: b"AAA".to_vec() }];
    let asgs = resolve(&saves, &defs, &table);
    assert!(asgs.is_empty());
}

#[test]
fn missing_state_leaves_pixels_at_their_color() {
    // End to end: a save entry for an undefined state produces no
    // assignment, so its provinces' pixels keep their registry color.
    let table = table_with(b"AAA", 200, 0, 0);
    let registry = vec![Province { id: 10, color: rgba(10, 20, 30, 255), is_land: true }];
    let defs: Vec<StateDef> = Vec::new();
    let saves = vec![SaveState { id: 99, owner: b"AAA".to_vec() }];
    let asgs = resolve(&saves, &defs, &table);
    assert!(asgs.is_empty());
    let mut buffer = vec![rgba(10, 20, 30, 255), rgba(9, 9, 9, 255)];
    recolor_and_mask(&mut buffer, &registry, &asgs).unwrap();
    assert_eq!(buffer, vec![rgba(10, 20, 30, 255), rgba(9, 9, 9, 255)]);
}

#[test]
fn resolve_keeps_save_order() {
    let table = table_with(b"AAA", 200, 0, 0);
    let defs = vec![
        StateDef { id: 1, provinces: vec![10] },
        StateDef { id: 2, provinces: vec![20] },
    ];
    let saves = vec![
        SaveState { id: 2, owner: b"AAA".to_vec() },
        SaveState { id: 1, owner: b"ZZZ".to_vec() },
    ];
    let asgs = resolve(&saves, &defs, &table);
    assert_eq!(asgs.len(), 2);
    assert_eq!(asgs[0].province_ids, vec![20]);
    assert_eq!(asgs[0].color, rgba(200, 0, 0, 255));
    assert_eq!(asgs[1].province_ids, vec![10]);
    assert_eq!(asgs[1].color, rgba(0, 0, 0, 0));
}

#[test]
fn sea_province_in_unowned_state_ends_transparent() {
    // A state holding a sea province, with an owner absent from the color
    // table: the resolver paints it with the transparent sentinel, and the
    // pixel is transparent after the full pass.
    let table = OwnerColorTable::new();
    let registry = vec![Province { id: 11, color: rgba(1, 1, 1, 255), is_land: false }];
    let defs = vec![StateDef { id: 1, provinces: vec![11] }];
    let saves = vec![SaveState { id: 1, owner: b"XYZ".to_vec() }];
    let asgs = resolve(&saves, &defs, &table);
    assert_eq!(asgs.len(), 1);
    assert_eq!(asgs[0].color, rgba(0, 0, 0, 0));
    let mut buffer = vec![rgba(1, 1, 1, 255), rgba(8, 8, 8, 255)];
    recolor_and_mask(&mut buffer, &registry, &asgs).unwrap();
    assert_eq!(buffer, vec![rgba(0, 0, 0, 0), rgba(8, 8, 8, 255)]);
}

#[test]
fn resolved_transparent_assignment_then_sea_mask() {
    // End to end: an unknown owner paints its state transparent, and the
    // sea mask still clears sea provinces afterwards.
    let table = OwnerColorTable::new();
    let registry = vec![
        Province { id: 10, color: rgba(10, 20, 30, 255), is_land: true },
        Province { id: 11, color: rgba(1, 1, 1, 255), is_land: false },
    ];
    let defs = vec![StateDef { id: 1, provinces: vec![10] }];
    let saves = vec![SaveState { id: 1, owner: b"XYZ".to_vec() }];
    let asgs = resolve(&saves, &defs, &table);
    let mut buffer = vec![rgba(10, 20, 30, 255), rgba(1, 1, 1, 255), rgba(8, 8, 8, 255)];
    recolor_and_mask(&mut buffer, &registry, &asgs).unwrap();
    assert_eq!(buffer, vec![rgba(0, 0, 0, 0), rgba(0, 0, 0, 0), rgba(8, 8, 8, 255)]);
}
