use provmap::color::Rgba;
use provmap::registry::{
    load_registry, parse_definition_line, registry_colors_distinct, DefError, Province,
};

fn rgba(r: u8, g: u8, b: u8, a: u8) -> Rgba {
    Rgba { r, g, b, a }
}

#[test]
fn parse_line_land() {
    let p = parse_definition_line(&b"1;10;20;30;land".to_vec()).unwrap();
    assert_eq!(p.id, 1);
    assert_eq!(p.color, rgba(10, 20, 30, 255));
    assert!(p.is_land);
}

#[test]
fn parse_line_sea() {
    let p = parse_definition_line(&b"2;1;1;1;sea".to_vec()).unwrap();
    assert_eq!(p.id, 2);
    assert!(!p.is_land);
}

#[test]
fn parse_line_type_is_case_sensitive() {
    let p = parse_definition_line(&b"3;0;0;0;Land".to_vec()).unwrap();
    assert!(!p.is_land);
}

#[test]
fn parse_line_alpha_always_opaque() {
    for line in [
        &b"1;0;0;0;land"[..],
        &b"2;255;255;255;sea"[..],
        &b"3;12;34;56;lake"[..],
    ] {
        let p = parse_definition_line(&line.to_vec()).unwrap();
        assert_eq!(p.color.a, 255);
    }
}

#[test]
fn parse_line_negative_id() {
    let p = parse_definition_line(&b"-5;1;2;3;sea".to_vec()).unwrap();
    assert_eq!(p.id, -5);
}

#[test]
fn parse_line_extra_fields_accepted() {
    let p = parse_definition_line(&b"7;8;9;10;land;false;unknown".to_vec()).unwrap();
    assert_eq!(p.id, 7);
    assert_eq!(p.color, rgba(8, 9, 10, 255));
    assert!(p.is_land);
}

#[test]
fn parse_line_too_few_fields() {
    assert!(parse_definition_line(&b"1;2;3".to_vec()).is_none());
}

#[test]
fn parse_line_non_numeric_id() {
    assert!(parse_definition_line(&b"x;1;2;3;land".to_vec()).is_none());
}

#[test]
fn parse_line_channel_out_of_range() {
    assert!(parse_definition_line(&b"1;256;0;0;land".to_vec()).is_none());
}

#[test]
fn parse_line_missing_channel() {
    assert!(parse_definition_line(&b"1;2;;3;land".to_vec()).is_none());
}

#[test]
fn load_registry_empty_input() {
    let ps = load_registry(&Vec::new()).unwrap();
    assert!(ps.is_empty());
}

#[test]
fn load_registry_skips_blank_lines() {
    let lines = vec![
        Vec::new(),
        b"1;10;20;30;land".to_vec(),
        Vec::new(),
        b"2;40;50;60;sea".to_vec(),
    ];
    let ps = load_registry(&lines).unwrap();
    assert_eq!(ps.len(), 2);
    assert_eq!(ps[0].id, 1);
    assert_eq!(ps[1].id, 2);
}

#[test]
fn load_registry_reports_first_bad_line() {
    let lines = vec![
        b"1;1;1;1;land".to_vec(),
        b"oops".to_vec(),
        b"also;bad".to_vec(),
    ];
    match load_registry(&lines) {
        Err(DefError::MalformedRecord { line }) => assert_eq!(line, 1),
        _ => panic!("expected a malformed-record error"),
    }
}

#[test]
fn load_registry_keeps_duplicates_in_order() {
    let lines = vec![b"4;1;2;3;land".to_vec(), b"4;9;9;9;sea".to_vec()];
    let ps = load_registry(&lines).unwrap();
    assert_eq!(ps.len(), 2);
    assert_eq!(ps[0].color, rgba(1, 2, 3, 255));
    assert_eq!(ps[1].color, rgba(9, 9, 9, 255));
}

#[test]
fn distinct_colors_check() {
    let a = Province { id: 1, color: rgba(1, 2, 3, 255), is_land: true };
    let b = Province { id: 2, color: rgba(4, 5, 6, 255), is_land: false };
    let c = Province { id: 3, color: rgba(1, 2, 3, 255), is_land: true };
    assert!(registry_colors_distinct(&vec![a, b]));
    assert!(!registry_colors_distinct(&vec![a, b, c]));
}
