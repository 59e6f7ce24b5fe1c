use provmap::color::Rgba;
use provmap::owners::{
    parse_color_triple, parse_tag_line, InsertResult, OwnerColorTable, RegisterResult, TagLine,
};

fn rgba(r: u8, g: u8, b: u8, a: u8) -> Rgba {
    Rgba { r, g, b, a }
}

#[test]
fn tag_line_entry() {
    match parse_tag_line(&b"ABC = \"countries/ABC.txt\"".to_vec()) {
        TagLine::Entry(tag, path) => {
            assert_eq!(tag, b"ABC".to_vec());
            assert_eq!(path, b"countries/ABC.txt".to_vec());
        },
        _ => panic!("expected an entry"),
    }
}

#[test]
fn tag_line_skips_comments_and_blanks() {
    assert!(matches!(parse_tag_line(&b"".to_vec()), TagLine::Skip));
    assert!(matches!(parse_tag_line(&b"# a comment".to_vec()), TagLine::Skip));
}

#[test]
fn tag_line_without_quotes_is_malformed() {
    assert!(matches!(parse_tag_line(&b"ABC = countries/ABC.txt".to_vec()), TagLine::Malformed));
}

#[test]
fn tag_line_without_equals_is_malformed() {
    assert!(matches!(parse_tag_line(&b"just text".to_vec()), TagLine::Malformed));
}

#[test]
fn tag_line_without_slash_is_malformed() {
    assert!(matches!(parse_tag_line(&b"ABC = \"ABC.txt\"".to_vec()), TagLine::Malformed));
}

#[test]
fn color_triple_basic() {
    let content = b"color = rgb { 10 20 30 }".to_vec();
    assert_eq!(parse_color_triple(&content), Some((10, 20, 30)));
}

#[test]
fn color_triple_extra_tokens_keep_first_three() {
    assert_eq!(parse_color_triple(&b"{ 1 2 3 4 }".to_vec()), Some((1, 2, 3)));
}

#[test]
fn color_triple_missing_braces() {
    assert_eq!(parse_color_triple(&b"1 2 3".to_vec()), None);
    assert_eq!(parse_color_triple(&b"} 1 2 3 {".to_vec()), None);
}

#[test]
fn color_triple_too_few_tokens() {
    assert_eq!(parse_color_triple(&b"{ 1 2 }".to_vec()), None);
}

#[test]
fn color_triple_non_numeric_token() {
    assert_eq!(parse_color_triple(&b"{ 1 2 x }".to_vec()), None);
    assert_eq!(parse_color_triple(&b"{ 1 2 300 }".to_vec()), None);
}

#[test]
fn insert_keeps_candidate_when_free() {
    let mut t = OwnerColorTable::new();
    match t.insert_owner(b"AAA".to_vec(), 5, 6, 7) {
        InsertResult::Added(c) => assert_eq!(c, rgba(5, 6, 7, 255)),
        _ => panic!("expected an insert"),
    }
    assert_eq!(t.lookup(&b"AAA".to_vec()), Some(rgba(5, 6, 7, 255)));
}

#[test]
fn insert_redraws_on_forced_collision() {
    let mut t = OwnerColorTable::new();
    match t.insert_owner(b"AAA".to_vec(), 5, 5, 5) {
        InsertResult::Added(c) => assert_eq!(c, rgba(5, 5, 5, 255)),
        _ => panic!("expected an insert"),
    }
    match t.insert_owner(b"BBB".to_vec(), 5, 5, 5) {
        InsertResult::Added(c) => {
            assert_ne!(c, rgba(5, 5, 5, 255));
            assert_eq!(c.a, 255);
        },
        _ => panic!("expected an insert"),
    }
    let a = t.lookup(&b"AAA".to_vec()).unwrap();
    let b = t.lookup(&b"BBB".to_vec()).unwrap();
    assert_ne!((a.r, a.g, a.b), (b.r, b.g, b.b));
}

#[test]
fn table_colors_stay_pairwise_distinct_under_collisions() {
    let mut t = OwnerColorTable::new();
    let tags: [&[u8]; 6] = [b"AAA", b"BBB", b"CCC", b"DDD", b"EEE", b"FFF"];
    for tag in tags {
        match t.insert_owner(tag.to_vec(), 1, 2, 3) {
            InsertResult::Added(_) => {},
            _ => panic!("expected an insert"),
        }
    }
    let mut colors: Vec<(u8, u8, u8)> = tags
        .iter()
        .map(|tag| {
            let c = t.lookup(&tag.to_vec()).unwrap();
            assert_eq!(c.a, 255);
            (c.r, c.g, c.b)
        })
        .collect();
    colors.sort();
    for w in colors.windows(2) {
        assert_ne!(w[0], w[1]);
    }
}

#[test]
fn insert_duplicate_tag_rejected() {
    let mut t = OwnerColorTable::new();
    assert!(matches!(t.insert_owner(b"AAA".to_vec(), 1, 1, 1), InsertResult::Added(_)));
    assert!(matches!(t.insert_owner(b"AAA".to_vec(), 2, 2, 2), InsertResult::DuplicateTag));
    assert_eq!(t.lookup(&b"AAA".to_vec()), Some(rgba(1, 1, 1, 255)));
}

#[test]
fn lookup_missing_tag() {
    let t = OwnerColorTable::new();
    assert_eq!(t.lookup(&b"XYZ".to_vec()), None);
}

#[test]
fn register_owner_from_file_content() {
    let mut t = OwnerColorTable::new();
    match t.register_owner(b"GER".to_vec(), &b"color = { 40 50 60 }".to_vec()) {
        RegisterResult::Added(c) => assert_eq!(c, rgba(40, 50, 60, 255)),
        _ => panic!("expected a registration"),
    }
}

#[test]
fn register_owner_bad_content() {
    let mut t = OwnerColorTable::new();
    assert!(matches!(
        t.register_owner(b"GER".to_vec(), &b"no braces here".to_vec()),
        RegisterResult::BadColor
    ));
    assert_eq!(t.lookup(&b"GER".to_vec()), None);
}
