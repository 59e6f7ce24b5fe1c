use provmap::bytes::{parse_i64, parse_u8, split_bytes, trim_bytes};

#[test]
fn parse_u8_range() {
    assert_eq!(parse_u8(&b"0".to_vec()), Some(0));
    assert_eq!(parse_u8(&b"255".to_vec()), Some(255));
    assert_eq!(parse_u8(&b"007".to_vec()), Some(7));
    assert_eq!(parse_u8(&b"256".to_vec()), None);
    assert_eq!(parse_u8(&b"999999999999999999999".to_vec()), None);
    assert_eq!(parse_u8(&b"".to_vec()), None);
    assert_eq!(parse_u8(&b"1x".to_vec()), None);
    assert_eq!(parse_u8(&b"-1".to_vec()), None);
}

#[test]
fn parse_i64_range() {
    assert_eq!(parse_i64(&b"0".to_vec()), Some(0));
    assert_eq!(parse_i64(&b"-0".to_vec()), Some(0));
    assert_eq!(parse_i64(&b"12345".to_vec()), Some(12345));
    assert_eq!(parse_i64(&b"-12345".to_vec()), Some(-12345));
    assert_eq!(parse_i64(&b"9223372036854775807".to_vec()), Some(i64::MAX));
    assert_eq!(parse_i64(&b"-9223372036854775807".to_vec()), Some(-i64::MAX));
    assert_eq!(parse_i64(&b"9223372036854775808".to_vec()), None);
    assert_eq!(parse_i64(&b"-".to_vec()), None);
    assert_eq!(parse_i64(&b"".to_vec()), None);
    assert_eq!(parse_i64(&b"12a".to_vec()), None);
}

#[test]
fn split_keeps_empty_fields() {
    let fields = split_bytes(&b"a;;b;".to_vec(), b';');
    assert_eq!(
        fields,
        vec![b"a".to_vec(), Vec::new(), b"b".to_vec(), Vec::new()]
    );
    assert_eq!(split_bytes(&Vec::new(), b';'), vec![Vec::<u8>::new()]);
    assert_eq!(split_bytes(&b"abc".to_vec(), b';'), vec![b"abc".to_vec()]);
}

#[test]
fn trim_strips_ascii_whitespace() {
    assert_eq!(trim_bytes(&b"  tag\t ".to_vec()), b"tag".to_vec());
    assert_eq!(trim_bytes(&b"\r\n".to_vec()), Vec::<u8>::new());
    assert_eq!(trim_bytes(&b"a b".to_vec()), b"a b".to_vec());
    assert_eq!(trim_bytes(&Vec::new()), Vec::<u8>::new());
}
