use provmap::color::Rgba;
use provmap::pixels::{bytes_from_pixels, pixels_from_bytes};

#[test]
fn decode_groups_of_four() {
    let bytes = vec![1, 2, 3, 4, 5, 6, 7, 8];
    let ps = pixels_from_bytes(&bytes).unwrap();
    assert_eq!(ps.len(), 2);
    assert_eq!(ps[0], Rgba { r: 1, g: 2, b: 3, a: 4 });
    assert_eq!(ps[1], Rgba { r: 5, g: 6, b: 7, a: 8 });
}

#[test]
fn decode_rejects_ragged_length() {
    assert!(pixels_from_bytes(&vec![1, 2, 3]).is_none());
    assert!(pixels_from_bytes(&vec![1, 2, 3, 4, 5]).is_none());
}

#[test]
fn decode_empty() {
    assert_eq!(pixels_from_bytes(&Vec::new()).unwrap().len(), 0);
}

#[test]
fn round_trip() {
    let bytes = vec![9, 8, 7, 6, 0, 0, 0, 0, 255, 255, 255, 255];
    let ps = pixels_from_bytes(&bytes).unwrap();
    assert_eq!(bytes_from_pixels(&ps), bytes);
}
