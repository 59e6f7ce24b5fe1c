use provmap::color::Rgba;
use provmap::recolor::{mask_seas, recolor, recolor_and_mask, Assignment, RecolorError};
use provmap::registry::Province;

fn rgba(r: u8, g: u8, b: u8, a: u8) -> Rgba {
    Rgba { r, g, b, a }
}

fn land(id: i64, r: u8, g: u8, b: u8) -> Province {
    Province { id, color: rgba(r, g, b, 255), is_land: true }
}

fn sea(id: i64, r: u8, g: u8, b: u8) -> Province {
    Province { id, color: rgba(r, g, b, 255), is_land: false }
}

#[test]
fn recolor_scenario_single_land_province() {
    let registry = vec![land(1, 10, 20, 30)];
    let assignments = vec![Assignment { province_ids: vec![1], color: rgba(200, 0, 0, 255) }];
    let mut buffer = vec![
        rgba(10, 20, 30, 255),
        rgba(9, 9, 9, 255),
        rgba(10, 20, 30, 255),
        rgba(10, 20, 30, 0),
    ];
    recolor_and_mask(&mut buffer, &registry, &assignments).unwrap();
    assert_eq!(
        buffer,
        vec![
            rgba(200, 0, 0, 255),
            rgba(9, 9, 9, 255),
            rgba(200, 0, 0, 255),
            // alpha differs, so the pixel does not match the province color
            rgba(10, 20, 30, 0),
        ]
    );
}

#[test]
fn mask_scenario_untouched_sea_province() {
    let registry = vec![sea(2, 1, 1, 1)];
    let assignments: Vec<Assignment> = Vec::new();
    let mut buffer = vec![rgba(1, 1, 1, 255), rgba(7, 7, 7, 255), rgba(1, 1, 1, 255)];
    recolor_and_mask(&mut buffer, &registry, &assignments).unwrap();
    assert_eq!(buffer, vec![rgba(0, 0, 0, 0), rgba(7, 7, 7, 255), rgba(0, 0, 0, 0)]);
}

#[test]
fn unknown_province_id_is_fatal_and_leaves_buffer() {
    let registry = vec![land(1, 10, 20, 30)];
    let assignments = vec![Assignment { province_ids: vec![1, 42], color: rgba(200, 0, 0, 255) }];
    let mut buffer = vec![rgba(10, 20, 30, 255)];
    match recolor(&mut buffer, &registry, &assignments) {
        Err(RecolorError::UnknownProvinceId { id }) => assert_eq!(id, 42),
        _ => panic!("expected an unknown-province error"),
    }
    assert_eq!(buffer, vec![rgba(10, 20, 30, 255)]);
}

#[test]
fn unmatched_pixels_unchanged_by_full_pass() {
    let registry = vec![land(1, 10, 20, 30), sea(2, 1, 1, 1)];
    let assignments = vec![Assignment { province_ids: vec![1], color: rgba(200, 0, 0, 255) }];
    let mut buffer = vec![rgba(9, 9, 9, 255), rgba(0, 0, 0, 0), rgba(200, 0, 0, 254)];
    let before = buffer.clone();
    recolor_and_mask(&mut buffer, &registry, &assignments).unwrap();
    assert_eq!(buffer, before);
}

#[test]
fn recolor_order_independent() {
    let registry = vec![land(1, 10, 20, 30), land(2, 40, 50, 60)];
    let a1 = || Assignment { province_ids: vec![1], color: rgba(200, 0, 0, 255) };
    let a2 = || Assignment { province_ids: vec![2], color: rgba(0, 200, 0, 255) };
    let start = vec![
        rgba(10, 20, 30, 255),
        rgba(40, 50, 60, 255),
        rgba(9, 9, 9, 255),
        rgba(10, 20, 30, 255),
    ];
    let mut one = start.clone();
    recolor(&mut one, &registry, &vec![a1(), a2()]).unwrap();
    let mut two = start.clone();
    recolor(&mut two, &registry, &vec![a2(), a1()]).unwrap();
    assert_eq!(one, two);
    assert_eq!(
        one,
        vec![
            rgba(200, 0, 0, 255),
            rgba(0, 200, 0, 255),
            rgba(9, 9, 9, 255),
            rgba(200, 0, 0, 255),
        ]
    );
}

#[test]
fn sea_mask_clears_sea_left_alone_by_recolor() {
    let registry = vec![land(1, 10, 20, 30), sea(2, 1, 1, 1)];
    let assignments = vec![Assignment { province_ids: vec![1], color: rgba(200, 0, 0, 255) }];
    let mut buffer = vec![rgba(1, 1, 1, 255), rgba(10, 20, 30, 255)];
    recolor_and_mask(&mut buffer, &registry, &assignments).unwrap();
    assert_eq!(buffer, vec![rgba(0, 0, 0, 0), rgba(200, 0, 0, 255)]);
}

#[test]
fn mask_alone_clears_every_sea_color() {
    let registry = vec![sea(1, 1, 1, 1), sea(2, 2, 2, 2), land(3, 3, 3, 3)];
    let mut buffer = vec![rgba(1, 1, 1, 255), rgba(2, 2, 2, 255), rgba(3, 3, 3, 255)];
    mask_seas(&mut buffer, &registry);
    assert_eq!(buffer, vec![rgba(0, 0, 0, 0), rgba(0, 0, 0, 0), rgba(3, 3, 3, 255)]);
}

#[test]
fn transparent_assignment_color_applies() {
    // An owner without a color entry resolves to the transparent sentinel;
    // recoloring with it clears the province's pixels.
    let registry = vec![land(1, 10, 20, 30)];
    let assignments = vec![Assignment { province_ids: vec![1], color: rgba(0, 0, 0, 0) }];
    let mut buffer = vec![rgba(10, 20, 30, 255), rgba(5, 5, 5, 255)];
    recolor(&mut buffer, &registry, &assignments).unwrap();
    assert_eq!(buffer, vec![rgba(0, 0, 0, 0), rgba(5, 5, 5, 255)]);
}
