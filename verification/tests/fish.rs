use rustzilla::fish::{cool_sprite, ducky_sprite, facing_of, googly_sprite, upsidedown_sprite};
use rustzilla::sprite::{Color, Facing};

#[test]
fn fish_faces_its_travel_direction() {
    let right = googly_sprite(true);
    let left = googly_sprite(false);
    // Left-facing is the column-reverse of right-facing, row for row.
    let r = right.rendered_rows();
    let l = left.rendered_rows();
    for (rr, lr) in r.iter().zip(l.iter()) {
        let mut rev = rr.clone();
        rev.reverse();
        assert_eq!(&rev, lr);
    }
}

#[test]
fn facing_of_maps_flag() {
    assert_eq!(facing_of(true), Facing::Right);
    assert_eq!(facing_of(false), Facing::Left);
}

#[test]
fn every_fish_sprite_is_a_full_rectangle() {
    let cast = vec![
        googly_sprite(true),
        cool_sprite(false),
        upsidedown_sprite(true, true),
        ducky_sprite(Facing::Left),
    ];
    for s in &cast {
        assert_eq!(s.width(), 13);
        assert_eq!(s.height(), 8);
        assert_eq!(s.cell_h(), 4);
        assert!(s.pixels.iter().all(|r| r.len() == 13));
        assert!(s.pixels.iter().any(|r| r.iter().any(|p| p.is_some())));
    }
}

#[test]
fn googly_has_a_black_pupil_in_a_white_eye() {
    let s = googly_sprite(true);
    assert_eq!(s.pixels[3][9], Some(Color::Black));
    assert_eq!(s.pixels[3][8], Some(Color::White));
    assert_eq!(s.pixels[0][0], None);
    assert_eq!(s.pixels[0][5], Some(Color::Cyan));
}

#[test]
fn upsidedown_flips_when_asked() {
    assert!(upsidedown_sprite(true, true).flip_v);
    assert!(!upsidedown_sprite(true, false).flip_v);
    let up = upsidedown_sprite(true, false).rendered_rows();
    let down = upsidedown_sprite(true, true).rendered_rows();
    assert_eq!(up[3], down[4]);
}

#[test]
fn ducky_has_an_orange_beak() {
    let s = ducky_sprite(Facing::Right);
    assert_eq!(s.pixels[3][8], Some(Color::Orange));
    assert_eq!(s.facing, Facing::Right);
}
