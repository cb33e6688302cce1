use rustzilla::entity::{food_sprite, shark_sprite, Kind};
use rustzilla::sprite::{Color, Facing, Style};

#[test]
fn food_is_a_bold_yellow_pellet() {
    let s = food_sprite();
    assert_eq!(s.rows, vec!["•".to_string()]);
    assert_eq!(s.style, Style { bold: true, color: Some(Color::Yellow) });
    assert_eq!(s.width(), 1);
}

#[test]
fn shark_faces_the_way_it_swims() {
    let right = shark_sprite(Facing::Right);
    assert_eq!(right.rendered_rows(), vec!["     /\\".to_string(), "<#######°>".to_string()]);
    let left = shark_sprite(Facing::Left);
    assert_eq!(left.rendered_rows(), vec!["/\\     ".to_string(), "<°#######>".to_string()]);
    assert_eq!(left.style, Style { bold: true, color: Some(Color::Red) });
    assert_eq!(right.width(), 10);
    assert_eq!(right.height(), 2);
}

#[test]
fn kinds_are_distinct() {
    assert_ne!(Kind::Fish, Kind::Food);
    assert_ne!(Kind::Food, Kind::Shark);
}
