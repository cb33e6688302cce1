use vstd::prelude::*;

use crate::raster::drawn_glyph;
use crate::sprite::{mirror_glyph, text_rendered, Color, Facing, Sprite, Style};

verus! {

/// What an entity is, so the tank can build context, enforce the fish cap,
/// and resolve fish-vs-food collisions without downcasting.
#[derive(Clone, Copy, Debug, PartialEq, Eq, Structural)]
pub enum Kind {
    Fish,
    Food,
    Shark,
}

/// The text rows of the food pellet: a single bullet.
pub open spec fn food_art() -> Seq<Seq<char>> {
    seq!["\u{2022}"@]
}

/// The text rows of the shark, facing right: dorsal fin over a chunky body
/// with the eye and nose on the right.
pub open spec fn shark_art() -> Seq<Seq<char>> {
    seq!["     /\\"@, "<#######\u{b0}>"@]
}

/// A food pellet's sprite: a bold yellow bullet.
pub fn food_sprite() -> (s: Sprite)
    ensures
        s.text() == food_art(),
        s.style == (Style { bold: true, color: Some(Color::Yellow) }),
        s.facing == Facing::Right,
        !s.flip_v,
{
    let rows = vec![String::from_str("\u{2022}")];
    let s = Sprite::new(rows).bold().colored(Color::Yellow);
    assert(s.text() =~= food_art());
    s
}

/// The shark's sprite, bold red, facing the way it swims.
pub fn shark_sprite(facing: Facing) -> (s: Sprite)
    ensures
        s.text() == shark_art(),
        s.style == (Style { bold: true, color: Some(Color::Red) }),
        s.facing == facing,
        !s.flip_v,
{
    let rows = vec![String::from_str("     /\\"), String::from_str("<#######\u{b0}>")];
    let mut s = Sprite::new(rows).bold().colored(Color::Red);
    s.facing = facing;
    assert(s.text() =~= shark_art());
    s
}

/// Every character the food and shark sprites draw, whichever way they face
/// and flip, is a space or one of the glyphs that render visibly in the
/// window (`raster::glyph` lights some bit of each `drawn_glyph`).
pub proof fn law_entity_art_draws_visible_glyphs(facing: Facing, flip_v: bool)
    ensures
        forall|r: int, k: int|
            0 <= r < text_rendered(shark_art(), facing, flip_v).len() && 0 <= k
                < text_rendered(shark_art(), facing, flip_v)[r].len() && #[trigger] text_rendered(
                shark_art(),
                facing,
                flip_v,
            )[r][k] != ' ' ==> drawn_glyph(text_rendered(shark_art(), facing, flip_v)[r][k]),
        forall|r: int, k: int|
            0 <= r < text_rendered(food_art(), facing, flip_v).len() && 0 <= k
                < text_rendered(food_art(), facing, flip_v)[r].len() && #[trigger] text_rendered(
                food_art(),
                facing,
                flip_v,
            )[r][k] != ' ' ==> drawn_glyph(text_rendered(food_art(), facing, flip_v)[r][k]),
{
    reveal_strlit("\u{2022}");
    reveal_strlit("     /\\");
    reveal_strlit("<#######\u{b0}>");
    let a = shark_art();
    assert forall|r: int, k: int| 0 <= r < a.len() && 0 <= k < a[r].len() && a[r][k] != ' '
        implies drawn_glyph(#[trigger] a[r][k]) && drawn_glyph(mirror_glyph(a[r][k])) by {
    }
    let f = food_art();
    assert forall|r: int, k: int| 0 <= r < f.len() && 0 <= k < f[r].len() && f[r][k] != ' '
        implies drawn_glyph(#[trigger] f[r][k]) && drawn_glyph(mirror_glyph(f[r][k])) by {
    }
}

} // verus!
