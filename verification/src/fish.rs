use vstd::prelude::*;

use crate::sprite::{art_pixels, Color, Facing, PixelSprite};

verus! {

/// The facing a stored "facing right" flag stands for.
pub open spec fn facing_for(facing_right: bool) -> Facing {
    if facing_right {
        Facing::Right
    } else {
        Facing::Left
    }
}

/// Facing from a stored "facing right" flag.
pub fn facing_of(facing_right: bool) -> (f: Facing)
    ensures
        f == facing_for(facing_right),
{
    if facing_right {
        Facing::Right
    } else {
        Facing::Left
    }
}

/// Googly's art: a cyan body with an oversized white eye and black pupil.
pub open spec fn googly_art() -> Seq<Seq<char>> {
    seq![
        ".....bbbbb..."@,
        "..b.bbbbbbbb."@,
        ".bb.bbbbwwwbb"@,
        "bbb.bbbbwkwbb"@,
        "bbb.bbbbwwwbb"@,
        ".bb.bbbbbbbbb"@,
        "..b.bbbbbbbb."@,
        ".....bbbbb..."@,
    ]
}

pub open spec fn googly_palette() -> Seq<(char, Color)> {
    seq![('b', Color::Cyan), ('w', Color::White), ('k', Color::Black)]
}

/// Googly's sprite, facing the way it last moved.
pub fn googly_sprite(facing_right: bool) -> (s: PixelSprite)
    ensures
        s.grid() == art_pixels(googly_art(), googly_palette()),
        s.facing == facing_for(facing_right),
        !s.flip_v,
{
    let rows: [&str; 8] = [
        ".....bbbbb...",
        "..b.bbbbbbbb.",
        ".bb.bbbbwwwbb",
        "bbb.bbbbwkwbb",
        "bbb.bbbbwwwbb",
        ".bb.bbbbbbbbb",
        "..b.bbbbbbbb.",
        ".....bbbbb...",
    ];
    let map: [(char, Color); 3] = [('b', Color::Cyan), ('w', Color::White), ('k', Color::Black)];
    let mut s = PixelSprite::from_art(rows.as_slice(), map.as_slice());
    assert(crate::sprite::chars_of_strs(rows@) =~= googly_art());
    assert(map@ =~= googly_palette());
    s.facing = facing_of(facing_right);
    s
}

/// Cool's art: a blue body crossed by a black sunglasses bar.
pub open spec fn cool_art() -> Seq<Seq<char>> {
    seq![
        ".....bbbbb..."@,
        "..b.bbbbbbbb."@,
        ".bb.bbbbkkkkk"@,
        "bbb.bbbbkkkkk"@,
        "bbb.bbbbbbbbb"@,
        ".bb.bbbbbbbbb"@,
        "..b.bbbbbbbb."@,
        ".....bbbbb..."@,
    ]
}

pub open spec fn cool_palette() -> Seq<(char, Color)> {
    seq![('b', Color::Blue), ('k', Color::Black)]
}

/// Cool's sprite, facing the way it last moved.
pub fn cool_sprite(facing_right: bool) -> (s: PixelSprite)
    ensures
        s.grid() == art_pixels(cool_art(), cool_palette()),
        s.facing == facing_for(facing_right),
        !s.flip_v,
{
    let rows: [&str; 8] = [
        ".....bbbbb...",
        "..b.bbbbbbbb.",
        ".bb.bbbbkkkkk",
        "bbb.bbbbkkkkk",
        "bbb.bbbbbbbbb",
        ".bb.bbbbbbbbb",
        "..b.bbbbbbbb.",
        ".....bbbbb...",
    ];
    let map: [(char, Color); 2] = [('b', Color::Blue), ('k', Color::Black)];
    let mut s = PixelSprite::from_art(rows.as_slice(), map.as_slice());
    assert(crate::sprite::chars_of_strs(rows@) =~= cool_art());
    assert(map@ =~= cool_palette());
    s.facing = facing_of(facing_right);
    s
}

/// Upside-down's art: a green body with a small black eye.
pub open spec fn upsidedown_art() -> Seq<Seq<char>> {
    seq![
        ".....bbbbb..."@,
        "..b.bbbbbbbb."@,
        ".bb.bbbbbbbbb"@,
        "bbb.bbbbbkbbb"@,
        "bbb.bbbbbbbbb"@,
        ".bb.bbbbbbbbb"@,
        "..b.bbbbbbbb."@,
        ".....bbbbb..."@,
    ]
}

pub open spec fn upsidedown_palette() -> Seq<(char, Color)> {
    seq![('b', Color::Green), ('k', Color::Black)]
}

/// Upside-down's sprite, facing the way it last moved, upside down while `flipped`.
pub fn upsidedown_sprite(facing_right: bool, flipped: bool) -> (s: PixelSprite)
    ensures
        s.grid() == art_pixels(upsidedown_art(), upsidedown_palette()),
        s.facing == facing_for(facing_right),
        s.flip_v == flipped,
{
    let rows: [&str; 8] = [
        ".....bbbbb...",
        "..b.bbbbbbbb.",
        ".bb.bbbbbbbbb",
        "bbb.bbbbbkbbb",
        "bbb.bbbbbbbbb",
        ".bb.bbbbbbbbb",
        "..b.bbbbbbbb.",
        ".....bbbbb...",
    ];
    let map: [(char, Color); 2] = [('b', Color::Green), ('k', Color::Black)];
    let mut s = PixelSprite::from_art(rows.as_slice(), map.as_slice());
    assert(crate::sprite::chars_of_strs(rows@) =~= upsidedown_art());
    assert(map@ =~= upsidedown_palette());
    s.facing = facing_of(facing_right);
    s.flip_v = flipped;
    s
}

/// Ducky's art: a yellow rubber duck with an orange beak.
pub open spec fn ducky_art() -> Seq<Seq<char>> {
    seq![
        "....ddd......"@,
        "...ddddd....."@,
        "...dddkd....."@,
        "...dddddooo.."@,
        ".ddddddddd..."@,
        "ddddddddddd.."@,
        ".ddddddddd..."@,
        "...ddddd....."@,
    ]
}

pub open spec fn ducky_palette() -> Seq<(char, Color)> {
    seq![('d', Color::Yellow), ('o', Color::Orange), ('k', Color::Black)]
}

/// Ducky's sprite, facing the way it drifts.
pub fn ducky_sprite(facing: Facing) -> (s: PixelSprite)
    ensures
        s.grid() == art_pixels(ducky_art(), ducky_palette()),
        s.facing == facing,
        !s.flip_v,
{
    let rows: [&str; 8] = [
        "....ddd......",
        "...ddddd.....",
        "...dddkd.....",
        "...dddddooo..",
        ".ddddddddd...",
        "ddddddddddd..",
        ".ddddddddd...",
        "...ddddd.....",
    ];
    let map: [(char, Color); 3] = [('d', Color::Yellow), ('o', Color::Orange), ('k', Color::Black)];
    let mut s = PixelSprite::from_art(rows.as_slice(), map.as_slice());
    assert(crate::sprite::chars_of_strs(rows@) =~= ducky_art());
    assert(map@ =~= ducky_palette());
    s.facing = facing;
    s
}

/// Every row of an art listing is `w` characters long.
pub open spec fn all_rows_are(rows: Seq<Seq<char>>, w: nat) -> bool {
    forall|i: int| 0 <= i < rows.len() ==> #[trigger] rows[i].len() == w
}

/// Rows of one common length `w` (and at least one of them) are `w` wide.
proof fn lemma_uniform_width(rows: Seq<Seq<char>>, w: nat)
    requires
        rows.len() > 0,
        all_rows_are(rows, w),
    ensures
        crate::sprite::max_len(rows) == w,
{
    crate::sprite::lemma_max_len_bounds(rows);
}

/// Each fish is drawn from eight rows of thirteen characters, so every fish
/// sprite is a full 13 × 8 pixel rectangle (4 terminal cells tall).
pub proof fn law_fish_art_is_13_by_8()
    ensures
        googly_art().len() == 8 && all_rows_are(googly_art(), 13),
        cool_art().len() == 8 && all_rows_are(cool_art(), 13),
        upsidedown_art().len() == 8 && all_rows_are(upsidedown_art(), 13),
        ducky_art().len() == 8 && all_rows_are(ducky_art(), 13),
        crate::sprite::max_len(googly_art()) == 13,
        crate::sprite::max_len(cool_art()) == 13,
        crate::sprite::max_len(upsidedown_art()) == 13,
        crate::sprite::max_len(ducky_art()) == 13,
{
    reveal_strlit(".....bbbbb...");
    reveal_strlit("..b.bbbbbbbb.");
    reveal_strlit(".bb.bbbbwwwbb");
    reveal_strlit("bbb.bbbbwkwbb");
    reveal_strlit("bbb.bbbbwwwbb");
    reveal_strlit(".bb.bbbbbbbbb");
    reveal_strlit(".bb.bbbbkkkkk");
    reveal_strlit("bbb.bbbbkkkkk");
    reveal_strlit("bbb.bbbbbbbbb");
    reveal_strlit("bbb.bbbbbkbbb");
    reveal_strlit("....ddd......");
    reveal_strlit("...ddddd.....");
    reveal_strlit("...dddkd.....");
    reveal_strlit("...dddddooo..");
    reveal_strlit(".ddddddddd...");
    reveal_strlit("ddddddddddd..");
    lemma_uniform_width(googly_art(), 13);
    lemma_uniform_width(cool_art(), 13);
    lemma_uniform_width(upsidedown_art(), 13);
    lemma_uniform_width(ducky_art(), 13);
}

} // verus!
