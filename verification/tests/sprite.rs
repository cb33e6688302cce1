use rustzilla::sprite::{mirror_char, Color, Facing, PixelSprite, Sprite, Style};

#[test]
fn from_art_maps_palette_and_treats_unknown_as_transparent() {
    let s = PixelSprite::from_art(&[".b.", "bkb"], &[('b', Color::Cyan), ('k', Color::Black)]);
    assert_eq!(s.pixels[0], vec![None, Some(Color::Cyan), None]);
    assert_eq!(
        s.pixels[1],
        vec![Some(Color::Cyan), Some(Color::Black), Some(Color::Cyan)]
    );
}

#[test]
fn from_art_pads_ragged_rows_to_max_width() {
    let s = PixelSprite::from_art(&["bb", "b"], &[('b', Color::Cyan)]);
    assert_eq!(s.width(), 2);
    assert_eq!(s.pixels[1], vec![Some(Color::Cyan), None]); // padded with None
}

#[test]
fn rendered_rows_mirror_columns_when_facing_left() {
    let mut s = PixelSprite::from_art(&["bk."], &[('b', Color::Cyan), ('k', Color::Black)]);
    s.facing = Facing::Left;
    // Column-reversed: ".kb"
    assert_eq!(
        s.rendered_rows()[0],
        vec![None, Some(Color::Black), Some(Color::Cyan)]
    );
}

#[test]
fn pixel_sprite_rendered_rows_flip_vertically() {
    let mut s = PixelSprite::from_art(&["b", "k"], &[('b', Color::Cyan), ('k', Color::Black)]);
    s.flip_v = true;
    assert_eq!(s.rendered_rows()[0], vec![Some(Color::Black)]);
    assert_eq!(s.rendered_rows()[1], vec![Some(Color::Cyan)]);
}

#[test]
fn cell_dimensions_round_height_up() {
    let s = PixelSprite::from_art(&["b", "b", "b"], &[('b', Color::Cyan)]); // 1x3 px
    assert_eq!(s.cell_w(), 1);
    assert_eq!(s.cell_h(), 2); // ceil(3/2)
}

#[test]
fn dimensions_come_from_rows() {
    let s = Sprite::new(vec!["><(((°>".into(), " ~~".into()]);
    assert_eq!(s.width(), 7);
    assert_eq!(s.height(), 2);
}

#[test]
fn rendered_rows_mirror_when_facing_left() {
    let mut s = Sprite::new(vec!["<°)))><".into()]);
    s.facing = Facing::Left;
    // Mirrored: reverse the row, then swap paired glyphs 1:1.
    assert_eq!(s.rendered_rows()[0], "><(((°>");
}

#[test]
fn rendered_rows_flip_vertically() {
    let mut s = Sprite::new(vec!["top".into(), "bot".into()]);
    s.flip_v = true;
    assert_eq!(
        s.rendered_rows(),
        vec!["bot".to_string(), "top".to_string()]
    );
}

#[test]
fn mirroring_twice_restores_the_row() {
    let mut s = Sprite::new(vec!["{[(</\\>)]}ab".into()]);
    s.facing = Facing::Left;
    let once = s.rendered_rows();
    assert_eq!(once[0], "ba{[(</\\>)]}");
    let mut back = Sprite::new(once);
    back.facing = Facing::Left;
    assert_eq!(back.rendered_rows()[0], "{[(</\\>)]}ab");
}

#[test]
fn mirror_char_swaps_pairs_only() {
    assert_eq!(mirror_char('<'), '>');
    assert_eq!(mirror_char('}'), '{');
    assert_eq!(mirror_char('\\'), '/');
    assert_eq!(mirror_char('x'), 'x');
    assert_eq!(mirror_char('°'), '°');
}

#[test]
fn builders_set_style_and_keep_rows() {
    let s = Sprite::new(vec!["ab".into()]);
    assert_eq!(s.style, Style::default());
    assert_eq!(s.facing, Facing::Right);
    let b = s.clone().bold().colored(Color::Green);
    assert_eq!(b.style, Style { bold: true, color: Some(Color::Green) });
    assert_eq!(b.rows, s.rows);
}

#[test]
fn empty_sprites_have_zero_size() {
    let s = Sprite::new(vec![]);
    assert_eq!(s.width(), 0);
    assert_eq!(s.height(), 0);
    let p = PixelSprite::from_art(&[], &[]);
    assert_eq!(p.width(), 0);
    assert_eq!(p.cell_h(), 0);
}

#[test]
fn palette_first_entry_wins() {
    let s = PixelSprite::from_art(&["x"], &[('x', Color::Red), ('x', Color::Blue)]);
    assert_eq!(s.pixels[0], vec![Some(Color::Red)]);
}

#[test]
fn left_and_flipped_combine() {
    let mut s = PixelSprite::from_art(&["bk", "w."], &[('b', Color::Cyan), ('k', Color::Black), ('w', Color::White)]);
    s.facing = Facing::Left;
    s.flip_v = true;
    let r = s.rendered_rows();
    assert_eq!(r[0], vec![None, Some(Color::White)]);
    assert_eq!(r[1], vec![Some(Color::Black), Some(Color::Cyan)]);
}
