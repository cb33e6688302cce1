use rustzilla::entity::{food_sprite, shark_sprite};
use rustzilla::raster::{
    blit, blit_pixels, glyph, grid_dims, grid_dims_px, pixel_color, rgb, rgb_bold, BG,
};
use rustzilla::render::{Frame, PixelFrame};
use rustzilla::sprite::{Color, Facing, Sprite, Style};

#[test]
fn bold_uses_distinct_color() {
    // Bold must be visibly brighter so the bold shark reads as heavier.
    assert_ne!(rgb(Color::Red), rgb_bold(Color::Red));
}

#[test]
fn space_and_unknown_glyphs_are_blank() {
    assert_eq!(glyph(' '), [0; 8]);
    assert_eq!(glyph('\u{2603}'), [0; 8]); // snowman: out of range → blank
}

#[test]
fn art_glyphs_map_to_ascii_and_are_not_blank() {
    for c in ['#', '°', '•', '⊙'] {
        assert!(
            glyph(c).iter().any(|&r| r != 0),
            "{c:?} should not be blank"
        );
    }
}

#[test]
fn every_entity_glyph_renders_non_blank() {
    // Every glyph the text-drawn entities (food pellet, shark) use must render
    // as something visible in the window.
    let cast: Vec<Sprite> = vec![
        food_sprite(),
        shark_sprite(Facing::Right),
        shark_sprite(Facing::Left),
    ];
    for s in &cast {
        for row in s.rendered_rows() {
            for c in row.chars().filter(|&c| c != ' ') {
                assert!(
                    glyph(c).iter().any(|&r| r != 0),
                    "glyph for {c:?} (U+{:04X}) renders blank in the window",
                    c as u32
                );
            }
        }
    }
}

#[test]
fn grid_dims_floors_and_clamps() {
    assert_eq!(grid_dims(240, 120, 24, 24), (10, 5)); // exact fit
    assert_eq!(grid_dims(250, 130, 24, 24), (10, 5)); // remainder floored
    assert_eq!(grid_dims(10, 10, 24, 24), (1, 1)); // sub-cell window → 1×1
    assert_eq!(grid_dims(0, 0, 24, 24), (1, 1)); // degenerate 0-size → 1×1
}

#[test]
fn blit_buffer_size_matches() {
    let f = Frame::new(3, 2);
    assert_eq!(blit(&f, 2, 48, 32).len(), 48 * 32);
}

#[test]
fn blit_blank_frame_is_all_background() {
    let f = Frame::new(3, 2); // all spaces
    assert!(blit(&f, 3, 72, 48).iter().all(|&p| p == BG));
}

#[test]
fn blit_draws_glyph_in_its_own_cell_and_color() {
    // One green glyph at cell (1,0); scale 1 → 8×8 cells.
    let mut f = Frame::new(3, 1);
    f.draw_sprite(1, 0, &Sprite::new(vec!["#".into()]).colored(Color::Green));
    let buf = blit(&f, 1, 24, 8);
    let lit = (0..8)
        .flat_map(|y| (8..16).map(move |x| (x, y)))
        .filter(|&(x, y)| buf[y * 24 + x] == rgb(Color::Green))
        .count();
    assert!(lit > 0, "glyph should light pixels in its own cell");
    for y in 0..8 {
        for x in 0..8 {
            assert_eq!(buf[y * 24 + x], BG);
        }
    }
}

#[test]
fn blit_clips_glyph_past_the_edge() {
    let mut f = Frame::new(2, 2);
    f.draw_sprite(1, 1, &Sprite::new(vec!["#".into()]));
    let buf = blit(&f, 2, 24, 24); // 16px cells; cell (1,1) spills past 24
    assert_eq!(buf.len(), 24 * 24); // reached here = no panic
}

#[test]
fn grid_dims_px_uses_tall_cells() {
    assert_eq!(grid_dims_px(240, 240, 6), (40, 20));
    assert_eq!(grid_dims_px(10, 10, 6), (1, 1)); // clamps to >= 1
}

#[test]
fn blit_pixels_blank_frame_is_all_water() {
    let f = PixelFrame::new(3, 2);
    let buf = blit_pixels(&f, 4, 12, 16);
    assert!(buf.iter().all(|&p| p == BG));
}

#[test]
fn blit_pixels_lights_correct_half_blocks() {
    let mut f = PixelFrame::new(2, 1); // canvas 2x2 px
    f.set_pixel(0, 0, Color::Cyan); // top half of cell (0,0)
    f.set_pixel(0, 1, Color::Red); // bottom half of cell (0,0)
    let buf = blit_pixels(&f, 1, 2, 2); // scale 1 -> 1px blocks; buffer 2x2
    assert_eq!(buf[0], rgb(Color::Cyan));
    assert_eq!(buf[2], rgb(Color::Red));
    assert_eq!(buf[1], BG);
}

#[test]
fn blit_pixels_clips_past_the_edge() {
    let mut f = PixelFrame::new(2, 2);
    f.set_pixel(1, 3, Color::Cyan);
    let buf = blit_pixels(&f, 2, 3, 3); // deliberately too-small buffer
    assert_eq!(buf.len(), 3 * 3);
}

#[test]
fn blit_pixels_paints_square_blocks() {
    let mut f = PixelFrame::new(2, 1);
    f.set_pixel(1, 1, Color::Yellow);
    let buf = blit_pixels(&f, 3, 6, 6);
    for y in 0..6 {
        for x in 0..6 {
            let want = if x >= 3 && y >= 3 { rgb(Color::Yellow) } else { BG };
            assert_eq!(buf[y * 6 + x], want, "pixel ({x}, {y})");
        }
    }
}

#[test]
fn blit_pixels_scale_zero_acts_as_one() {
    let mut f = PixelFrame::new(1, 1);
    f.set_pixel(0, 0, Color::Green);
    assert_eq!(blit_pixels(&f, 0, 1, 2), blit_pixels(&f, 1, 1, 2));
}

#[test]
fn blit_glyph_matches_font_bits() {
    let mut f = Frame::new(1, 1);
    f.draw_sprite(0, 0, &Sprite::new(vec!["#".into()]).colored(Color::Blue));
    let buf = blit(&f, 2, 16, 16);
    let rows = glyph('#');
    for y in 0..16 {
        for x in 0..16 {
            let on = rows[y / 2] & (1 << (x / 2)) != 0;
            let want = if on { rgb(Color::Blue) } else { BG };
            assert_eq!(buf[y * 16 + x], want);
        }
    }
}

#[test]
fn pixel_color_follows_style() {
    assert_eq!(pixel_color(Style { bold: true, color: Some(Color::Red) }), 0x00FF_6060);
    assert_eq!(pixel_color(Style { bold: false, color: Some(Color::Red) }), 0x00D8_4A4A);
    assert_eq!(pixel_color(Style { bold: true, color: None }), 0x00FF_FFFF);
    assert_eq!(pixel_color(Style::default()), 0x00C0_C8D0);
}

#[test]
fn glyph_fallbacks_reuse_ascii_bitmaps() {
    assert_eq!(glyph('°'), glyph('o'));
    assert_eq!(glyph('⊙'), glyph('O'));
    assert_eq!(glyph('•'), glyph('*'));
    assert_eq!(glyph('\u{7f}'), glyph('\u{7f}'));
    assert_eq!(glyph('\u{1f}'), [0; 8]);
}

#[test]
fn grid_dims_treats_zero_cell_size_as_one() {
    assert_eq!(grid_dims(5, 7, 0, 0), (5, 7));
    assert_eq!(grid_dims_px(5, 8, 0), (5, 4));
}

#[test]
fn bold_differs_for_every_body_color_but_not_the_accents() {
    for c in [Color::Red, Color::Yellow, Color::Green, Color::Cyan, Color::Blue, Color::White] {
        assert_ne!(rgb(c), rgb_bold(c));
    }
    for c in [Color::Orange, Color::Black, Color::Grey, Color::Belly] {
        assert_eq!(rgb(c), rgb_bold(c));
    }
}

#[test]
fn grid_dims_saturate_past_the_u16_range() {
    // A count that does not fit in u16 stops at the largest one; never 0.
    assert_eq!(grid_dims(65535, 1, 1, 1), (65535, 1));
    assert_eq!(grid_dims(65536, 1, 1, 1), (65535, 1));
    assert_eq!(grid_dims(65537, 70000, 1, 1), (65535, 65535));
    assert_eq!(grid_dims_px(65536, 2 * 65536, 1), (65535, 65535));
}

#[test]
fn drawn_glyphs_are_visible_and_space_is_blank() {
    for c in ['#', '*', '/', '<', '>', 'O', '\\', 'o', '°', '•', '⊙'] {
        assert!(glyph(c).iter().any(|&r| r != 0), "{c:?}");
    }
    assert_eq!(glyph(' '), [0u8; 8]);
}
