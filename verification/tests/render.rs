use crossterm::style::Color as Ct;
use rustzilla::render::{half_rgb, to_ct, water, Cell, Frame, PixelCell, PixelFrame};
use rustzilla::sprite::{Color, PixelSprite, Sprite, Style};

#[test]
fn pixel_frame_starts_transparent() {
    let f = PixelFrame::new(2, 2);
    assert_eq!(f.pixel(0, 0), None);
    assert_eq!(f.pixel(1, 3), None); // bottom half of the bottom-right cell
}

#[test]
fn set_pixel_targets_top_and_bottom_halves() {
    let mut f = PixelFrame::new(1, 1);
    f.set_pixel(0, 0, Color::Cyan); // even py -> top
    f.set_pixel(0, 1, Color::Red); // odd py -> bottom
    assert_eq!(f.pixel(0, 0), Some(Color::Cyan));
    assert_eq!(f.pixel(0, 1), Some(Color::Red));
}

#[test]
fn set_pixel_clips_out_of_range() {
    let mut f = PixelFrame::new(1, 1);
    f.set_pixel(5, 5, Color::Cyan); // out of bounds: no panic, no write
    f.set_pixel(-1, -1, Color::Cyan);
    assert_eq!(f.pixel(0, 0), None);
}

#[test]
fn draw_sprite_places_pixels_and_skips_transparent() {
    let mut f = PixelFrame::new(3, 2); // canvas 3x4 px
    let s = PixelSprite::from_art(&[".b", "k."], &[('b', Color::Cyan), ('k', Color::Black)]);
    f.draw_sprite(0, 0, &s); // top-left at pixel (0,0)
    assert_eq!(f.pixel(0, 0), None); // '.' transparent
    assert_eq!(f.pixel(1, 0), Some(Color::Cyan)); // 'b' at row0,col1
    assert_eq!(f.pixel(0, 1), Some(Color::Black)); // 'k' at row1,col0 -> py=1 (bottom half)
}

#[test]
fn draw_sprite_transparent_pixel_does_not_erase() {
    let mut f = PixelFrame::new(2, 1);
    f.set_pixel(0, 0, Color::Cyan);
    let s = PixelSprite::from_art(&["."], &[]); // single transparent pixel
    f.draw_sprite(0, 0, &s);
    assert_eq!(f.pixel(0, 0), Some(Color::Cyan)); // untouched
}

#[test]
fn diff_reports_a_cell_when_either_half_changes() {
    let prev = PixelFrame::new(1, 1);
    let mut next = PixelFrame::new(1, 1);
    next.set_pixel(0, 1, Color::Red); // only the bottom half changes
    let changes = next.diff(&prev);
    assert_eq!(changes.len(), 1);
    assert_eq!(changes[0].2.bottom, Some(Color::Red));
}

#[test]
fn full_changes_returns_every_cell() {
    let f = PixelFrame::new(3, 2);
    assert_eq!(f.full_changes().len(), 6);
}

#[test]
fn blank_frame_is_all_spaces() {
    let f = Frame::new(3, 2);
    assert_eq!(f.cell(0, 0), ' ');
    assert_eq!(f.cell(2, 1), ' ');
}

#[test]
fn draw_sprite_places_chars_and_skips_spaces() {
    let mut f = Frame::new(10, 3);
    let s = Sprite::new(vec!["ab".into()]);
    f.draw_sprite(2, 1, &s);
    assert_eq!(f.cell(2, 1), 'a');
    assert_eq!(f.cell(3, 1), 'b');
    // A leading space in a sprite row must not erase background.
    let bg = Sprite::new(vec![" Z".into()]);
    f.draw_sprite(2, 1, &bg);
    assert_eq!(f.cell(2, 1), 'a'); // space did not overwrite
    assert_eq!(f.cell(3, 1), 'Z');
}

#[test]
fn draw_clips_out_of_bounds() {
    let mut f = Frame::new(4, 2);
    let s = Sprite::new(vec!["XXXX".into()]);
    f.draw_sprite(2, 0, &s); // half off the right edge
    assert_eq!(f.cell(2, 0), 'X');
    assert_eq!(f.cell(3, 0), 'X');
    // No panic = clipping worked.
}

#[test]
fn diff_reports_only_changed_cells() {
    let prev = Frame::new(3, 1);
    let mut next = Frame::new(3, 1);
    next.set(1, 0, 'o');
    let changes = next.diff(&prev);
    assert_eq!(
        changes,
        vec![(
            1,
            0,
            Cell {
                ch: 'o',
                style: Style::default()
            }
        )]
    );
}

#[test]
fn draw_sprite_carries_style() {
    let mut f = Frame::new(8, 1);
    let s = Sprite::new(vec!["ab".into()]).bold().colored(Color::Red);
    f.draw_sprite(0, 0, &s);
    assert_eq!(f.styled(0, 0).ch, 'a');
    assert!(f.styled(0, 0).style.bold);
    assert_eq!(f.styled(0, 0).style.color, Some(Color::Red));
}

#[test]
fn diff_detects_style_change_even_when_char_is_same() {
    // Same glyph, different style → still a change to repaint.
    let mut prev = Frame::new(2, 1);
    prev.draw_sprite(0, 0, &Sprite::new(vec!["x".into()]));
    let mut next = Frame::new(2, 1);
    next.draw_sprite(0, 0, &Sprite::new(vec!["x".into()]).bold());
    let changes = next.diff(&prev);
    assert_eq!(changes.len(), 1);
    assert!(changes[0].2.style.bold);
}

#[test]
fn diff_of_a_frame_with_itself_is_empty() {
    let mut f = Frame::new(4, 3);
    f.set(2, 2, 'q');
    assert!(f.diff(&f).is_empty());
    let mut p = PixelFrame::new(4, 3);
    p.set_pixel(3, 5, Color::Grey);
    assert!(p.diff(&p).is_empty());
}

#[test]
fn diff_lists_changes_row_by_row() {
    let prev = Frame::new(3, 2);
    let mut next = Frame::new(3, 2);
    next.set(0, 1, 'b');
    next.set(2, 0, 'a');
    let changes = next.diff(&prev);
    let coords: Vec<(u16, u16)> = changes.iter().map(|c| (c.0, c.1)).collect();
    assert_eq!(coords, vec![(2, 0), (0, 1)]);
}

#[test]
fn set_reads_back_and_leaves_neighbours() {
    let mut f = Frame::new(3, 3);
    f.set(1, 1, 'x');
    assert_eq!(f.styled(1, 1), Cell { ch: 'x', style: Style::default() });
    assert_eq!(f.cell(0, 1), ' ');
    assert_eq!(f.cell(1, 0), ' ');
    assert_eq!(f.cell(2, 2), ' ');
}

#[test]
fn draw_sprite_clips_negative_offsets() {
    let mut f = Frame::new(3, 2);
    f.draw_sprite(-1, -1, &Sprite::new(vec!["ab".into(), "cd".into()]));
    assert_eq!(f.cell(0, 0), 'd');
    assert_eq!(f.cell(1, 0), ' ');
    assert_eq!(f.cell(0, 1), ' ');
}

#[test]
fn pixel_draw_clips_and_places_at_twice_the_cell_row() {
    let mut f = PixelFrame::new(2, 2); // canvas 2x4
    let s = PixelSprite::from_art(&["bb", "bb", "bb"], &[('b', Color::Blue)]);
    f.draw_sprite(1, 1, &s); // top-left pixel at (1, 2)
    assert_eq!(f.pixel(0, 2), None);
    assert_eq!(f.pixel(1, 2), Some(Color::Blue));
    assert_eq!(f.pixel(1, 3), Some(Color::Blue));
    assert_eq!(f.pixel(1, 1), None);
    assert_eq!(f.full_changes()[3].2, PixelCell { top: Some(Color::Blue), bottom: Some(Color::Blue) });
}

#[test]
fn pixel_reads_off_the_canvas_are_transparent() {
    let mut f = PixelFrame::new(2, 1);
    f.set_pixel(1, 1, Color::Red);
    assert_eq!(f.pixel(1, 1), Some(Color::Red));
    assert_eq!(f.pixel(2, 0), None);
    assert_eq!(f.pixel(0, 2), None);
}

#[test]
fn full_changes_walks_rows_in_order() {
    let mut f = PixelFrame::new(2, 2);
    f.set_pixel(0, 2, Color::White);
    let all = f.full_changes();
    let coords: Vec<(u16, u16)> = all.iter().map(|c| (c.0, c.1)).collect();
    assert_eq!(coords, vec![(0, 0), (1, 0), (0, 1), (1, 1)]);
    assert_eq!(all[2].2.top, Some(Color::White));
}

#[test]
fn terminal_colors_match_the_window_palette() {
    assert_eq!(to_ct(Color::Red), Ct::Rgb { r: 0xD8, g: 0x4A, b: 0x4A });
    assert_eq!(to_ct(Color::Belly), Ct::Rgb { r: 0xC9, g: 0xD0, b: 0xD8 });
    assert_eq!(water(), Ct::Rgb { r: 0x0A, g: 0x14, b: 0x28 });
    assert_eq!(half_rgb(None), water());
    assert_eq!(half_rgb(Some(Color::Orange)), Ct::Rgb { r: 0xE8, g: 0x90, b: 0x2F });
    for c in [
        Color::Red,
        Color::Yellow,
        Color::Green,
        Color::Cyan,
        Color::Blue,
        Color::White,
        Color::Orange,
        Color::Black,
        Color::Grey,
        Color::Belly,
    ] {
        let px = rustzilla::raster::rgb(c);
        let want = Ct::Rgb { r: (px >> 16) as u8, g: (px >> 8) as u8, b: px as u8 };
        assert_eq!(to_ct(c), want);
    }
}

#[test]
fn text_sprite_fills_whole_cells_in_a_pixel_frame() {
    let mut f = PixelFrame::new(4, 2);
    let s = Sprite::new(vec![" a".into(), "b".into()]).colored(Color::Red);
    f.draw_text_sprite(1, 0, &s);
    assert_eq!(f.pixel(1, 0), None); // the space is transparent
    assert_eq!(f.pixel(2, 0), Some(Color::Red));
    assert_eq!(f.pixel(2, 1), Some(Color::Red));
    assert_eq!(f.pixel(1, 2), Some(Color::Red));
    assert_eq!(f.pixel(1, 3), Some(Color::Red));
    assert_eq!(f.pixel(2, 2), None);
}

#[test]
fn uncolored_text_sprite_fills_white_and_clips() {
    let mut f = PixelFrame::new(2, 1);
    f.set_pixel(0, 0, Color::Cyan);
    f.draw_text_sprite(-1, 0, &Sprite::new(vec!["xy".into(), "zz".into()]));
    assert_eq!(f.pixel(0, 0), Some(Color::White));
    assert_eq!(f.pixel(0, 1), Some(Color::White));
    assert_eq!(f.pixel(1, 0), None);
}

#[test]
fn set_past_the_width_lands_in_the_next_row() {
    let mut f = Frame::new(3, 2);
    f.set(4, 0, 'w'); // position 4 of the buffer is (1, 1)
    assert_eq!(f.cell(1, 1), 'w');
    assert_eq!(f.cell(4, 0), 'w');
}

#[test]
fn text_diff_written_over_prev_gives_next() {
    let mut prev = Frame::new(4, 3);
    prev.draw_sprite(0, 0, &Sprite::new(vec!["ab".into(), " c".into()]));
    let mut next = Frame::new(4, 3);
    next.draw_sprite(1, 1, &Sprite::new(vec!["xy".into(), "zw".into()]).bold());
    let d = next.diff(&prev);
    let mut carried = prev.cells.clone();
    for &(x, y, c) in &d {
        carried[y as usize * 4 + x as usize] = c;
    }
    assert_eq!(carried, next.cells);
    // The diff is the full cell list filtered to the cells that changed.
    let mut expected = Vec::new();
    for y in 0..3u16 {
        for x in 0..4u16 {
            if next.styled(x, y) != prev.styled(x, y) {
                expected.push((x, y, next.styled(x, y)));
            }
        }
    }
    assert_eq!(d, expected);
}

#[test]
fn pixel_diff_is_full_changes_filtered_and_carries_prev_to_next() {
    let mut prev = PixelFrame::new(3, 2);
    prev.set_pixel(0, 0, Color::Red);
    prev.set_pixel(2, 3, Color::Blue);
    let mut next = PixelFrame::new(3, 2);
    next.set_pixel(0, 0, Color::Red); // unchanged
    next.set_pixel(1, 1, Color::Green); // bottom half of (1, 0)
    next.set_pixel(2, 2, Color::Blue); // top half of (2, 1); bottom cleared
    let d = next.diff(&prev);
    let expected: Vec<_> = next
        .full_changes()
        .into_iter()
        .filter(|&(x, y, c)| c != prev.cells[y as usize * 3 + x as usize])
        .collect();
    assert_eq!(d, expected);
    assert_eq!(d.len(), 2);
    let mut carried = prev.cells.clone();
    for &(x, y, c) in &d {
        carried[y as usize * 3 + x as usize] = c;
    }
    assert_eq!(carried, next.cells);
    assert!(next.diff(&next).is_empty());
}

#[test]
fn draw_sprite_skips_rows_off_the_frame_before_placing_columns() {
    // The second row is below the frame, so its columns are never placed.
    let mut f = Frame::new(3, 1);
    let s = Sprite::new(vec!["a".into(), "bbbb".into()]);
    f.draw_sprite(i32::MAX, 0, &s);
    f.draw_sprite(0, 0, &s);
    assert_eq!(f.cell(0, 0), 'a');
    assert_eq!(f.cell(1, 0), ' ');
}
