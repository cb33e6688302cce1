use vstd::prelude::*;

use crate::render::{grid_index, lemma_grid_index_bounds, Frame, PixelFrame};
use crate::sprite::{Color, Style};

verus! {

/// Tank background (deep blue-black), packed 0x00RRGGBB.
pub const BG: u32 = 0x000A_1428;

/// The packed 0x00RRGGBB pixel of each palette color.
pub open spec fn rgb_of(color: Color) -> u32 {
    match color {
        Color::Red => 0x00D8_4A4A,
        Color::Yellow => 0x00F2_C641,
        Color::Green => 0x004F_CF6F,
        Color::Cyan => 0x0049_D0E0,
        Color::Blue => 0x005B_8CFF,
        Color::White => 0x00F2_F2F2,
        Color::Orange => 0x00E8_902F,
        Color::Black => 0x0014_1414,
        Color::Grey => 0x008A_93A0,
        Color::Belly => 0x00C9_D0D8,
    }
}

/// The brighter packed pixel used for bold sprites.
pub open spec fn rgb_bold_of(color: Color) -> u32 {
    match color {
        Color::Red => 0x00FF_6060,
        Color::Yellow => 0x00FF_F060,
        Color::Green => 0x0060_FF60,
        Color::Cyan => 0x0070_FFFF,
        Color::Blue => 0x0070_90FF,
        Color::White => 0x00FF_FFFF,
        Color::Orange => 0x00E8_902F,
        Color::Black => 0x0014_1414,
        Color::Grey => 0x008A_93A0,
        Color::Belly => 0x00C9_D0D8,
    }
}

/// The red channel of a packed 0x00RRGGBB pixel.
pub open spec fn red_of(px: u32) -> int {
    (px as int / 0x1_0000) % 0x100
}

/// The green channel of a packed 0x00RRGGBB pixel.
pub open spec fn green_of(px: u32) -> int {
    (px as int / 0x100) % 0x100
}

/// The blue channel of a packed 0x00RRGGBB pixel.
pub open spec fn blue_of(px: u32) -> int {
    px as int % 0x100
}

/// How bright a packed pixel is: the sum of its channels.
pub open spec fn brightness(px: u32) -> int {
    red_of(px) + green_of(px) + blue_of(px)
}

/// A packed pixel looks like the palette color `c`: red, green and blue
/// lead in their own colors (blue well over green), yellow is red and green
/// (close together) over blue, cyan green and blue (close together) over
/// red, orange red well over green over blue; white, black, grey and belly
/// are greys (the last two a little bluish).
pub open spec fn looks_like(px: u32, c: Color) -> bool {
    let (r, g, b) = (red_of(px), green_of(px), blue_of(px));
    match c {
        Color::Red => r > g && r > b,
        Color::Green => g > r && g > b,
        Color::Blue => b > r && b > g + 0x40,
        Color::Yellow => r > b && g > b && r < g + 0x40,
        Color::Cyan => g > r && b > r && g <= b < g + 0x20,
        Color::Orange => r > g + 0x40 && g > b,
        Color::White => r == g && g == b,
        Color::Black => r == g && g == b,
        Color::Grey => r <= g && g <= b && b - r <= 0x20,
        Color::Belly => r <= g && g <= b && b - r <= 0x20,
    }
}

/// Every palette color, plain or bold, looks like its name; white is the
/// brightest of them and black the darkest (no channel of any color is
/// darker than black's; bold white is full white); bold is never dimmer than
/// plain; orange is dimmer than yellow and grey dimmer than belly.
pub proof fn law_palette_looks_like_its_names(c: Color)
    ensures
        looks_like(rgb_of(c), c),
        looks_like(rgb_bold_of(c), c),
        red_of(rgb_of(Color::Black)) <= red_of(rgb_of(c)),
        green_of(rgb_of(Color::Black)) <= green_of(rgb_of(c)),
        blue_of(rgb_of(Color::Black)) <= blue_of(rgb_of(c)),
        c != Color::White ==> brightness(rgb_of(c)) < brightness(rgb_of(Color::White)),
        c != Color::Black ==> brightness(rgb_of(Color::Black)) < brightness(rgb_of(c)),
        red_of(rgb_bold_of(Color::Black)) <= red_of(rgb_bold_of(c)) <= red_of(rgb_bold_of(Color::White)),
        green_of(rgb_bold_of(Color::Black)) <= green_of(rgb_bold_of(c)) <= green_of(
            rgb_bold_of(Color::White),
        ),
        blue_of(rgb_bold_of(Color::Black)) <= blue_of(rgb_bold_of(c)) <= blue_of(rgb_bold_of(Color::White)),
        c != Color::White ==> brightness(rgb_bold_of(c)) < brightness(rgb_bold_of(Color::White)),
        c != Color::Black ==> brightness(rgb_bold_of(Color::Black)) < brightness(rgb_bold_of(c)),
        brightness(rgb_of(c)) <= brightness(rgb_bold_of(c)),
        brightness(rgb_of(Color::Orange)) < brightness(rgb_of(Color::Yellow)),
        brightness(rgb_of(Color::Grey)) < brightness(rgb_of(Color::Belly)),
{
}

/// The packed pixel of a styled cell: the palette color (bright when bold),
/// or a soft off-white (pure white when bold) for uncolored cells.
pub open spec fn style_rgb(style: Style) -> u32 {
    match style.color {
        Some(c) => if style.bold {
            rgb_bold_of(c)
        } else {
            rgb_of(c)
        },
        None => if style.bold {
            0x00FF_FFFF
        } else {
            0x00C0_C8D0
        },
    }
}

/// Map a logical color to a packed 0x00RRGGBB pixel. Symmetric with
/// `render::to_ct` (which maps the same enum to terminal colors).
pub fn rgb(color: Color) -> (px: u32)
    ensures
        px == rgb_of(color),
{
    match color {
        Color::Red => 0x00D8_4A4A,
        Color::Yellow => 0x00F2_C641,
        Color::Green => 0x004F_CF6F,
        Color::Cyan => 0x0049_D0E0,
        Color::Blue => 0x005B_8CFF,
        Color::White => 0x00F2_F2F2,
        Color::Orange => 0x00E8_902F,
        Color::Black => 0x0014_1414,
        Color::Grey => 0x008A_93A0,
        Color::Belly => 0x00C9_D0D8,
    }
}

/// Brighter shade for bold sprites (e.g. the shark).
pub fn rgb_bold(color: Color) -> (px: u32)
    ensures
        px == rgb_bold_of(color),
{
    match color {
        Color::Red => 0x00FF_6060,
        Color::Yellow => 0x00FF_F060,
        Color::Green => 0x0060_FF60,
        Color::Cyan => 0x0070_FFFF,
        Color::Blue => 0x0070_90FF,
        Color::White => 0x00FF_FFFF,
        Color::Orange => 0x00E8_902F,
        Color::Black => 0x0014_1414,
        Color::Grey => 0x008A_93A0,
        Color::Belly => 0x00C9_D0D8,
    }
}

/// Resolve a cell's pixel color from its style. Uncolored cells get a soft
/// off-white so plain ASCII fish stay visible against `BG`.
pub fn pixel_color(style: Style) -> (px: u32)
    ensures
        px == style_rgb(style),
{
    match (style.color, style.bold) {
        (Some(c), true) => rgb_bold(c),
        (Some(c), false) => rgb(c),
        (None, true) => 0x00FF_FFFF,
        (None, false) => 0x00C0_C8D0,
    }
}

/// The ASCII look-alike drawn for the few non-ASCII glyphs the art uses:
/// the fish eye `°` becomes `o`, the googly eye `⊙` becomes `O`, the food
/// pellet `•` becomes `*`; every other character stands for itself.
pub open spec fn fallback_of(c: char) -> char {
    if c == '\u{b0}' {
        'o'
    } else if c == '\u{2299}' {
        'O'
    } else if c == '\u{2022}' {
        '*'
    } else {
        c
    }
}

fn ascii_fallback(c: char) -> (res: char)
    ensures
        res == fallback_of(c),
{
    match c {
        '\u{b0}' => 'o',
        '\u{2299}' => 'O',
        '\u{2022}' => '*',
        other => other,
    }
}

/// The eight bitmap rows that the public-domain 8×8 "basic" font holds for
/// the character with code point `code` (row 0 on top; bit `n` of a row is
/// column `n`, column 0 leftmost).
pub uninterp spec fn basic_font(code: usize) -> Seq<u8>;

/// `font8x8::legacy::BASIC_LEGACY[code]`: the font's bitmap for code points
/// below 128. Claimed: the result is the table entry named `basic_font(code)`;
/// of the table itself only these entries are restated: the space is blank,
/// and one row of each glyph the entities draw (`#`, `*`, `/`, `<`, `>`,
/// `O`, `\`, `o`) holds the bits the table gives it.
#[verifier::external_body]
fn basic_font_rows(code: usize) -> (rows: [u8; 8])
    requires
        code < 128,
    ensures
        rows@ == basic_font(code),
        code == 0x20 ==> rows@ == Seq::new(8, |i: int| 0u8),
        code == 0x23 ==> rows@[0] == 0x36,
        code == 0x2a ==> rows@[3] == 0xFF,
        code == 0x2f ==> rows@[0] == 0x60,
        code == 0x3c ==> rows@[0] == 0x18,
        code == 0x3e ==> rows@[0] == 0x06,
        code == 0x4f ==> rows@[0] == 0x1C,
        code == 0x5c ==> rows@[0] == 0x03,
        code == 0x6f ==> rows@[2] == 0x1E,
{
    font8x8::legacy::BASIC_LEGACY[code]
}

/// The 8×8 bitmap of `c`: the font's rows for printable ASCII (after the
/// look-alike substitution), a blank bitmap for anything else.
pub open spec fn glyph_rows(c: char) -> Seq<u8> {
    let code = fallback_of(c) as u32;
    if 0x20 <= code && code < 0x80 {
        basic_font(code as usize)
    } else {
        Seq::new(8, |i: int| 0u8)
    }
}

/// The characters the entities' text art draws with (besides the space):
/// `#`, `/`, `\`, `<`, `>`, the fish eye `°` and the pellet `•`, and the
/// look-alikes and googly eye that stand in for them.
pub open spec fn drawn_glyph(c: char) -> bool {
    c == '#' || c == '*' || c == '/' || c == '<' || c == '>' || c == 'O' || c == '\\' || c == 'o'
        || c == '\u{b0}' || c == '\u{2022}' || c == '\u{2299}'
}

/// The 8×8 bitmap rows for `c`. The sprites use a few non-ASCII art glyphs;
/// map those to ASCII look-alikes. Anything outside printable ASCII is blank.
/// The space is blank, and every glyph the entities draw with lights some bit.
pub fn glyph(c: char) -> (rows: [u8; 8])
    ensures
        rows@ == glyph_rows(c),
        c == ' ' ==> forall|i: int| 0 <= i < 8 ==> #[trigger] rows@[i] == 0,
        drawn_glyph(c) ==> exists|i: int| 0 <= i < 8 && #[trigger] rows@[i] != 0,
{
    let c = ascii_fallback(c);
    let code = c as u32;
    if 0x20 <= code && code < 0x80 {
        let rows = basic_font_rows(code as usize);
        proof {
            if code == 0x23 || code == 0x2f || code == 0x3c || code == 0x3e || code == 0x4f
                || code == 0x5c {
                assert(rows@[0] != 0);
            } else if code == 0x2a {
                assert(rows@[3] != 0);
            } else if code == 0x6f {
                assert(rows@[2] != 0);
            }
        }
        rows
    } else {
        let rows = [0u8; 8];
        assert(rows@ =~= Seq::new(8, |i: int| 0u8));
        rows
    }
}

/// `v` at least 1.
pub open spec fn at_least_one(v: int) -> int {
    if v < 1 {
        1
    } else {
        v
    }
}

/// A grid count as a `u16`: counts past the `u16` range stop at 0xffff.
pub open spec fn saturate_u16(v: int) -> int {
    if v > 0xffff {
        0xffff
    } else {
        v
    }
}

/// A grid count as `u16`, saturating at 0xffff.
fn count_u16(v: usize) -> (r: u16)
    ensures
        r == saturate_u16(v as int),
{
    if v > 0xffff {
        0xffff
    } else {
        v as u16
    }
}

/// Window pixels → tank grid `(cols, rows)`. Cells are `scale` wide and
/// `2*scale` tall so on-screen pixels stay square. Clamps each dim to >= 1,
/// and to at most what a `u16` counts.
pub fn grid_dims_px(px_w: usize, px_h: usize, scale: usize) -> (dims: (u16, u16))
    ensures
        dims.0 == saturate_u16(at_least_one((px_w as int) / at_least_one(scale as int))),
        dims.1 == saturate_u16(at_least_one((px_h as int) / (2 * at_least_one(scale as int)))),
{
    let s: usize = if scale < 1 {
        1
    } else {
        scale
    };
    let c = px_w / s;
    let cols = count_u16(if c < 1 {
        1
    } else {
        c
    });
    let tall = if s <= usize::MAX / 2 {
        2 * s
    } else {
        0
    };
    let r: usize = if tall == 0 {
        0
    } else {
        px_h / tall
    };
    proof {
        if s > usize::MAX / 2 {
            assert(px_h < 2 * s);
            assert((px_h as int) / (2 * (s as int)) == 0) by (nonlinear_arith)
                requires
                    0 <= px_h < 2 * (s as int),
            ;
        }
    }
    let rows = count_u16(if r < 1 {
        1
    } else {
        r
    });
    (cols, rows)
}

/// Window pixels → tank grid `(cols, rows)`. Floors to whole cells; clamps each
/// dimension to at least 1 so a transient 0-size window never yields a 0 grid,
/// and to at most what a `u16` counts.
pub fn grid_dims(px_w: usize, px_h: usize, cell_w: usize, cell_h: usize) -> (dims: (u16, u16))
    ensures
        dims.0 == saturate_u16(at_least_one((px_w as int) / at_least_one(cell_w as int))),
        dims.1 == saturate_u16(at_least_one((px_h as int) / at_least_one(cell_h as int))),
{
    let cw: usize = if cell_w < 1 {
        1
    } else {
        cell_w
    };
    let ch: usize = if cell_h < 1 {
        1
    } else {
        cell_h
    };
    let c = px_w / cw;
    let r = px_h / ch;
    let cols = count_u16(if c < 1 {
        1
    } else {
        c
    });
    let rows = count_u16(if r < 1 {
        1
    } else {
        r
    });
    (cols, rows)
}

/// `v` lies in block `b` of a row of blocks `s` wide exactly when it lies in
/// `[b*s, b*s + s)`.
pub proof fn lemma_in_block(v: int, s: int, b: int)
    requires
        s > 0,
        v >= 0,
        b >= 0,
    ensures
        (block_of(v, s) == b) == (b * s <= v && v < b * s + s),
{
    vstd::arithmetic::div_mod::lemma_fundamental_div_mod(v, s);
    let q = v / s;
    let r = v % s;
    assert(0 <= r < s) by {
        vstd::arithmetic::div_mod::lemma_mod_bound(v, s);
    }
    if q == b {
        assert(v == s * b + r);
        assert(b * s == s * b) by (nonlinear_arith);
    } else if b * s <= v && v < b * s + s {
        vstd::arithmetic::div_mod::lemma_fundamental_div_mod_converse(v, s, b, v - b * s);
    }
}

/// A buffer of `px_w × px_h` pixels, row-major, all set to `color`.
fn filled(px_w: usize, px_h: usize, color: u32) -> (buf: Vec<u32>)
    requires
        px_w * px_h <= usize::MAX,
    ensures
        buf@.len() == px_w * px_h,
        forall|i: int| 0 <= i < px_w * px_h ==> #[trigger] buf@[i] == color,
{
    let n = px_w * px_h;
    let mut buf: Vec<u32> = Vec::new();
    let mut i: usize = 0;
    while i < n
        invariant
            n == px_w * px_h,
            i <= n,
            buf@.len() == i,
            forall|k: int| 0 <= k < i ==> #[trigger] buf@[k] == color,
        decreases n - i,
    {
        buf.push(color);
        i = i + 1;
    }
    buf
}

/// Which block of width `s` the coordinate `v` falls in.
pub open spec fn block_of(v: int, s: int) -> int {
    v / s
}

/// The pixel of a `px_w`-wide buffer at `(x, y)`.
pub open spec fn px_at(buf: Seq<u32>, px_w: int, x: int, y: int) -> u32 {
    buf[grid_index(px_w, x, y)]
}

/// Paint the `s × s` block at block coordinates `(bx, by)` with `color`,
/// clipped to the buffer: exactly the pixels `(x, y)` with `x / s == bx` and
/// `y / s == by` change.
fn fill_block(
    buf: &mut Vec<u32>,
    px_w: usize,
    px_h: usize,
    s: usize,
    bx: usize,
    by: usize,
    color: u32,
)
    requires
        old(buf)@.len() == px_w * px_h,
        px_w * px_h <= usize::MAX,
        s >= 1,
    ensures
        final(buf)@.len() == px_w * px_h,
        forall|x: int, y: int|
            0 <= x < px_w && 0 <= y < px_h ==> #[trigger] px_at(final(buf)@, px_w as int, x, y) == if block_of(x, s as int) == bx && block_of(y, s as int) == by {
                color
            } else {
                px_at(old(buf)@, px_w as int, x, y)
            },
{
    let ghost start = buf@;
    let y0 = match by.checked_mul(s) {
        Some(v) => if v < px_h {
            v
        } else {
            px_h
        },
        None => px_h,
    };
    let x0 = match bx.checked_mul(s) {
        Some(v) => if v < px_w {
            v
        } else {
            px_w
        },
        None => px_w,
    };
    let y_end = if s >= px_h - y0 {
        px_h
    } else {
        y0 + s
    };
    let x_end = if s >= px_w - x0 {
        px_w
    } else {
        x0 + s
    };
    // The block's rows inside the buffer are exactly [y0, y_end), its columns [x0, x_end).
    proof {
        assert forall|y: int| 0 <= y < px_h implies (block_of(y, s as int) == by) == (y0 <= y && y
            < y_end) by {
            lemma_in_block(y, s as int, by as int);
        }
        assert forall|x: int| 0 <= x < px_w implies (block_of(x, s as int) == bx) == (x0 <= x && x
            < x_end) by {
            lemma_in_block(x, s as int, bx as int);
        }
    }
    let mut y = y0;
    while y < y_end
        invariant
            buf@.len() == px_w * px_h,
            start.len() == px_w * px_h,
            px_w * px_h <= usize::MAX,
            y0 <= y,
            y_end <= px_h,
            x_end <= px_w,
            forall|yy: int| 0 <= yy < px_h ==> (block_of(yy, s as int) == by) == (y0 <= yy && yy < y_end),
            forall|xx: int| 0 <= xx < px_w ==> (block_of(xx, s as int) == bx) == (x0 <= xx && xx < x_end),
            forall|xx: int, yy: int|
                0 <= xx < px_w && 0 <= yy < px_h ==> #[trigger] px_at(buf@, px_w as int, xx, yy)
                    == if block_of(xx, s as int) == bx && block_of(yy, s as int) == by && yy < y {
                    color
                } else {
                    px_at(start, px_w as int, xx, yy)
                },
        decreases y_end - y,
    {
        let mut x = x0;
        while x < x_end
            invariant
                buf@.len() == px_w * px_h,
                start.len() == px_w * px_h,
                px_w * px_h <= usize::MAX,
                y0 <= y < y_end,
                y_end <= px_h,
                x0 <= x,
                x_end <= px_w,
                forall|yy: int| 0 <= yy < px_h ==> (block_of(yy, s as int) == by) == (y0 <= yy && yy < y_end),
                forall|xx: int| 0 <= xx < px_w ==> (block_of(xx, s as int) == bx) == (x0 <= xx && xx < x_end),
                forall|xx: int, yy: int|
                    0 <= xx < px_w && 0 <= yy < px_h ==> #[trigger] px_at(buf@, px_w as int, xx, yy)
                        == if block_of(xx, s as int) == bx && block_of(yy, s as int) == by && (yy < y || (yy == y
                        && xx < x)) {
                        color
                    } else {
                        px_at(start, px_w as int, xx, yy)
                    },
            decreases x_end - x,
        {
            proof {
                lemma_grid_index_bounds(px_w as int, px_h as int, x as int, y as int);
            }
            let i = y * px_w + x;
            let ghost before = buf@;
            buf.set(i, color);
            proof {
                assert forall|xx: int, yy: int|
                    0 <= xx < px_w && 0 <= yy < px_h implies #[trigger] px_at(
                    buf@,
                    px_w as int,
                    xx,
                    yy,
                ) == if block_of(xx, s as int) == bx && block_of(yy, s as int) == by && (yy < y || (yy == y && xx
                    < x + 1)) {
                    color
                } else {
                    px_at(start, px_w as int, xx, yy)
                } by {
                    lemma_grid_index_bounds(px_w as int, px_h as int, xx, yy);
                    if grid_index(px_w as int, xx, yy) == i {
                        crate::render::lemma_grid_index_injective(
                            px_w as int,
                            xx,
                            yy,
                            x as int,
                            y as int,
                        );
                    }
                    assert(px_at(before, px_w as int, xx, yy) == if block_of(xx, s as int) == bx && block_of(yy, s as int) == by && (yy < y || (yy == y && xx < x)) {
                        color
                    } else {
                        px_at(start, px_w as int, xx, yy)
                    });
                }
            }
            x = x + 1;
        }
        y = y + 1;
    }
}

/// The color of a pixel-frame pixel on screen: its palette color, or water.
pub open spec fn pixel_rgb(c: Option<Color>) -> u32 {
    match c {
        Some(c) => rgb_of(c),
        None => BG,
    }
}

/// `scale`, with 0 read as 1.
pub open spec fn scale_of(scale: int) -> int {
    at_least_one(scale)
}

/// The block size is the scale asked for, 0 read as 1: a larger scale is
/// never cut down.
pub proof fn law_scale_is_the_block_size(scale: int)
    ensures
        scale >= 1 ==> scale_of(scale) == scale,
        scale <= 0 ==> scale_of(scale) == 1,
{
}

/// Render a `PixelFrame` into a `px_w × px_h` buffer. Each pixel is a
/// `scale × scale` square block; the top pixel sits at window-y `2*cy*scale`,
/// the bottom at `(2*cy+1)*scale`. Transparent pixels leave water (`BG`).
/// Blocks past the buffer edge clip — never a panic.
pub fn blit_pixels(frame: &PixelFrame, scale: usize, px_w: usize, px_h: usize) -> (buf: Vec<u32>)
    requires
        frame.wf(),
        px_w * px_h <= usize::MAX,
    ensures
        buf@.len() == px_w * px_h,
        forall|x: int, y: int|
            0 <= x < px_w && 0 <= y < px_h ==> #[trigger] px_at(buf@, px_w as int, x, y) == pixel_rgb(
                frame.pix(x / scale_of(scale as int), y / scale_of(scale as int)),
            ),
        scale >= 1 ==> forall|x: int, y: int|
            0 <= x < px_w && 0 <= y < px_h ==> #[trigger] px_at(buf@, px_w as int, x, y) == pixel_rgb(
                frame.pix(x / (scale as int), y / (scale as int)),
            ),
        scale == 0 ==> forall|x: int, y: int|
            0 <= x < px_w && 0 <= y < px_h ==> #[trigger] px_at(buf@, px_w as int, x, y) == pixel_rgb(
                frame.pix(x, y),
            ),
{
    let mut buf = filled(px_w, px_h, BG);
    let s: usize = if scale < 1 {
        1
    } else {
        scale
    };
    let ghost si = s as int;
    proof {
        assert forall|x: int, y: int| 0 <= x < px_w && 0 <= y < px_h implies #[trigger] px_at(
            buf@,
            px_w as int,
            x,
            y,
        ) == BG by {
            lemma_grid_index_bounds(px_w as int, px_h as int, x, y);
        }
    }
    let w = frame.width as usize;
    let h = frame.height as usize;
    let mut cy: usize = 0;
    while cy < h
        invariant
            frame.wf(),
            w == frame.width,
            h == frame.height,
            si == s,
            si == scale_of(scale as int),
            s >= 1,
            cy <= h,
            px_w * px_h <= usize::MAX,
            buf@.len() == px_w * px_h,
            forall|x: int, y: int|
                0 <= x < px_w && 0 <= y < px_h ==> #[trigger] px_at(buf@, px_w as int, x, y) == if (y
                    / si) / 2 < cy {
                    pixel_rgb(frame.pix(x / si, y / si))
                } else {
                    BG
                },
        decreases h - cy,
    {
        let mut cx: usize = 0;
        while cx < w
            invariant
                frame.wf(),
                w == frame.width,
                h == frame.height,
                si == s,
                s >= 1,
                cy < h,
                cx <= w,
                px_w * px_h <= usize::MAX,
                buf@.len() == px_w * px_h,
                forall|x: int, y: int|
                    0 <= x < px_w && 0 <= y < px_h ==> #[trigger] px_at(buf@, px_w as int, x, y)
                        == if (y / si) / 2 < cy || ((y / si) / 2 == cy && x / si < cx) {
                        pixel_rgb(frame.pix(x / si, y / si))
                    } else {
                        BG
                    },
            decreases w - cx,
        {
            proof {
                lemma_grid_index_bounds(w as int, h as int, cx as int, cy as int);
                assert((w as int) * (h as int) <= 0xffff_ffff) by (nonlinear_arith)
                    requires
                        w <= 0xffff,
                        h <= 0xffff,
                ;
            }
            let cell = frame.cells[cy * w + cx];
            assert(cell == frame.at(cx as int, cy as int));
            let ghost before = buf@;
            if let Some(c) = cell.top {
                fill_block(&mut buf, px_w, px_h, s, cx, 2 * cy, rgb(c));
            }
            if let Some(c) = cell.bottom {
                fill_block(&mut buf, px_w, px_h, s, cx, 2 * cy + 1, rgb(c));
            }
            proof {
                assert forall|x: int, y: int| 0 <= x < px_w && 0 <= y < px_h implies #[trigger] px_at(
                    buf@,
                    px_w as int,
                    x,
                    y,
                ) == if (y / si) / 2 < cy || ((y / si) / 2 == cy && x / si < cx + 1) {
                    pixel_rgb(frame.pix(x / si, y / si))
                } else {
                    BG
                } by {
                    assert(px_at(before, px_w as int, x, y) == if (y / si) / 2 < cy || ((y / si) / 2
                        == cy && x / si < cx) {
                        pixel_rgb(frame.pix(x / si, y / si))
                    } else {
                        BG
                    });
                    let sx = x / si;
                    let sy = y / si;
                    assert(sx >= 0 && sy >= 0) by {
                        vstd::arithmetic::div_mod::lemma_div_pos_is_pos(x, si);
                        vstd::arithmetic::div_mod::lemma_div_pos_is_pos(y, si);
                    }
                    if sx == cx && sy == 2 * cy {
                        assert(frame.pix(sx, sy) == cell.top);
                    }
                    if sx == cx && sy == 2 * cy + 1 {
                        assert(sy / 2 == cy);
                        assert(frame.pix(sx, sy) == cell.bottom);
                    }
                }
            }
            cx = cx + 1;
        }
        cy = cy + 1;
    }
    proof {
        assert forall|x: int, y: int| 0 <= x < px_w && 0 <= y < px_h implies #[trigger] px_at(
            buf@,
            px_w as int,
            x,
            y,
        ) == pixel_rgb(frame.pix(x / si, y / si)) by {
            let sy = y / si;
            assert(sy >= 0) by {
                vstd::arithmetic::div_mod::lemma_div_pos_is_pos(y, si);
            }
            if sy / 2 >= h {
                assert(!frame.on_canvas(x / si, sy));
            }
        }
    }
    buf
}

/// Bit `bit` (column `bit`, 0 leftmost) of a glyph row is lit.
pub open spec fn lit(row: u8, bit: int) -> bool {
    row & (1u8 << (bit as u8)) != 0
}

/// A sub-pixel `(sx, sy)` of a text frame's 8×8-per-cell canvas lies in cell
/// `(sx / 8, sy / 8)`; it is lit when that cell holds a non-space character
/// whose glyph has bit `sx % 8` set in row `sy % 8`.
pub open spec fn glyph_lit(frame: &Frame, sx: int, sy: int) -> bool {
    let cx = sx / 8;
    let cy = sy / 8;
    &&& frame.in_bounds(cx, cy)
    &&& frame.at(cx, cy).ch != ' '
    &&& lit(glyph_rows(frame.at(cx, cy).ch)[sy % 8], sx % 8)
}

/// The on-screen color of a sub-pixel of a text frame: its cell's style
/// color where the glyph is lit, water elsewhere.
pub open spec fn text_pixel(frame: &Frame, sx: int, sy: int) -> u32 {
    if glyph_lit(frame, sx, sy) {
        style_rgb(frame.at(sx / 8, sy / 8).style)
    } else {
        BG
    }
}

/// Sub-pixel `sx` is column `bx` of glyph cell `cx` exactly when `sx == 8*cx + bx`.
proof fn lemma_glyph_column(sx: int, cx: int, bx: int)
    requires
        sx >= 0,
        cx >= 0,
        0 <= bx < 8,
    ensures
        (sx == 8 * cx + bx) == (sx / 8 == cx && sx % 8 == bx),
{
    crate::render::lemma_grid_index_inverse(8, bx, cx);
    vstd::arithmetic::div_mod::lemma_fundamental_div_mod(sx, 8);
}

/// Paint the glyph `rows` of cell `(cx, cy)` in `color`: every pixel whose
/// sub-pixel falls on a lit bit of that cell takes the color.
fn paint_glyph(
    buf: &mut Vec<u32>,
    px_w: usize,
    px_h: usize,
    s: usize,
    cx: usize,
    cy: usize,
    rows: &[u8; 8],
    color: u32,
)
    requires
        old(buf)@.len() == px_w * px_h,
        px_w * px_h <= usize::MAX,
        s >= 1,
        cx < 0x1_0000,
        cy < 0x1_0000,
    ensures
        final(buf)@.len() == px_w * px_h,
        forall|x: int, y: int|
            0 <= x < px_w && 0 <= y < px_h ==> #[trigger] px_at(final(buf)@, px_w as int, x, y) == if
            block_of(x, s as int) / 8 == cx && block_of(y, s as int) / 8 == cy && lit(
                rows@[block_of(y, s as int) % 8],
                block_of(x, s as int) % 8,
            ) {
                color
            } else {
                px_at(old(buf)@, px_w as int, x, y)
            },
{
    let ghost start = buf@;
    let ghost si = s as int;
    let mut by: usize = 0;
    while by < 8
        invariant
            buf@.len() == px_w * px_h,
            start.len() == px_w * px_h,
            px_w * px_h <= usize::MAX,
            si == s,
            s >= 1,
            cx < 0x1_0000,
            cy < 0x1_0000,
            by <= 8,
            forall|x: int, y: int|
                0 <= x < px_w && 0 <= y < px_h ==> #[trigger] px_at(buf@, px_w as int, x, y) == if
                block_of(x, si) / 8 == cx && block_of(y, si) / 8 == cy && lit(
                    rows@[block_of(y, si) % 8],
                    block_of(x, si) % 8,
                ) && block_of(y, si) % 8 < by {
                    color
                } else {
                    px_at(start, px_w as int, x, y)
                },
        decreases 8 - by,
    {
        let mut bx: usize = 0;
        while bx < 8
            invariant
                buf@.len() == px_w * px_h,
                start.len() == px_w * px_h,
                px_w * px_h <= usize::MAX,
                si == s,
                s >= 1,
                cx < 0x1_0000,
                cy < 0x1_0000,
                by < 8,
                bx <= 8,
                forall|x: int, y: int|
                    0 <= x < px_w && 0 <= y < px_h ==> #[trigger] px_at(buf@, px_w as int, x, y)
                        == if block_of(x, si) / 8 == cx && block_of(y, si) / 8 == cy && lit(
                        rows@[block_of(y, si) % 8],
                        block_of(x, si) % 8,
                    ) && (block_of(y, si) % 8 < by || (block_of(y, si) % 8 == by && block_of(x, si)
                        % 8 < bx)) {
                        color
                    } else {
                        px_at(start, px_w as int, x, y)
                    },
            decreases 8 - bx,
        {
            let row = rows[by];
            let ghost before = buf@;
            let on = row & (1u8 << (bx as u8)) != 0;
            if on {
                fill_block(buf, px_w, px_h, s, 8 * cx + bx, 8 * cy + by, color);
            }
            proof {
                assert forall|x: int, y: int| 0 <= x < px_w && 0 <= y < px_h implies #[trigger] px_at(
                    buf@,
                    px_w as int,
                    x,
                    y,
                ) == if block_of(x, si) / 8 == cx && block_of(y, si) / 8 == cy && lit(
                    rows@[block_of(y, si) % 8],
                    block_of(x, si) % 8,
                ) && (block_of(y, si) % 8 < by || (block_of(y, si) % 8 == by && block_of(x, si) % 8
                    < bx + 1)) {
                    color
                } else {
                    px_at(start, px_w as int, x, y)
                } by {
                    assert(px_at(before, px_w as int, x, y) == if block_of(x, si) / 8 == cx
                        && block_of(y, si) / 8 == cy && lit(
                        rows@[block_of(y, si) % 8],
                        block_of(x, si) % 8,
                    ) && (block_of(y, si) % 8 < by || (block_of(y, si) % 8 == by && block_of(x, si)
                        % 8 < bx)) {
                        color
                    } else {
                        px_at(start, px_w as int, x, y)
                    });
                    let sx = block_of(x, si);
                    let sy = block_of(y, si);
                    assert(sx >= 0 && sy >= 0) by {
                        vstd::arithmetic::div_mod::lemma_div_pos_is_pos(x, si);
                        vstd::arithmetic::div_mod::lemma_div_pos_is_pos(y, si);
                    }
                    lemma_glyph_column(sx, cx as int, bx as int);
                    lemma_glyph_column(sy, cy as int, by as int);
                    assert(rows@[by as int] == row);
                }
            }
            bx = bx + 1;
        }
        by = by + 1;
    }
}

/// Render `frame` into a `px_w × px_h` buffer of 0x00RRGGBB pixels at integer
/// `scale` (each cell is `8 * scale` square). Spaces are transparent (`BG`
/// shows through). Glyph pixels past the buffer edge are clipped — never a
/// panic — paralleling `Frame::draw_sprite`'s clipping.
pub fn blit(frame: &Frame, scale: u32, px_w: usize, px_h: usize) -> (buf: Vec<u32>)
    requires
        frame.wf(),
        px_w * px_h <= usize::MAX,
    ensures
        buf@.len() == px_w * px_h,
        forall|x: int, y: int|
            0 <= x < px_w && 0 <= y < px_h ==> #[trigger] px_at(buf@, px_w as int, x, y) == text_pixel(
                frame,
                x / scale_of(scale as int),
                y / scale_of(scale as int),
            ),
        scale >= 1 ==> forall|x: int, y: int|
            0 <= x < px_w && 0 <= y < px_h ==> #[trigger] px_at(buf@, px_w as int, x, y) == text_pixel(
                frame,
                x / (scale as int),
                y / (scale as int),
            ),
        scale == 0 ==> forall|x: int, y: int|
            0 <= x < px_w && 0 <= y < px_h ==> #[trigger] px_at(buf@, px_w as int, x, y) == text_pixel(
                frame,
                x,
                y,
            ),
{
    let mut buf = filled(px_w, px_h, BG);
    let s: usize = if scale < 1 {
        1
    } else {
        scale as usize
    };
    let ghost si = s as int;
    proof {
        assert forall|x: int, y: int| 0 <= x < px_w && 0 <= y < px_h implies #[trigger] px_at(
            buf@,
            px_w as int,
            x,
            y,
        ) == BG by {
            lemma_grid_index_bounds(px_w as int, px_h as int, x, y);
        }
    }
    let w = frame.width;
    let h = frame.height;
    let mut cy: u16 = 0;
    while cy < h
        invariant
            frame.wf(),
            w == frame.width,
            h == frame.height,
            si == s,
            si == scale_of(scale as int),
            s >= 1,
            cy <= h,
            px_w * px_h <= usize::MAX,
            buf@.len() == px_w * px_h,
            forall|x: int, y: int|
                0 <= x < px_w && 0 <= y < px_h ==> #[trigger] px_at(buf@, px_w as int, x, y) == if (y
                    / si) / 8 < cy {
                    text_pixel(frame, x / si, y / si)
                } else {
                    BG
                },
        decreases h - cy,
    {
        let mut cx: u16 = 0;
        while cx < w
            invariant
                frame.wf(),
                w == frame.width,
                h == frame.height,
                si == s,
                s >= 1,
                cy < h,
                cx <= w,
                px_w * px_h <= usize::MAX,
                buf@.len() == px_w * px_h,
                forall|x: int, y: int|
                    0 <= x < px_w && 0 <= y < px_h ==> #[trigger] px_at(buf@, px_w as int, x, y)
                        == if (y / si) / 8 < cy || ((y / si) / 8 == cy && (x / si) / 8 < cx) {
                        text_pixel(frame, x / si, y / si)
                    } else {
                        BG
                    },
            decreases w - cx,
        {
            proof {
                lemma_grid_index_bounds(w as int, h as int, cx as int, cy as int);
            }
            let styled = frame.styled(cx, cy);
            let ghost before = buf@;
            if styled.ch != ' ' {
                let rows = glyph(styled.ch);
                let color = pixel_color(styled.style);
                paint_glyph(&mut buf, px_w, px_h, s, cx as usize, cy as usize, &rows, color);
            }
            proof {
                assert forall|x: int, y: int| 0 <= x < px_w && 0 <= y < px_h implies #[trigger] px_at(
                    buf@,
                    px_w as int,
                    x,
                    y,
                ) == if (y / si) / 8 < cy || ((y / si) / 8 == cy && (x / si) / 8 < cx + 1) {
                    text_pixel(frame, x / si, y / si)
                } else {
                    BG
                } by {
                    assert(px_at(before, px_w as int, x, y) == if (y / si) / 8 < cy || ((y / si) / 8
                        == cy && (x / si) / 8 < cx) {
                        text_pixel(frame, x / si, y / si)
                    } else {
                        BG
                    });
                }
            }
            cx = cx + 1;
        }
        cy = cy + 1;
    }
    proof {
        assert forall|x: int, y: int| 0 <= x < px_w && 0 <= y < px_h implies #[trigger] px_at(
            buf@,
            px_w as int,
            x,
            y,
        ) == text_pixel(frame, x / si, y / si) by {
            let sy = y / si;
            assert(sy >= 0) by {
                vstd::arithmetic::div_mod::lemma_div_pos_is_pos(y, si);
            }
        }
    }
    buf
}

/// A frame of blank cells rasterises to plain background.
pub proof fn law_blank_frame_is_background(frame: &Frame, sx: int, sy: int)
    requires
        frame.wf(),
        forall|x: int, y: int| frame.in_bounds(x, y) ==> #[trigger] frame.at(x, y) == crate::render::blank_cell(),
    ensures
        text_pixel(frame, sx, sy) == BG,
{
    if frame.in_bounds(sx / 8, sy / 8) {
        assert(frame.at(sx / 8, sy / 8) == crate::render::blank_cell());
    }
}

/// A pixel frame with every pixel transparent rasterises to plain water.
pub proof fn law_transparent_frame_is_water(frame: &PixelFrame, sx: int, sy: int)
    requires
        frame.wf(),
        forall|x: int, y: int| frame.in_bounds(x, y) ==> #[trigger] frame.at(x, y) == crate::render::blank_pixel_cell(),
    ensures
        pixel_rgb(frame.pix(sx, sy)) == BG,
{
    if frame.on_canvas(sx, sy) {
        assert(frame.at(sx, sy / 2) == crate::render::blank_pixel_cell());
    }
}

/// Characters outside printable ASCII (after the look-alike substitution)
/// have a blank glyph.
pub proof fn law_unprintable_glyph_is_blank(c: char)
    requires
        !(0x20 <= (fallback_of(c) as u32) && (fallback_of(c) as u32) < 0x80),
    ensures
        forall|i: int| 0 <= i < 8 ==> #[trigger] glyph_rows(c)[i] == 0,
        glyph_rows(c).len() == 8,
{
}

/// Every art glyph with an ASCII look-alike draws that look-alike's bitmap.
pub proof fn law_art_glyphs_use_ascii_look_alikes()
    ensures
        glyph_rows('\u{b0}') == basic_font(0x6f),
        glyph_rows('\u{2299}') == basic_font(0x4f),
        glyph_rows('\u{2022}') == basic_font(0x2a),
{
}

/// The grid always has at least one column and one row, and never more than
/// a `u16` can count.
pub proof fn law_grid_dims_at_least_one(px: usize, cell: int)
    ensures
        1 <= saturate_u16(at_least_one((px as int) / at_least_one(cell))) <= 0xffff,
{
}

/// The grid is the most whole cells that fit the window: when the window
/// holds at least one cell, the grid's cells fit inside it and one more
/// would not (unless the count stopped at 0xffff); a window smaller than one
/// cell gets a single cell.
pub proof fn law_grid_is_the_cells_that_fit(px: usize, cell: int)
    ensures
        ({
            let c = at_least_one(cell);
            let n = saturate_u16(at_least_one((px as int) / c));
            &&& px >= c ==> n * c <= px
            &&& px >= c && n < 0xffff ==> px < (n + 1) * c
            &&& px < c ==> n == 1
        }),
{
    let c = at_least_one(cell);
    let q = (px as int) / c;
    vstd::arithmetic::div_mod::lemma_fundamental_div_mod(px as int, c);
    vstd::arithmetic::div_mod::lemma_mod_bound(px as int, c);
    if px < c {
        vstd::arithmetic::div_mod::lemma_basic_div(px as int, c);
    } else {
        vstd::arithmetic::div_mod::lemma_div_pos_is_pos(px as int, c);
        assert(q >= 1) by {
            vstd::arithmetic::div_mod::lemma_div_is_ordered(c, px as int, c);
            vstd::arithmetic::div_mod::lemma_div_by_self(c);
        }
        let n = saturate_u16(q);
        assert(n <= q);
        assert(n * c <= q * c) by (nonlinear_arith)
            requires
                n <= q,
                c >= 1,
        ;
        assert(q * c == c * q) by (nonlinear_arith);
        assert(n < 0xffff ==> n == q);
        assert((q + 1) * c == q * c + c) by (nonlinear_arith);
    }
}

/// Bold is visibly different from plain for every fish-body color.
pub proof fn law_bold_differs(c: Color)
    requires
        c == Color::Red || c == Color::Yellow || c == Color::Green || c == Color::Cyan || c
            == Color::Blue || c == Color::White,
    ensures
        rgb_bold_of(c) != rgb_of(c),
        style_rgb(Style { bold: true, color: Some(c) }) != style_rgb(
            Style { bold: false, color: Some(c) },
        ),
{
}

} // verus!
