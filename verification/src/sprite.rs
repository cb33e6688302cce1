use vstd::prelude::*;

verus! {

/// Which way a sprite looks. Art is authored facing right.
#[derive(Clone, Copy, Debug, PartialEq, Eq, Structural)]
pub enum Facing {
    Left,
    Right,
}

/// Foreground colors we use. Kept terminal-agnostic here; `render` maps these
/// to terminal colors so the sprite layer needs no terminal dependency.
#[derive(Clone, Copy, Debug, PartialEq, Eq, Structural)]
pub enum Color {
    Red,
    Yellow,
    Green,
    Cyan,
    Blue,
    White,
    Orange,
    Black,
    Grey,
    Belly,
}

/// How a sprite is rendered: bold and/or colored. Default is plain text.
#[derive(Clone, Copy, Debug, PartialEq, Eq, Structural)]
pub struct Style {
    pub bold: bool,
    pub color: Option<Color>,
}

/// The plain style: not bold, no color.
pub open spec fn plain_style() -> Style {
    Style { bold: false, color: None }
}

impl Default for Style {
    fn default() -> (s: Style)
        ensures
            s == plain_style(),
    {
        Style { bold: false, color: None }
    }
}

/// The character content of a list of strings, one sequence per string.
pub open spec fn chars_of_rows(rows: Seq<String>) -> Seq<Seq<char>> {
    Seq::new(rows.len(), |i: int| rows[i]@)
}

/// The longest length among `rows` (0 for no rows).
pub open spec fn max_len<T>(rows: Seq<Seq<T>>) -> nat
    decreases rows.len(),
{
    if rows.len() == 0 {
        0
    } else {
        let rest = max_len(rows.drop_last());
        if rows.last().len() > rest {
            rows.last().len()
        } else {
            rest
        }
    }
}

/// `max_len` bounds every row and is reached by one of them when there is any.
pub proof fn lemma_max_len_bounds<T>(rows: Seq<Seq<T>>)
    ensures
        forall|i: int| 0 <= i < rows.len() ==> #[trigger] rows[i].len() <= max_len(rows),
        rows.len() > 0 ==> exists|i: int| 0 <= i < rows.len() && rows[i].len() == max_len(rows),
        rows.len() == 0 ==> max_len(rows) == 0,
    decreases rows.len(),
{
    if rows.len() > 0 {
        let rest = rows.drop_last();
        lemma_max_len_bounds(rest);
        assert forall|i: int| 0 <= i < rows.len() implies #[trigger] rows[i].len() <= max_len(
            rows,
        ) by {
            if i < rows.len() - 1 {
                assert(rows[i] == rest[i]);
            }
        }
        if rows.last().len() > max_len(rest) {
            assert(rows[rows.len() - 1].len() == max_len(rows));
        } else if rest.len() > 0 {
            let k = choose|k: int| 0 <= k < rest.len() && rest[k].len() == max_len(rest);
            assert(rows[k] == rest[k]);
        } else {
            assert(rows[0].len() == max_len(rows));
        }
    }
}

/// The glyph that stands for `c` in a horizontally mirrored row: paired
/// brackets and slashes swap, everything else is kept.
pub open spec fn mirror_glyph(c: char) -> char {
    if c == '<' {
        '>'
    } else if c == '>' {
        '<'
    } else if c == '(' {
        ')'
    } else if c == ')' {
        '('
    } else if c == '[' {
        ']'
    } else if c == ']' {
        '['
    } else if c == '/' {
        '\\'
    } else if c == '\\' {
        '/'
    } else if c == '{' {
        '}'
    } else if c == '}' {
        '{'
    } else {
        c
    }
}

/// A row reversed, with each glyph mirrored.
pub open spec fn mirrored(row: Seq<char>) -> Seq<char> {
    Seq::new(row.len(), |i: int| mirror_glyph(row[row.len() - 1 - i]))
}

/// Rows of text as drawn: mirrored when facing left, then upside down when flipped.
pub open spec fn text_rendered(rows: Seq<Seq<char>>, facing: Facing, flip_v: bool) -> Seq<
    Seq<char>,
> {
    let faced = if facing == Facing::Left {
        Seq::new(rows.len(), |i: int| mirrored(rows[i]))
    } else {
        rows
    };
    if flip_v {
        faced.reverse()
    } else {
        faced
    }
}

/// A small fixed grid of characters, drawn from `rows` (which are authored
/// facing right, upright). `facing`/`flip_v`/`style` are applied at render time.
#[derive(Clone, Debug)]
pub struct Sprite {
    pub rows: Vec<String>,
    pub facing: Facing,
    pub flip_v: bool,
    pub style: Style,
}

/// `String::push`: appends one character to the end of the string.
#[verifier::external_body]
pub(crate) fn push_char(s: &mut String, c: char)
    ensures
        final(s)@ == old(s)@.push(c),
{
    s.push(c)
}

/// Mirror one glyph (see `mirror_glyph`).
pub fn mirror_char(c: char) -> (res: char)
    ensures
        res == mirror_glyph(c),
{
    match c {
        '<' => '>',
        '>' => '<',
        '(' => ')',
        ')' => '(',
        '[' => ']',
        ']' => '[',
        '/' => '\\',
        '\\' => '/',
        '{' => '}',
        '}' => '{',
        other => other,
    }
}

/// Reverse a row and swap direction-sensitive glyphs so a left-facing
/// fish still looks like a fish.
pub fn mirror_row(row: &String) -> (res: String)
    ensures
        res@ == mirrored(row@),
{
    let s = row.as_str();
    let n = s.unicode_len();
    let mut out = String::new();
    let mut k: usize = 0;
    while k < n
        invariant
            n == row@.len(),
            s@ == row@,
            k <= n,
            out@ == Seq::new(k as nat, |i: int| mirror_glyph(row@[row@.len() - 1 - i])),
        decreases n - k,
    {
        let c = s.get_char(n - 1 - k);
        push_char(&mut out, mirror_char(c));
        k = k + 1;
        assert(out@ =~= Seq::new(k as nat, |i: int| mirror_glyph(row@[row@.len() - 1 - i])));
    }
    out
}

impl Sprite {
    /// The sprite's rows as character sequences.
    pub open spec fn text(&self) -> Seq<Seq<char>> {
        chars_of_rows(self.rows@)
    }

    pub fn new(rows: Vec<String>) -> (s: Sprite)
        ensures
            s.rows == rows,
            s.facing == Facing::Right,
            !s.flip_v,
            s.style == plain_style(),
    {
        Sprite { rows, facing: Facing::Right, flip_v: false, style: Style::default() }
    }

    /// Builder: render this sprite bold.
    pub fn bold(self) -> (s: Sprite)
        ensures
            s.rows == self.rows,
            s.facing == self.facing,
            s.flip_v == self.flip_v,
            s.style == (Style { bold: true, color: self.style.color }),
    {
        let mut s = self;
        s.style.bold = true;
        s
    }

    /// Builder: render this sprite in `color`.
    pub fn colored(self, color: Color) -> (s: Sprite)
        ensures
            s.rows == self.rows,
            s.facing == self.facing,
            s.flip_v == self.flip_v,
            s.style == (Style { bold: self.style.bold, color: Some(color) }),
    {
        let mut s = self;
        s.style.color = Some(color);
        s
    }

    /// Width in characters of the widest row.
    pub fn width(&self) -> (w: usize)
        ensures
            w == max_len(self.text()),
    {
        let n = self.rows.len();
        let mut m: usize = 0;
        let mut i: usize = 0;
        while i < n
            invariant
                n == self.rows@.len(),
                i <= n,
                m == max_len(self.text().take(i as int)),
            decreases n - i,
        {
            let l = self.rows[i].as_str().unicode_len();
            assert(self.text().take(i + 1).drop_last() =~= self.text().take(i as int));
            if l > m {
                m = l;
            }
            i = i + 1;
        }
        assert(self.text().take(n as int) =~= self.text());
        m
    }

    pub fn height(&self) -> (h: usize)
        ensures
            h == self.rows@.len(),
    {
        self.rows.len()
    }

    /// Rows with facing/flip applied, ready to draw.
    pub fn rendered_rows(&self) -> (res: Vec<String>)
        ensures
            chars_of_rows(res@) == text_rendered(self.text(), self.facing, self.flip_v),
    {
        let n = self.rows.len();
        let ghost want = text_rendered(self.text(), self.facing, self.flip_v);
        let mut out: Vec<String> = Vec::new();
        let mut i: usize = 0;
        while i < n
            invariant
                n == self.rows@.len(),
                want == text_rendered(self.text(), self.facing, self.flip_v),
                i <= n,
                out@.len() == i,
                forall|j: int| 0 <= j < i ==> #[trigger] out@[j]@ == want[j],
            decreases n - i,
        {
            let src = if self.flip_v {
                n - 1 - i
            } else {
                i
            };
            let row = match self.facing {
                Facing::Left => mirror_row(&self.rows[src]),
                Facing::Right => self.rows[src].clone(),
            };
            out.push(row);
            i = i + 1;
        }
        assert(chars_of_rows(out@) =~= want);
        out
    }
}

/// Where a palette maps `c`: the color paired with the first entry for `c`,
/// or transparent when no entry names it.
pub open spec fn palette_lookup(map: Seq<(char, Color)>, c: char) -> Option<Color>
    decreases map.len(),
{
    if map.len() == 0 {
        None
    } else {
        let earlier = palette_lookup(map.drop_last(), c);
        if earlier is Some {
            earlier
        } else if map.last().0 == c {
            Some(map.last().1)
        } else {
            None
        }
    }
}

/// One row of art as pixels, right-padded with transparency to `width`.
pub open spec fn art_row(row: Seq<char>, map: Seq<(char, Color)>, width: nat) -> Seq<
    Option<Color>,
> {
    Seq::new(width, |j: int| if j < row.len() { palette_lookup(map, row[j]) } else { None })
}

/// The pixels that palette-indexed art rows describe: every row is as wide as
/// the widest one.
pub open spec fn art_pixels(rows: Seq<Seq<char>>, map: Seq<(char, Color)>) -> Seq<
    Seq<Option<Color>>,
> {
    Seq::new(rows.len(), |i: int| art_row(rows[i], map, max_len(rows)))
}

/// The character content of string slices.
pub open spec fn chars_of_strs(rows: Seq<&str>) -> Seq<Seq<char>> {
    Seq::new(rows.len(), |i: int| rows[i]@)
}

/// Pixel rows as drawn: each row reversed when facing left, then the rows
/// reversed when flipped.
pub open spec fn pixels_rendered(
    rows: Seq<Seq<Option<Color>>>,
    facing: Facing,
    flip_v: bool,
) -> Seq<Seq<Option<Color>>> {
    let faced = if facing == Facing::Left {
        Seq::new(rows.len(), |i: int| rows[i].reverse())
    } else {
        rows
    };
    if flip_v {
        faced.reverse()
    } else {
        faced
    }
}

/// A grid of optional palette colors (None = transparent). Authored in pixels,
/// facing right and upright; `facing`/`flip_v` are applied at render time.
#[derive(Clone, Debug)]
pub struct PixelSprite {
    pub pixels: Vec<Vec<Option<Color>>>,
    pub facing: Facing,
    pub flip_v: bool,
}

/// The contents of nested vectors.
pub open spec fn grid_of<T>(rows: Seq<Vec<T>>) -> Seq<Seq<T>> {
    Seq::new(rows.len(), |i: int| rows[i]@)
}

/// The color a palette gives `c`, searched front to back.
fn lookup(map: &[(char, Color)], c: char) -> (res: Option<Color>)
    ensures
        res == palette_lookup(map@, c),
{
    let mut found: Option<Color> = None;
    let mut i: usize = 0;
    while i < map.len()
        invariant
            i <= map@.len(),
            found == palette_lookup(map@.take(i as int), c),
        decreases map@.len() - i,
    {
        assert(map@.take(i + 1).drop_last() =~= map@.take(i as int));
        if found.is_none() && map[i].0 == c {
            found = Some(map[i].1);
        }
        i = i + 1;
    }
    assert(map@.take(map@.len() as int) =~= map@);
    found
}

/// Copy of a pixel row, reversed or as is.
fn copy_row(row: &Vec<Option<Color>>, reversed: bool) -> (res: Vec<Option<Color>>)
    ensures
        res@ == (if reversed {
            row@.reverse()
        } else {
            row@
        }),
{
    let n = row.len();
    let mut out: Vec<Option<Color>> = Vec::new();
    let mut j: usize = 0;
    while j < n
        invariant
            n == row@.len(),
            j <= n,
            out@.len() == j,
            forall|k: int|
                0 <= k < j ==> #[trigger] out@[k] == (if reversed {
                    row@[n - 1 - k]
                } else {
                    row@[k]
                }),
        decreases n - j,
    {
        let v = if reversed {
            row[n - 1 - j]
        } else {
            row[j]
        };
        out.push(v);
        j = j + 1;
    }
    if reversed {
        assert(out@ =~= row@.reverse());
    } else {
        assert(out@ =~= row@);
    }
    out
}

impl PixelSprite {
    /// The sprite's pixel grid, row by row.
    pub open spec fn grid(&self) -> Seq<Seq<Option<Color>>> {
        grid_of(self.pixels@)
    }

    /// Build from palette-indexed string rows. Any char not in `map` (including
    /// '.' and ' ') is transparent. Ragged rows are right-padded with None.
    pub fn from_art(rows: &[&str], map: &[(char, Color)]) -> (s: PixelSprite)
        ensures
            s.grid() == art_pixels(chars_of_strs(rows@), map@),
            s.facing == Facing::Right,
            !s.flip_v,
    {
        let ghost text = chars_of_strs(rows@);
        let n = rows.len();
        let mut width: usize = 0;
        let mut i: usize = 0;
        while i < n
            invariant
                n == rows@.len(),
                text == chars_of_strs(rows@),
                i <= n,
                width == max_len(text.take(i as int)),
            decreases n - i,
        {
            let l = rows[i].unicode_len();
            assert(text.take(i + 1).drop_last() =~= text.take(i as int));
            if l > width {
                width = l;
            }
            i = i + 1;
        }
        assert(text.take(n as int) =~= text);
        proof {
            lemma_max_len_bounds(text);
        }
        let mut pixels: Vec<Vec<Option<Color>>> = Vec::new();
        let mut i: usize = 0;
        while i < n
            invariant
                n == rows@.len(),
                text == chars_of_strs(rows@),
                width == max_len(text),
                forall|r: int| 0 <= r < text.len() ==> #[trigger] text[r].len() <= max_len(text),
                i <= n,
                pixels@.len() == i,
                forall|r: int|
                    0 <= r < i ==> #[trigger] pixels@[r]@ == art_row(text[r], map@, max_len(text)),
            decreases n - i,
        {
            let row: &str = rows[i];
            let len = row.unicode_len();
            assert(text[i as int] == row@);
            let mut r: Vec<Option<Color>> = Vec::new();
            let mut j: usize = 0;
            while j < width
                invariant
                    len == row@.len(),
                    len <= width,
                    j <= width,
                    r@.len() == j,
                    forall|k: int|
                        0 <= k < j ==> #[trigger] r@[k] == (if k < row@.len() {
                            palette_lookup(map@, row@[k])
                        } else {
                            None
                        }),
                decreases width - j,
            {
                if j < len {
                    let c = row.get_char(j);
                    r.push(lookup(map, c));
                } else {
                    r.push(None);
                }
                j = j + 1;
            }
            assert(r@ =~= art_row(text[i as int], map@, max_len(text)));
            pixels.push(r);
            i = i + 1;
        }
        let s = PixelSprite { pixels, facing: Facing::Right, flip_v: false };
        assert(s.grid() =~= art_pixels(text, map@));
        s
    }

    /// Width in pixels: the length of the first row (0 for no rows).
    pub fn width(&self) -> (w: usize)
        ensures
            w == (if self.pixels@.len() == 0 {
                0
            } else {
                self.pixels@[0]@.len()
            }),
    {
        if self.pixels.len() == 0 {
            0
        } else {
            self.pixels[0].len()
        }
    }

    pub fn height(&self) -> (h: usize)
        ensures
            h == self.pixels@.len(),
    {
        self.pixels.len()
    }

    /// Width in terminal cells (1 cell = 1 pixel wide).
    pub fn cell_w(&self) -> (w: usize)
        ensures
            w == (if self.pixels@.len() == 0 {
                0
            } else {
                self.pixels@[0]@.len()
            }),
    {
        self.width()
    }

    /// Height in terminal cells (1 cell = 2 pixels tall, rounded up).
    pub fn cell_h(&self) -> (h: usize)
        ensures
            h == (self.pixels@.len() + 1) / 2,
    {
        let n = self.height();
        n / 2 + n % 2
    }

    /// Pixel rows with facing (column mirror) then flip_v (row reversal) applied.
    pub fn rendered_rows(&self) -> (res: Vec<Vec<Option<Color>>>)
        ensures
            grid_of(res@) == pixels_rendered(self.grid(), self.facing, self.flip_v),
    {
        let n = self.pixels.len();
        let ghost want = pixels_rendered(self.grid(), self.facing, self.flip_v);
        let left = match self.facing {
            Facing::Left => true,
            Facing::Right => false,
        };
        let mut out: Vec<Vec<Option<Color>>> = Vec::new();
        let mut i: usize = 0;
        while i < n
            invariant
                n == self.pixels@.len(),
                want == pixels_rendered(self.grid(), self.facing, self.flip_v),
                left == (self.facing == Facing::Left),
                i <= n,
                out@.len() == i,
                forall|j: int| 0 <= j < i ==> #[trigger] out@[j]@ == want[j],
            decreases n - i,
        {
            let src = if self.flip_v {
                n - 1 - i
            } else {
                i
            };
            let row = copy_row(&self.pixels[src], left);
            out.push(row);
            i = i + 1;
        }
        assert(grid_of(out@) =~= want);
        out
    }
}

/// Mirroring a glyph twice gives the glyph back.
pub proof fn law_mirror_glyph_involutive(c: char)
    ensures
        mirror_glyph(mirror_glyph(c)) == c,
{
}

/// Mirroring a row keeps its length, and mirroring it twice gives the row back.
pub proof fn law_mirrored_row(row: Seq<char>)
    ensures
        mirrored(row).len() == row.len(),
        mirrored(mirrored(row)) == row,
{
    assert(mirrored(mirrored(row)) =~= row);
}

/// Rendering text never adds or removes characters: every drawn row is as
/// long as the authored row it comes from, whichever way the sprite faces.
pub proof fn law_text_rendering_keeps_lengths(rows: Seq<Seq<char>>, facing: Facing, flip_v: bool)
    ensures
        text_rendered(rows, facing, flip_v).len() == rows.len(),
        forall|i: int|
            0 <= i < rows.len() ==> #[trigger] text_rendered(rows, facing, flip_v)[i].len() == rows[(
            if flip_v {
                rows.len() - 1 - i
            } else {
                i
            })].len(),
{
}

/// A left-facing pixel sprite is the right-facing one with every row
/// reversed, row for row.
pub proof fn law_left_is_mirror_of_right(rows: Seq<Seq<Option<Color>>>, flip_v: bool)
    ensures
        pixels_rendered(rows, Facing::Left, flip_v).len() == pixels_rendered(
            rows,
            Facing::Right,
            flip_v,
        ).len(),
        forall|i: int|
            0 <= i < rows.len() ==> #[trigger] pixels_rendered(rows, Facing::Left, flip_v)[i]
                == pixels_rendered(rows, Facing::Right, flip_v)[i].reverse(),
{
}

/// Art becomes a rectangle: every pixel row is as wide as the widest art row,
/// and each art character keeps its column.
pub proof fn law_art_is_rectangular(rows: Seq<Seq<char>>, map: Seq<(char, Color)>)
    ensures
        art_pixels(rows, map).len() == rows.len(),
        forall|i: int|
            0 <= i < rows.len() ==> #[trigger] art_pixels(rows, map)[i].len() == max_len(rows),
        forall|i: int, j: int|
            0 <= i < rows.len() && 0 <= j < rows[i].len() ==> #[trigger] art_pixels(rows, map)[i][j]
                == palette_lookup(map, rows[i][j]),
{
    lemma_max_len_bounds(rows);
}

/// A palette gives `c` the color of its first entry for `c`, and leaves `c`
/// transparent exactly when no entry names it.
pub proof fn law_palette_lookup_finds_the_first_entry(map: Seq<(char, Color)>, c: char)
    ensures
        (palette_lookup(map, c) is None) == (forall|j: int| 0 <= j < map.len() ==> #[trigger] map[j].0 != c),
        forall|i: int|
            0 <= i < map.len() && #[trigger] map[i].0 == c && (forall|j: int|
                0 <= j < i ==> #[trigger] map[j].0 != c) ==> palette_lookup(map, c) == Some(map[i].1),
    decreases map.len(),
{
    if map.len() > 0 {
        let rest = map.drop_last();
        law_palette_lookup_finds_the_first_entry(rest, c);
        assert forall|j: int| 0 <= j < rest.len() implies #[trigger] rest[j] == map[j] by {}
        if palette_lookup(rest, c) is Some {
            let k = choose|k: int| 0 <= k < rest.len() && #[trigger] rest[k].0 == c;
            assert(map[k].0 == c);
        } else if map.last().0 == c {
            assert(map[map.len() - 1].0 == c);
        } else {
            assert forall|j: int| 0 <= j < map.len() implies #[trigger] map[j].0 != c by {
                if j < rest.len() {
                    assert(rest[j].0 != c);
                }
            }
        }
        assert forall|i: int|
            0 <= i < map.len() && #[trigger] map[i].0 == c && (forall|j: int|
                0 <= j < i ==> #[trigger] map[j].0 != c) implies palette_lookup(map, c) == Some(
            map[i].1,
        ) by {
            if i < rest.len() {
                assert(rest[i].0 == c);
                assert forall|j: int| 0 <= j < i implies #[trigger] rest[j].0 != c by {
                    assert(map[j].0 != c);
                }
            } else {
                assert forall|j: int| 0 <= j < rest.len() implies #[trigger] rest[j].0 != c by {
                    assert(map[j].0 != c);
                }
            }
        }
    }
}

/// Art becomes pixels place by place: row `r`, column `k` of the pixels is
/// the palette color of the art's character there, transparent past the end
/// of a short row, and every row is as wide as the widest art row.
pub proof fn law_art_pixels_read_the_art(rows: Seq<Seq<char>>, map: Seq<(char, Color)>, r: int, k: int)
    requires
        0 <= r < rows.len(),
    ensures
        art_pixels(rows, map)[r].len() >= rows[r].len(),
        forall|i: int| 0 <= i < rows.len() ==> art_pixels(rows, map)[r].len() >= #[trigger] rows[i].len(),
        0 <= k < rows[r].len() ==> art_pixels(rows, map)[r][k] == palette_lookup(map, rows[r][k]),
        rows[r].len() <= k < art_pixels(rows, map)[r].len() ==> art_pixels(rows, map)[r][k] is None,
{
    lemma_max_len_bounds(rows);
}

} // verus!
