use vstd::prelude::*;

use crossterm::style::Color as TerminalColor;
use crate::raster::{pixel_rgb, rgb_of, BG};
use crate::sprite::{plain_style, text_rendered, pixels_rendered, Color, PixelSprite, Sprite, Style};

verus! {

/// Position of cell `(x, y)` in a row-major grid `w` cells wide.
pub open spec fn grid_index(w: int, x: int, y: int) -> int {
    y * w + x
}

/// A cell inside a `w × h` grid sits inside its `w * h` cells.
pub proof fn lemma_grid_index_bounds(w: int, h: int, x: int, y: int)
    requires
        0 <= x < w,
        0 <= y < h,
    ensures
        0 <= grid_index(w, x, y) < w * h,
        grid_index(w, x, y) + 1 <= w * h,
{
    assert(0 <= y * w + x < w * h) by (nonlinear_arith)
        requires
            0 <= x < w,
            0 <= y < h,
    ;
}

/// Distinct cells of a grid have distinct positions, and a position names
/// its cell: `x` is the remainder and `y` the quotient by the width.
pub proof fn lemma_grid_index_inverse(w: int, x: int, y: int)
    requires
        0 <= x < w,
        0 <= y,
    ensures
        grid_index(w, x, y) % w == x,
        grid_index(w, x, y) / w == y,
{
    vstd::arithmetic::div_mod::lemma_fundamental_div_mod_converse(y * w + x, w, y, x);
}

/// Two cells with the same position are the same cell.
pub proof fn lemma_grid_index_injective(w: int, x1: int, y1: int, x2: int, y2: int)
    requires
        0 <= x1 < w,
        0 <= y1,
        0 <= x2 < w,
        0 <= y2,
        grid_index(w, x1, y1) == grid_index(w, x2, y2),
    ensures
        x1 == x2,
        y1 == y2,
{
    lemma_grid_index_inverse(w, x1, y1);
    lemma_grid_index_inverse(w, x2, y2);
}

/// The cells of a row-major grid `w` wide that differ between `new` and `old`,
/// among the first `k` positions, in order, as `(x, y, new cell)`.
pub open spec fn changes<T>(new: Seq<T>, old: Seq<T>, w: nat, k: nat) -> Seq<(u16, u16, T)>
    decreases k,
{
    if k == 0 {
        Seq::empty()
    } else {
        let i = k - 1;
        let earlier = changes(new, old, w, (k - 1) as nat);
        if new[i] != old[i] {
            earlier.push(((i % (w as int)) as u16, (i / (w as int)) as u16, new[i]))
        } else {
            earlier
        }
    }
}

/// Every one of the first `k` cells of a row-major grid `w` wide, in order,
/// as `(x, y, cell)`.
pub open spec fn all_cells<T>(cells: Seq<T>, w: nat, k: nat) -> Seq<(u16, u16, T)> {
    Seq::new(k, |i: int| ((i % (w as int)) as u16, (i / (w as int)) as u16, cells[i]))
}

/// Comparing a grid with itself finds no change.
pub proof fn law_no_changes_against_itself<T>(cells: Seq<T>, w: nat, k: nat)
    ensures
        changes(cells, cells, w, k) == Seq::<(u16, u16, T)>::empty(),
    decreases k,
{
    if k > 0 {
        law_no_changes_against_itself(cells, w, (k - 1) as nat);
    }
}

/// The change list names exactly the positions that differ: every entry is
/// the new content of some differing position (with its column and row), and
/// every differing position among the first `k` has an entry.
pub proof fn law_changes_are_exactly_the_differences<T>(new: Seq<T>, old: Seq<T>, w: nat, k: nat)
    requires
        w > 0,
    ensures
        forall|j: int|
            0 <= j < changes(new, old, w, k).len() ==> exists|i: int|
                0 <= i < k && new[i] != old[i] && #[trigger] changes(new, old, w, k)[j] == (
                (i % (w as int)) as u16,
                (i / (w as int)) as u16,
                new[i],
            ),
        forall|i: int|
            0 <= i < k && new[i] != old[i] ==> exists|j: int|
                0 <= j < changes(new, old, w, k).len() && #[trigger] changes(new, old, w, k)[j] == (
                (i % (w as int)) as u16,
                (i / (w as int)) as u16,
                #[trigger] new[i],
            ),
    decreases k,
{
    if k > 0 {
        law_changes_are_exactly_the_differences(new, old, w, (k - 1) as nat);
        let prev = changes(new, old, w, (k - 1) as nat);
        let cur = changes(new, old, w, k);
        let last = k - 1;
        assert forall|j: int| 0 <= j < cur.len() implies exists|i: int|
            0 <= i < k && new[i] != old[i] && #[trigger] cur[j] == (
                (i % (w as int)) as u16,
                (i / (w as int)) as u16,
                new[i],
            ) by {
            if j < prev.len() {
                assert(cur[j] == prev[j]);
                let i = choose|i: int|
                    0 <= i < k - 1 && new[i] != old[i] && #[trigger] prev[j] == (
                        (i % (w as int)) as u16,
                        (i / (w as int)) as u16,
                        new[i],
                    );
                assert(cur[j] == ((i % (w as int)) as u16, (i / (w as int)) as u16, new[i]));
            } else {
                assert(cur[j] == ((last % (w as int)) as u16, (last / (w as int)) as u16, new[last]));
            }
        }
        assert forall|i: int| 0 <= i < k && new[i] != old[i] implies exists|j: int|
            0 <= j < cur.len() && #[trigger] cur[j] == (
                (i % (w as int)) as u16,
                (i / (w as int)) as u16,
                #[trigger] new[i],
            ) by {
            if i < k - 1 {
                let j = choose|j: int|
                    0 <= j < prev.len() && #[trigger] prev[j] == (
                        (i % (w as int)) as u16,
                        (i / (w as int)) as u16,
                        #[trigger] new[i],
                    );
                assert(cur[j] == prev[j]);
            } else {
                assert(cur[prev.len() as int] == (
                    (i % (w as int)) as u16,
                    (i / (w as int)) as u16,
                    new[i],
                ));
            }
        }
    }
}

/// `base` with every change of `ch` written over it, in order: entry
/// `(x, y, c)` overwrites position `y * w + x` with `c`.
pub open spec fn apply_changes<T>(base: Seq<T>, w: nat, ch: Seq<(u16, u16, T)>) -> Seq<T>
    decreases ch.len(),
{
    if ch.len() == 0 {
        base
    } else {
        let e = ch.last();
        apply_changes(base, w, ch.drop_last()).update(grid_index(w as int, e.0 as int, e.1 as int), e.2)
    }
}

/// An entry `(x, y, c)` whose content differs from what `old` holds at `(x, y)`.
pub open spec fn differs_from<T>(old: Seq<T>, w: nat) -> spec_fn((u16, u16, T)) -> bool {
    |e: (u16, u16, T)| e.2 != old[grid_index(w as int, e.0 as int, e.1 as int)]
}

/// Position `i` of a grid `w` wide (at most 65535 wide, at most 65536 rows)
/// has a column and row that fit in `u16`, and they name `i` again.
proof fn lemma_position_round_trip(w: nat, i: int)
    requires
        0 < w <= 0xffff,
        0 <= i < w * 0x1_0000,
    ensures
        ((i % (w as int)) as u16) as int == i % (w as int),
        ((i / (w as int)) as u16) as int == i / (w as int),
        grid_index(w as int, (i % (w as int)) as u16 as int, (i / (w as int)) as u16 as int) == i,
{
    let wi = w as int;
    vstd::arithmetic::div_mod::lemma_fundamental_div_mod(i, wi);
    vstd::arithmetic::div_mod::lemma_mod_bound(i, wi);
    assert(i / wi < 0x1_0000) by (nonlinear_arith)
        requires
            0 <= i < wi * 0x1_0000,
            wi > 0,
    ;
    assert(i / wi >= 0) by {
        vstd::arithmetic::div_mod::lemma_div_pos_is_pos(i, wi);
    }
    assert((i / wi) * wi == wi * (i / wi)) by (nonlinear_arith);
}

/// Writing the change list over the old grid gives the new one: after the
/// first `k` positions are carried over, the rest is still the old grid.
pub proof fn law_changes_carry_old_to_new<T>(new: Seq<T>, old: Seq<T>, w: nat, k: nat)
    requires
        0 < w <= 0xffff,
        new.len() == old.len(),
        k <= new.len(),
        k <= w * 0x1_0000,
    ensures
        apply_changes(old, w, changes(new, old, w, k)) == new.take(k as int) + old.skip(k as int),
    decreases k,
{
    if k == 0 {
        assert(new.take(0) + old.skip(0) =~= old);
    } else {
        let i = k - 1;
        law_changes_carry_old_to_new(new, old, w, (k - 1) as nat);
        let earlier = changes(new, old, w, (k - 1) as nat);
        let prev = new.take(i) + old.skip(i);
        assert(apply_changes(old, w, earlier) == prev);
        lemma_position_round_trip(w, i);
        if new[i] != old[i] {
            let e = ((i % (w as int)) as u16, (i / (w as int)) as u16, new[i]);
            let cur = earlier.push(e);
            assert(changes(new, old, w, k) == cur);
            assert(cur.drop_last() =~= earlier);
            assert(cur.last() == e);
            assert(grid_index(w as int, e.0 as int, e.1 as int) == i);
            assert(apply_changes(old, w, cur) == prev.update(i, new[i]));
            assert(prev.update(i, new[i]) =~= new.take(k as int) + old.skip(k as int));
        } else {
            assert(changes(new, old, w, k) == earlier);
            assert(prev =~= new.take(k as int) + old.skip(k as int));
        }
    }
}

/// The change list is the full cell list, filtered to the cells that differ
/// from the old grid.
pub proof fn law_changes_filter_all_cells<T>(new: Seq<T>, old: Seq<T>, w: nat, k: nat)
    requires
        0 < w <= 0xffff,
        new.len() == old.len(),
        k <= new.len(),
        k <= w * 0x1_0000,
    ensures
        changes(new, old, w, k) == all_cells(new, w, k).filter(differs_from(old, w)),
    decreases k,
{
    reveal(Seq::filter);
    let all = all_cells(new, w, k);
    let pred = differs_from(old, w);
    if k == 0 {
        assert(all.len() == 0);
        assert(all.filter(pred) == all);
        assert(changes(new, old, w, k) =~= all);
    } else {
        let i = k - 1;
        law_changes_filter_all_cells(new, old, w, (k - 1) as nat);
        assert(all.drop_last() =~= all_cells(new, w, (k - 1) as nat));
        lemma_position_round_trip(w, i);
        let e = ((i % (w as int)) as u16, (i / (w as int)) as u16, new[i]);
        assert(all.last() == e);
        assert(grid_index(w as int, e.0 as int, e.1 as int) == i);
        assert(pred(e) == (new[i] != old[i]));
        let sub = all.drop_last().filter(pred);
        assert(all.filter(pred) == (if pred(all.last()) { sub.push(all.last()) } else { sub }));
    }
}

/// Two grids of `w × h` cells are equal exactly when they agree at every
/// column and row.
proof fn lemma_grid_cells_equal<T>(new: Seq<T>, old: Seq<T>, w: nat, h: nat)
    requires
        w <= 0xffff,
        h <= 0xffff,
        new.len() == w * h,
        old.len() == w * h,
    ensures
        (new == old) == (forall|x: int, y: int|
            0 <= x < w && 0 <= y < h ==> #[trigger] new[grid_index(w as int, x, y)]
                == old[grid_index(w as int, x, y)]),
{
    if forall|x: int, y: int|
        0 <= x < w && 0 <= y < h ==> #[trigger] new[grid_index(w as int, x, y)]
            == old[grid_index(w as int, x, y)] {
        assert forall|i: int| 0 <= i < new.len() implies new[i] == old[i] by {
            assert(w > 0) by (nonlinear_arith)
                requires
                    0 <= i < w * h,
            ;
            assert(w * h <= w * 0x1_0000) by (nonlinear_arith)
                requires
                    h <= 0xffff,
            ;
            lemma_position_round_trip(w, i);
            vstd::arithmetic::div_mod::lemma_multiply_divide_lt(i, w as int, h as int);
            vstd::arithmetic::div_mod::lemma_mod_bound(i, w as int);
            vstd::arithmetic::div_mod::lemma_div_pos_is_pos(i, w as int);
            let x = i % (w as int);
            let y = i / (w as int);
            assert(new[grid_index(w as int, x, y)] == old[grid_index(w as int, x, y)]);
        }
        assert(new =~= old);
    }
}

/// The full change list of the first `k` cells names each cell once, in
/// row-major order: entry `i` sits at column `x < w` and row `y` with
/// `y * w + x == i`, and carries cell `i`.
pub proof fn law_all_cells_name_each_cell_in_order<T>(cells: Seq<T>, w: nat, k: nat)
    requires
        0 < w <= 0xffff,
        k <= w * 0x1_0000,
    ensures
        all_cells(cells, w, k).len() == k,
        forall|i: int|
            0 <= i < k ==> (#[trigger] all_cells(cells, w, k)[i]).0 < w && grid_index(
                w as int,
                all_cells(cells, w, k)[i].0 as int,
                all_cells(cells, w, k)[i].1 as int,
            ) == i && all_cells(cells, w, k)[i].2 == cells[i],
{
    assert forall|i: int| 0 <= i < k implies (#[trigger] all_cells(cells, w, k)[i]).0 < w && grid_index(
        w as int,
        all_cells(cells, w, k)[i].0 as int,
        all_cells(cells, w, k)[i].1 as int,
    ) == i && all_cells(cells, w, k)[i].2 == cells[i] by {
        lemma_position_round_trip(w, i);
        vstd::arithmetic::div_mod::lemma_mod_bound(i, w as int);
    }
}

/// The change list comes row by row: its entries name positions among the
/// first `k`, each inside the width, in strictly increasing row-major order.
pub proof fn law_changes_in_row_major_order<T>(new: Seq<T>, old: Seq<T>, w: nat, k: nat)
    requires
        0 < w <= 0xffff,
        k <= w * 0x1_0000,
    ensures
        forall|j: int|
            0 <= j < changes(new, old, w, k).len() ==> (#[trigger] changes(new, old, w, k)[j]).0 < w
                && 0 <= grid_index(
                w as int,
                changes(new, old, w, k)[j].0 as int,
                changes(new, old, w, k)[j].1 as int,
            ) < k,
        forall|j1: int, j2: int|
            0 <= j1 < j2 < changes(new, old, w, k).len() ==> grid_index(
                w as int,
                (#[trigger] changes(new, old, w, k)[j1]).0 as int,
                changes(new, old, w, k)[j1].1 as int,
            ) < grid_index(
                w as int,
                (#[trigger] changes(new, old, w, k)[j2]).0 as int,
                changes(new, old, w, k)[j2].1 as int,
            ),
    decreases k,
{
    if k > 0 {
        let i = k - 1;
        law_changes_in_row_major_order(new, old, w, (k - 1) as nat);
        let prev = changes(new, old, w, (k - 1) as nat);
        let cur = changes(new, old, w, k);
        lemma_position_round_trip(w, i);
        vstd::arithmetic::div_mod::lemma_mod_bound(i, w as int);
        if new[i] != old[i] {
            assert(cur == prev.push(((i % (w as int)) as u16, (i / (w as int)) as u16, new[i])));
            assert forall|j: int| 0 <= j < prev.len() implies #[trigger] cur[j] == prev[j] by {}
            assert(grid_index(w as int, cur[prev.len() as int].0 as int, cur[prev.len() as int].1 as int) == i);
        } else {
            assert(cur == prev);
        }
    }
}

/// What a diff promises of two equally sized grids `w` wide and `h` tall:
/// writing it over the old grid gives the new one; it is the full cell list
/// filtered to the changed cells; a grid diffed with itself gives nothing;
/// and the diff is empty exactly when the grids are equal.
pub proof fn law_diff_of_grids<T>(new: Seq<T>, old: Seq<T>, w: nat, h: nat)
    requires
        w <= 0xffff,
        h <= 0xffff,
        new.len() == w * h,
        old.len() == w * h,
    ensures
        apply_changes(old, w, changes(new, old, w, w * h)) == new,
        changes(new, old, w, w * h) == all_cells(new, w, w * h).filter(differs_from(old, w)),
        changes(new, new, w, w * h) == Seq::<(u16, u16, T)>::empty(),
        (changes(new, old, w, w * h).len() == 0) == (new == old),
        (changes(new, old, w, w * h).len() == 0) == (forall|x: int, y: int|
            0 <= x < w && 0 <= y < h ==> #[trigger] new[grid_index(w as int, x, y)]
                == old[grid_index(w as int, x, y)]),
{
    law_no_changes_against_itself(new, w, w * h);
    lemma_grid_cells_equal(new, old, w, h);
    if w == 0 {
        assert(w * h == 0);
        assert(new =~= old);
        assert(all_cells(new, w, 0) =~= Seq::<(u16, u16, T)>::empty());
    } else {
        assert(w * h <= w * 0x1_0000) by (nonlinear_arith)
            requires
                h <= 0xffff,
        ;
        law_changes_carry_old_to_new(new, old, w, w * h);
        assert(new.take((w * h) as int) =~= new);
        assert(old.skip((w * h) as int) =~= Seq::<T>::empty());
        assert(new.take((w * h) as int) + old.skip((w * h) as int) =~= new);
        law_changes_filter_all_cells(new, old, w, w * h);
    }
}

/// One terminal cell: a character plus how it should be styled.
#[derive(Clone, Copy, Debug, PartialEq, Eq, Structural)]
pub struct Cell {
    pub ch: char,
    pub style: Style,
}

/// The empty cell: a plain space.
pub open spec fn blank_cell() -> Cell {
    Cell { ch: ' ', style: plain_style() }
}

impl Cell {
    pub fn blank() -> (c: Cell)
        ensures
            c == blank_cell(),
    {
        Cell { ch: ' ', style: Style::default() }
    }
}

/// The cell a text sprite puts at frame cell `(x, y)` when its top-left
/// character sits at `(ox, oy)`: `None` where the sprite has no character
/// there or a space (spaces are transparent).
pub open spec fn text_cover(
    rows: Seq<Seq<char>>,
    style: Style,
    ox: int,
    oy: int,
    x: int,
    y: int,
) -> Option<Cell> {
    let dy = y - oy;
    let dx = x - ox;
    if 0 <= dy < rows.len() && 0 <= dx < rows[dy].len() && rows[dy][dx] != ' ' {
        Some(Cell { ch: rows[dy][dx], style: style })
    } else {
        None
    }
}

/// A text sprite placed with its top-left character at `(ox, oy)` puts its
/// character at row `r`, column `k` (with the sprite's style) on frame cell
/// `(ox + k, oy + r)`, unless that character is a space.
pub proof fn law_text_cover_reads_the_sprite(
    rows: Seq<Seq<char>>,
    style: Style,
    ox: int,
    oy: int,
    r: int,
    k: int,
)
    requires
        0 <= r < rows.len(),
        0 <= k < rows[r].len(),
    ensures
        text_cover(rows, style, ox, oy, ox + k, oy + r) == if rows[r][k] == ' ' {
            None
        } else {
            Some(Cell { ch: rows[r][k], style: style })
        },
{
}

/// An in-memory grid of styled cells. Row-major, `width * height` cells.
pub struct Frame {
    pub width: u16,
    pub height: u16,
    pub cells: Vec<Cell>,
}

impl Frame {
    /// All cells, row-major.
    pub open spec fn cells_seq(&self) -> Seq<Cell> {
        self.cells@
    }

    /// The frame holds exactly one cell per grid position.
    pub open spec fn wf(&self) -> bool {
        self.cells_seq().len() == self.width * self.height
    }

    /// The cell at column `x`, row `y`.
    pub open spec fn at(&self, x: int, y: int) -> Cell {
        self.cells_seq()[grid_index(self.width as int, x, y)]
    }

    /// `(x, y)` names a cell of the frame.
    pub open spec fn in_bounds(&self, x: int, y: int) -> bool {
        0 <= x < self.width && 0 <= y < self.height
    }

    /// A blank frame of `width × height` cells.
    pub fn new(width: u16, height: u16) -> (f: Frame)
        ensures
            f.wf(),
            f.width == width,
            f.height == height,
            forall|x: int, y: int| f.in_bounds(x, y) ==> #[trigger] f.at(x, y) == blank_cell(),
    {
        assert((width as int) * (height as int) <= 0xffff_ffff) by (nonlinear_arith)
            requires
                width <= 0xffff,
                height <= 0xffff,
        ;
        let n = width as usize * height as usize;
        let mut cells: Vec<Cell> = Vec::new();
        let mut i: usize = 0;
        while i < n
            invariant
                i <= n,
                cells@.len() == i,
                forall|k: int| 0 <= k < i ==> #[trigger] cells@[k] == blank_cell(),
            decreases n - i,
        {
            cells.push(Cell::blank());
            i = i + 1;
        }
        let f = Frame { width, height, cells };
        assert forall|x: int, y: int| f.in_bounds(x, y) implies #[trigger] f.at(x, y)
            == blank_cell() by {
            lemma_grid_index_bounds(width as int, height as int, x, y);
        }
        f
    }

    /// Position `(x, y)` names an entry of the cell buffer (it may wrap into
    /// the next row when `x` is past the width).
    pub open spec fn indexable(&self, x: int, y: int) -> bool {
        grid_index(self.width as int, x, y) < self.cells_seq().len()
    }

    fn idx(&self, x: u16, y: u16) -> (i: usize)
        requires
            self.wf(),
            self.indexable(x as int, y as int),
        ensures
            i == grid_index(self.width as int, x as int, y as int),
            i < self.cells_seq().len(),
    {
        proof {
            assert((self.width as int) * (self.height as int) <= 0xffff_ffff) by (nonlinear_arith)
                requires
                    self.width <= 0xffff,
                    self.height <= 0xffff,
            ;
            assert((y as int) * (self.width as int) <= (y as int) * (self.width as int) + x);
        }
        y as usize * self.width as usize + x as usize
    }

    /// The character at a cell (style ignored).
    pub fn cell(&self, x: u16, y: u16) -> (c: char)
        requires
            self.wf(),
            self.indexable(x as int, y as int),
        ensures
            c == self.at(x as int, y as int).ch,
    {
        self.cells[self.idx(x, y)].ch
    }

    /// The full styled cell.
    pub fn styled(&self, x: u16, y: u16) -> (c: Cell)
        requires
            self.wf(),
            self.indexable(x as int, y as int),
        ensures
            c == self.at(x as int, y as int),
    {
        self.cells[self.idx(x, y)]
    }

    /// Overwrite one cell, leaving every other cell as it was.
    fn put(&mut self, x: u16, y: u16, cell: Cell)
        requires
            old(self).wf(),
            old(self).in_bounds(x as int, y as int),
        ensures
            final(self).wf(),
            final(self).width == old(self).width,
            final(self).height == old(self).height,
            final(self).at(x as int, y as int) == cell,
            forall|x2: int, y2: int|
                old(self).in_bounds(x2, y2) && (x2 != x || y2 != y) ==> #[trigger] final(self).at(
                    x2,
                    y2,
                ) == old(self).at(x2, y2),
    {
        proof {
            lemma_grid_index_bounds(self.width as int, self.height as int, x as int, y as int);
        }
        let i = self.idx(x, y);
        self.cells.set(i, cell);
        proof {
            assert forall|x2: int, y2: int|
                old(self).in_bounds(x2, y2) && (x2 != x || y2 != y) implies #[trigger] self.at(
                x2,
                y2,
            ) == old(self).at(x2, y2) by {
                if grid_index(self.width as int, x2, y2) == i {
                    lemma_grid_index_injective(self.width as int, x2, y2, x as int, y as int);
                }
                lemma_grid_index_bounds(self.width as int, self.height as int, x2, y2);
            }
        }
    }

    /// Set a cell to a plain (unstyled) character. A column past the width
    /// lands in the following row, as the buffer is laid out.
    pub fn set(&mut self, x: u16, y: u16, c: char)
        requires
            old(self).wf(),
            old(self).indexable(x as int, y as int),
        ensures
            final(self).wf(),
            final(self).width == old(self).width,
            final(self).height == old(self).height,
            final(self).cells_seq() == old(self).cells_seq().update(
                grid_index(old(self).width as int, x as int, y as int),
                Cell { ch: c, style: plain_style() },
            ),
            final(self).at(x as int, y as int) == (Cell { ch: c, style: plain_style() }),
            old(self).in_bounds(x as int, y as int) ==> forall|x2: int, y2: int|
                old(self).in_bounds(x2, y2) && (x2 != x || y2 != y) ==> #[trigger] final(self).at(
                    x2,
                    y2,
                ) == old(self).at(x2, y2),
    {
        let i = self.idx(x, y);
        self.cells.set(i, Cell { ch: c, style: Style::default() });
        proof {
            if old(self).in_bounds(x as int, y as int) {
                assert forall|x2: int, y2: int|
                    old(self).in_bounds(x2, y2) && (x2 != x || y2 != y) implies #[trigger] self.at(
                    x2,
                    y2,
                ) == old(self).at(x2, y2) by {
                    if grid_index(self.width as int, x2, y2) == i {
                        lemma_grid_index_injective(self.width as int, x2, y2, x as int, y as int);
                    }
                    lemma_grid_index_bounds(self.width as int, self.height as int, x2, y2);
                }
            }
        }
    }

    /// Draw a sprite at integer cell (ox, oy), carrying the sprite's style.
    /// Spaces in the sprite are transparent. Cells outside the frame are clipped.
    pub fn draw_sprite(&mut self, ox: i32, oy: i32, sprite: &Sprite)
        requires
            old(self).wf(),
            sprite.rows@.len() <= i32::MAX,
            oy + sprite.rows@.len() <= i32::MAX + 1,
            forall|r: int|
                0 <= r < sprite.rows@.len() && 0 <= oy + r < old(self).height ==> #[trigger] text_rendered(
                    sprite.text(),
                    sprite.facing,
                    sprite.flip_v,
                )[r].len() <= i32::MAX,
            forall|r: int, k: int|
                0 <= r < sprite.rows@.len() && 0 <= oy + r < old(self).height && 0 <= k < text_rendered(
                    sprite.text(),
                    sprite.facing,
                    sprite.flip_v,
                )[r].len() && text_rendered(sprite.text(), sprite.facing, sprite.flip_v)[r][k]
                    != ' ' ==> ox + k <= i32::MAX,
        ensures
            final(self).wf(),
            final(self).width == old(self).width,
            final(self).height == old(self).height,
            forall|x: int, y: int|
                old(self).in_bounds(x, y) ==> #[trigger] final(self).at(x, y) == match text_cover(
                    text_rendered(sprite.text(), sprite.facing, sprite.flip_v),
                    sprite.style,
                    ox as int,
                    oy as int,
                    x,
                    y,
                ) {
                    Some(c) => c,
                    None => old(self).at(x, y),
                },
            forall|r: int, k: int|
                0 <= r < text_rendered(sprite.text(), sprite.facing, sprite.flip_v).len() && 0 <= k < text_rendered(sprite.text(), sprite.facing, sprite.flip_v)[r].len()
                    && #[trigger] text_rendered(sprite.text(), sprite.facing, sprite.flip_v)[r][k] != ' ' && old(self).in_bounds(ox + k, oy + r)
                    ==> final(self).at(ox + k, oy + r) == (Cell { ch: text_rendered(sprite.text(), sprite.facing, sprite.flip_v)[r][k], style: sprite.style }),
    {
        let rows = sprite.rendered_rows();
        let ghost text = text_rendered(sprite.text(), sprite.facing, sprite.flip_v);
        let ghost start = *self;
        let n = rows.len();
        proof {
            assert(n == text.len());
        }
        let mut dy: usize = 0;
        while dy < n
            invariant
                n == rows@.len(),
                n == text.len(),
                n <= i32::MAX,
                oy + n <= i32::MAX + 1,
                dy <= n,
                forall|r: int| 0 <= r < n ==> #[trigger] rows@[r]@ == text[r],
                forall|r: int, k: int|
                    0 <= r < n && 0 <= oy + r < start.height && 0 <= k < text[r].len()
                        && #[trigger] text[r][k] != ' ' ==> ox + k <= i32::MAX,
                forall|r: int|
                    0 <= r < n && 0 <= oy + r < start.height ==> #[trigger] text[r].len() <= i32::MAX,
                self.wf(),
                self.width == start.width,
                self.height == start.height,
                forall|x: int, y: int|
                    #![trigger self.at(x, y)]
                    start.in_bounds(x, y) ==> self.at(x, y) == match text_cover(
                        text,
                        sprite.style,
                        ox as int,
                        oy as int,
                        x,
                        y,
                    ) {
                        Some(c) => if y - oy < dy {
                            c
                        } else {
                            start.at(x, y)
                        },
                        None => start.at(x, y),
                    },
            decreases n - dy,
        {
            let y = oy + dy as i32;
            if y >= 0 && y < self.height as i32 {
                let row = rows[dy].as_str();
                let len = row.unicode_len();
                assert(text[dy as int].len() <= i32::MAX);
                let mut dx: usize = 0;
                while dx < len
                    invariant
                        n == rows@.len(),
                        n == text.len(),
                        dy < n,
                        y == oy + dy,
                        0 <= y < start.height,
                        row@ == text[dy as int],
                        len == row@.len(),
                        len <= i32::MAX,
                        dx <= len,
                        forall|k: int|
                            0 <= k < text[dy as int].len() && #[trigger] text[dy as int][k] != ' '
                                ==> ox + k <= i32::MAX,
                        self.wf(),
                        self.width == start.width,
                        self.height == start.height,
                        forall|x: int, yy: int|
                            #![trigger self.at(x, yy)]
                            start.in_bounds(x, yy) ==> self.at(x, yy) == match text_cover(
                                text,
                                sprite.style,
                                ox as int,
                                oy as int,
                                x,
                                yy,
                            ) {
                                Some(c) => if yy - oy < dy || (yy - oy == dy && x - ox < dx) {
                                    c
                                } else {
                                    start.at(x, yy)
                                },
                                None => start.at(x, yy),
                            },
                    decreases len - dx,
                {
                    let c = row.get_char(dx);
                    assert(text[dy as int][dx as int] == c);
                    if c != ' ' {
                        let x = ox + dx as i32;
                        if x >= 0 && x < self.width as i32 {
                            self.put(x as u16, y as u16, Cell { ch: c, style: sprite.style });
                        }
                    }
                    dx = dx + 1;
                }
            }
            dy = dy + 1;
        }
        proof {
            assert forall|r: int, k: int|
                0 <= r < text.len() && 0 <= k < text[r].len() && #[trigger] text[r][k] != ' '
                    && start.in_bounds(ox + k, oy + r) implies self.at(ox + k, oy + r) == (Cell {
                    ch: text[r][k],
                    style: sprite.style,
                }) by {
                law_text_cover_reads_the_sprite(text, sprite.style, ox as int, oy as int, r, k);
            }
        }
    }

    /// Cells that differ from `prev`, as (x, y, new_cell), row by row.
    /// Both frames share dimensions.
    pub fn diff(&self, prev: &Frame) -> (out: Vec<(u16, u16, Cell)>)
        requires
            self.wf(),
            prev.wf(),
            prev.width == self.width,
            prev.height == self.height,
        ensures
            out@ == changes(
                self.cells_seq(),
                prev.cells_seq(),
                self.width as nat,
                (self.width * self.height) as nat,
            ),
    {
        let mut out: Vec<(u16, u16, Cell)> = Vec::new();
        let w = self.width;
        let ghost wi = self.width as int;
        let mut y: u16 = 0;
        while y < self.height
            invariant
                self.wf(),
                prev.wf(),
                prev.width == w,
                prev.height == self.height,
                w == self.width,
                wi == w as int,
                y <= self.height,
                out@ == changes(self.cells_seq(), prev.cells_seq(), w as nat, (y * w) as nat),
            decreases self.height - y,
        {
            let mut x: u16 = 0;
            while x < w
                invariant
                    self.wf(),
                    prev.wf(),
                    prev.width == w,
                    prev.height == self.height,
                    w == self.width,
                    wi == w as int,
                    y < self.height,
                    x <= w,
                    out@ == changes(
                        self.cells_seq(),
                        prev.cells_seq(),
                        w as nat,
                        (y * w + x) as nat,
                    ),
                decreases w - x,
            {
                proof {
                    lemma_grid_index_inverse(wi, x as int, y as int);
                    lemma_grid_index_bounds(wi, self.height as int, x as int, y as int);
                }
                let c = self.styled(x, y);
                let p = prev.styled(x, y);
                if c != p {
                    out.push((x, y, c));
                }
                x = x + 1;
            }
            proof {
                assert(y * w + w == (y + 1) * w) by (nonlinear_arith);
            }
            y = y + 1;
        }
        assert(self.height * w == w * self.height) by (nonlinear_arith);
        out
    }
}

/// What `Frame::diff` promises of a frame `new` and an earlier frame `prev` of
/// the same size: writing each entry `(x, y, c)` of the diff over `prev`'s
/// cell `(x, y)` gives `new`'s cells; the diff is every cell of `new` (the
/// full change list, row by row) filtered to those that differ from `prev`'s
/// cell at the same place; a frame diffed with itself gives nothing; and the
/// diff is empty exactly when every cell of `new` equals `prev`'s.
pub proof fn law_frame_diff(new: Frame, prev: Frame)
    requires
        new.wf(),
        prev.wf(),
        prev.width == new.width,
        prev.height == new.height,
    ensures
        apply_changes(
            prev.cells_seq(),
            new.width as nat,
            changes(new.cells_seq(), prev.cells_seq(), new.width as nat, (new.width * new.height) as nat),
        ) == new.cells_seq(),
        changes(new.cells_seq(), prev.cells_seq(), new.width as nat, (new.width * new.height) as nat)
            == all_cells(new.cells_seq(), new.width as nat, (new.width * new.height) as nat).filter(
            differs_from(prev.cells_seq(), new.width as nat),
        ),
        changes(new.cells_seq(), new.cells_seq(), new.width as nat, (new.width * new.height) as nat)
            == Seq::<(u16, u16, Cell)>::empty(),
        (changes(new.cells_seq(), prev.cells_seq(), new.width as nat, (new.width * new.height) as nat).len()
            == 0) == (forall|x: int, y: int| new.in_bounds(x, y) ==> #[trigger] new.at(x, y) == prev.at(x, y)),
{
    law_diff_of_grids(new.cells_seq(), prev.cells_seq(), new.width as nat, new.height as nat);
    assert((new.width * new.height) as nat == (new.width as nat) * (new.height as nat));
    let w = new.width as int;
    if forall|x: int, y: int| new.in_bounds(x, y) ==> #[trigger] new.at(x, y) == prev.at(x, y) {
        assert forall|x: int, y: int| 0 <= x < w && 0 <= y < new.height implies
            #[trigger] new.cells_seq()[grid_index(w, x, y)] == prev.cells_seq()[grid_index(w, x, y)] by {
            assert(new.at(x, y) == prev.at(x, y));
        }
    }
    if forall|x: int, y: int| 0 <= x < w && 0 <= y < new.height ==>
        #[trigger] new.cells_seq()[grid_index(w, x, y)] == prev.cells_seq()[grid_index(w, x, y)] {
        assert forall|x: int, y: int| new.in_bounds(x, y) implies #[trigger] new.at(x, y) == prev.at(x, y) by {
            assert(new.cells_seq()[grid_index(w, x, y)] == prev.cells_seq()[grid_index(w, x, y)]);
        }
    }
}

} // verus!

verus! {

/// One terminal cell as two vertically-stacked pixels (None = water).
#[derive(Clone, Copy, Debug, PartialEq, Eq, Structural)]
pub struct PixelCell {
    pub top: Option<Color>,
    pub bottom: Option<Color>,
}

/// The color a text sprite fills its cells with in a pixel frame: its
/// style's color, white when uncolored.
pub open spec fn fill_color(style: Style) -> Color {
    match style.color {
        Some(c) => c,
        None => Color::White,
    }
}

/// A text sprite in a pixel frame is filled with its own color whether or
/// not it is bold, and with white when it has no color.
pub proof fn law_fill_color_is_the_sprite_color(style: Style)
    ensures
        fill_color(style) == fill_color(Style { bold: !style.bold, color: style.color }),
        style.color is Some ==> fill_color(style) == style.color->0,
        style.color is None ==> fill_color(style) == Color::White,
{
}

/// The cell with both halves transparent.
pub open spec fn blank_pixel_cell() -> PixelCell {
    PixelCell { top: None, bottom: None }
}

impl PixelCell {
    pub fn blank() -> (c: PixelCell)
        ensures
            c == blank_pixel_cell(),
    {
        PixelCell { top: None, bottom: None }
    }
}

/// The color a pixel sprite puts at canvas pixel `(px, py)` when its top-left
/// pixel sits at `(ox, oy)`; `None` where it has no pixel or a transparent one.
pub open spec fn pixel_cover(
    rows: Seq<Seq<Option<Color>>>,
    ox: int,
    oy: int,
    px: int,
    py: int,
) -> Option<Color> {
    let dy = py - oy;
    let dx = px - ox;
    if 0 <= dy < rows.len() && 0 <= dx < rows[dy].len() {
        rows[dy][dx]
    } else {
        None
    }
}

/// A pixel sprite placed with its top-left pixel at `(ox, oy)` covers canvas
/// pixel `(ox + k, oy + r)` with its own pixel at row `r`, column `k`, for
/// every place of every row, however wide the rows are.
pub proof fn law_pixel_cover_reads_the_sprite(
    rows: Seq<Seq<Option<Color>>>,
    ox: int,
    oy: int,
    r: int,
    k: int,
)
    requires
        0 <= r < rows.len(),
        0 <= k < rows[r].len(),
    ensures
        pixel_cover(rows, ox, oy, ox + k, oy + r) == rows[r][k],
{
}

/// A pixel frame's canvas is its cells stacked in halves: canvas pixel
/// `(x, 2y)` is the top of cell `(x, y)`, `(x, 2y + 1)` its bottom, and
/// nothing lies off the canvas.
pub proof fn law_canvas_is_cells_in_halves(f: PixelFrame, x: int, y: int)
    ensures
        f.in_bounds(x, y) ==> f.pix(x, 2 * y) == f.at(x, y).top && f.pix(x, 2 * y + 1) == f.at(x, y).bottom,
        !f.in_bounds(x, y) ==> f.pix(x, 2 * y) is None && f.pix(x, 2 * y + 1) is None,
{
    assert((2 * y) / 2 == y && (2 * y) % 2 == 0);
    assert((2 * y + 1) / 2 == y && (2 * y + 1) % 2 == 1);
}

/// An in-memory grid of pixel cells. Addressed in cells; the pixel canvas is
/// `width × height*2` (each cell holds a top and bottom pixel).
pub struct PixelFrame {
    pub width: u16,
    pub height: u16,
    pub cells: Vec<PixelCell>,
}

impl PixelFrame {
    /// All cells, row-major.
    pub open spec fn cells_seq(&self) -> Seq<PixelCell> {
        self.cells@
    }

    /// The frame holds exactly one cell per grid position.
    pub open spec fn wf(&self) -> bool {
        self.cells_seq().len() == self.width * self.height
    }

    /// `(x, y)` names a cell of the frame.
    pub open spec fn in_bounds(&self, x: int, y: int) -> bool {
        0 <= x < self.width && 0 <= y < self.height
    }

    /// The cell at column `x`, row `y`.
    pub open spec fn at(&self, x: int, y: int) -> PixelCell {
        self.cells_seq()[grid_index(self.width as int, x, y)]
    }

    /// `(px, py)` names a pixel of the `width × 2*height` canvas.
    pub open spec fn on_canvas(&self, px: int, py: int) -> bool {
        0 <= px < self.width && 0 <= py < 2 * self.height
    }

    /// The pixel at canvas coordinates: the top half of cell `py / 2` for an
    /// even `py`, its bottom half for an odd one; `None` off the canvas.
    pub open spec fn pix(&self, px: int, py: int) -> Option<Color> {
        if self.on_canvas(px, py) {
            if py % 2 == 0 {
                self.at(px, py / 2).top
            } else {
                self.at(px, py / 2).bottom
            }
        } else {
            None
        }
    }

    /// A frame of `width × height` cells, every pixel transparent.
    pub fn new(width: u16, height: u16) -> (f: PixelFrame)
        ensures
            f.wf(),
            f.width == width,
            f.height == height,
            forall|x: int, y: int| f.in_bounds(x, y) ==> #[trigger] f.at(x, y) == blank_pixel_cell(),
    {
        assert((width as int) * (height as int) <= 0xffff_ffff) by (nonlinear_arith)
            requires
                width <= 0xffff,
                height <= 0xffff,
        ;
        let n = width as usize * height as usize;
        let mut cells: Vec<PixelCell> = Vec::new();
        let mut i: usize = 0;
        while i < n
            invariant
                i <= n,
                cells@.len() == i,
                forall|k: int| 0 <= k < i ==> #[trigger] cells@[k] == blank_pixel_cell(),
            decreases n - i,
        {
            cells.push(PixelCell::blank());
            i = i + 1;
        }
        let f = PixelFrame { width, height, cells };
        assert forall|x: int, y: int| f.in_bounds(x, y) implies #[trigger] f.at(x, y)
            == blank_pixel_cell() by {
            lemma_grid_index_bounds(width as int, height as int, x, y);
        }
        f
    }

    fn idx(&self, x: u16, y: u16) -> (i: usize)
        requires
            self.wf(),
            self.in_bounds(x as int, y as int),
        ensures
            i == grid_index(self.width as int, x as int, y as int),
            i < self.cells_seq().len(),
    {
        proof {
            lemma_grid_index_bounds(self.width as int, self.height as int, x as int, y as int);
            assert((self.width as int) * (self.height as int) <= 0xffff_ffff) by (nonlinear_arith)
                requires
                    self.width <= 0xffff,
                    self.height <= 0xffff,
            ;
        }
        y as usize * self.width as usize + x as usize
    }

    /// Read the pixel at pixel coords (py: 0..height*2). Top half = even py.
    pub fn pixel(&self, px: u16, py: u16) -> (c: Option<Color>)
        requires
            self.wf(),
        ensures
            c == self.pix(px as int, py as int),
    {
        if px >= self.width || py as u32 >= self.height as u32 * 2 {
            return None;
        }
        let cell = self.cells[self.idx(px, py / 2)];
        if py % 2 == 0 {
            cell.top
        } else {
            cell.bottom
        }
    }

    /// Overwrite one cell, leaving every other cell as it was.
    fn put(&mut self, x: u16, y: u16, cell: PixelCell)
        requires
            old(self).wf(),
            old(self).in_bounds(x as int, y as int),
        ensures
            final(self).wf(),
            final(self).width == old(self).width,
            final(self).height == old(self).height,
            final(self).at(x as int, y as int) == cell,
            forall|x2: int, y2: int|
                old(self).in_bounds(x2, y2) && (x2 != x || y2 != y) ==> #[trigger] final(self).at(
                    x2,
                    y2,
                ) == old(self).at(x2, y2),
    {
        let i = self.idx(x, y);
        self.cells.set(i, cell);
        proof {
            assert forall|x2: int, y2: int|
                old(self).in_bounds(x2, y2) && (x2 != x || y2 != y) implies #[trigger] self.at(
                x2,
                y2,
            ) == old(self).at(x2, y2) by {
                if grid_index(self.width as int, x2, y2) == i {
                    lemma_grid_index_injective(self.width as int, x2, y2, x as int, y as int);
                }
                lemma_grid_index_bounds(self.width as int, self.height as int, x2, y2);
            }
        }
    }

    /// Set the pixel at pixel coords; out-of-range is clipped (no panic).
    pub fn set_pixel(&mut self, px: i32, py: i32, color: Color)
        requires
            old(self).wf(),
        ensures
            final(self).wf(),
            final(self).width == old(self).width,
            final(self).height == old(self).height,
            forall|qx: int, qy: int|
                #[trigger] final(self).pix(qx, qy) == if qx == px && qy == py && old(self).on_canvas(
                    qx,
                    qy,
                ) {
                    Some(color)
                } else {
                    old(self).pix(qx, qy)
                },
    {
        if px < 0 || py < 0 || px >= self.width as i32 || py >= self.height as i32 * 2 {
            return;
        }
        let y = (py / 2) as u16;
        let x = px as u16;
        let top = py % 2 == 0;
        let ghost before = *self;
        let c = self.cells[self.idx(x, y)];
        if top {
            self.put(x, y, PixelCell { top: Some(color), bottom: c.bottom });
        } else {
            self.put(x, y, PixelCell { top: c.top, bottom: Some(color) });
        }
        assert forall|qx: int, qy: int|
            #[trigger] self.pix(qx, qy) == if qx == px && qy == py && before.on_canvas(qx, qy) {
                Some(color)
            } else {
                before.pix(qx, qy)
            } by {
            if self.on_canvas(qx, qy) {
                if qx == x && qy / 2 == y {
                    assert(self.at(qx, qy / 2) == self.at(x as int, y as int));
                    if qy == py {
                    } else {
                        assert(qy % 2 != py % 2);
                    }
                } else {
                    assert(self.at(qx, qy / 2) == before.at(qx, qy / 2));
                }
            }
        }
    }

    /// Draw a sprite with its top-left pixel at cell (ox, oy) -> pixel (ox, 2*oy).
    /// Transparent pixels are skipped; everything clips to the frame.
    pub fn draw_sprite(&mut self, ox: i32, oy: i32, sprite: &PixelSprite)
        requires
            old(self).wf(),
            sprite.pixels@.len() <= i32::MAX,
            forall|r: int| 0 <= r < sprite.pixels@.len() ==> #[trigger] sprite.pixels@[r]@.len() <= i32::MAX,
            forall|r: int, k: int|
                0 <= r < sprite.pixels@.len() && 0 <= k < pixels_rendered(
                    sprite.grid(),
                    sprite.facing,
                    sprite.flip_v,
                )[r].len() && #[trigger] pixels_rendered(sprite.grid(), sprite.facing, sprite.flip_v)[r][k]
                    is Some ==> i32::MIN <= 2 * oy && 2 * oy + r <= i32::MAX && ox + k <= i32::MAX,
        ensures
            final(self).wf(),
            final(self).width == old(self).width,
            final(self).height == old(self).height,
            forall|px: int, py: int|
                #[trigger] final(self).pix(px, py) == if old(self).on_canvas(px, py) && pixel_cover(
                    pixels_rendered(sprite.grid(), sprite.facing, sprite.flip_v),
                    ox as int,
                    2 * oy,
                    px,
                    py,
                ) is Some {
                    pixel_cover(
                        pixels_rendered(sprite.grid(), sprite.facing, sprite.flip_v),
                        ox as int,
                        2 * oy,
                        px,
                        py,
                    )
                } else {
                    old(self).pix(px, py)
                },
            forall|r: int, k: int|
                0 <= r < pixels_rendered(sprite.grid(), sprite.facing, sprite.flip_v).len() && 0 <= k
                    < pixels_rendered(sprite.grid(), sprite.facing, sprite.flip_v)[r].len()
                    && #[trigger] pixels_rendered(sprite.grid(), sprite.facing, sprite.flip_v)[r][k] is Some
                    && old(self).on_canvas(ox + k, 2 * oy + r) ==> final(self).pix(ox + k, 2 * oy + r)
                    == pixels_rendered(sprite.grid(), sprite.facing, sprite.flip_v)[r][k],
    {
        let rows = sprite.rendered_rows();
        let ghost g = pixels_rendered(sprite.grid(), sprite.facing, sprite.flip_v);
        let ghost start = *self;
        let n = rows.len();
        let mut row: usize = 0;
        while row < n
            invariant
                n == rows@.len(),
                n == g.len(),
                n <= i32::MAX,
                row <= n,
                forall|r: int| 0 <= r < n ==> #[trigger] rows@[r]@ == g[r],
                forall|r: int| 0 <= r < n ==> #[trigger] g[r].len() <= i32::MAX,
                forall|r: int, k: int|
                    0 <= r < n && 0 <= k < g[r].len() && #[trigger] g[r][k] is Some ==> i32::MIN
                        <= 2 * oy && 2 * oy + r <= i32::MAX && ox + k <= i32::MAX,
                self.wf(),
                self.width == start.width,
                self.height == start.height,
                forall|px: int, py: int|
                    #[trigger] self.pix(px, py) == if start.on_canvas(px, py) && pixel_cover(
                        g,
                        ox as int,
                        2 * oy,
                        px,
                        py,
                    ) is Some && py - 2 * oy < row {
                        pixel_cover(g, ox as int, 2 * oy, px, py)
                    } else {
                        start.pix(px, py)
                    },
            decreases n - row,
        {
            let pixels = &rows[row];
            let len = pixels.len();
            let mut col: usize = 0;
            while col < len
                invariant
                    n == rows@.len(),
                    n == g.len(),
                    row < n,
                    n <= i32::MAX,
                    pixels@ == g[row as int],
                    len == pixels@.len(),
                    len <= i32::MAX,
                    col <= len,
                    forall|k: int|
                        0 <= k < len && #[trigger] g[row as int][k] is Some ==> i32::MIN <= 2 * oy
                            && 2 * oy + row <= i32::MAX && ox + k <= i32::MAX,
                    self.wf(),
                    self.width == start.width,
                    self.height == start.height,
                    forall|px: int, py: int|
                        #[trigger] self.pix(px, py) == if start.on_canvas(px, py) && pixel_cover(
                            g,
                            ox as int,
                            2 * oy,
                            px,
                            py,
                        ) is Some && (py - 2 * oy < row || (py - 2 * oy == row && px - ox < col)) {
                            pixel_cover(g, ox as int, 2 * oy, px, py)
                        } else {
                            start.pix(px, py)
                        },
                decreases len - col,
            {
                if let Some(color) = pixels[col] {
                    assert(g[row as int][col as int] == Some(color));
                    let px = ox + col as i32;
                    let top = 2 * oy;
                    let py = top + row as i32;
                    let ghost before = *self;
                    self.set_pixel(px, py, color);
                    assert forall|qx: int, qy: int|
                        #[trigger] self.pix(qx, qy) == if start.on_canvas(qx, qy) && pixel_cover(
                            g,
                            ox as int,
                            2 * oy,
                            qx,
                            qy,
                        ) is Some && (qy - 2 * oy < row || (qy - 2 * oy == row && qx - ox < col
                            + 1)) {
                            pixel_cover(g, ox as int, 2 * oy, qx, qy)
                        } else {
                            start.pix(qx, qy)
                        } by {
                        assert(before.pix(qx, qy) == if start.on_canvas(qx, qy) && pixel_cover(
                            g,
                            ox as int,
                            2 * oy,
                            qx,
                            qy,
                        ) is Some && (qy - 2 * oy < row || (qy - 2 * oy == row && qx - ox < col)) {
                            pixel_cover(g, ox as int, 2 * oy, qx, qy)
                        } else {
                            start.pix(qx, qy)
                        });
                        if qx == px && qy == py {
                            assert(pixel_cover(g, ox as int, 2 * oy, qx, qy) == Some(color));
                        }
                    }
                }
                col = col + 1;
            }
            row = row + 1;
        }
        proof {
            assert forall|r: int, k: int|
                0 <= r < g.len() && 0 <= k < g[r].len() && #[trigger] g[r][k] is Some
                    && start.on_canvas(ox + k, 2 * oy + r) implies self.pix(ox + k, 2 * oy + r) == g[r][k] by {
                law_pixel_cover_reads_the_sprite(g, ox as int, 2 * oy, r, k);
            }
        }
    }

    /// Draw a text sprite whose top-left character sits at cell (ox, oy): every
    /// non-space character fills its whole cell (both halves) with the
    /// sprite's color, white when uncolored. Spaces are transparent;
    /// everything clips to the frame.
    pub fn draw_text_sprite(&mut self, ox: i32, oy: i32, sprite: &Sprite)
        requires
            old(self).wf(),
            sprite.rows@.len() <= i32::MAX,
            forall|r: int|
                0 <= r < sprite.rows@.len() ==> #[trigger] text_rendered(
                    sprite.text(),
                    sprite.facing,
                    sprite.flip_v,
                )[r].len() <= i32::MAX,
            forall|r: int, k: int|
                0 <= r < sprite.rows@.len() && 0 <= k < text_rendered(
                    sprite.text(),
                    sprite.facing,
                    sprite.flip_v,
                )[r].len() && #[trigger] text_rendered(sprite.text(), sprite.facing, sprite.flip_v)[r][k]
                    != ' ' ==> i32::MIN <= 2 * (oy + r) && 2 * (oy + r) + 1 <= i32::MAX && ox + k
                    <= i32::MAX,
        ensures
            final(self).wf(),
            final(self).width == old(self).width,
            final(self).height == old(self).height,
            forall|px: int, py: int|
                #[trigger] final(self).pix(px, py) == if old(self).on_canvas(px, py) && text_cover(
                    text_rendered(sprite.text(), sprite.facing, sprite.flip_v),
                    sprite.style,
                    ox as int,
                    oy as int,
                    px,
                    py / 2,
                ) is Some {
                    Some(fill_color(sprite.style))
                } else {
                    old(self).pix(px, py)
                },
            forall|r: int, k: int|
                0 <= r < text_rendered(sprite.text(), sprite.facing, sprite.flip_v).len() && 0 <= k < text_rendered(sprite.text(), sprite.facing, sprite.flip_v)[r].len()
                    && #[trigger] text_rendered(sprite.text(), sprite.facing, sprite.flip_v)[r][k] != ' ' && old(self).in_bounds(ox + k, oy + r) ==> {
                    let painted = match sprite.style.color {
                        Some(c) => c,
                        None => Color::White,
                    };
                    &&& final(self).pix(ox + k, 2 * (oy + r)) == Some(painted)
                    &&& final(self).pix(ox + k, 2 * (oy + r) + 1) == Some(painted)
                },
    {
        let rows = sprite.rendered_rows();
        let ghost t = text_rendered(sprite.text(), sprite.facing, sprite.flip_v);
        let ghost start = *self;
        let color = match sprite.style.color {
            Some(c) => c,
            None => Color::White,
        };
        let n = rows.len();
        assert(n == t.len());
        let mut dy: usize = 0;
        while dy < n
            invariant
                n == rows@.len(),
                n == t.len(),
                n <= i32::MAX,
                dy <= n,
                color == fill_color(sprite.style),
                forall|r: int| 0 <= r < n ==> #[trigger] rows@[r]@ == t[r],
                forall|r: int| 0 <= r < n ==> #[trigger] t[r].len() <= i32::MAX,
                forall|r: int, k: int|
                    0 <= r < n && 0 <= k < t[r].len() && #[trigger] t[r][k] != ' ' ==> i32::MIN <= 2
                        * (oy + r) && 2 * (oy + r) + 1 <= i32::MAX && ox + k <= i32::MAX,
                self.wf(),
                self.width == start.width,
                self.height == start.height,
                forall|px: int, py: int|
                    #[trigger] self.pix(px, py) == if start.on_canvas(px, py) && text_cover(
                        t,
                        sprite.style,
                        ox as int,
                        oy as int,
                        px,
                        py / 2,
                    ) is Some && py / 2 - oy < dy {
                        Some(color)
                    } else {
                        start.pix(px, py)
                    },
            decreases n - dy,
        {
            let row = rows[dy].as_str();
            let len = row.unicode_len();
            let mut dx: usize = 0;
            while dx < len
                invariant
                    n == rows@.len(),
                    n == t.len(),
                    n <= i32::MAX,
                    dy < n,
                    row@ == t[dy as int],
                    len == row@.len(),
                    len <= i32::MAX,
                    dx <= len,
                    color == fill_color(sprite.style),
                    forall|k: int|
                        0 <= k < len && #[trigger] t[dy as int][k] != ' ' ==> i32::MIN <= 2 * (oy
                            + dy) && 2 * (oy + dy) + 1 <= i32::MAX && ox + k <= i32::MAX,
                    self.wf(),
                    self.width == start.width,
                    self.height == start.height,
                    forall|px: int, py: int|
                        #[trigger] self.pix(px, py) == if start.on_canvas(px, py) && text_cover(
                            t,
                            sprite.style,
                            ox as int,
                            oy as int,
                            px,
                            py / 2,
                        ) is Some && (py / 2 - oy < dy || (py / 2 - oy == dy && px - ox < dx)) {
                            Some(color)
                        } else {
                            start.pix(px, py)
                        },
                decreases len - dx,
            {
                let c = row.get_char(dx);
                assert(t[dy as int][dx as int] == c);
                if c != ' ' {
                    let x = ox + dx as i32;
                    let y = oy + dy as i32;
                    let ty = 2 * y;
                    let ghost before = *self;
                    self.set_pixel(x, ty, color);
                    self.set_pixel(x, ty + 1, color);
                    assert forall|qx: int, qy: int|
                        #[trigger] self.pix(qx, qy) == if start.on_canvas(qx, qy) && text_cover(
                            t,
                            sprite.style,
                            ox as int,
                            oy as int,
                            qx,
                            qy / 2,
                        ) is Some && (qy / 2 - oy < dy || (qy / 2 - oy == dy && qx - ox < dx
                            + 1)) {
                            Some(color)
                        } else {
                            start.pix(qx, qy)
                        } by {
                        assert(before.pix(qx, qy) == if start.on_canvas(qx, qy) && text_cover(
                            t,
                            sprite.style,
                            ox as int,
                            oy as int,
                            qx,
                            qy / 2,
                        ) is Some && (qy / 2 - oy < dy || (qy / 2 - oy == dy && qx - ox < dx))
                        {
                            Some(color)
                        } else {
                            start.pix(qx, qy)
                        });
                        if qx == x && (qy == ty || qy == ty + 1) {
                            assert(qy / 2 == y);
                            assert(text_cover(t, sprite.style, ox as int, oy as int, qx, qy / 2)
                                is Some);
                        }
                        if qx == x && qy / 2 == y && qy >= 0 {
                            assert(qy == ty || qy == ty + 1);
                        }
                    }
                }
                dx = dx + 1;
            }
            dy = dy + 1;
        }
        proof {
            assert forall|r: int, k: int|
                0 <= r < t.len() && 0 <= k < t[r].len() && #[trigger] t[r][k] != ' '
                    && start.in_bounds(ox + k, oy + r) implies self.pix(ox + k, 2 * (oy + r)) == Some(color)
                    && self.pix(ox + k, 2 * (oy + r) + 1) == Some(color) by {
                law_text_cover_reads_the_sprite(t, sprite.style, ox as int, oy as int, r, k);
                assert((2 * (oy + r)) / 2 == oy + r);
                assert((2 * (oy + r) + 1) / 2 == oy + r);
                assert(start.on_canvas(ox + k, 2 * (oy + r)));
                assert(start.on_canvas(ox + k, 2 * (oy + r) + 1));
            }
        }
    }

    /// Cells that differ from `prev`, as (x, y, new_cell), row by row.
    /// Both frames share dimensions.
    pub fn diff(&self, prev: &PixelFrame) -> (out: Vec<(u16, u16, PixelCell)>)
        requires
            self.wf(),
            prev.wf(),
            prev.width == self.width,
            prev.height == self.height,
        ensures
            out@ == changes(
                self.cells_seq(),
                prev.cells_seq(),
                self.width as nat,
                (self.width * self.height) as nat,
            ),
    {
        let mut out: Vec<(u16, u16, PixelCell)> = Vec::new();
        let w = self.width;
        let ghost wi = self.width as int;
        let mut y: u16 = 0;
        while y < self.height
            invariant
                self.wf(),
                prev.wf(),
                prev.width == w,
                prev.height == self.height,
                w == self.width,
                wi == w as int,
                y <= self.height,
                out@ == changes(self.cells_seq(), prev.cells_seq(), w as nat, (y * w) as nat),
            decreases self.height - y,
        {
            let mut x: u16 = 0;
            while x < w
                invariant
                    self.wf(),
                    prev.wf(),
                    prev.width == w,
                    prev.height == self.height,
                    w == self.width,
                    wi == w as int,
                    y < self.height,
                    x <= w,
                    out@ == changes(
                        self.cells_seq(),
                        prev.cells_seq(),
                        w as nat,
                        (y * w + x) as nat,
                    ),
                decreases w - x,
            {
                let i = self.idx(x, y);
                proof {
                    lemma_grid_index_inverse(wi, x as int, y as int);
                }
                let c = self.cells[i];
                if c != prev.cells[i] {
                    out.push((x, y, c));
                }
                x = x + 1;
            }
            proof {
                assert(y * w + w == (y + 1) * w) by (nonlinear_arith);
            }
            y = y + 1;
        }
        assert(self.height * w == w * self.height) by (nonlinear_arith);
        out
    }

    /// Every cell as a change — forces a full repaint (startup / post-resize).
    pub fn full_changes(&self) -> (out: Vec<(u16, u16, PixelCell)>)
        requires
            self.wf(),
        ensures
            out@ == all_cells(self.cells_seq(), self.width as nat, (self.width * self.height) as nat),
    {
        let mut out: Vec<(u16, u16, PixelCell)> = Vec::new();
        let w = self.width;
        let ghost wi = self.width as int;
        let mut y: u16 = 0;
        while y < self.height
            invariant
                self.wf(),
                w == self.width,
                wi == w as int,
                y <= self.height,
                out@ == all_cells(self.cells_seq(), w as nat, (y * w) as nat),
            decreases self.height - y,
        {
            let mut x: u16 = 0;
            while x < w
                invariant
                    self.wf(),
                    w == self.width,
                    wi == w as int,
                    y < self.height,
                    x <= w,
                    out@ == all_cells(self.cells_seq(), w as nat, (y * w + x) as nat),
                decreases w - x,
            {
                let i = self.idx(x, y);
                proof {
                    lemma_grid_index_inverse(wi, x as int, y as int);
                }
                out.push((x, y, self.cells[i]));
                assert(out@ =~= all_cells(self.cells_seq(), w as nat, (y * w + x + 1) as nat));
                x = x + 1;
            }
            proof {
                assert(y * w + w == (y + 1) * w) by (nonlinear_arith);
            }
            y = y + 1;
        }
        assert(self.height * w == w * self.height) by (nonlinear_arith);
        out
    }
}

/// What `PixelFrame::diff` promises of a frame `new` and an earlier frame `prev` of
/// the same size: writing each entry `(x, y, c)` of the diff over `prev`'s
/// cell `(x, y)` gives `new`'s cells; the diff is every cell of `new` (the
/// full change list, row by row) filtered to those that differ from `prev`'s
/// cell at the same place; a frame diffed with itself gives nothing; and the
/// diff is empty exactly when every cell of `new` equals `prev`'s.
pub proof fn law_pixel_frame_diff(new: PixelFrame, prev: PixelFrame)
    requires
        new.wf(),
        prev.wf(),
        prev.width == new.width,
        prev.height == new.height,
    ensures
        apply_changes(
            prev.cells_seq(),
            new.width as nat,
            changes(new.cells_seq(), prev.cells_seq(), new.width as nat, (new.width * new.height) as nat),
        ) == new.cells_seq(),
        changes(new.cells_seq(), prev.cells_seq(), new.width as nat, (new.width * new.height) as nat)
            == all_cells(new.cells_seq(), new.width as nat, (new.width * new.height) as nat).filter(
            differs_from(prev.cells_seq(), new.width as nat),
        ),
        changes(new.cells_seq(), new.cells_seq(), new.width as nat, (new.width * new.height) as nat)
            == Seq::<(u16, u16, PixelCell)>::empty(),
        (changes(new.cells_seq(), prev.cells_seq(), new.width as nat, (new.width * new.height) as nat).len()
            == 0) == (forall|x: int, y: int| new.in_bounds(x, y) ==> #[trigger] new.at(x, y) == prev.at(x, y)),
{
    law_diff_of_grids(new.cells_seq(), prev.cells_seq(), new.width as nat, new.height as nat);
    assert((new.width * new.height) as nat == (new.width as nat) * (new.height as nat));
    let w = new.width as int;
    if forall|x: int, y: int| new.in_bounds(x, y) ==> #[trigger] new.at(x, y) == prev.at(x, y) {
        assert forall|x: int, y: int| 0 <= x < w && 0 <= y < new.height implies
            #[trigger] new.cells_seq()[grid_index(w, x, y)] == prev.cells_seq()[grid_index(w, x, y)] by {
            assert(new.at(x, y) == prev.at(x, y));
        }
    }
    if forall|x: int, y: int| 0 <= x < w && 0 <= y < new.height ==>
        #[trigger] new.cells_seq()[grid_index(w, x, y)] == prev.cells_seq()[grid_index(w, x, y)] {
        assert forall|x: int, y: int| new.in_bounds(x, y) implies #[trigger] new.at(x, y) == prev.at(x, y) by {
            assert(new.cells_seq()[grid_index(w, x, y)] == prev.cells_seq()[grid_index(w, x, y)]);
        }
    }
}

} // verus!

verus! {

#[verifier::external_type_specification]
#[verifier::external_body]
pub struct ExTerminalColor(TerminalColor);

/// The terminal truecolor with channels `r`, `g`, `b`.
pub uninterp spec fn terminal_rgb(r: u8, g: u8, b: u8) -> TerminalColor;

/// `TerminalColor::Rgb { r, g, b }`: the truecolor variant of the
/// terminal color enum. Claimed: the value is the one named
/// `terminal_rgb(r, g, b)`; nothing more is said of its inside.
#[verifier::external_body]
fn rgb_color(r: u8, g: u8, b: u8) -> (c: TerminalColor)
    ensures
        c == terminal_rgb(r, g, b),
{
    TerminalColor::Rgb { r, g, b }
}

/// The terminal color of a packed 0x00RRGGBB pixel.
pub open spec fn terminal_of(px: u32) -> TerminalColor {
    terminal_rgb((px / 0x1_0000) as u8, ((px / 0x100) % 0x100) as u8, (px % 0x100) as u8)
}

/// A palette color as a terminal truecolor: the very color that
/// `raster::rgb` paints in the window.
pub fn to_ct(color: Color) -> (c: TerminalColor)
    ensures
        c == terminal_of(rgb_of(color)),
{
    match color {
        Color::Red => rgb_color(0xD8, 0x4A, 0x4A),
        Color::Yellow => rgb_color(0xF2, 0xC6, 0x41),
        Color::Green => rgb_color(0x4F, 0xCF, 0x6F),
        Color::Cyan => rgb_color(0x49, 0xD0, 0xE0),
        Color::Blue => rgb_color(0x5B, 0x8C, 0xFF),
        Color::White => rgb_color(0xF2, 0xF2, 0xF2),
        Color::Orange => rgb_color(0xE8, 0x90, 0x2F),
        Color::Black => rgb_color(0x14, 0x14, 0x14),
        Color::Grey => rgb_color(0x8A, 0x93, 0xA0),
        Color::Belly => rgb_color(0xC9, 0xD0, 0xD8),
    }
}

/// Water background as a terminal truecolor (matches `raster::BG`).
pub fn water() -> (c: TerminalColor)
    ensures
        c == terminal_of(BG),
{
    rgb_color(0x0A, 0x14, 0x28)
}

/// The terminal color of one half of a pixel cell: its palette color, or
/// water where transparent — the same color the window paints there.
pub fn half_rgb(c: Option<Color>) -> (t: TerminalColor)
    ensures
        t == terminal_of(pixel_rgb(c)),
{
    match c {
        Some(color) => to_ct(color),
        None => water(),
    }
}

} // verus!
