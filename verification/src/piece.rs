//! Piece abstraction. This module does not specify the actual shapes for the pieces or
//! their wall kicks.

use core::ops::Range;
use vstd::prelude::*;
use vstd::std_specs::convert::FromSpecImpl;
use vstd::std_specs::convert::IntoSpec;
use vstd::wrapping::i8_specs::wrapping_add;
use vstd::wrapping::i8_specs::wrapping_sub;

use crate::input::Dir;
use crate::input::Rot;
use crate::input::Turn;
use crate::matrix::COLS;
use crate::matrix::MAX_ROWS;
use crate::matrix::Mat;
use crate::matrix::MatBuf;
use crate::matrix::bit;
use crate::matrix::occupied;
use crate::matrix::place_mask;
use crate::matrix::rows_placed;
use crate::matrix::rows_wf;

verus! {

/// The bits of a 4×4 mask that lie in its first `w` columns.
pub open spec fn col_span(w: u16) -> u16 {
    if w == 1 {
        0x1111
    } else if w == 2 {
        0x3333
    } else if w == 3 {
        0x7777
    } else {
        0xffff
    }
}

/// The bits of a 4×4 mask that lie in its first `h` rows.
pub open spec fn row_span(h: u16) -> u16 {
    if h == 1 {
        0x000f
    } else if h == 2 {
        0x00ff
    } else if h == 3 {
        0x0fff
    } else {
        0xffff
    }
}

/// The number of bits set in `b`.
pub open spec fn popcount(b: u16) -> int {
    (b & 1) + ((b >> 1) & 1) + ((b >> 2) & 1) + ((b >> 3) & 1) + ((b >> 4) & 1) + ((b >> 5) & 1)
        + ((b >> 6) & 1) + ((b >> 7) & 1) + ((b >> 8) & 1) + ((b >> 9) & 1) + ((b >> 10) & 1) + ((b
        >> 11) & 1) + ((b >> 12) & 1) + ((b >> 13) & 1) + ((b >> 14) & 1) + ((b >> 15) & 1)
}

/// The number of bits set among the lowest `n` bits of `b`.
pub open spec fn popcount_upto(b: u16, n: int) -> int
    decreases n,
{
    if n <= 0 {
        0
    } else {
        popcount_upto(b, n - 1) + (if bit(b, n - 1) {
            1int
        } else {
            0int
        })
    }
}

proof fn lemma_popcount_bit(b: u16, k: u16)
    by (bit_vector)
    requires
        k < 16,
    ensures
        (b >> k) & 1 == 0 || (b >> k) & 1 == 1,
{
}

/// The number of bits set in a mask is the number of bits set among all
/// its sixteen bits.
proof fn lemma_popcount_all(b: u16)
    ensures
        popcount_upto(b, 16) == popcount(b),
{
    reveal_with_fuel(popcount_upto, 17);
    lemma_popcount_bit(b, 0);
    lemma_popcount_bit(b, 1);
    lemma_popcount_bit(b, 2);
    lemma_popcount_bit(b, 3);
    lemma_popcount_bit(b, 4);
    lemma_popcount_bit(b, 5);
    lemma_popcount_bit(b, 6);
    lemma_popcount_bit(b, 7);
    lemma_popcount_bit(b, 8);
    lemma_popcount_bit(b, 9);
    lemma_popcount_bit(b, 10);
    lemma_popcount_bit(b, 11);
    lemma_popcount_bit(b, 12);
    lemma_popcount_bit(b, 13);
    lemma_popcount_bit(b, 14);
    lemma_popcount_bit(b, 15);
    assert(b >> 0u16 == b) by (bit_vector);
}

/// Whether `bits` is the mask of a piece whose bounding box is `w` wide and
/// `h` high: four bits are set, none outside the box, and each border row
/// and column of the box holds one.
pub open spec fn mask_fits(w: u16, h: u16, bits: u16) -> bool {
    &&& bits & !(col_span(w) & row_span(h)) == 0
    &&& bits & 0x000f != 0
    &&& bits & 0x1111 != 0
    &&& bits & (0x000fu16 << ((4 * (h - 1)) as u16)) != 0
    &&& bits & (0x1111u16 << ((w - 1) as u16)) != 0
    &&& popcount(bits) == 4
}

/// The mathematical model of [`Cells`]: the bottom-left corner `(x, y)` of
/// the bounding box, its width and height, and the 4×4 mask of the occupied
/// squares, whose bit `4 * j + i` stands for the square `(x + i, y + j)`.
pub struct CellsView {
    pub x: int,
    pub y: int,
    pub w: int,
    pub h: int,
    pub bits: u16,
}

impl CellsView {
    /// Whether the box is `1..=4` wide and high and the mask fits it.
    pub open spec fn wf(self) -> bool {
        &&& i8::MIN <= self.x <= i8::MAX
        &&& i8::MIN <= self.y <= i8::MAX
        &&& 1 <= self.w <= 4
        &&& 1 <= self.h <= 4
        &&& mask_fits(self.w as u16, self.h as u16, self.bits)
    }

    /// Whether the square `(x, y)` is one of the cells.
    pub open spec fn has(self, x: int, y: int) -> bool {
        &&& 0 <= x - self.x < 4
        &&& 0 <= y - self.y < 4
        &&& bit(self.bits, 4 * (y - self.y) + (x - self.x))
    }

    /// The squares that the cells occupy.
    pub open spec fn coords(self) -> Set<(int, int)> {
        Set::new(|c: (int, int)| self.has(c.0, c.1))
    }

    /// The cells moved by `(dx, dy)`, each coordinate wrapping in `i8`.
    pub open spec fn offset(self, dx: i8, dy: i8) -> CellsView {
        CellsView {
            x: wrapping_add(self.x as i8, dx) as int,
            y: wrapping_add(self.y as i8, dy) as int,
            w: self.w,
            h: self.h,
            bits: self.bits,
        }
    }

    /// Whether one of the cells lies outside the walls, below the floor or
    /// on a block of the stack.
    pub open spec fn collides(self, rows: Seq<u16>) -> bool {
        exists|x: int, y: int| self.has(x, y) && occupied(rows, x, y)
    }

    /// Whether the cells cannot move: each of the four unit moves collides.
    pub open spec fn immobile(self, rows: Seq<u16>) -> bool {
        &&& self.offset(0, -1i8).collides(rows)
        &&& self.offset(0, 1).collides(rows)
        &&& self.offset(-1i8, 0).collides(rows)
        &&& self.offset(1, 0).collides(rows)
    }

    /// The cells moved down by `k` rows.
    pub open spec fn lowered(self, k: int) -> CellsView {
        CellsView { x: self.x, y: self.y - k, w: self.w, h: self.h, bits: self.bits }
    }

    /// The distance that cells which have come down `k` rows come down in
    /// all: they go on, row by row, until the next row collides.
    pub open spec fn fall(self, rows: Seq<u16>, k: int) -> int
        decreases self.y - k,
    {
        if self.y - k <= 0 || self.lowered(k + 1).collides(rows) {
            k
        } else {
            self.fall(rows, k + 1)
        }
    }

    /// The distance of a sonic drop. Cells that reach below the floor stay
    /// where they are; cells above the stack first come down to its top.
    pub open spec fn drop_distance(self, rows: Seq<u16>) -> int {
        if self.y < 0 {
            0
        } else if self.y > rows.len() {
            self.fall(rows, self.y - rows.len())
        } else {
            self.fall(rows, 0)
        }
    }

    /// The cells without the rows of the box from row `j` on.
    pub open spec fn upto(self, j: int) -> CellsView {
        CellsView { x: self.x, y: self.y, w: self.w, h: j, bits: self.bits }
    }

    /// The index in the mask of the bit that stands for the square `c`.
    pub open spec fn bit_index(self, c: (i8, i8)) -> int {
        4 * (c.1 - self.y) + (c.0 - self.x)
    }

    /// Cells that collide with nothing lie between the walls and above the
    /// floor.
    pub proof fn lemma_fits_inside(self, rows: Seq<u16>)
        requires
            self.wf(),
            !self.collides(rows),
        ensures
            self.y >= 0,
            self.between_walls(),
    {
        lemma_outside_collides_not(self, rows);
    }

    /// Cells that a sonic drop leaves where they are do not hang above the
    /// stack.
    pub proof fn lemma_resting_low(self, rows: Seq<u16>)
        requires
            self.drop_distance(rows) == 0,
            self.y >= 0,
        ensures
            self.y <= rows.len(),
    {
        if self.y > rows.len() {
            self.lemma_fall_far(rows, self.y - rows.len());
        }
    }

    /// A fall does not end before it begins.
    pub proof fn lemma_fall_far(self, rows: Seq<u16>, k: int)
        ensures
            k <= self.fall(rows, k),
        decreases self.y - k,
    {
        if !(self.y - k <= 0 || self.lowered(k + 1).collides(rows)) {
            self.lemma_fall_far(rows, k + 1);
        }
    }

    /// Cells that fit somewhere fit everywhere above the stack.
    pub proof fn lemma_above_stack(self, rows: Seq<u16>, k: int)
        requires
            self.wf(),
            !self.collides(rows),
            0 <= k <= self.y - rows.len(),
        ensures
            !self.lowered(k).collides(rows),
    {
        let low = self.lowered(k);
        if low.collides(rows) {
            let (x, y) = choose|x: int, y: int| low.has(x, y) && occupied(rows, x, y);
            assert(self.has(x, y + k));
            assert(occupied(rows, x, y + k));
        }
    }

    /// Cells that fit after they have come down `k` rows fit where their
    /// fall ends.
    pub proof fn lemma_fall_fits(self, rows: Seq<u16>, k: int)
        requires
            !self.lowered(k).collides(rows),
            0 <= k,
        ensures
            !self.lowered(self.fall(rows, k)).collides(rows),
            k <= self.fall(rows, k),
            self.fall(rows, k) <= k || self.fall(rows, k) <= self.y,
        decreases self.y - k,
    {
        if !(self.y - k <= 0 || self.lowered(k + 1).collides(rows)) {
            self.lemma_fall_fits(rows, k + 1);
        }
    }

    /// Whether the box lies between the walls.
    pub open spec fn between_walls(self) -> bool {
        0 <= self.x && self.x + self.w <= COLS
    }

    /// Whether row `y0 + k` of the stack exists and meets row `k` of the
    /// mask, shifted to the cells' column.
    pub open spec fn row_hit(self, rows: Seq<u16>, k: int) -> bool {
        &&& 0 <= self.y + k < rows.len()
        &&& rows[self.y + k] & place_mask(self, self.y + k) != 0
    }
}

proof fn lemma_mask_in_box(w: u16, h: u16, bits: u16, i: u16, j: u16)
    by (bit_vector)
    requires
        1 <= w <= 4,
        1 <= h <= 4,
        bits & !(col_span(w) & row_span(h)) == 0,
        i < 4,
        j < 4,
        (bits >> ((4 * j + i) as u16)) & 1 == 1,
    ensures
        i < w,
        j < h,
{
}

proof fn lemma_mask_left(bits: u16)
    by (bit_vector)
    requires
        bits & 0x1111 != 0,
    ensures
        (bits >> 0u16) & 1 == 1 || (bits >> 4u16) & 1 == 1 || (bits >> 8u16) & 1 == 1 || (bits
            >> 12u16) & 1 == 1,
{
}

proof fn lemma_mask_bottom(bits: u16)
    by (bit_vector)
    requires
        bits & 0x000f != 0,
    ensures
        (bits >> 0u16) & 1 == 1 || (bits >> 1u16) & 1 == 1 || (bits >> 2u16) & 1 == 1 || (bits
            >> 3u16) & 1 == 1,
{
}

proof fn lemma_mask_right(w: u16, bits: u16)
    by (bit_vector)
    requires
        1 <= w <= 4,
        bits & (0x1111u16 << ((w - 1) as u16)) != 0,
    ensures
        (bits >> ((w - 1) as u16)) & 1 == 1 || (bits >> ((4 + w - 1) as u16)) & 1 == 1 || (bits >> (
        (8 + w - 1) as u16)) & 1 == 1 || (bits >> ((12 + w - 1) as u16)) & 1 == 1,
{
}

proof fn lemma_row_meets(row: u16, bits: u16, j: u16, s: u16)
    by (bit_vector)
    requires
        j < 4,
        s <= 12,
    ensures
        (row & ((((bits >> ((4 * j) as u16)) & 0xf) << s) as u16) != 0) == (((bits >> ((4 * j) as u16))
            & 1 == 1 && (row >> s) & 1 == 1) || ((bits >> ((4 * j + 1) as u16)) & 1 == 1 && (row >> (
        (s + 1) as u16)) & 1 == 1) || ((bits >> ((4 * j + 2) as u16)) & 1 == 1 && (row >> ((s
            + 2) as u16)) & 1 == 1) || ((bits >> ((4 * j + 3) as u16)) & 1 == 1 && (row >> ((s
            + 3) as u16)) & 1 == 1)),
{
}

/// Cells that reach beyond a wall or below the floor collide.
proof fn lemma_outside_collides(c: CellsView, rows: Seq<u16>)
    requires
        c.wf(),
        c.x < 0 || c.x + c.w > COLS || c.y < 0,
    ensures
        c.collides(rows),
{
    let bits = c.bits;
    if c.x < 0 {
        lemma_mask_left(bits);
        let j = if (bits >> 0u16) & 1 == 1 {
            0int
        } else if (bits >> 4u16) & 1 == 1 {
            1int
        } else if (bits >> 8u16) & 1 == 1 {
            2int
        } else {
            3int
        };
        assert(c.has(c.x, c.y + j));
        assert(occupied(rows, c.x, c.y + j));
    } else if c.y < 0 {
        lemma_mask_bottom(bits);
        let i = if (bits >> 0u16) & 1 == 1 {
            0int
        } else if (bits >> 1u16) & 1 == 1 {
            1int
        } else if (bits >> 2u16) & 1 == 1 {
            2int
        } else {
            3int
        };
        assert(c.has(c.x + i, c.y));
        assert(occupied(rows, c.x + i, c.y));
    } else {
        let w = c.w as u16;
        lemma_mask_right(w, bits);
        let j = if (bits >> ((w - 1) as u16)) & 1 == 1 {
            0int
        } else if (bits >> ((4 + w - 1) as u16)) & 1 == 1 {
            1int
        } else if (bits >> ((8 + w - 1) as u16)) & 1 == 1 {
            2int
        } else {
            3int
        };
        assert(c.has(c.x + c.w - 1, c.y + j));
        assert(occupied(rows, c.x + c.w - 1, c.y + j));
    }
}

/// Cells that collide with nothing lie above the floor.
proof fn lemma_outside_collides_not(c: CellsView, rows: Seq<u16>)
    requires
        c.wf(),
        !c.collides(rows),
    ensures
        c.y >= 0,
        c.between_walls(),
{
    if c.x < 0 || c.x + c.w > COLS || c.y < 0 {
        lemma_outside_collides(c, rows);
    }
}

/// Cells between the walls and above the floor collide exactly where a row
/// of the stack meets the row of the mask that lies on it.
proof fn lemma_inside_collides(c: CellsView, rows: Seq<u16>)
    requires
        c.wf(),
        c.between_walls(),
        c.y >= 0,
    ensures
        c.collides(rows) <==> exists|k: int| 0 <= k < c.h && #[trigger] c.row_hit(rows, k),
{
    if c.collides(rows) {
        let (x, y) = choose|x: int, y: int| c.has(x, y) && occupied(rows, x, y);
        let i = x - c.x;
        let j = y - c.y;
        lemma_mask_in_box(c.w as u16, c.h as u16, c.bits, i as u16, j as u16);
        lemma_row_meets(rows[y], c.bits, j as u16, c.x as u16);
        assert(c.row_hit(rows, j));
    }
    if exists|k: int| 0 <= k < c.h && #[trigger] c.row_hit(rows, k) {
        let k = choose|k: int| 0 <= k < c.h && #[trigger] c.row_hit(rows, k);
        let row = rows[c.y + k];
        lemma_row_meets(row, c.bits, k as u16, c.x as u16);
        let s = c.x as u16;
        let i = if (c.bits >> ((4 * k) as u16)) & 1 == 1 && (row >> s) & 1 == 1 {
            0int
        } else if (c.bits >> ((4 * k + 1) as u16)) & 1 == 1 && (row >> ((s + 1) as u16)) & 1 == 1 {
            1int
        } else if (c.bits >> ((4 * k + 2) as u16)) & 1 == 1 && (row >> ((s + 2) as u16)) & 1 == 1 {
            2int
        } else {
            3int
        };
        lemma_mask_in_box(c.w as u16, c.h as u16, c.bits, i as u16, k as u16);
        assert(c.has(c.x + i, c.y + k));
        assert(occupied(rows, c.x + i, c.y + k));
    }
}

/// Represents the occupied cells of a piece. This data is computed from a [`Shape`] at a
/// specific [`Rot`] and is primarily used to check for collision with a [`Mat`].
#[derive(Copy, Clone, Debug, Eq, PartialEq, Ord, PartialOrd, Hash, Structural)]
pub struct Cells {
    x0: i8,
    x1: i8,
    y0: i8,
    y1: i8,
    bits: u16,
}

impl View for Cells {
    type V = CellsView;

    closed spec fn view(&self) -> CellsView {
        CellsView {
            x: self.x0 as int,
            y: self.y0 as int,
            w: wrapping_sub(self.x1, self.x0) as int,
            h: wrapping_sub(self.y1, self.y0) as int,
            bits: self.bits,
        }
    }
}

impl Cells {
    /// The invariant of every value: see [`CellsView::wf`].
    #[verifier::type_invariant]
    pub open spec fn wf(self) -> bool {
        self@.wf()
    }

    /// Two different values have different models.
    pub proof fn lemma_view_distinct(a: Cells, b: Cells)
        requires
            a != b,
        ensures
            a@ != b@,
    {
    }

    /// The boundary extents are represented by the ranges `xs` and `ys`, and the cell
    /// data is represented by `bits`.
    pub fn new(xs: Range<i8>, ys: Range<i8>, bits: u16) -> (cells: Cells)
        requires
            (CellsView {
                x: xs.start as int,
                y: ys.start as int,
                w: xs.end - xs.start,
                h: ys.end - ys.start,
                bits,
            }).wf(),
        ensures
            cells@ == (CellsView {
                x: xs.start as int,
                y: ys.start as int,
                w: xs.end - xs.start,
                h: ys.end - ys.start,
                bits,
            }),
            cells.wf(),
    {
        Cells { bits, x0: xs.start, x1: xs.end, y0: ys.start, y1: ys.end }
    }

    /// Offset the cells by the given amount.
    pub fn offset(&self, x: i8, y: i8) -> (cells: Cells)
        ensures
            cells@ == self@.offset(x, y),
            cells.wf(),
    {
        proof {
            use_type_invariant(self);
        }
        Cells {
            bits: self.bits,
            x0: self.x0.wrapping_add(x),
            x1: self.x1.wrapping_add(x),
            y0: self.y0.wrapping_add(y),
            y1: self.y1.wrapping_add(y),
        }
    }

    /// Returns the boundary extents of the cells, representing the range of cells taken
    /// up along the x and y axis respectively.
    pub fn extents(&self) -> (r: (Range<i8>, Range<i8>))
        ensures
            self.wf(),
            r.0.start == self@.x,
            r.0.end == wrapping_add(self@.x as i8, self@.w as i8),
            r.1.start == self@.y,
            r.1.end == wrapping_add(self@.y as i8, self@.h as i8),
    {
        proof {
            use_type_invariant(self);
        }
        (self.x0..self.x1, self.y0..self.y1)
    }

    /// The lowest row that the cells reach.
    pub fn bottom(&self) -> (y: i8)
        ensures
            y == self@.y,
            self.wf(),
    {
        proof {
            use_type_invariant(self);
        }
        self.y0
    }

    /// Returns `true` if any of the cells collides with the given matrix.
    pub fn collides(&self, mat: &Mat) -> (hit: bool)
        ensures
            hit == self@.collides(mat@),
    {
        proof {
            use_type_invariant(self);
        }
        if self.x0 < 0 || self.x1 > COLS || self.x1 < self.x0 || self.y0 < 0 {
            proof {
                lemma_outside_collides(self@, mat@);
            }
            return true;
        }
        let h = self.y1.wrapping_sub(self.y0);
        let len = mat.len();
        let n: i8 = if len <= self.y0 {
            0
        } else if len - self.y0 < h {
            len - self.y0
        } else {
            h
        };
        let shift = self.x0 as u16;
        let orig = self.bits;
        let mut bits = orig;
        let mut test: u16 = 0;
        let mut j: i8 = 0;
        assert(orig >> 0u16 == orig) by (bit_vector);
        while j < n
            invariant
                0 <= j <= n <= h <= 4,
                0 <= self.y0,
                n > 0 ==> self.y0 + n <= len,
                n == h || self.y0 + n >= len,
                len == mat@.len(),
                shift == self.x0,
                0 <= shift <= 10,
                h == self@.h,
                self@.y == self.y0,
                self@.x == self.x0,
                self@.bits == self.bits,
                orig == self.bits,
                j < 4 ==> bits == orig >> ((4 * j) as u16),
                (test != 0) <==> exists|k: int| 0 <= k < j && #[trigger] self@.row_hit(mat@, k),
            decreases n - j,
        {
            let mask = (bits & 0b1111) << shift;
            let row = mat.get_unchecked(self.y0 + j);
            let ghost prev = test;
            test |= row & mask;
            assert(((prev | (row & mask)) != 0) == (prev != 0 || (row & mask) != 0)) by (bit_vector);
            assert((row & mask != 0) == self@.row_hit(mat@, j as int));
            bits >>= 4;
            assert(j < 3 ==> (orig >> ((4 * j) as u16)) >> 4 == orig >> ((4 * (j + 1)) as u16))
                by (bit_vector)
                requires
                    0 <= j < 4,
            ;
            j += 1;
        }
        proof {
            lemma_inside_collides(self@, mat@);
            assert forall|k: int| 0 <= k < h && #[trigger] self@.row_hit(mat@, k) implies k < n by {}
        }
        test != 0
    }

    /// Returns `true` if the cells are immobile.
    pub fn immobile(&self, mat: &Mat) -> (stuck: bool)
        ensures
            stuck == self@.immobile(mat@),
    {
        self.offset(0, -1).collides(mat) && self.offset(0, 1).collides(mat) && self.offset(
            -1,
            0,
        ).collides(mat) && self.offset(1, 0).collides(mat)
    }

    /// Returns the list of coordinates occupied by the cells, in the order
    /// of their bits in the mask. The cells must not reach beyond the
    /// greatest `i8`.
    pub fn coords(&self) -> (v: Vec<(i8, i8)>)
        requires
            self@.x + self@.w <= 128,
            self@.y + self@.h <= 128,
        ensures
            v.len() == 4,
            forall|k: int| 0 <= k < v.len() ==> self@.has(#[trigger] v[k].0 as int, v[k].1 as int),
            forall|x: int, y: int|
                self@.has(x, y) ==> exists|k: int|
                    0 <= k < v.len() && #[trigger] v[k] == (x as i8, y as i8),
            forall|k: int, l: int|
                0 <= k < l < v.len() ==> self@.bit_index(#[trigger] v[k]) < self@.bit_index(
                    #[trigger] v[l],
                ),
    {
        proof {
            use_type_invariant(self);
        }
        let x0 = self.x0;
        let y0 = self.y0;
        let bits = self.bits;
        let w = self.x1.wrapping_sub(self.x0);
        let h = self.y1.wrapping_sub(self.y0);
        let mut v: Vec<(i8, i8)> = Vec::new();
        let mut i: i8 = 0;
        while i < 16
            invariant
                0 <= i <= 16,
                self.wf(),
                x0 == self@.x,
                y0 == self@.y,
                bits == self@.bits,
                w == self@.w,
                h == self@.h,
                x0 + w <= 128,
                y0 + h <= 128,
                v.len() == popcount_upto(bits, i as int),
                forall|k: int|
                    0 <= k < v.len() ==> self@.has(#[trigger] v[k].0 as int, v[k].1 as int)
                        && self@.bit_index(v[k]) < i,
                forall|x: int, y: int|
                    self@.has(x, y) && 4 * (y - y0) + (x - x0) < i ==> exists|k: int|
                        0 <= k < v.len() && #[trigger] v[k] == (x as i8, y as i8),
                forall|k: int, l: int|
                    0 <= k < l < v.len() ==> self@.bit_index(#[trigger] v[k]) < self@.bit_index(
                        #[trigger] v[l],
                    ),
            decreases 16 - i,
        {
            let ghost prev = v@;
            if (bits >> (i as u16)) & 1 != 0 {
                let dx = i % 4;
                let dy = i / 4;
                proof {
                    assert(((bits >> (i as u16)) & 1 != 0) == ((bits >> (i as u16)) & 1 == 1))
                        by (bit_vector);
                    lemma_mask_in_box(w as u16, h as u16, bits, dx as u16, dy as u16);
                }
                v.push((x0 + dx, y0 + dy));
                assert(self@.has((x0 + dx) as int, (y0 + dy) as int));
                assert forall|x: int, y: int|
                    self@.has(x, y) && 4 * (y - y0) + (x - x0) < i + 1 implies exists|k: int|
                    0 <= k < v.len() && #[trigger] v[k] == (x as i8, y as i8) by {
                    if 4 * (y - y0) + (x - x0) < i {
                        let k = choose|k: int| 0 <= k < prev.len() && #[trigger] prev[k] == (x as i8, y as i8);
                        assert(v[k] == (x as i8, y as i8));
                    } else {
                        assert(v[v.len() - 1] == (x as i8, y as i8));
                    }
                }
            } else {
                assert(((bits >> (i as u16)) & 1 != 0) == ((bits >> (i as u16)) & 1 == 1))
                    by (bit_vector);
            }
            i += 1;
        }
        proof {
            lemma_popcount_all(bits);
        }
        v
    }

    /// Places the cells onto the matrix by filling in the occupied coordinates.
    /// The box must begin at one of the sixteen bits of a row and end within
    /// the rows that a matrix can hold; what reaches beyond the right wall
    /// falls on bits that are set in every row, or is lost.
    pub fn place(&self, mat: &mut MatBuf)
        requires
            0 <= self@.x < 16,
            self@.y + self@.h <= MAX_ROWS,
        ensures
            final(mat)@ == rows_placed(old(mat)@, self@),
            final(mat).wf(),
    {
        proof {
            use_type_invariant(self);
            use_type_invariant(&*mat);
        }
        let h = self.y1.wrapping_sub(self.y0);
        let shift = self.x0 as u16;
        let orig = self.bits;
        let mut bits = orig;
        let mut j: i8 = 0;
        assert(orig >> 0u16 == orig) by (bit_vector);
        while j < h
            invariant
                0 <= j <= h <= 4,
                self.wf(),
                h == self@.h,
                shift == self@.x,
                0 <= shift < 16,
                self.y0 == self@.y,
                self.y0 + h <= MAX_ROWS,
                orig == self@.bits,
                j < 4 ==> bits == orig >> ((4 * j) as u16),
                rows_wf(old(mat)@),
                j == 0 ==> mat@ == old(mat)@,
                j > 0 ==> mat@ == rows_placed(old(mat)@, self@.upto(j as int)),
            decreases h - j,
        {
            let mask = (bits & 0b1111) << shift;
            let y = self.y0 + j;
            mat.set(y, mask);
            proof {
                let before = old(mat)@;
                let next = rows_placed(before, self@.upto(j + 1));
                assert(mask == place_mask(self@.upto(j + 1), y as int));
                assert forall|r: u16| r | 0 == r by {
                    assert(r | 0 == r) by (bit_vector);
                }
                assert(mat@.len() == next.len());
                assert forall|i: int| 0 <= i < next.len() implies mat@[i] == next[i] by {
                    if j > 0 {
                        assert(place_mask(self@.upto(j as int), i) == if i == y {
                            0
                        } else {
                            place_mask(self@.upto(j + 1), i)
                        });
                    }
                }
                assert(mat@ =~= next);
            }
            bits >>= 4;
            assert(j < 3 ==> (orig >> ((4 * j) as u16)) >> 4 == orig >> ((4 * (j + 1)) as u16))
                by (bit_vector)
                requires
                    0 <= j < 4,
            ;
            j += 1;
        }
        proof {
            use_type_invariant(&*mat);
            assert(self@.upto(h as int) == self@);
        }
    }
}

/// Represents the position of a shape. This includes the rotation state.
#[derive(Copy, Clone, Debug, Eq, PartialEq, Ord, PartialOrd, Hash, Structural)]
pub struct Pos {
    pub x: i8,
    pub y: i8,
    pub r: Rot,
}

impl From<(i8, i8)> for Pos {
    fn from(xy: (i8, i8)) -> (pos: Pos) {
        Pos { x: xy.0, y: xy.1, r: Rot::N }
    }
}

impl FromSpecImpl<(i8, i8)> for Pos {
    open spec fn obeys_from_spec() -> bool {
        true
    }

    open spec fn from_spec(xy: (i8, i8)) -> Pos {
        Pos { x: xy.0, y: xy.1, r: Rot::N }
    }
}

impl From<(i8, i8, Rot)> for Pos {
    fn from(xyr: (i8, i8, Rot)) -> (pos: Pos) {
        Pos { x: xyr.0, y: xyr.1, r: xyr.2 }
    }
}

impl FromSpecImpl<(i8, i8, Rot)> for Pos {
    open spec fn obeys_from_spec() -> bool {
        true
    }

    open spec fn from_spec(xyr: (i8, i8, Rot)) -> Pos {
        Pos { x: xyr.0, y: xyr.1, r: xyr.2 }
    }
}

/// Interface for pieces that can be spawned.
pub trait Spawn {
    /// The column and row at which the piece appears.
    spec fn spec_spawn(&self) -> (i8, i8);

    fn spawn(&self) -> (xy: (i8, i8))
        ensures
            xy == self.spec_spawn(),
    ;
}

/// Interface for pieces that have a list of wall kicks.
pub trait WallKicks {
    /// The offsets to try, in order, when the piece turns by `dr` from the
    /// rotation state `r`.
    spec fn spec_wall_kicks(&self, r: Rot, dr: Turn) -> Seq<(i8, i8)>;

    fn wall_kicks(&self, r: Rot, dr: Turn) -> (kicks: &'static [(i8, i8)])
        ensures
            kicks@ == self.spec_wall_kicks(r, dr),
    ;
}

/// Interface for pieces that have [`Cells`] representations of their shape.
pub trait Shape {
    /// The cells of the shape in the rotation state `r`, around the origin.
    spec fn spec_cells(&self, r: Rot) -> CellsView;

    fn cells(&self, r: Rot) -> (cells: Cells)
        ensures
            cells@ == self.spec_cells(r),
    ;
}

/// Represents the state of a piece (its shape and position).
#[derive(Copy, Clone, Debug, Eq, PartialEq, Ord, PartialOrd, Hash)]
pub struct Piece<T> {
    pub shape: T,
    pub pos: Pos,
}

impl<T> Piece<T> {
    /// The shape at the position that `pos` stands for.
    pub fn new<P: Into<Pos>>(shape: T, pos: P) -> (piece: Self)
        ensures
            piece.shape == shape,
            P::obeys_into_spec() ==> piece.pos == pos.into_spec(),
    {
        Self { shape, pos: pos.into() }
    }

    /// The same shape at another position.
    pub open spec fn at(self, pos: Pos) -> Self {
        Piece { shape: self.shape, pos }
    }

    /// The shape at a position.
    pub open spec fn spawn_at(shape: T, pos: Pos) -> Self {
        Piece { shape, pos }
    }

    /// The piece moved by `(dx, dy)`, each coordinate wrapping in `i8`, and
    /// turned to `r`.
    pub open spec fn moved(self, dx: i8, dy: i8, r: Rot) -> Self {
        self.at(Pos { x: wrapping_add(self.pos.x, dx), y: wrapping_add(self.pos.y, dy), r })
    }
}

impl<T: Spawn> Piece<T> {
    /// The piece where it appears, in the initial orientation.
    pub open spec fn spec_spawn(shape: T) -> Self {
        Piece { shape, pos: Pos { x: shape.spec_spawn().0, y: shape.spec_spawn().1, r: Rot::N } }
    }

    /// The piece where it appears, in the initial orientation.
    pub fn spawn(shape: T) -> (piece: Self)
        ensures
            piece == Self::spec_spawn(shape),
    {
        let xy = shape.spawn();
        Self { shape, pos: Pos { x: xy.0, y: xy.1, r: Rot::N } }
    }
}

impl<T: Shape> Piece<T> {
    /// The cells that the piece occupies.
    pub open spec fn spec_cells(self) -> CellsView {
        self.shape.spec_cells(self.pos.r).offset(self.pos.x, self.pos.y)
    }

    /// Whether the piece collides with nothing.
    pub open spec fn fits(self, rows: Seq<u16>) -> bool {
        !self.spec_cells().collides(rows)
    }

    /// The piece after a shift by one column, if it fits there.
    pub open spec fn shifted(self, rows: Seq<u16>, dir: Dir) -> Option<Self> {
        let p = self.moved(dir.dx() as i8, 0, self.pos.r);
        if p.fits(rows) {
            Some(p)
        } else {
            None
        }
    }

    /// The piece turned to `r` and moved by the first of the kicks from
    /// index `from` on with which it fits, if there is one.
    pub open spec fn first_kick(self, rows: Seq<u16>, kicks: Seq<(i8, i8)>, r: Rot, from: int) -> Option<Self>
        decreases kicks.len() - from,
    {
        if from < 0 || from >= kicks.len() {
            None
        } else {
            let p = self.moved(kicks[from].0, kicks[from].1, r);
            if p.fits(rows) {
                Some(p)
            } else {
                self.first_kick(rows, kicks, r, from + 1)
            }
        }
    }

    /// The distance that a sonic drop takes the piece down.
    pub open spec fn drop_distance(self, rows: Seq<u16>) -> int {
        self.spec_cells().drop_distance(rows)
    }

    /// The piece after a sonic drop.
    pub open spec fn dropped(self, rows: Seq<u16>) -> Self {
        self.moved(0, (-self.drop_distance(rows)) as i8, self.pos.r)
    }

    /// A piece that fits still fits after a sonic drop.
    pub proof fn lemma_dropped_fits(self, rows: Seq<u16>)
        requires
            self.fits(rows),
            self.spec_cells().wf(),
        ensures
            self.dropped(rows).fits(rows),
    {
        let cells = self.spec_cells();
        lemma_outside_collides_not(cells, rows);
        if cells.y > rows.len() {
            cells.lemma_above_stack(rows, cells.y - rows.len());
            cells.lemma_fall_fits(rows, cells.y - rows.len());
        } else {
            assert(cells.lowered(0) == cells);
            cells.lemma_fall_fits(rows, 0);
        }
        let k = cells.drop_distance(rows);
        assert(self.dropped(rows).spec_cells() == cells.lowered(k));
    }

    /// Get the cells occupied by the piece.
    pub fn cells(&self) -> (cells: Cells)
        ensures
            cells@ == self.spec_cells(),
    {
        self.shape.cells(self.pos.r).offset(self.pos.x, self.pos.y)
    }

    /// Try to move in the given direction. If there is no collision, returns
    /// `Some(final_cells)` and shifts the piece. If there is a collision, returns `None`
    /// and leaves the piece unmodified.
    pub fn try_shift(&mut self, mat: &Mat, dx: Dir) -> (moved: Option<Cells>)
        ensures
            match moved {
                Some(cells) => {
                    &&& old(self).shifted(mat@, dx) == Some(*final(self))
                    &&& cells@ == final(self).spec_cells()
                    &&& final(self).fits(mat@)
                },
                None => old(self).shifted(mat@, dx).is_none() && *final(self) == *old(self),
            },
    {
        let r = self.pos.r;
        let x = self.pos.x.wrapping_add(i8::from(dx));
        let y = self.pos.y;
        let cells = self.shape.cells(r).offset(x, y);
        if !cells.collides(mat) {
            self.pos.x = x;
            return Some(cells);
        }
        None
    }

    /// Sonic drop the piece so that it touches the stack. Returns the vertical distance
    /// fell, and the final cells. If the distance is zero then the piece is already on
    /// the stack.
    pub fn sonic_drop(&mut self, mat: &Mat) -> (fell: (i8, Cells))
        ensures
            fell.0 == old(self).drop_distance(mat@),
            *final(self) == old(self).dropped(mat@),
            fell.1@ == final(self).spec_cells(),
    {
        let cells = self.cells();
        let y0 = cells.bottom();
        if y0 < 0 {
            return (0, cells);
        }
        let mut dy: i8 = 0;
        // immediately drop to the top of the matrix if the piece is above it
        let y_top = mat.len();
        if y0 > y_top {
            dy = y_top - y0;
        }
        loop
            invariant
                cells.wf(),
                cells@ == old(self).spec_cells(),
                *self == *old(self),
                y0 == cells@.y,
                -y0 <= dy <= 0,
                cells@.drop_distance(mat@) == cells@.fall(mat@, -dy as int),
            ensures
                -y0 <= dy <= 0,
                cells@.drop_distance(mat@) == -dy,
            decreases y0 + dy,
        {
            let next = cells.offset(0, dy - 1);
            assert(next@ == cells@.lowered(-dy + 1));
            if next.collides(mat) {
                break;
            }
            proof {
                if y0 + dy <= 0 {
                    lemma_outside_collides(next@, mat@);
                }
            }
            dy -= 1;
        }
        self.pos.y = self.pos.y.wrapping_add(dy);
        (-dy, cells.offset(0, dy))
    }
}

impl<T: Shape + WallKicks> Piece<T> {
    /// The piece after a turn, if it fits with one of the wall kicks.
    pub open spec fn rotated(self, rows: Seq<u16>, turn: Turn) -> Option<Self> {
        self.first_kick(
            rows,
            self.shape.spec_wall_kicks(self.pos.r, turn),
            self.pos.r.turned(turn),
            0,
        )
    }

    /// Try to rotate in the given direction. If there is no collision (applying the wall
    /// kicks), returns `Some(final_cells)` and rotates the piece. If there is a
    /// collision, returns `None` and leaves the piece unmodified.
    pub fn try_rotate(&mut self, mat: &Mat, dr: Turn) -> (turned: Option<Cells>)
        ensures
            match turned {
                Some(cells) => {
                    &&& old(self).rotated(mat@, dr) == Some(*final(self))
                    &&& cells@ == final(self).spec_cells()
                    &&& final(self).fits(mat@)
                },
                None => old(self).rotated(mat@, dr).is_none() && *final(self) == *old(self),
            },
    {
        let r0 = self.pos.r;
        let r = r0 + dr;
        let x = self.pos.x;
        let y = self.pos.y;
        let cells = self.shape.cells(r).offset(x, y);
        let kicks = self.shape.wall_kicks(r0, dr);
        let mut i: usize = 0;
        while i < kicks.len()
            invariant
                0 <= i <= kicks.len(),
                *self == *old(self),
                r == r0.turned(dr),
                r0 == self.pos.r,
                x == self.pos.x,
                y == self.pos.y,
                kicks@ == self.shape.spec_wall_kicks(r0, dr),
                cells@ == self.shape.spec_cells(r).offset(x, y),
                self.rotated(mat@, dr) == self.first_kick(mat@, kicks@, r, i as int),
            decreases kicks.len() - i,
        {
            let (dx, dy) = kicks[i];
            let cells = cells.offset(dx, dy);
            assert(cells@ == self.moved(dx, dy, r).spec_cells());
            if !cells.collides(mat) {
                self.pos.x = x.wrapping_add(dx);
                self.pos.y = y.wrapping_add(dy);
                self.pos.r = r;
                return Some(cells);
            }
            i += 1;
        }
        None
    }
}

} // verus!
