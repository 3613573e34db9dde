//! Matrix data structure.
//!
//! A matrix is a stack of rows, one `u16` per row. The low [`COLS`] bits of a
//! row are the play field, one bit per column; the bits above them are always
//! set, so that a shifted piece mask that leaves the field to the right meets
//! a set bit.

use vstd::prelude::*;

use crate::piece::Cells;
use crate::piece::CellsView;

verus! {

/// Number of columns of the play field.
pub const COLS: i8 = 10;

/// A row with every bit set: a full line, and the floor.
pub const FULL: u16 = 0xffff;

/// A row with no block in the play field: only the bits above the field are set.
pub const EMPTY: u16 = 0xfc00;

/// The greatest number of rows a matrix can hold; it fits the `i8` that
/// [`Mat::len`] returns.
pub const MAX_ROWS: usize = 127;

/// Whether bit `i` of `row` is set.
pub open spec fn bit(row: u16, i: int) -> bool {
    0 <= i < 16 && (row >> (i as u16)) & 1 == 1
}

/// Whether `row` has all the bits above the play field set.
pub open spec fn has_sentinel(row: u16) -> bool {
    row & EMPTY == EMPTY
}

/// The invariant of stored rows: there are at most [`MAX_ROWS`] of them and
/// each has the bits above the play field set.
pub open spec fn rows_wf(rows: Seq<u16>) -> bool {
    &&& rows.len() <= MAX_ROWS
    &&& forall|y: int| 0 <= y < rows.len() ==> has_sentinel(#[trigger] rows[y])
}

/// The row at height `y`: the floor below the stack is full, the space above
/// the stack is empty.
pub open spec fn row_at(rows: Seq<u16>, y: int) -> u16 {
    if y < 0 {
        FULL
    } else if y >= rows.len() {
        EMPTY
    } else {
        rows[y]
    }
}

/// Whether a piece cannot occupy the square `(x, y)`: it lies outside the
/// walls, below the floor, or on a block of the stack.
pub open spec fn occupied(rows: Seq<u16>, x: int, y: int) -> bool {
    x < 0 || x >= COLS || y < 0 || (y < rows.len() && bit(rows[y], x))
}

/// `rows`, extended with empty rows to at least `n` rows.
pub open spec fn extended(rows: Seq<u16>, n: int) -> Seq<u16> {
    if n <= rows.len() {
        rows
    } else {
        rows + Seq::new((n - rows.len()) as nat, |i: int| EMPTY)
    }
}

/// The rows after `bits` have been or-ed into row `y`.
pub open spec fn rows_set(rows: Seq<u16>, y: int, bits: u16) -> Seq<u16> {
    if y < 0 {
        rows
    } else {
        let ext = extended(rows, y + 1);
        ext.update(y, ext[y] | bits)
    }
}

/// The predicate that tells the rows a line clear keeps.
pub open spec fn not_full() -> spec_fn(u16) -> bool {
    |row: u16| row != FULL
}

/// The first row that a line clear from `y_start` looks at.
pub open spec fn clear_start(rows: Seq<u16>, y_start: int) -> int {
    if y_start < 0 {
        0
    } else if y_start > rows.len() {
        rows.len() as int
    } else {
        y_start
    }
}

/// The rows after the full rows at or above `y_start` have been removed.
pub open spec fn rows_cleared(rows: Seq<u16>, y_start: int) -> Seq<u16> {
    let s = clear_start(rows, y_start);
    rows.subrange(0, s) + rows.subrange(s, rows.len() as int).filter(not_full())
}

/// A line clear leaves no more rows than there were, and none without the
/// bits above the play field.
pub proof fn lemma_cleared_wf(rows: Seq<u16>, y_start: int)
    requires
        rows_wf(rows),
    ensures
        rows_cleared(rows, y_start).len() <= rows.len(),
        rows_wf(rows_cleared(rows, y_start)),
{
    let s = clear_start(rows, y_start);
    let upper = rows.subrange(s, rows.len() as int);
    let kept = upper.filter(not_full());
    upper.lemma_filter_len(not_full());
    let after = rows_cleared(rows, y_start);
    assert forall|y: int| 0 <= y < after.len() implies has_sentinel(#[trigger] after[y]) by {
        if y >= s {
            upper.lemma_filter_contains_rev(not_full(), kept[y - s]);
            let i = choose|i: int| 0 <= i < upper.len() && upper[i] == kept[y - s];
            assert(upper[i] == rows[s + i]);
        }
    }
}

/// Whether no stored row is empty.
pub open spec fn dense(rows: Seq<u16>) -> bool {
    forall|y: int| 0 <= y < rows.len() ==> #[trigger] rows[y] != EMPTY
}

/// A matrix without an empty row has none after a line clear: its top row,
/// if it has a row at all, is not empty.
pub proof fn lemma_cleared_dense(rows: Seq<u16>, y_start: int)
    requires
        dense(rows),
    ensures
        dense(rows_cleared(rows, y_start)),
        rows_cleared(rows, y_start).len() > 0 ==> rows_cleared(rows, y_start).last() != EMPTY,
{
    let s = clear_start(rows, y_start);
    let upper = rows.subrange(s, rows.len() as int);
    let kept = upper.filter(not_full());
    let after = rows_cleared(rows, y_start);
    assert forall|y: int| 0 <= y < after.len() implies #[trigger] after[y] != EMPTY by {
        if y >= s {
            upper.lemma_filter_contains_rev(not_full(), kept[y - s]);
            let i = choose|i: int| 0 <= i < upper.len() && upper[i] == kept[y - s];
            assert(upper[i] == rows[s + i]);
        }
    }
}

/// The mask that row `y` of the field receives from `cells`.
pub open spec fn place_mask(cells: CellsView, y: int) -> u16 {
    if cells.y <= y < cells.y + cells.h {
        (((cells.bits >> ((4 * (y - cells.y)) as u16)) & 0xf) << (cells.x as u16)) as u16
    } else {
        0
    }
}

/// The rows after `cells` have been placed: every row that the cells span
/// exists, and has the cells' mask or-ed in.
pub open spec fn rows_placed(rows: Seq<u16>, cells: CellsView) -> Seq<u16> {
    let top = cells.y + cells.h;
    let n = if top > rows.len() {
        top
    } else {
        rows.len() as int
    };
    Seq::new(n as nat, |y: int| row_at(rows, y) | place_mask(cells, y))
}

/// Immutable view of a matrix: a borrowed slice of rows.
#[derive(Copy, Clone, Debug)]
pub struct Mat<'a> {
    rows: &'a [u16],
}

impl<'a> View for Mat<'a> {
    type V = Seq<u16>;

    closed spec fn view(&self) -> Seq<u16> {
        self.rows@
    }
}

impl<'a> Mat<'a> {
    /// The invariant of every matrix.
    #[verifier::type_invariant]
    pub open spec fn wf(self) -> bool {
        rows_wf(self@)
    }

    /// The matrix without rows.
    pub fn empty() -> (mat: Mat<'static>)
        ensures
            mat@ == Seq::<u16>::empty(),
            mat.wf(),
    {
        Mat { rows: &[] }
    }

    /// Views `slice` as a matrix.
    pub fn new(slice: &'a [u16]) -> (mat: Mat<'a>)
        requires
            rows_wf(slice@),
        ensures
            mat@ == slice@,
            mat.wf(),
    {
        Mat { rows: slice }
    }

    /// The stored rows, bottom row first.
    pub fn rows(&self) -> (rows: &'a [u16])
        ensures
            rows@ == self@,
            rows_wf(rows@),
    {
        proof {
            use_type_invariant(self);
        }
        self.rows
    }

    /// The number of columns.
    pub fn cols(&self) -> (cols: i8)
        ensures
            cols == COLS,
    {
        COLS
    }

    /// The number of stored rows.
    pub fn len(&self) -> (len: i8)
        ensures
            len == self@.len(),
            self.wf(),
    {
        proof {
            use_type_invariant(self);
        }
        self.rows.len() as i8
    }

    /// The stored row `y`.
    pub fn get_unchecked(&self, y: i8) -> (row: u16)
        requires
            0 <= y < self@.len(),
        ensures
            row == self@[y as int],
            has_sentinel(row),
    {
        proof {
            use_type_invariant(self);
        }
        self.rows[y as usize]
    }

    /// The row at height `y`; full below the floor, empty above the stack.
    pub fn get(&self, y: i8) -> (row: u16)
        ensures
            row == row_at(self@, y as int),
            has_sentinel(row),
    {
        proof {
            use_type_invariant(self);
            assert(has_sentinel(FULL) && has_sentinel(EMPTY)) by (bit_vector);
        }
        if y < 0 {
            FULL
        } else if (y as usize) < self.rows.len() {
            self.rows[y as usize]
        } else {
            EMPTY
        }
    }
}

/// Mutable matrix, can add rows and set bits on existing rows.
#[derive(Debug)]
pub struct MatBuf {
    rows: Vec<u16>,
}

impl View for MatBuf {
    type V = Seq<u16>;

    closed spec fn view(&self) -> Seq<u16> {
        self.rows@
    }
}

impl MatBuf {
    /// The invariant of every matrix.
    #[verifier::type_invariant]
    pub open spec fn wf(self) -> bool {
        rows_wf(self@)
    }

    /// Allocate a new mutable matrix, initially empty.
    pub fn new() -> (mat: MatBuf)
        ensures
            mat@ == Seq::<u16>::empty(),
            mat.wf(),
    {
        MatBuf { rows: Vec::with_capacity(20) }
    }

    /// The immutable view of this matrix.
    pub fn as_mat(&self) -> (mat: Mat<'_>)
        ensures
            mat@ == self@,
            mat.wf(),
    {
        proof {
            use_type_invariant(self);
        }
        Mat { rows: self.rows.as_slice() }
    }

    /// The stored rows, bottom row first.
    pub fn rows(&self) -> (rows: &[u16])
        ensures
            rows@ == self@,
            rows_wf(rows@),
    {
        proof {
            use_type_invariant(self);
        }
        self.rows.as_slice()
    }

    /// The number of columns.
    pub fn cols(&self) -> (cols: i8)
        ensures
            cols == COLS,
    {
        COLS
    }

    /// The number of stored rows.
    pub fn len(&self) -> (len: i8)
        ensures
            len == self@.len(),
            self.wf(),
    {
        proof {
            use_type_invariant(self);
        }
        self.rows.len() as i8
    }

    /// The row at height `y`; full below the floor, empty above the stack.
    pub fn get(&self, y: i8) -> (row: u16)
        ensures
            row == row_at(self@, y as int),
            has_sentinel(row),
    {
        self.as_mat().get(y)
    }

    /// Moves the rows out of the matrix, which is left empty.
    fn take_rows(&mut self) -> (rows: Vec<u16>)
        ensures
            rows@ == old(self)@,
            rows_wf(rows@),
            final(self)@ == Seq::<u16>::empty(),
    {
        proof {
            use_type_invariant(&*self);
        }
        let mut rows: Vec<u16> = Vec::new();
        core::mem::swap(&mut rows, &mut self.rows);
        rows
    }

    /// Clear the matrix so that it is empty again.
    pub fn clear(&mut self)
        ensures
            final(self)@ == Seq::<u16>::empty(),
            final(self).wf(),
    {
        self.rows = Vec::new();
    }

    /// Set this matrix to be identical to the given matrix.
    pub fn copy_from(&mut self, mat: &Mat)
        ensures
            final(self)@ == mat@,
            final(self).wf(),
    {
        let src = mat.rows();
        let mut rows = self.take_rows();
        rows.clear();
        rows.extend_from_slice(src);
        assert(rows@ =~= src@);
        self.rows = rows;
    }

    /// Set the column bits for the given row: `bits` are or-ed into row `y`,
    /// after the matrix has been extended with empty rows up to it. A
    /// negative `y` changes nothing.
    pub fn set(&mut self, y: i8, bits: u16)
        requires
            y < MAX_ROWS,
        ensures
            final(self)@ == rows_set(old(self)@, y as int, bits),
            final(self).wf(),
    {
        let mut rows = self.take_rows();
        if y >= 0 {
            let i = y as usize;
            if rows.len() <= i {
                rows.resize(i + 1, EMPTY);
            }
            assert(rows@ =~= extended(old(self)@, y + 1));
            let row = rows[i];
            assert(has_sentinel(row)) by {
                assert(has_sentinel(EMPTY)) by (bit_vector);
            }
            assert(has_sentinel(row | bits)) by (bit_vector)
                requires
                    has_sentinel(row),
            ;
            rows.set(i, row | bits);
        }
        self.rows = rows;
    }

    /// Places the cells onto the matrix by filling in the occupied coordinates.
    /// The box must begin at one of the sixteen bits of a row and end within
    /// the rows that a matrix can hold.
    pub fn place(&mut self, cells: Cells)
        requires
            0 <= cells@.x < 16,
            cells@.y + cells@.h <= MAX_ROWS,
        ensures
            final(self)@ == rows_placed(old(self)@, cells@),
            final(self).wf(),
    {
        cells.place(self)
    }

    /// Remove the rows that are full at or above row `y_start`, moving any
    /// rows above them into their place. Returns the number of rows removed.
    pub fn clear_lines(&mut self, y_start: i8) -> (cleared: u8)
        ensures
            final(self)@ == rows_cleared(old(self)@, y_start as int),
            cleared == old(self)@.len() - final(self)@.len(),
            final(self).wf(),
            dense(old(self)@) ==> dense(final(self)@),
    {
        proof {
            if dense(self@) {
                lemma_cleared_dense(self@, y_start as int);
            }
        }
        let mut rows = self.take_rows();
        let y_end = rows.len();
        let start: usize = if y_start < 0 {
            0
        } else if y_start as usize > y_end {
            y_end
        } else {
            y_start as usize
        };
        let ghost before = rows@;
        let mut y_to = start;
        let mut y = start;
        proof {
            reveal_with_fuel(Seq::filter, 1);
            assert(before.subrange(start as int, y as int).filter(not_full()) =~= Seq::<u16>::empty());
        }
        while y < y_end
            invariant
                start <= y_to <= y <= y_end,
                y_end == before.len(),
                y_end <= MAX_ROWS,
                rows@.len() == y_end,
                rows_wf(before),
                rows_wf(rows@),
                rows@.subrange(0, y_to as int) =~= before.subrange(0, start as int)
                    + before.subrange(start as int, y as int).filter(not_full()),
                rows@.subrange(y as int, y_end as int) =~= before.subrange(y as int, y_end as int),
            decreases y_end - y,
        {
            let row = rows[y];
            let ghost prev = rows@;
            assert(row == before[y as int]) by {
                assert(prev.subrange(y as int, y_end as int)[0] == before.subrange(y as int, y_end as int)[0]);
            }
            proof {
                let seen = before.subrange(start as int, y as int);
                let next = before.subrange(start as int, y + 1);
                assert(next.drop_last() =~= seen);
                assert(next.last() == row);
                reveal_with_fuel(Seq::filter, 2);
                assert(next.filter(not_full()) == if row != FULL {
                    seen.filter(not_full()).push(row)
                } else {
                    seen.filter(not_full())
                });
            }
            if row != FULL {
                rows.set(y_to, row);
                assert(rows@.subrange(0, y_to + 1) =~= prev.subrange(0, y_to as int).push(row));
                assert forall|i: int| y + 1 <= i < y_end implies rows@[i] == before[i] by {
                    assert(prev.subrange(y as int, y_end as int)[i - y]
                        == before.subrange(y as int, y_end as int)[i - y]);
                }
                y_to += 1;
            } else {
                assert forall|i: int| y + 1 <= i < y_end implies rows@[i] == before[i] by {
                    assert(prev.subrange(y as int, y_end as int)[i - y]
                        == before.subrange(y as int, y_end as int)[i - y]);
                }
            }
            y += 1;
        }
        proof {
            assert(before.subrange(start as int, y_end as int) == before.subrange(
                clear_start(before, y_start as int),
                before.len() as int,
            ));
        }
        rows.truncate(y_to);
        assert(rows@ =~= rows_cleared(before, y_start as int));
        self.rows = rows;
        (y_end - y_to) as u8
    }
}

impl Clone for MatBuf {
    fn clone(&self) -> (mat: MatBuf)
        ensures
            mat@ == self@,
    {
        let mut mat = MatBuf::new();
        mat.copy_from(&self.as_mat());
        mat
    }
}

impl Default for MatBuf {
    fn default() -> (mat: MatBuf)
        ensures
            mat@ == Seq::<u16>::empty(),
    {
        MatBuf::new()
    }
}

} // verus!
