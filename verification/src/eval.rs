//! The static evaluator: a score for a board and the clears that led to it.

use vstd::prelude::*;

use crate::matrix::EMPTY;
use crate::matrix::FULL;
use crate::matrix::Mat;
use crate::matrix::row_at;
use crate::matrix::rows_wf;
use crate::piece::popcount;
use crate::state::State;

verus! {

/// Added to every score, to make the values generally positive.
pub const BASE: i32 = 1024;

/// The weight of a clear of one line.
pub const SINGLE: i32 = -200;

/// The weight of a clear of two lines.
pub const DOUBLE: i32 = -100;

/// The weight of a clear of three lines.
pub const TRIPLE: i32 = 400;

/// The reference point of the weights.
pub const QUAD: i32 = 1024;

/// The weight of a spin that clears one line.
pub const SPIN_SINGLE: i32 = 512;

/// The weight of a spin that clears two lines.
pub const SPIN_DOUBLE: i32 = 1200;

/// The weight of a spin that clears three lines or more.
pub const SPIN_TRIPLE: i32 = 1600;

/// The weight of a difficult clear after a difficult clear.
pub const B2B: i32 = 200;

/// The weight of a row of the board.
pub const HEIGHT: i32 = -50;

/// The weight of a row transition.
pub const ROW_TRANSITIONS: i32 = -200;

/// The weight of a block more or less than the evaluator likes best.
pub const BLOCKS_FROM_TARGET: i32 = -20;

/// The number of blocks that the evaluator likes best on a board.
pub const TARGET_BLOCKS: i32 = 36;

/// `u16::count_ones` returns the number of bits that are set in the binary
/// representation of the number, as its documentation says.
pub assume_specification[ u16::count_ones ](x: u16) -> (n: u32)
    ensures
        n == popcount(x),
;

/// The bits in which the lowest `n` rows differ, each row counted against
/// the row below it and the lowest row against the full floor.
pub open spec fn transitions_upto(rows: Seq<u16>, n: int) -> int
    decreases n,
{
    if n <= 0 {
        0
    } else {
        transitions_upto(rows, n - 1) + popcount(rows[n - 1] ^ row_at(rows, n - 2))
    }
}

/// The row transitions of a board: the bits in which each row differs from
/// the row below it, and the top row from the empty row above it.
pub open spec fn row_transitions(rows: Seq<u16>) -> int {
    transitions_upto(rows, rows.len() as int) + popcount(row_at(rows, rows.len() - 1)) - 16
}

/// The number of bits set in the lowest `n` rows.
pub open spec fn bits_upto(rows: Seq<u16>, n: int) -> int
    decreases n,
{
    if n <= 0 {
        0
    } else {
        bits_upto(rows, n - 1) + popcount(rows[n - 1])
    }
}

/// The number of blocks on a board: the bits set in its rows but for the
/// six bits above the play field in each row.
pub open spec fn block_count(rows: Seq<u16>) -> int {
    bits_upto(rows, rows.len() as int) - 6 * rows.len()
}

/// How far the number of blocks is from the number that the evaluator likes
/// best.
pub open spec fn blocks_from_target(rows: Seq<u16>) -> int {
    let d = block_count(rows) - TARGET_BLOCKS;
    if d < 0 {
        -d
    } else {
        d
    }
}

/// The score of a board that was reached with the clears in `st`: higher is
/// better.
pub open spec fn score(rows: Seq<u16>, st: State) -> int {
    BASE + st.single_clears * SINGLE + st.double_clears * DOUBLE + st.triple_clears * TRIPLE
        + st.quad_clears * QUAD + st.spin_single_clears * SPIN_SINGLE + st.spin_double_clears
        * SPIN_DOUBLE + st.spin_triple_clears * SPIN_TRIPLE + st.b2b_clears * B2B + rows.len()
        * HEIGHT + row_transitions(rows) * ROW_TRANSITIONS + blocks_from_target(rows)
        * BLOCKS_FROM_TARGET
}

proof fn lemma_popcount_bounds(x: u16)
    by (bit_vector)
    ensures
        0 <= popcount(x) <= 16,
{
}

proof fn lemma_popcount_full()
    by (bit_vector)
    ensures
        popcount(FULL) == 16,
        popcount(EMPTY) == 6,
{
}

/// Two rows differ in at least as many bits as one has more than the other.
proof fn lemma_popcount_xor(a: u16, b: u16)
    by (bit_vector)
    ensures
        popcount(a ^ b) + popcount(a) >= popcount(b),
{
}

proof fn lemma_popcount_one_block(x: u16)
    by (bit_vector)
    requires
        x < 10,
    ensures
        popcount(EMPTY | (1u16 << x)) == 7,
        (EMPTY | (1u16 << x)) & EMPTY == EMPTY,
{
}

/// The sums over the lowest rows are within bounds that fit an `i32`.
proof fn lemma_sums_bounded(rows: Seq<u16>, n: int)
    requires
        0 <= n <= rows.len(),
    ensures
        0 <= transitions_upto(rows, n) <= 16 * n,
        0 <= bits_upto(rows, n) <= 16 * n,
    decreases n,
{
    if n > 0 {
        lemma_sums_bounded(rows, n - 1);
        lemma_popcount_bounds(rows[n - 1] ^ row_at(rows, n - 2));
        lemma_popcount_bounds(rows[n - 1]);
    }
}

/// The sums over the lowest rows do not depend on the rows above them.
proof fn lemma_sums_prefix(rows: Seq<u16>, more: Seq<u16>, n: int)
    requires
        0 <= n <= rows.len() <= more.len(),
        forall|i: int| 0 <= i < rows.len() ==> rows[i] == more[i],
    ensures
        transitions_upto(more, n) == transitions_upto(rows, n),
        bits_upto(more, n) == bits_upto(rows, n),
    decreases n,
{
    if n > 0 {
        lemma_sums_prefix(rows, more, n - 1);
    }
}

/// Scores the board `mat`, reached with the clears in `st`.
pub fn evaluate(mat: &Mat, st: State) -> (value: i32)
    ensures
        value == score(mat@, st),
{
    let rows = mat.rows();
    let n = rows.len();
    let mut height: i32 = 0;
    let mut row_trans: i32 = 0;
    let mut block_count: i32 = 0;
    let mut prev = FULL;
    let mut i: usize = 0;
    while i < n
        invariant
            0 <= i <= n,
            n == rows@.len(),
            rows@ == mat@,
            n <= 127,
            height == i,
            prev == row_at(rows@, i - 1),
            row_trans == transitions_upto(rows@, i as int),
            block_count == bits_upto(rows@, i as int),
        decreases n - i,
    {
        let row = rows[i];
        proof {
            lemma_sums_bounded(rows@, i as int);
            lemma_popcount_bounds(row ^ prev);
            lemma_popcount_bounds(row);
        }
        row_trans += (row ^ prev).count_ones() as i32;
        block_count += row.count_ones() as i32;
        height += 1;
        prev = row;
        i += 1;
    }
    proof {
        lemma_sums_bounded(rows@, n as int);
        lemma_popcount_bounds(prev);
    }
    row_trans += prev.count_ones() as i32 - 16;
    block_count -= height * 6;
    let blocks_from_target = if block_count - TARGET_BLOCKS < 0 {
        -(block_count - TARGET_BLOCKS)
    } else {
        block_count - TARGET_BLOCKS
    };
    BASE + st.single_clears as i32 * SINGLE + st.double_clears as i32 * DOUBLE
        + st.triple_clears as i32 * TRIPLE + st.quad_clears as i32 * QUAD
        + st.spin_single_clears as i32 * SPIN_SINGLE + st.spin_double_clears as i32 * SPIN_DOUBLE
        + st.spin_triple_clears as i32 * SPIN_TRIPLE + st.b2b_clears as i32 * B2B + height * HEIGHT
        + row_trans * ROW_TRANSITIONS + blocks_from_target * BLOCKS_FROM_TARGET
}

/// The score of every board is within bounds far from those of an `i32`.
pub proof fn lemma_score_bounded(rows: Seq<u16>, st: State)
    requires
        rows_wf(rows),
    ensures
        -1_000_000 < score(rows, st) < 2_000_000,
{
    lemma_sums_bounded(rows, rows.len() as int);
    lemma_popcount_bounds(row_at(rows, rows.len() - 1));
}

/// A board scores lower with one block more on top of it: a new top row
/// that holds a single block, whatever the board and the clears.
pub proof fn lemma_extra_block_lowers_score(rows: Seq<u16>, x: u16, st: State)
    requires
        x < 10,
    ensures
        score(rows.push(EMPTY | (1u16 << x)), st) < score(rows, st),
{
    let row = EMPTY | (1u16 << x);
    let more = rows.push(row);
    let n = rows.len() as int;
    let top = row_at(rows, n - 1);
    lemma_sums_prefix(rows, more, n);
    lemma_popcount_one_block(x);
    lemma_popcount_xor(row, top);
    lemma_popcount_full();
    assert(row_at(more, n - 1) == top);
    assert(transitions_upto(more, n + 1) == transitions_upto(rows, n) + popcount(row ^ top));
    assert(bits_upto(more, n + 1) == bits_upto(rows, n) + 7);
    assert(row_transitions(more) >= row_transitions(rows));
    assert(block_count(more) == block_count(rows) + 1);
    assert(row_transitions(more) * ROW_TRANSITIONS <= row_transitions(rows) * ROW_TRANSITIONS)
        by (nonlinear_arith)
        requires
            row_transitions(more) >= row_transitions(rows),
            ROW_TRANSITIONS == -200,
    ;
}

} // verus!
