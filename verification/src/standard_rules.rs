//! Standard implementation of tetris pieces.

use vstd::prelude::*;

use crate::input::Rot;
use crate::input::Turn;
use crate::piece::Cells;
use crate::piece::CellsView;
use crate::piece::Shape;
use crate::piece::Spawn;
use crate::piece::WallKicks;
use crate::piece::mask_fits;

pub use self::Piece::I;
pub use self::Piece::J;
pub use self::Piece::L;
pub use self::Piece::O;
pub use self::Piece::S;
pub use self::Piece::T;
pub use self::Piece::Z;

verus! {

/// The seven shapes.
#[derive(Copy, Clone, Debug, Eq, PartialEq, Ord, PartialOrd, Hash, Structural)]
pub enum Piece {
    I,
    J,
    L,
    O,
    S,
    T,
    Z,
}

/// A standard shape at a position.
pub type FallingPiece = crate::piece::Piece<Piece>;

/// A queue of standard shapes.
pub type Queue<'a> = crate::queue::Queue<'a, Piece>;

impl Piece {
    /// The letter that names the shape.
    pub open spec fn letter(self) -> char {
        match self {
            Piece::I => 'I',
            Piece::J => 'J',
            Piece::L => 'L',
            Piece::O => 'O',
            Piece::S => 'S',
            Piece::T => 'T',
            Piece::Z => 'Z',
        }
    }

    /// The one-letter name of the shape.
    pub fn name(self) -> (name: &'static str)
        ensures
            name@ == seq![self.letter()],
    {
        proof {
            reveal_strlit("I");
            reveal_strlit("J");
            reveal_strlit("L");
            reveal_strlit("O");
            reveal_strlit("S");
            reveal_strlit("T");
            reveal_strlit("Z");
        }
        let name = match self {
            Piece::I => "I",
            Piece::J => "J",
            Piece::L => "L",
            Piece::O => "O",
            Piece::S => "S",
            Piece::T => "T",
            Piece::Z => "Z",
        };
        assert(name@ =~= seq![self.letter()]);
        name
    }
}

// w=4
// ----------
// .......... 20
// ...IIII... 19
// 0123456789
// w=3
// ----------
// .....L.... 20
// ...LLL.... 19
// 0123456789
// w=2
// ----------
// ....OO.... 20
// ....OO.... 19
// 0123456789
/// Where the two-wide shape appears.
pub const SPAWN_2: (i8, i8) = (4, 20);

/// Where the three-wide and four-wide shapes appear.
pub const SPAWN_3_4: (i8, i8) = (3, 20);

impl Spawn for Piece {
    open spec fn spec_spawn(&self) -> (i8, i8) {
        if *self == Piece::O {
            SPAWN_2
        } else {
            SPAWN_3_4
        }
    }

    fn spawn(&self) -> (xy: (i8, i8)) {
        if *self == Piece::O {
            SPAWN_2
        } else {
            SPAWN_3_4
        }
    }
}

/// The model of the cells whose box spans the columns `x0..x1` and the rows
/// `y0..y1` around the origin.
pub open spec fn boxed(x0: int, x1: int, y0: int, y1: int, bits: u16) -> CellsView {
    CellsView { x: x0, y: y0, w: x1 - x0, h: y1 - y0, bits }
}

/// Each mask of the table of cells fits its box.
proof fn lemma_masks_fit()
    ensures
        mask_fits(1, 4, 0b0001_0001_0001_0001),
        mask_fits(2, 2, 0b0011_0011),
        mask_fits(2, 3, 0b0001_0001_0011),
        mask_fits(2, 3, 0b0001_0011_0001),
        mask_fits(2, 3, 0b0001_0011_0010),
        mask_fits(2, 3, 0b0010_0010_0011),
        mask_fits(2, 3, 0b0010_0011_0001),
        mask_fits(2, 3, 0b0010_0011_0010),
        mask_fits(2, 3, 0b0011_0001_0001),
        mask_fits(2, 3, 0b0011_0010_0010),
        mask_fits(3, 2, 0b0001_0111),
        mask_fits(3, 2, 0b0010_0111),
        mask_fits(3, 2, 0b0011_0110),
        mask_fits(3, 2, 0b0100_0111),
        mask_fits(3, 2, 0b0110_0011),
        mask_fits(3, 2, 0b0111_0001),
        mask_fits(3, 2, 0b0111_0010),
        mask_fits(3, 2, 0b0111_0100),
        mask_fits(4, 1, 0b1111),
{
    assert(mask_fits(1, 4, 0b0001_0001_0001_0001)) by (bit_vector);
    assert(mask_fits(2, 2, 0b0011_0011)) by (bit_vector);
    assert(mask_fits(2, 3, 0b0001_0001_0011)) by (bit_vector);
    assert(mask_fits(2, 3, 0b0001_0011_0001)) by (bit_vector);
    assert(mask_fits(2, 3, 0b0001_0011_0010)) by (bit_vector);
    assert(mask_fits(2, 3, 0b0010_0010_0011)) by (bit_vector);
    assert(mask_fits(2, 3, 0b0010_0011_0001)) by (bit_vector);
    assert(mask_fits(2, 3, 0b0010_0011_0010)) by (bit_vector);
    assert(mask_fits(2, 3, 0b0011_0001_0001)) by (bit_vector);
    assert(mask_fits(2, 3, 0b0011_0010_0010)) by (bit_vector);
    assert(mask_fits(3, 2, 0b0001_0111)) by (bit_vector);
    assert(mask_fits(3, 2, 0b0010_0111)) by (bit_vector);
    assert(mask_fits(3, 2, 0b0011_0110)) by (bit_vector);
    assert(mask_fits(3, 2, 0b0100_0111)) by (bit_vector);
    assert(mask_fits(3, 2, 0b0110_0011)) by (bit_vector);
    assert(mask_fits(3, 2, 0b0111_0001)) by (bit_vector);
    assert(mask_fits(3, 2, 0b0111_0010)) by (bit_vector);
    assert(mask_fits(3, 2, 0b0111_0100)) by (bit_vector);
    assert(mask_fits(4, 1, 0b1111)) by (bit_vector);
}

impl Shape for Piece {
    open spec fn spec_cells(&self, r: Rot) -> CellsView {
        match (*self, r) {
            // .... ..I. .... .I..
            // IIII ..I. .... .I..
            // .... ..I. IIII .I..
            // .... ..I. .... .I..
            (Piece::I, Rot::N) => boxed(0, 4, -1, 0, 0b1111),
            (Piece::I, Rot::E) => boxed(2, 3, -3, 1, 0b0001_0001_0001_0001),
            (Piece::I, Rot::S) => boxed(0, 4, -2, -1, 0b1111),
            (Piece::I, Rot::W) => boxed(1, 2, -3, 1, 0b0001_0001_0001_0001),
            // J.. .JJ ... .J.
            // JJJ .J. JJJ .J.
            // ... .J. ..J JJ.
            (Piece::J, Rot::N) => boxed(0, 3, -1, 1, 0b0001_0111),
            (Piece::J, Rot::E) => boxed(1, 3, -2, 1, 0b0011_0001_0001),
            (Piece::J, Rot::S) => boxed(0, 3, -2, 0, 0b0111_0100),
            (Piece::J, Rot::W) => boxed(0, 2, -2, 1, 0b0010_0010_0011),
            // ..L .L. ... LL.
            // LLL .L. LLL .L.
            // ... .LL L.. .L.
            (Piece::L, Rot::N) => boxed(0, 3, -1, 1, 0b0100_0111),
            (Piece::L, Rot::E) => boxed(1, 3, -2, 1, 0b0001_0001_0011),
            (Piece::L, Rot::S) => boxed(0, 3, -2, 0, 0b0111_0001),
            (Piece::L, Rot::W) => boxed(0, 2, -2, 1, 0b0011_0010_0010),
            // OO
            // OO
            (Piece::O, Rot::N) => boxed(0, 2, -1, 1, 0b0011_0011),
            (Piece::O, Rot::E) => boxed(0, 2, -1, 1, 0b0011_0011),
            (Piece::O, Rot::S) => boxed(0, 2, -1, 1, 0b0011_0011),
            (Piece::O, Rot::W) => boxed(0, 2, -1, 1, 0b0011_0011),
            // .SS .S. ... S..
            // SS. .SS .SS SS.
            // ... ..S SS. .S.
            (Piece::S, Rot::N) => boxed(0, 3, -1, 1, 0b0110_0011),
            (Piece::S, Rot::E) => boxed(1, 3, -2, 1, 0b0001_0011_0010),
            (Piece::S, Rot::S) => boxed(0, 3, -2, 0, 0b0110_0011),
            (Piece::S, Rot::W) => boxed(0, 2, -2, 1, 0b0001_0011_0010),
            // .T. .T. ... .T.
            // TTT .TT TTT TT.
            // ... .T. .T. .T.
            (Piece::T, Rot::N) => boxed(0, 3, -1, 1, 0b0010_0111),
            (Piece::T, Rot::E) => boxed(1, 3, -2, 1, 0b0001_0011_0001),
            (Piece::T, Rot::S) => boxed(0, 3, -2, 0, 0b0111_0010),
            (Piece::T, Rot::W) => boxed(0, 2, -2, 1, 0b0010_0011_0010),
            // ZZ. ..Z ... .Z.
            // .ZZ .ZZ ZZ. ZZ.
            // ... .Z. .ZZ Z..
            (Piece::Z, Rot::N) => boxed(0, 3, -1, 1, 0b0011_0110),
            (Piece::Z, Rot::E) => boxed(1, 3, -2, 1, 0b0010_0011_0001),
            (Piece::Z, Rot::S) => boxed(0, 3, -2, 0, 0b0011_0110),
            (Piece::Z, Rot::W) => boxed(0, 2, -2, 1, 0b0010_0011_0001),
        }
    }

    fn cells(&self, r: Rot) -> (cells: Cells) {
        proof {
            lemma_masks_fit();
        }
        match (*self, r) {
            (Piece::I, Rot::N) => Cells::new(0..4, -1..0, 0b1111),
            (Piece::I, Rot::E) => Cells::new(2..3, -3..1, 0b0001_0001_0001_0001),
            (Piece::I, Rot::S) => Cells::new(0..4, -2..-1, 0b1111),
            (Piece::I, Rot::W) => Cells::new(1..2, -3..1, 0b0001_0001_0001_0001),
            (Piece::J, Rot::N) => Cells::new(0..3, -1..1, 0b0001_0111),
            (Piece::J, Rot::E) => Cells::new(1..3, -2..1, 0b0011_0001_0001),
            (Piece::J, Rot::S) => Cells::new(0..3, -2..0, 0b0111_0100),
            (Piece::J, Rot::W) => Cells::new(0..2, -2..1, 0b0010_0010_0011),
            (Piece::L, Rot::N) => Cells::new(0..3, -1..1, 0b0100_0111),
            (Piece::L, Rot::E) => Cells::new(1..3, -2..1, 0b0001_0001_0011),
            (Piece::L, Rot::S) => Cells::new(0..3, -2..0, 0b0111_0001),
            (Piece::L, Rot::W) => Cells::new(0..2, -2..1, 0b0011_0010_0010),
            (Piece::O, Rot::N) => Cells::new(0..2, -1..1, 0b0011_0011),
            (Piece::O, Rot::E) => Cells::new(0..2, -1..1, 0b0011_0011),
            (Piece::O, Rot::S) => Cells::new(0..2, -1..1, 0b0011_0011),
            (Piece::O, Rot::W) => Cells::new(0..2, -1..1, 0b0011_0011),
            (Piece::S, Rot::N) => Cells::new(0..3, -1..1, 0b0110_0011),
            (Piece::S, Rot::E) => Cells::new(1..3, -2..1, 0b0001_0011_0010),
            (Piece::S, Rot::S) => Cells::new(0..3, -2..0, 0b0110_0011),
            (Piece::S, Rot::W) => Cells::new(0..2, -2..1, 0b0001_0011_0010),
            (Piece::T, Rot::N) => Cells::new(0..3, -1..1, 0b0010_0111),
            (Piece::T, Rot::E) => Cells::new(1..3, -2..1, 0b0001_0011_0001),
            (Piece::T, Rot::S) => Cells::new(0..3, -2..0, 0b0111_0010),
            (Piece::T, Rot::W) => Cells::new(0..2, -2..1, 0b0010_0011_0010),
            (Piece::Z, Rot::N) => Cells::new(0..3, -1..1, 0b0011_0110),
            (Piece::Z, Rot::E) => Cells::new(1..3, -2..1, 0b0010_0011_0001),
            (Piece::Z, Rot::S) => Cells::new(0..3, -2..0, 0b0011_0110),
            (Piece::Z, Rot::W) => Cells::new(0..2, -2..1, 0b0010_0011_0001),
        }
    }
}

/// The wall kicks of every shape but I.
pub open spec fn kicks_of(r: Rot, dr: Turn) -> Seq<(i8, i8)> {
    match (r, dr) {
        /* 0-1 */
        (Rot::N, Turn::Cw) => seq![(0i8, 0i8), (-1i8, 0i8), (-1i8, 1i8), (0i8, -2i8), (-1i8, -2i8)],
        /* 0-3 */
        (Rot::N, Turn::Ccw) => seq![(0i8, 0i8), (1i8, 0i8), (1i8, 1i8), (0i8, -2i8), (1i8, -2i8)],
        /* 1-2 */
        (Rot::E, Turn::Cw) => seq![(0i8, 0i8), (1i8, 0i8), (1i8, -1i8), (0i8, 2i8), (1i8, 2i8)],
        /* 1-0 */
        (Rot::E, Turn::Ccw) => seq![(0i8, 0i8), (1i8, 0i8), (1i8, -1i8), (0i8, 2i8), (1i8, 2i8)],
        /* 2-3 */
        (Rot::S, Turn::Cw) => seq![(0i8, 0i8), (1i8, 0i8), (1i8, 1i8), (0i8, -2i8), (1i8, -2i8)],
        /* 2-1 */
        (Rot::S, Turn::Ccw) => seq![(0i8, 0i8), (-1i8, 0i8), (-1i8, 1i8), (0i8, -2i8), (-1i8, -2i8)],
        /* 3-0 */
        (Rot::W, Turn::Cw) => seq![(0i8, 0i8), (-1i8, 0i8), (-1i8, -1i8), (0i8, 2i8), (-1i8, 2i8)],
        /* 3-2 */
        (Rot::W, Turn::Ccw) => seq![(0i8, 0i8), (-1i8, 0i8), (-1i8, -1i8), (0i8, 2i8), (-1i8, 2i8)],
    }
}

/// The wall kicks of the I shape.
pub open spec fn i_kicks_of(r: Rot, dr: Turn) -> Seq<(i8, i8)> {
    match (r, dr) {
        /* 0-1 */
        (Rot::N, Turn::Cw) => seq![(0i8, 0i8), (-2i8, 0i8), (1i8, 0i8), (-2i8, -1i8), (1i8, 2i8)],
        /* 0-3 */
        (Rot::N, Turn::Ccw) => seq![(0i8, 0i8), (-1i8, 0i8), (2i8, 0i8), (-1i8, 2i8), (2i8, -1i8)],
        /* 1-2 */
        (Rot::E, Turn::Cw) => seq![(0i8, 0i8), (-1i8, 0i8), (2i8, 0i8), (-1i8, 2i8), (2i8, -1i8)],
        /* 1-0 */
        (Rot::E, Turn::Ccw) => seq![(0i8, 0i8), (2i8, 0i8), (-1i8, 0i8), (2i8, 1i8), (-1i8, -2i8)],
        /* 2-3 */
        (Rot::S, Turn::Cw) => seq![(0i8, 0i8), (2i8, 0i8), (-1i8, 0i8), (2i8, 1i8), (-1i8, -2i8)],
        /* 2-1 */
        (Rot::S, Turn::Ccw) => seq![(0i8, 0i8), (1i8, 0i8), (-2i8, 0i8), (1i8, -2i8), (-2i8, 1i8)],
        /* 3-0 */
        (Rot::W, Turn::Cw) => seq![(0i8, 0i8), (1i8, 0i8), (-2i8, 0i8), (1i8, -2i8), (-2i8, 1i8)],
        /* 3-2 */
        (Rot::W, Turn::Ccw) => seq![(0i8, 0i8), (-2i8, 0i8), (1i8, 0i8), (-2i8, -1i8), (1i8, 2i8)],
    }
}

fn kicks(r: Rot, dr: Turn) -> (kicks: &'static [(i8, i8)])
    ensures
        kicks@ == kicks_of(r, dr),
{
    let kicks: &'static [(i8, i8)] = match (r, dr) {
        (Rot::N, Turn::Cw) => &[(0, 0), (-1, 0), (-1, 1), (0, -2), (-1, -2)],
        (Rot::N, Turn::Ccw) => &[(0, 0), (1, 0), (1, 1), (0, -2), (1, -2)],
        (Rot::E, Turn::Cw) => &[(0, 0), (1, 0), (1, -1), (0, 2), (1, 2)],
        (Rot::E, Turn::Ccw) => &[(0, 0), (1, 0), (1, -1), (0, 2), (1, 2)],
        (Rot::S, Turn::Cw) => &[(0, 0), (1, 0), (1, 1), (0, -2), (1, -2)],
        (Rot::S, Turn::Ccw) => &[(0, 0), (-1, 0), (-1, 1), (0, -2), (-1, -2)],
        (Rot::W, Turn::Cw) => &[(0, 0), (-1, 0), (-1, -1), (0, 2), (-1, 2)],
        (Rot::W, Turn::Ccw) => &[(0, 0), (-1, 0), (-1, -1), (0, 2), (-1, 2)],
    };
    assert(kicks@ =~= kicks_of(r, dr));
    kicks
}

fn i_kicks(r: Rot, dr: Turn) -> (kicks: &'static [(i8, i8)])
    ensures
        kicks@ == i_kicks_of(r, dr),
{
    let kicks: &'static [(i8, i8)] = match (r, dr) {
        (Rot::N, Turn::Cw) => &[(0, 0), (-2, 0), (1, 0), (-2, -1), (1, 2)],
        (Rot::N, Turn::Ccw) => &[(0, 0), (-1, 0), (2, 0), (-1, 2), (2, -1)],
        (Rot::E, Turn::Cw) => &[(0, 0), (-1, 0), (2, 0), (-1, 2), (2, -1)],
        (Rot::E, Turn::Ccw) => &[(0, 0), (2, 0), (-1, 0), (2, 1), (-1, -2)],
        (Rot::S, Turn::Cw) => &[(0, 0), (2, 0), (-1, 0), (2, 1), (-1, -2)],
        (Rot::S, Turn::Ccw) => &[(0, 0), (1, 0), (-2, 0), (1, -2), (-2, 1)],
        (Rot::W, Turn::Cw) => &[(0, 0), (1, 0), (-2, 0), (1, -2), (-2, 1)],
        (Rot::W, Turn::Ccw) => &[(0, 0), (-2, 0), (1, 0), (-2, -1), (1, 2)],
    };
    assert(kicks@ =~= i_kicks_of(r, dr));
    kicks
}

impl WallKicks for Piece {
    open spec fn spec_wall_kicks(&self, r: Rot, dr: Turn) -> Seq<(i8, i8)> {
        if *self == Piece::I {
            i_kicks_of(r, dr)
        } else {
            kicks_of(r, dr)
        }
    }

    fn wall_kicks(&self, r: Rot, dr: Turn) -> (kicks: &'static [(i8, i8)]) {
        if *self == Piece::I {
            i_kicks(r, dr)
        } else {
            kicks(r, dr)
        }
    }
}

/// Every list of wall kicks has five offsets and begins with no offset at
/// all.
pub proof fn lemma_kicks_begin_in_place(shape: Piece, r: Rot, dr: Turn)
    ensures
        shape.spec_wall_kicks(r, dr).len() == 5,
        shape.spec_wall_kicks(r, dr)[0] == (0i8, 0i8),
{
}

/// The cells of every standard shape are well formed.
pub proof fn lemma_cells_wf(shape: Piece, r: Rot)
    ensures
        shape.spec_cells(r).wf(),
{
    lemma_masks_fit();
}

/// A turn followed by the opposite turn brings a piece back to where it
/// was, on any matrix, when the piece fits where it is and fits turned in
/// place, so that neither turn needs a wall kick.
pub proof fn lemma_rotation_round_trip(p: FallingPiece, rows: Seq<u16>, dr: Turn)
    requires
        p.fits(rows),
        p.moved(0, 0, p.pos.r.turned(dr)).fits(rows),
    ensures
        p.rotated(rows, dr) == Some(p.moved(0, 0, p.pos.r.turned(dr))),
        p.rotated(rows, dr).unwrap().rotated(rows, dr.inverse()) == Some(p),
{
    let q = p.moved(0, 0, p.pos.r.turned(dr));
    lemma_kicks_begin_in_place(p.shape, p.pos.r, dr);
    lemma_kicks_begin_in_place(q.shape, q.pos.r, dr.inverse());
    crate::input::lemma_turn_inverse(p.pos.r, dr);
    assert(q.moved(0, 0, p.pos.r) == p);
}

} // verus!
