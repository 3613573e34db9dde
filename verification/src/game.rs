//! Tetris implementation for Botris: the board of blocks, the falling
//! piece, and a game that deals pieces from shuffled bags.

use core::ops::Deref;
use rand::Rng;
use rand::SeedableRng;
use rand::rngs::SmallRng;
use rand::rngs::ThreadRng;
use std::collections::VecDeque;
use vstd::prelude::*;
use vstd::std_specs::convert::FromSpecImpl;
use vstd::wrapping::i8_specs::wrapping_add;

verus! {

/// Number of columns of the board.
pub const WIDTH: i8 = 10;

/// The greatest number of rows a board can hold; it fits the `i8` that
/// [`Board::len`] returns.
pub const MAX_HEIGHT: usize = 127;

/// The seven pieces.
#[derive(Debug, Copy, Clone, Eq, PartialEq, Ord, PartialOrd, Structural)]
pub enum Piece {
    I,
    O,
    J,
    L,
    S,
    Z,
    T,
}

/// What a square of the board can hold: a block of one of the pieces, or a
/// block of garbage.
#[derive(Debug, Copy, Clone, Eq, PartialEq, Ord, PartialOrd, Structural)]
pub enum NonEmptyBlock {
    I,
    O,
    J,
    L,
    S,
    Z,
    T,
    G,
}

/// A square of the board: empty, or with a block.
pub type Block = Option<NonEmptyBlock>;

/// The rotation state of a piece.
#[derive(Debug, Copy, Clone, Eq, PartialEq, Ord, PartialOrd, Structural)]
pub enum Rotation {
    North,
    East,
    South,
    West,
}

/// All pieces, in the order in which a bag is filled.
pub fn all_pieces() -> (pieces: [Piece; 7])
    ensures
        pieces@ == seq![Piece::I, Piece::O, Piece::J, Piece::L, Piece::S, Piece::Z, Piece::T],
{
    let pieces = [Piece::I, Piece::O, Piece::J, Piece::L, Piece::S, Piece::Z, Piece::T];
    assert(pieces@ =~= seq![Piece::I, Piece::O, Piece::J, Piece::L, Piece::S, Piece::Z, Piece::T]);
    pieces
}

impl Piece {
    /// The letter that names the piece.
    pub open spec fn letter(self) -> char {
        match self {
            Piece::I => 'I',
            Piece::O => 'O',
            Piece::J => 'J',
            Piece::L => 'L',
            Piece::S => 'S',
            Piece::Z => 'Z',
            Piece::T => 'T',
        }
    }

    /// The block that the piece leaves on the board.
    pub open spec fn block(self) -> NonEmptyBlock {
        match self {
            Piece::I => NonEmptyBlock::I,
            Piece::O => NonEmptyBlock::O,
            Piece::J => NonEmptyBlock::J,
            Piece::L => NonEmptyBlock::L,
            Piece::S => NonEmptyBlock::S,
            Piece::Z => NonEmptyBlock::Z,
            Piece::T => NonEmptyBlock::T,
        }
    }

    /// The side of the square that the piece turns in.
    pub open spec fn spec_width(self) -> i8 {
        match self {
            Piece::I => 4,
            Piece::O => 2,
            _ => 3,
        }
    }

    /// The squares of the piece in its first orientation, in the square that
    /// it turns in, rows counted from the top.
    pub open spec fn spec_north_coords(self) -> Seq<(i8, i8)> {
        match self {
            Piece::I => seq![(0i8, 1i8), (1i8, 1i8), (2i8, 1i8), (3i8, 1i8)],
            Piece::O => seq![(0i8, 0i8), (0i8, 1i8), (1i8, 0i8), (1i8, 1i8)],
            Piece::J => seq![(0i8, 0i8), (0i8, 1i8), (1i8, 1i8), (2i8, 1i8)],
            Piece::L => seq![(0i8, 1i8), (1i8, 1i8), (2i8, 0i8), (2i8, 1i8)],
            Piece::S => seq![(0i8, 1i8), (1i8, 0i8), (1i8, 1i8), (2i8, 0i8)],
            Piece::Z => seq![(0i8, 0i8), (1i8, 0i8), (1i8, 1i8), (2i8, 1i8)],
            Piece::T => seq![(0i8, 1i8), (1i8, 0i8), (1i8, 1i8), (2i8, 1i8)],
        }
    }

    /// The offsets to try, in order, when the piece turns from `r0` to `r1`.
    pub open spec fn spec_wall_kicks(self, r0: Rotation, r1: Rotation) -> Seq<(i8, i8)> {
        if self == Piece::I {
            match (r0, r1) {
                (Rotation::North, Rotation::East) =>
                    seq![(0i8, 0i8), (-2i8, 0i8), (1i8, 0i8), (-2i8, -1i8), (1i8, 2i8)],
                (Rotation::East, Rotation::North) =>
                    seq![(0i8, 0i8), (2i8, 0i8), (-1i8, 0i8), (2i8, 1i8), (-1i8, -2i8)],
                (Rotation::East, Rotation::South) =>
                    seq![(0i8, 0i8), (-1i8, 0i8), (2i8, 0i8), (-1i8, 2i8), (2i8, -1i8)],
                (Rotation::South, Rotation::East) =>
                    seq![(0i8, 0i8), (1i8, 0i8), (-2i8, 0i8), (1i8, -2i8), (-2i8, 1i8)],
                (Rotation::South, Rotation::West) =>
                    seq![(0i8, 0i8), (2i8, 0i8), (-1i8, 0i8), (2i8, 1i8), (-1i8, -2i8)],
                (Rotation::West, Rotation::South) =>
                    seq![(0i8, 0i8), (-2i8, 0i8), (1i8, 0i8), (-2i8, -1i8), (1i8, 2i8)],
                (Rotation::West, Rotation::North) =>
                    seq![(0i8, 0i8), (1i8, 0i8), (-2i8, 0i8), (1i8, -2i8), (-2i8, 1i8)],
                (_, _) => seq![(0i8, 0i8), (-1i8, 0i8), (2i8, 0i8), (-1i8, 2i8), (2i8, -1i8)],
            }
        } else {
            match (r0, r1) {
                (Rotation::North, Rotation::East) =>
                    seq![(0i8, 0i8), (-1i8, 0i8), (-1i8, 1i8), (0i8, -2i8), (-1i8, -2i8)],
                (Rotation::East, Rotation::North) => seq![(0i8, 0i8), (1i8, 0i8), (1i8, -1i8), (0i8, 2i8), (1i8, 2i8)],
                (Rotation::East, Rotation::South) => seq![(0i8, 0i8), (1i8, 0i8), (1i8, -1i8), (0i8, 2i8), (1i8, 2i8)],
                (Rotation::South, Rotation::East) =>
                    seq![(0i8, 0i8), (-1i8, 0i8), (-1i8, 1i8), (0i8, -2i8), (-1i8, -2i8)],
                (Rotation::South, Rotation::West) => seq![(0i8, 0i8), (1i8, 0i8), (1i8, 1i8), (0i8, -2i8), (1i8, -2i8)],
                (Rotation::West, Rotation::South) =>
                    seq![(0i8, 0i8), (-1i8, 0i8), (-1i8, -1i8), (0i8, 2i8), (-1i8, 2i8)],
                (Rotation::West, Rotation::North) =>
                    seq![(0i8, 0i8), (-1i8, 0i8), (-1i8, -1i8), (0i8, 2i8), (-1i8, 2i8)],
                (_, _) => seq![(0i8, 0i8), (1i8, 0i8), (1i8, 1i8), (0i8, -2i8), (1i8, -2i8)],
            }
        }
    }

    /// The one-letter name of the piece.
    pub fn name(self) -> (name: &'static str)
        ensures
            name@ == seq![self.letter()],
    {
        proof {
            reveal_strlit("I");
            reveal_strlit("O");
            reveal_strlit("J");
            reveal_strlit("L");
            reveal_strlit("S");
            reveal_strlit("Z");
            reveal_strlit("T");
        }
        let name = match self {
            Piece::I => "I",
            Piece::O => "O",
            Piece::J => "J",
            Piece::L => "L",
            Piece::S => "S",
            Piece::Z => "Z",
            Piece::T => "T",
        };
        assert(name@ =~= seq![self.letter()]);
        name
    }

    fn width(self) -> (w: i8)
        ensures
            w == self.spec_width(),
    {
        match self {
            Piece::I => 4,
            Piece::O => 2,
            _ => 3,
        }
    }

    fn north_coords(self) -> (coords: [(i8, i8); 4])
        ensures
            coords@ == self.spec_north_coords(),
    {
        let coords = match self {
            Piece::I => [(0, 1), (1, 1), (2, 1), (3, 1)],
            Piece::O => [(0, 0), (0, 1), (1, 0), (1, 1)],
            Piece::J => [(0, 0), (0, 1), (1, 1), (2, 1)],
            Piece::L => [(0, 1), (1, 1), (2, 0), (2, 1)],
            Piece::S => [(0, 1), (1, 0), (1, 1), (2, 0)],
            Piece::Z => [(0, 0), (1, 0), (1, 1), (2, 1)],
            Piece::T => [(0, 1), (1, 0), (1, 1), (2, 1)],
        };
        assert(coords@ =~= self.spec_north_coords());
        coords
    }

    fn wall_kicks(self, r0: Rotation, r1: Rotation) -> (kicks: [(i8, i8); 5])
        ensures
            kicks@ == self.spec_wall_kicks(r0, r1),
    {
        let kicks = if self == Piece::I {
            match (r0, r1) {
                (Rotation::North, Rotation::East) => [(0, 0), (-2, 0), (1, 0), (-2, -1), (1, 2)],
                (Rotation::East, Rotation::North) => [(0, 0), (2, 0), (-1, 0), (2, 1), (-1, -2)],
                (Rotation::East, Rotation::South) => [(0, 0), (-1, 0), (2, 0), (-1, 2), (2, -1)],
                (Rotation::South, Rotation::East) => [(0, 0), (1, 0), (-2, 0), (1, -2), (-2, 1)],
                (Rotation::South, Rotation::West) => [(0, 0), (2, 0), (-1, 0), (2, 1), (-1, -2)],
                (Rotation::West, Rotation::South) => [(0, 0), (-2, 0), (1, 0), (-2, -1), (1, 2)],
                (Rotation::West, Rotation::North) => [(0, 0), (1, 0), (-2, 0), (1, -2), (-2, 1)],
                (_, _) => [(0, 0), (-1, 0), (2, 0), (-1, 2), (2, -1)],
            }
        } else {
            match (r0, r1) {
                (Rotation::North, Rotation::East) => [(0, 0), (-1, 0), (-1, 1), (0, -2), (-1, -2)],
                (Rotation::East, Rotation::North) => [(0, 0), (1, 0), (1, -1), (0, 2), (1, 2)],
                (Rotation::East, Rotation::South) => [(0, 0), (1, 0), (1, -1), (0, 2), (1, 2)],
                (Rotation::South, Rotation::East) => [(0, 0), (-1, 0), (-1, 1), (0, -2), (-1, -2)],
                (Rotation::South, Rotation::West) => [(0, 0), (1, 0), (1, 1), (0, -2), (1, -2)],
                (Rotation::West, Rotation::South) => [(0, 0), (-1, 0), (-1, -1), (0, 2), (-1, 2)],
                (Rotation::West, Rotation::North) => [(0, 0), (-1, 0), (-1, -1), (0, 2), (-1, 2)],
                (_, _) => [(0, 0), (1, 0), (1, 1), (0, -2), (1, -2)],
            }
        };
        assert(kicks@ =~= self.spec_wall_kicks(r0, r1));
        kicks
    }
}

impl NonEmptyBlock {
    /// The letter that names the block.
    pub open spec fn letter(self) -> char {
        match self {
            NonEmptyBlock::I => 'I',
            NonEmptyBlock::O => 'O',
            NonEmptyBlock::J => 'J',
            NonEmptyBlock::L => 'L',
            NonEmptyBlock::S => 'S',
            NonEmptyBlock::Z => 'Z',
            NonEmptyBlock::T => 'T',
            NonEmptyBlock::G => 'G',
        }
    }

    /// The one-letter name of the block.
    pub fn name(self) -> (name: &'static str)
        ensures
            name@ == seq![self.letter()],
    {
        proof {
            reveal_strlit("I");
            reveal_strlit("O");
            reveal_strlit("J");
            reveal_strlit("L");
            reveal_strlit("S");
            reveal_strlit("Z");
            reveal_strlit("T");
            reveal_strlit("G");
        }
        let name = match self {
            NonEmptyBlock::I => "I",
            NonEmptyBlock::O => "O",
            NonEmptyBlock::J => "J",
            NonEmptyBlock::L => "L",
            NonEmptyBlock::S => "S",
            NonEmptyBlock::Z => "Z",
            NonEmptyBlock::T => "T",
            NonEmptyBlock::G => "G",
        };
        assert(name@ =~= seq![self.letter()]);
        name
    }
}

impl Default for NonEmptyBlock {
    fn default() -> (block: NonEmptyBlock)
        ensures
            block == NonEmptyBlock::G,
    {
        NonEmptyBlock::G
    }
}

impl From<Piece> for NonEmptyBlock {
    fn from(v: Piece) -> (block: NonEmptyBlock) {
        match v {
            Piece::I => NonEmptyBlock::I,
            Piece::O => NonEmptyBlock::O,
            Piece::J => NonEmptyBlock::J,
            Piece::L => NonEmptyBlock::L,
            Piece::S => NonEmptyBlock::S,
            Piece::Z => NonEmptyBlock::Z,
            Piece::T => NonEmptyBlock::T,
        }
    }
}

impl FromSpecImpl<Piece> for NonEmptyBlock {
    open spec fn obeys_from_spec() -> bool {
        true
    }

    open spec fn from_spec(v: Piece) -> NonEmptyBlock {
        v.block()
    }
}

impl Rotation {
    /// The number of turns to the right from the first orientation.
    pub open spec fn index(self) -> int {
        match self {
            Rotation::North => 0,
            Rotation::East => 1,
            Rotation::South => 2,
            Rotation::West => 3,
        }
    }

    /// The orientation after `n` turns to the right from the first.
    pub open spec fn from_index(n: int) -> Rotation {
        let k = n % 4;
        if k == 0 {
            Rotation::North
        } else if k == 1 {
            Rotation::East
        } else if k == 2 {
            Rotation::South
        } else {
            Rotation::West
        }
    }

    /// The orientation after a turn to the right.
    pub fn cw(self) -> (r: Rotation)
        ensures
            r == Rotation::from_index(self.index() + 1),
    {
        match self {
            Rotation::North => Rotation::East,
            Rotation::East => Rotation::South,
            Rotation::South => Rotation::West,
            Rotation::West => Rotation::North,
        }
    }

    /// The orientation after a turn to the left.
    pub fn ccw(self) -> (r: Rotation)
        ensures
            r == Rotation::from_index(self.index() + 3),
    {
        match self {
            Rotation::North => Rotation::West,
            Rotation::East => Rotation::North,
            Rotation::South => Rotation::East,
            Rotation::West => Rotation::South,
        }
    }
}

impl Default for Rotation {
    fn default() -> (r: Rotation)
        ensures
            r == Rotation::North,
    {
        Rotation::North
    }
}

impl From<u8> for Rotation {
    fn from(v: u8) -> (r: Rotation) {
        let k: u8 = v & 3;
        assert(v & 3 == v % 4) by (bit_vector);
        if k == 0 {
            Rotation::North
        } else if k == 1 {
            Rotation::East
        } else if k == 2 {
            Rotation::South
        } else {
            Rotation::West
        }
    }
}

impl FromSpecImpl<u8> for Rotation {
    open spec fn obeys_from_spec() -> bool {
        true
    }

    open spec fn from_spec(v: u8) -> Rotation {
        Rotation::from_index(v as int)
    }
}

impl From<Rotation> for u8 {
    fn from(r: Rotation) -> (v: u8) {
        match r {
            Rotation::North => 0,
            Rotation::East => 1,
            Rotation::South => 2,
            Rotation::West => 3,
        }
    }
}

impl FromSpecImpl<Rotation> for u8 {
    open spec fn obeys_from_spec() -> bool {
        true
    }

    open spec fn from_spec(r: Rotation) -> u8 {
        r.index() as u8
    }
}

/// A square of the square that a piece turns in, after one turn to the
/// right.
pub open spec fn turned(w: i8, xy: (i8, i8)) -> (i8, i8) {
    ((w - xy.1 - 1) as i8, xy.0)
}

/// A square of the square that a piece turns in, after the turns that lead
/// to the orientation `r`.
pub open spec fn spec_rotate(r: Rotation, w: i8, xy: (i8, i8)) -> (i8, i8) {
    match r {
        Rotation::North => xy,
        Rotation::East => turned(w, xy),
        Rotation::South => turned(w, turned(w, xy)),
        Rotation::West => turned(w, turned(w, turned(w, xy))),
    }
}

fn rotate(r: Rotation, w: i8, xy: (i8, i8)) -> (out: (i8, i8))
    requires
        1 <= w <= 4,
        0 <= xy.0 < w,
        0 <= xy.1 < w,
    ensures
        out == spec_rotate(r, w, xy),
        0 <= out.0 < w,
        0 <= out.1 < w,
{
    let turns = u8::from(r);
    let mut at = xy;
    let mut i: u8 = 0;
    while i < turns
        invariant
            0 <= i <= turns <= 3,
            turns == r.index(),
            1 <= w <= 4,
            0 <= at.0 < w,
            0 <= at.1 < w,
            spec_rotate(r, w, xy) == spec_rotate(Rotation::from_index((turns - i) as int), w, at),
        decreases turns - i,
    {
        // turn cw
        let (x, y) = at;
        at = (w - y - 1, x);
        i += 1;
    }
    at
}

/// A piece on the board: which piece, how it is turned, and where the
/// square that it turns in has its corner.
#[derive(Debug, Copy, Clone, PartialEq, Eq, Structural)]
pub struct PieceData {
    pub piece: Piece,
    pub rotation: Rotation,
    pub x: i8,
    pub y: i8,
}

impl PieceData {
    /// The piece where it appears.
    pub open spec fn spec_spawn(piece: Piece) -> PieceData {
        PieceData { piece, rotation: Rotation::North, x: (5 - (piece.spec_width() + 1) / 2) as i8, y: 20 }
    }

    /// The piece moved by `ofs`, each coordinate wrapping in `i8`.
    pub open spec fn spec_offset(self, ofs: (i8, i8)) -> PieceData {
        PieceData {
            piece: self.piece,
            rotation: self.rotation,
            x: wrapping_add(self.x, ofs.0),
            y: wrapping_add(self.y, ofs.1),
        }
    }

    /// The piece turned to `r`.
    pub open spec fn spec_rotate(self, r: Rotation) -> PieceData {
        PieceData { piece: self.piece, rotation: r, x: self.x, y: self.y }
    }

    /// The `k`-th square of the piece.
    pub open spec fn coord(self, k: int) -> (i8, i8) {
        let d = spec_rotate(self.rotation, self.piece.spec_width(), self.piece.spec_north_coords()[k]);
        (wrapping_add(self.x, d.0), wrapping_add(self.y, (-d.1) as i8))
    }

    /// The four squares of the piece.
    pub open spec fn spec_coords(self) -> Seq<(i8, i8)> {
        Seq::new(4, |k: int| self.coord(k))
    }

    /// The piece where it appears.
    pub fn spawn(piece: Piece) -> (data: PieceData)
        ensures
            data == Self::spec_spawn(piece),
    {
        Self { piece, rotation: Rotation::North, x: 5 - (piece.width() + 1) / 2, y: 20 }
    }

    /// The piece moved by `ofs`.
    pub fn offset(self, ofs: (i8, i8)) -> (data: PieceData)
        ensures
            data == self.spec_offset(ofs),
    {
        Self {
            piece: self.piece,
            rotation: self.rotation,
            x: self.x.wrapping_add(ofs.0),
            y: self.y.wrapping_add(ofs.1),
        }
    }

    /// The piece turned to `r`, where it is.
    pub fn rotate(self, r: Rotation) -> (data: PieceData)
        ensures
            data == self.spec_rotate(r),
    {
        Self { piece: self.piece, rotation: r, x: self.x, y: self.y }
    }

    /// The four squares of the piece.
    pub fn coords(self) -> (coords: [(i8, i8); 4])
        ensures
            coords@ == self.spec_coords(),
    {
        let north = self.piece.north_coords();
        let w = self.piece.width();
        let mut coords = [(0i8, 0i8); 4];
        let mut k: usize = 0;
        while k < 4
            invariant
                0 <= k <= 4,
                north@ == self.piece.spec_north_coords(),
                w == self.piece.spec_width(),
                forall|j: int| 0 <= j < k ==> #[trigger] coords@[j] == self.coord(j),
            decreases 4 - k,
        {
            let (dx, dy) = rotate(self.rotation, w, north[k]);
            coords[k] = (self.x.wrapping_add(dx), self.y.wrapping_add(-dy));
            k += 1;
        }
        assert(coords@ =~= self.spec_coords());
        coords
    }
}

/// The block at the square `(x, y)`: a block of garbage outside the walls
/// and below the floor, nothing above the stack.
pub open spec fn block_at(rows: Seq<[Block; 10]>, x: int, y: int) -> Block {
    if !(0 <= x < WIDTH) || y < 0 {
        Some(NonEmptyBlock::G)
    } else if y >= rows.len() {
        None
    } else {
        rows[y]@[x]
    }
}

/// Whether one of the squares of the piece holds a block.
pub open spec fn collides(rows: Seq<[Block; 10]>, data: PieceData) -> bool {
    exists|k: int| 0 <= k < 4 && block_at(rows, #[trigger] data.coord(k).0 as int, data.coord(k).1 as int).is_some()
}

/// Whether the piece cannot move: it collides one square down, one square
/// up, one square to the left and one square to the right.
pub open spec fn immobile(rows: Seq<[Block; 10]>, data: PieceData) -> bool {
    &&& collides(rows, data.spec_offset((0, -1i8)))
    &&& collides(rows, data.spec_offset((0, 1)))
    &&& collides(rows, data.spec_offset((-1i8, 0)))
    &&& collides(rows, data.spec_offset((1, 0)))
}

/// Whether every square of the piece lies between the walls and above the
/// floor.
pub open spec fn in_field(data: PieceData) -> bool {
    forall|k: int| 0 <= k < 4 ==> 0 <= (#[trigger] data.coord(k)).0 < WIDTH && 0 <= data.coord(k).1
}

/// Whether every square of the piece lies below the height [`MAX_HEIGHT`],
/// so that a board has room for it.
pub open spec fn below_top(data: PieceData) -> bool {
    forall|k: int| 0 <= k < 4 ==> (#[trigger] data.coord(k)).1 < MAX_HEIGHT
}

/// Whether every square of a row holds a block.
pub open spec fn row_full(row: [Block; 10]) -> bool {
    forall|x: int| 0 <= x < 10 ==> (#[trigger] row@[x]).is_some()
}

/// The predicate that tells the rows a line clear keeps.
pub open spec fn not_full() -> spec_fn([Block; 10]) -> bool {
    |row: [Block; 10]| !row_full(row)
}

/// The board: rows of ten squares, the lowest row first.
#[derive(Clone, PartialEq, Eq, Debug)]
pub struct Board(pub Vec<[Block; 10]>);

impl View for Board {
    type V = Seq<[Block; 10]>;

    open spec fn view(&self) -> Seq<[Block; 10]> {
        self.0@
    }
}

impl Default for Board {
    fn default() -> (board: Board)
        ensures
            board@ == Seq::<[Block; 10]>::empty(),
    {
        Board(Vec::new())
    }
}

fn is_full(row: &[Block; 10]) -> (full: bool)
    ensures
        full == row_full(*row),
{
    let mut x: usize = 0;
    while x < 10
        invariant
            0 <= x <= 10,
            forall|i: int| 0 <= i < x ==> (#[trigger] row@[i]).is_some(),
        decreases 10 - x,
    {
        if row[x].is_none() {
            return false;
        }
        x += 1;
    }
    true
}

impl Board {
    /// A board without rows.
    pub fn new() -> (board: Board)
        ensures
            board@ == Seq::<[Block; 10]>::empty(),
    {
        Board(Vec::new())
    }

    /// The rows of the board, the lowest first.
    pub fn rows(&self) -> (rows: &[[Block; 10]])
        ensures
            rows@ == self@,
    {
        self.0.as_slice()
    }

    /// The number of rows.
    pub fn len(&self) -> (len: i8)
        requires
            self@.len() <= MAX_HEIGHT,
        ensures
            len == self@.len(),
    {
        self.rows().len() as i8
    }

    /// Whether the board has no row.
    pub fn is_empty(&self) -> (empty: bool)
        ensures
            empty == (self@.len() == 0),
    {
        self.rows().is_empty()
    }

    /// The block at the square `xy`.
    pub fn get(&self, xy: (i8, i8)) -> (block: Block)
        ensures
            block == block_at(self@, xy.0 as int, xy.1 as int),
    {
        let (x, y) = xy;
        if x < 0 || x >= WIDTH || y < 0 {
            return Some(NonEmptyBlock::G);
        }
        if y as usize >= self.0.len() {
            return None;
        }
        self.0[y as usize][x as usize]
    }

    /// Puts `block` at the square `xy`, which lies in the field. The board
    /// gets empty rows up to the square where it has none.
    pub fn set(&mut self, xy: (i8, i8), block: Block)
        requires
            0 <= xy.0 < WIDTH,
            0 <= xy.1 < MAX_HEIGHT,
        ensures
            final(self)@.len() == (if xy.1 < old(self)@.len() {
                old(self)@.len() as int
            } else {
                xy.1 + 1
            }),
            forall|x: int, y: int|
                block_at(final(self)@, x, y) == (if x == xy.0 && y == xy.1 {
                    block
                } else {
                    #[trigger] block_at(old(self)@, x, y)
                }),
    {
        let x = xy.0 as usize;
        let y = xy.1 as usize;
        while y >= self.0.len()
            invariant
                self@.len() == old(self)@.len() || self@.len() <= y + 1,
                self@.len() >= old(self)@.len(),
                forall|i: int| 0 <= i < old(self)@.len() ==> #[trigger] self@[i] == old(self)@[i],
                forall|i: int, j: int|
                    old(self)@.len() <= i < self@.len() && 0 <= j < 10 ==> (#[trigger] self@[i]@[j]).is_none(),
            decreases y + 1 - self@.len(),
        {
            self.0.push([None; 10]);
        }
        let mut row = self.0[y];
        row[x] = block;
        self.0.set(y, row);
    }

    /// Whether one of the squares of the piece holds a block.
    pub fn check_collision(&self, piece_data: PieceData) -> (hit: bool)
        ensures
            hit == collides(self@, piece_data),
    {
        let coords = piece_data.coords();
        let mut k: usize = 0;
        while k < 4
            invariant
                0 <= k <= 4,
                coords@ == piece_data.spec_coords(),
                forall|j: int|
                    0 <= j < k ==> block_at(
                        self@,
                        #[trigger] piece_data.coord(j).0 as int,
                        piece_data.coord(j).1 as int,
                    ).is_none(),
            decreases 4 - k,
        {
            assert(coords@[k as int] == piece_data.coord(k as int));
            if self.get(coords[k]).is_some() {
                return true;
            }
            k += 1;
        }
        false
    }

    /// Whether the piece cannot move: each of the four unit moves collides.
    pub fn check_immobile(&self, piece_data: PieceData) -> (stuck: bool)
        ensures
            stuck == immobile(self@, piece_data),
    {
        self.check_collision(piece_data.offset((0, -1))) && self.check_collision(
            piece_data.offset((0, 1)),
        ) && self.check_collision(piece_data.offset((-1, 0))) && self.check_collision(
            piece_data.offset((1, 0)),
        )
    }

    /// Puts the blocks of the piece on the board.
    pub fn place_piece(&mut self, piece_data: PieceData)
        requires
            in_field(piece_data),
            below_top(piece_data),
            old(self)@.len() <= MAX_HEIGHT,
        ensures
            final(self)@.len() <= MAX_HEIGHT,
            final(self)@.len() >= old(self)@.len(),
            forall|x: int, y: int|
                #[trigger] block_at(final(self)@, x, y) == (if exists|k: int|
                    0 <= k < 4 && piece_data.coord(k) == (x as i8, y as i8) && i8::MIN <= x <= i8::MAX
                        && i8::MIN <= y <= i8::MAX {
                    Some(piece_data.piece.block())
                } else {
                    block_at(old(self)@, x, y)
                }),
    {
        let block = Some(NonEmptyBlock::from(piece_data.piece));
        let coords = piece_data.coords();
        let mut k: usize = 0;
        while k < 4
            invariant
                0 <= k <= 4,
                in_field(piece_data),
                below_top(piece_data),
                coords@ == piece_data.spec_coords(),
                block == Some(piece_data.piece.block()),
                old(self)@.len() <= self@.len() <= MAX_HEIGHT,
                forall|x: int, y: int|
                    #[trigger] block_at(self@, x, y) == (if exists|j: int|
                        0 <= j < k && piece_data.coord(j) == (x as i8, y as i8) && i8::MIN <= x <= i8::MAX
                            && i8::MIN <= y <= i8::MAX {
                        block
                    } else {
                        block_at(old(self)@, x, y)
                    }),
            decreases 4 - k,
        {
            let ghost before = self@;
            assert(coords@[k as int] == piece_data.coord(k as int));
            self.set(coords[k], block);
            proof {
                assert forall|x: int, y: int|
                    #[trigger] block_at(self@, x, y) == (if exists|j: int|
                        0 <= j < k + 1 && piece_data.coord(j) == (x as i8, y as i8) && i8::MIN <= x
                            <= i8::MAX && i8::MIN <= y <= i8::MAX {
                        block
                    } else {
                        block_at(old(self)@, x, y)
                    }) by {
                    let c = piece_data.coord(k as int);
                    if x == c.0 && y == c.1 {
                        assert(piece_data.coord(k as int) == (x as i8, y as i8));
                    } else {
                        assert(block_at(self@, x, y) == block_at(before, x, y));
                    }
                }
            }
            k += 1;
        }
    }

    /// Removes the rows that are full, moving the rows above them into
    /// their place. Returns the number of rows removed.
    pub fn clear_lines(&mut self) -> (cleared: i8)
        requires
            old(self)@.len() <= MAX_HEIGHT,
        ensures
            final(self)@ == old(self)@.filter(not_full()),
            cleared == old(self)@.len() - final(self)@.len(),
            cleared >= 0,
    {
        let mut cleared: i8 = 0;
        let mut y_dst: usize = 0;
        let ghost before = self@;
        let n = self.0.len();
        let mut y: usize = 0;
        proof {
            reveal_with_fuel(Seq::filter, 1);
            assert(before.subrange(0, 0).filter(not_full()) =~= Seq::<[Block; 10]>::empty());
        }
        while y < n
            invariant
                0 <= y_dst <= y <= n,
                n == before.len(),
                n <= MAX_HEIGHT,
                self@.len() == n,
                cleared == y - y_dst,
                self@.subrange(0, y_dst as int) =~= before.subrange(0, y as int).filter(not_full()),
                self@.subrange(y as int, n as int) =~= before.subrange(y as int, n as int),
            decreases n - y,
        {
            let row = self.0[y];
            let ghost prev = self@;
            assert(row == before[y as int]) by {
                assert(prev.subrange(y as int, n as int)[0] == before.subrange(y as int, n as int)[0]);
            }
            proof {
                let seen = before.subrange(0, y as int);
                let next = before.subrange(0, y + 1);
                assert(next.drop_last() =~= seen);
                assert(next.last() == row);
                reveal_with_fuel(Seq::filter, 2);
                assert(next.filter(not_full()) == if !row_full(row) {
                    seen.filter(not_full()).push(row)
                } else {
                    seen.filter(not_full())
                });
            }
            if is_full(&row) {
                cleared += 1;
                assert forall|i: int| y + 1 <= i < n implies self@[i] == before[i] by {
                    assert(prev.subrange(y as int, n as int)[i - y] == before.subrange(y as int, n as int)[i - y]);
                }
            } else {
                self.0.set(y_dst, row);
                assert(self@.subrange(0, y_dst + 1) =~= prev.subrange(0, y_dst as int).push(row));
                assert forall|i: int| y + 1 <= i < n implies self@[i] == before[i] by {
                    assert(prev.subrange(y as int, n as int)[i - y] == before.subrange(y as int, n as int)[i - y]);
                }
                y_dst += 1;
            }
            y += 1;
        }
        self.0.truncate(y_dst);
        proof {
            assert(before.subrange(0, n as int) =~= before);
            assert(self@ =~= before.filter(not_full()));
        }
        cleared
    }
}

impl PieceData {
    /// The piece moved by `ofs`, if it collides with nothing there.
    pub open spec fn moved(self, rows: Seq<[Block; 10]>, ofs: (i8, i8)) -> Option<PieceData> {
        if collides(rows, self.spec_offset(ofs)) {
            None
        } else {
            Some(self.spec_offset(ofs))
        }
    }

    /// The piece turned to `r` and moved by the first of the kicks from
    /// index `from` on with which it collides with nothing, if there is
    /// one.
    pub open spec fn kicked(self, rows: Seq<[Block; 10]>, kicks: Seq<(i8, i8)>, r: Rotation, from: int) -> Option<
        PieceData,
    >
        decreases kicks.len() - from,
    {
        if from < 0 || from >= kicks.len() {
            None
        } else {
            let data = self.spec_rotate(r).spec_offset(kicks[from]);
            if collides(rows, data) {
                self.kicked(rows, kicks, r, from + 1)
            } else {
                Some(data)
            }
        }
    }

    /// The piece after a turn to `r`, if it fits with one of the wall
    /// kicks.
    pub open spec fn turned_to(self, rows: Seq<[Block; 10]>, r: Rotation) -> Option<PieceData> {
        self.kicked(rows, self.piece.spec_wall_kicks(self.rotation, r), r, 0)
    }

    /// The rows that a piece which has come down `k` rows comes down in
    /// all: it goes on, row by row, until the next row collides.
    pub open spec fn fall(self, rows: Seq<[Block; 10]>, k: int) -> int
        decreases self.y - k + 1,
    {
        if self.y - k < 0 || collides(rows, self.spec_offset((0, (-(k + 1)) as i8))) {
            k
        } else {
            self.fall(rows, k + 1)
        }
    }

    /// The rows that a sonic drop takes the piece down. A piece below the
    /// floor stays where it is.
    pub open spec fn drop_distance(self, rows: Seq<[Block; 10]>) -> int {
        if self.y < 0 {
            0
        } else {
            self.fall(rows, 0)
        }
    }

    /// A piece whose corner has come below the floor collides.
    proof fn lemma_sunk(self, rows: Seq<[Block; 10]>)
        requires
            -4 <= self.y < 0,
        ensures
            collides(rows, self),
    {
        let c = self.coord(0);
        assert(block_at(rows, c.0 as int, c.1 as int).is_some());
    }

    /// Moves the piece by `ofs` if it collides with nothing there, and
    /// returns whether it has moved.
    pub fn try_offset(&mut self, ofs: (i8, i8), board: &Board) -> (moved: bool)
        ensures
            moved == old(self).moved(board@, ofs).is_some(),
            *final(self) == (match old(self).moved(board@, ofs) {
                Some(data) => data,
                None => *old(self),
            }),
    {
        let moved = self.offset(ofs);
        if !board.check_collision(moved) {
            *self = moved;
            return true;
        }
        false
    }

    /// Turns the piece to the right, with a wall kick if need be, and
    /// returns whether it has turned.
    pub fn try_rotate_cw(&mut self, board: &Board) -> (turned: bool)
        ensures
            turned == old(self).turned_to(board@, Rotation::from_index(old(self).rotation.index() + 1)).is_some(),
            *final(self) == (match old(self).turned_to(
                board@,
                Rotation::from_index(old(self).rotation.index() + 1),
            ) {
                Some(data) => data,
                None => *old(self),
            }),
    {
        let r = self.rotation.cw();
        self.try_rotate(r, board)
    }

    /// Turns the piece to the left, with a wall kick if need be, and
    /// returns whether it has turned.
    pub fn try_rotate_ccw(&mut self, board: &Board) -> (turned: bool)
        ensures
            turned == old(self).turned_to(board@, Rotation::from_index(old(self).rotation.index() + 3)).is_some(),
            *final(self) == (match old(self).turned_to(
                board@,
                Rotation::from_index(old(self).rotation.index() + 3),
            ) {
                Some(data) => data,
                None => *old(self),
            }),
    {
        let r = self.rotation.ccw();
        self.try_rotate(r, board)
    }

    fn try_rotate(&mut self, new_r: Rotation, board: &Board) -> (turned: bool)
        ensures
            turned == old(self).turned_to(board@, new_r).is_some(),
            *final(self) == (match old(self).turned_to(board@, new_r) {
                Some(data) => data,
                None => *old(self),
            }),
    {
        let old_r = self.rotation;
        let kicks = self.piece.wall_kicks(old_r, new_r);
        let mut i: usize = 0;
        while i < 5
            invariant
                0 <= i <= 5,
                *self == *old(self),
                old_r == self.rotation,
                kicks@ == self.piece.spec_wall_kicks(old_r, new_r),
                kicks@.len() == 5,
                self.turned_to(board@, new_r) == self.kicked(board@, kicks@, new_r, i as int),
            decreases 5 - i,
        {
            let kicked = self.rotate(new_r).offset(kicks[i]);
            if !board.check_collision(kicked) {
                *self = kicked;
                return true;
            }
            i += 1;
        }
        false
    }

    /// Drops the piece as far as it goes, and returns by how many rows its
    /// height has changed: none, or a negative number.
    pub fn sonic_drop(&mut self, board: &Board) -> (dy: i8)
        ensures
            dy == -old(self).drop_distance(board@),
            dy <= 0,
            *final(self) == old(self).spec_offset((0, dy)),
    {
        if self.y < 0 {
            return 0;
        }
        let mut dy: i8 = 0;
        loop
            invariant
                *self == *old(self),
                0 <= self.y,
                -self.y <= dy <= 0,
                self.drop_distance(board@) == self.fall(board@, -dy as int),
            ensures
                -self.y <= dy <= 0,
                self.drop_distance(board@) == -dy,
            decreases self.y + dy + 1,
        {
            let drop = self.offset((0, dy - 1));
            if board.check_collision(drop) {
                break;
            }
            proof {
                if self.y + dy - 1 < 0 {
                    drop.lemma_sunk(board@);
                }
            }
            dy -= 1;
        }
        *self = self.offset((0, dy));
        dy
    }
}

/// What a clear of one line sends.
pub const SINGLE: u32 = 0;

/// What a clear of two lines sends.
pub const DOUBLE: u32 = 1;

/// What a clear of three lines sends.
pub const TRIPLE: u32 = 2;

/// What a clear of four lines sends.
pub const QUAD: u32 = 4;

/// What a spin that clears one line sends.
pub const SPIN_SINGLE: u32 = 2;

/// What a spin that clears two lines sends.
pub const SPIN_DOUBLE: u32 = 4;

/// What a spin that clears three lines or more sends.
pub const SPIN_TRIPLE: u32 = 6;

/// What a difficult clear after a difficult clear sends on top.
pub const B2B: u32 = 1;

/// The greatest combo; longer runs of clears send the same as this.
pub const MAX_COMBO: u32 = 9;

/// What a clear sends on top for the clears in a row before it.
pub open spec fn combo_bonus(combo: u32) -> u32 {
    if combo < 2 {
        0
    } else if combo < 5 {
        1
    } else if combo < 7 {
        2
    } else if combo < 9 {
        3
    } else {
        4
    }
}

/// Whether a clear is a difficult one: by a piece that cannot move, or of
/// four lines or more.
pub open spec fn difficult(cleared: i8, is_immobile: bool) -> bool {
    is_immobile || cleared >= 4
}

/// What a clear sends: nothing without a cleared line; else what the lines
/// send, with what a difficult clear after a difficult clear and the clears
/// in a row before it send on top.
pub open spec fn attack(cleared: i8, is_immobile: bool, b2b: bool, combo: u32) -> u32 {
    if cleared == 0 {
        0
    } else {
        let lines = if is_immobile {
            if cleared == 1 {
                SPIN_SINGLE
            } else if cleared == 2 {
                SPIN_DOUBLE
            } else {
                SPIN_TRIPLE
            }
        } else {
            if cleared == 1 {
                SINGLE
            } else if cleared == 2 {
                DOUBLE
            } else if cleared == 3 {
                TRIPLE
            } else {
                QUAD
            }
        };
        (lines + (if difficult(cleared, is_immobile) && b2b {
            B2B
        } else {
            0
        }) + combo_bonus(combo)) as u32
    }
}

/// The combo after a clear of `cleared` lines.
pub open spec fn combo_after(cleared: i8, combo: u32) -> u32 {
    if cleared == 0 {
        0
    } else if combo < MAX_COMBO {
        (combo + 1) as u32
    } else {
        MAX_COMBO
    }
}

fn combo_table(combo: u32) -> (bonus: u32)
    requires
        combo <= MAX_COMBO,
    ensures
        bonus == combo_bonus(combo),
{
    let table: [u32; 10] = [0, 0, 1, 1, 1, 2, 2, 3, 3, 4];
    table[combo as usize]
}

fn calculate_score(cleared: i8, is_immobile: bool, b2b: &mut bool, combo: &mut u32) -> (score: u32)
    requires
        *old(combo) <= MAX_COMBO,
    ensures
        score == attack(cleared, is_immobile, *old(b2b), *old(combo)),
        score <= 11,
        *final(combo) == combo_after(cleared, *old(combo)),
        *final(combo) <= MAX_COMBO,
        *final(b2b) == (if cleared == 0 {
            *old(b2b)
        } else {
            difficult(cleared, is_immobile)
        }),
{
    if cleared == 0 {
        *combo = 0;
        return 0;
    }
    let mut score;
    let b2b_clear;
    if is_immobile {
        if cleared == 1 {
            score = SPIN_SINGLE;
        } else if cleared == 2 {
            score = SPIN_DOUBLE;
        } else {
            /* 3, 4 */
            score = SPIN_TRIPLE;
        }
        b2b_clear = true;
    } else {
        if cleared == 1 {
            score = SINGLE;
        } else if cleared == 2 {
            score = DOUBLE;
        } else if cleared == 3 {
            score = TRIPLE;
        } else {
            /* 4 */
            score = QUAD;
        }
        b2b_clear = cleared >= 4;
    }
    if b2b_clear && *b2b {
        score += B2B;
    }
    *b2b = b2b_clear;
    score += combo_table(*combo);
    *combo = if *combo + 1 < MAX_COMBO {
        *combo + 1
    } else {
        MAX_COMBO
    };
    score
}

/// A line of garbage that waits to come up.
#[derive(Debug, Copy, Clone)]
pub struct GarbageLine {
    pub delay: u32,
}

/// What a player can do with the piece.
#[derive(Debug, Copy, Clone)]
pub enum Command {
    Hold,
    MoveLeft,
    MoveRight,
    RotateCw,
    RotateCcw,
    Drop,
    SonicDrop,
    HardDrop,
}

/// The pieces to come.
pub type Queue = VecDeque<Piece>;

/// The state of a game.
#[derive(Debug, Clone)]
pub struct GameState {
    pub board: Board,
    pub queue: Queue,
    pub garbage_queued: VecDeque<GarbageLine>,
    pub held: Option<Piece>,
    pub current: PieceData,
    pub can_hold: bool,
    pub combo: u32,
    pub b2b: bool,
    pub score: u32,
    pub pieces_placed: u32,
    pub dead: bool,
}

impl GameState {
    /// Whether the state is one that a game can go on from: the piece lies
    /// in the field, the board is not higher than a board can be, and the
    /// combo not greater than a combo can be.
    pub open spec fn wf(self) -> bool {
        &&& in_field(self.current)
        &&& self.board@.len() <= MAX_HEIGHT
        &&& self.combo <= MAX_COMBO
    }

    /// Whether the state is one that a game begins with: nothing is on the
    /// board, nothing is held or sent, and a piece has appeared that is,
    /// with the six pieces that follow it, one bag of all pieces, in
    /// whatever order.
    pub open spec fn fresh(self) -> bool {
        &&& self.board@.len() == 0
        &&& self.garbage_queued@.len() == 0
        &&& self.held.is_none()
        &&& self.can_hold
        &&& self.combo == 0
        &&& !self.b2b
        &&& self.score == 0
        &&& self.pieces_placed == 0
        &&& !self.dead
        &&& self.current == PieceData::spec_spawn(self.current.piece)
        &&& self.queue@.len() == QUEUE_FILL - 1
        &&& (seq![self.current.piece] + self.queue@).no_duplicates()
    }

    /// Whether `self` is what `before` is after a new piece has appeared:
    /// the queue was filled up with pieces from the bag, whichever they
    /// were, and its first piece appears and can be held.
    pub open spec fn spawned_from(self, before: GameState) -> bool {
        let piece = self.current.piece;
        &&& before.queue@.is_prefix_of(seq![piece] + self.queue@)
        &&& self.queue@.len() + 1 == (if before.queue@.len() < QUEUE_FILL {
            QUEUE_FILL as nat
        } else {
            before.queue@.len()
        })
        &&& self.current == PieceData::spec_spawn(piece)
        &&& self.dead == collides(before.board@, self.current)
        &&& self.can_hold
        &&& self.board == before.board
        &&& self.garbage_queued == before.garbage_queued
        &&& self.held == before.held
        &&& self.combo == before.combo
        &&& self.b2b == before.b2b
        &&& self.score == before.score
        &&& self.pieces_placed == before.pieces_placed
    }

    /// Whether `self` is what the game is after `cmd` on the state
    /// `before`, which has done something or not, as `done` says.
    pub open spec fn after(self, before: GameState, cmd: Command, done: bool) -> bool {
        match cmd {
            Command::MoveLeft | Command::Drop => self.moved_from(
                before,
                before.current.moved(before.board@, (-1i8, 0)),
                done,
            ),
            Command::MoveRight => self.moved_from(before, before.current.moved(before.board@, (1, 0)), done),
            Command::RotateCw => self.moved_from(
                before,
                before.current.turned_to(before.board@, Rotation::from_index(before.current.rotation.index() + 1)),
                done,
            ),
            Command::RotateCcw => self.moved_from(
                before,
                before.current.turned_to(before.board@, Rotation::from_index(before.current.rotation.index() + 3)),
                done,
            ),
            Command::SonicDrop => !done && self.current == before.current.spec_offset(
                (0, (-before.current.drop_distance(before.board@)) as i8),
            ) && self.same_but_piece(before),
            Command::Hold => {
                if !before.can_hold || (before.held.is_none() && before.queue@.len() == 0) {
                    !done && self == before
                } else {
                    &&& done
                    &&& self.held == Some(before.current.piece)
                    &&& !self.can_hold
                    &&& self.board == before.board
                    &&& self.score == before.score
                    &&& self.pieces_placed == before.pieces_placed
                    &&& self.combo == before.combo
                    &&& self.b2b == before.b2b
                    &&& self.current == PieceData::spec_spawn(self.current.piece)
                    &&& self.dead == collides(before.board@, self.current)
                    &&& (match before.held {
                        Some(held) => seq![held] + before.queue@,
                        None => before.queue@,
                    }).is_prefix_of(seq![self.current.piece] + self.queue@)
                }
            },
            Command::HardDrop => {
                let placed = before.current.spec_offset((0, (-before.current.drop_distance(before.board@)) as i8));
                let stuck = immobile(before.board@, placed);
                if !below_top(placed) {
                    !done && self.current == placed && self.same_but_piece(before)
                } else {
                &&& done
                &&& self.current == placed
                &&& exists|filled: Seq<[Block; 10]>|
                    {
                        &&& #[trigger] filled.len() <= MAX_HEIGHT
                        &&& forall|x: int, y: int|
                            #[trigger] block_at(filled, x, y) == (if exists|k: int|
                                0 <= k < 4 && placed.coord(k) == (x as i8, y as i8) && i8::MIN <= x
                                    <= i8::MAX && i8::MIN <= y <= i8::MAX {
                                Some(placed.piece.block())
                            } else {
                                block_at(before.board@, x, y)
                            })
                        &&& self.board@ == filled.filter(not_full())
                        &&& self.score == before.score + attack(
                            (filled.len() - self.board@.len()) as i8,
                            stuck,
                            before.b2b,
                            before.combo,
                        )
                        &&& self.combo == combo_after((filled.len() - self.board@.len()) as i8, before.combo)
                        &&& self.b2b == (if filled.len() == self.board@.len() {
                            before.b2b
                        } else {
                            difficult((filled.len() - self.board@.len()) as i8, stuck)
                        })
                        &&& self.garbage_queued@ == before.garbage_queued@.skip(
                            if before.garbage_queued@.len() < self.score - before.score {
                                before.garbage_queued@.len() as int
                            } else {
                                self.score - before.score
                            },
                        )
                    }
                &&& self.pieces_placed == before.pieces_placed + 1
                &&& self.queue == before.queue
                &&& self.held == before.held
                &&& self.can_hold == before.can_hold
                &&& self.dead == before.dead
                }
            },
        }
    }

    /// Whether nothing but the piece has changed from the state `before`.
    pub open spec fn same_but_piece(self, before: GameState) -> bool {
        &&& self.board == before.board
        &&& self.queue == before.queue
        &&& self.garbage_queued == before.garbage_queued
        &&& self.held == before.held
        &&& self.can_hold == before.can_hold
        &&& self.combo == before.combo
        &&& self.b2b == before.b2b
        &&& self.score == before.score
        &&& self.pieces_placed == before.pieces_placed
        &&& self.dead == before.dead
    }

    /// Whether the piece has moved to where `moved` has it, if it has it
    /// anywhere, and nothing else has changed from the state `before`.
    pub open spec fn moved_from(self, before: GameState, moved: Option<PieceData>, done: bool) -> bool {
        &&& done == moved.is_some()
        &&& self.current == (match moved {
            Some(data) => data,
            None => before.current,
        })
        &&& self.same_but_piece(before)
    }

    /// Whether `self` is what the game is after the commands from the
    /// `i`-th on, and a hard drop after them, on the state `before`.
    pub open spec fn after_all(self, before: GameState, cmds: Seq<Command>, i: int) -> bool
        decreases cmds.len() - i,
    {
        if 0 <= i < cmds.len() {
            exists|mid: GameState, done: bool| #[trigger]
                mid.after(before, cmds[i], done) && self.after_all(mid, cmds, i + 1)
        } else {
            self.after(before, Command::HardDrop, true) || self.after(before, Command::HardDrop, false)
        }
    }
}

/// Whether every square of the piece lies below the height [`MAX_HEIGHT`].
fn lies_below_top(piece_data: PieceData) -> (below: bool)
    ensures
        below == below_top(piece_data),
{
    let coords = piece_data.coords();
    let mut k: usize = 0;
    while k < 4
        invariant
            0 <= k <= 4,
            coords@ == piece_data.spec_coords(),
            forall|j: int| 0 <= j < k ==> (#[trigger] piece_data.coord(j)).1 < MAX_HEIGHT,
        decreases 4 - k,
    {
        assert(coords@[k as int] == piece_data.coord(k as int));
        if coords[k].1 == i8::MAX {
            return false;
        }
        k += 1;
    }
    true
}

/// A piece that collides with nothing lies in the field.
pub proof fn lemma_free_in_field(rows: Seq<[Block; 10]>, data: PieceData)
    requires
        !collides(rows, data),
    ensures
        in_field(data),
{
    assert forall|k: int| 0 <= k < 4 implies 0 <= (#[trigger] data.coord(k)).0 < WIDTH && 0
        <= data.coord(k).1 by {
        assert(block_at(rows, data.coord(k).0 as int, data.coord(k).1 as int).is_none());
    }
}

/// A piece lies in the field where it appears.
pub proof fn lemma_spawn_in_field(piece: Piece)
    ensures
        in_field(PieceData::spec_spawn(piece)),
{
    let data = PieceData::spec_spawn(piece);
    assert forall|k: int| 0 <= k < 4 implies 0 <= (#[trigger] data.coord(k)).0 < WIDTH && 0
        <= data.coord(k).1 by {
        assert(piece.spec_north_coords().len() == 4);
    }
}

/// `rand::rngs::SmallRng`, the generator that shuffles the bags. Verus
/// knows nothing of what is inside.
#[verifier::external_type_specification]
#[verifier::external_body]
pub struct ExSmallRng(SmallRng);

/// `rand::rngs::ThreadRng`, the generator of the thread.
#[verifier::external_type_specification]
#[verifier::external_body]
pub struct ExThreadRng(ThreadRng);

/// `rand::thread_rng` hands out the generator of the thread, which the
/// system has seeded.
#[verifier::external_body]
fn thread_rng() -> (rng: ThreadRng) {
    rand::thread_rng()
}

/// `Rng::gen` draws a number; nothing is said of which.
#[verifier::external_body]
fn draw_seed(rng: &mut ThreadRng) -> (seed: u64) {
    rng.gen()
}

/// `SeedableRng::seed_from_u64` makes a generator from a seed.
#[verifier::external_body]
fn rng_from_seed(seed: u64) -> (rng: SmallRng) {
    SmallRng::seed_from_u64(seed)
}

/// `Rng::gen_range` draws a number of the range `0..n`, which must not be
/// empty; nothing is said of which.
#[verifier::external_body]
fn draw_index(rng: &mut SmallRng, n: usize) -> (i: usize)
    requires
        n > 0,
    ensures
        i < n,
{
    rng.gen_range(0..n)
}

/// Whether `queue` holds the pieces that were drawn from one bag, of which
/// `bag` holds the rest: no piece is there twice, and either all seven are
/// there or nothing has been drawn from the bag yet, which is empty.
pub open spec fn dealt_from_one_bag(queue: Seq<Piece>, bag: Seq<Piece>) -> bool {
    &&& (queue + bag).no_duplicates()
    &&& queue.len() + bag.len() == 7 || (queue.len() == 0 && bag.len() == 0)
}

/// A piece that is drawn from the bag of the moment, or from a bag of all
/// pieces if the bag is empty, leaves a queue and a bag from one bag.
proof fn lemma_dealt(queue: Seq<Piece>, bag: Seq<Piece>, i: int)
    requires
        0 <= i < bag.len(),
        dealt_from_one_bag(queue, bag) || (queue.len() == 0 && bag == seq![
            Piece::I,
            Piece::O,
            Piece::J,
            Piece::L,
            Piece::S,
            Piece::Z,
            Piece::T,
        ]),
    ensures
        dealt_from_one_bag(queue.push(bag[i]), bag.update(i, bag.last()).drop_last()),
{
    let before = queue + bag;
    let rest = bag.update(i, bag.last()).drop_last();
    let after = queue.push(bag[i]) + rest;
    assert(before.no_duplicates()) by {
        if queue.len() == 0 {
            assert(before =~= bag);
        }
    }
    let n = queue.len() as int;
    let m = bag.len() as int;
    assert forall|a: int, b: int| 0 <= a < after.len() && 0 <= b < after.len() && a != b implies after[a]
        != after[b] by {
        // where a piece of the queue and the bag after the draw stood before it
        let from = |k: int|
            if k < n {
                k
            } else if k == n {
                n + i
            } else if k - n - 1 == i {
                n + m - 1
            } else {
                k - 1
            };
        assert(after[a] == before[from(a)]);
        assert(after[b] == before[from(b)]);
        assert(from(a) != from(b));
    }
}

/// Deals the piece that was drawn from the bag: the `i`-th piece leaves the
/// bag, where the last piece of the bag takes its place, and goes to the
/// end of the queue.
pub fn deal(bag: &mut Vec<Piece>, queue: &mut Queue, i: usize)
    requires
        i < old(bag)@.len(),
    ensures
        final(bag)@ == old(bag)@.update(i as int, old(bag)@.last()).drop_last(),
        final(queue)@ == old(queue)@.push(old(bag)@[i as int]),
{
    let pc = bag.swap_remove(i);
    queue.push_back(pc);
}

/// A game: its state, and the bag that the pieces to come are drawn from.
#[derive(Debug)]
pub struct Game {
    pub state: GameState,
    rng: SmallRng,
    bag: Vec<Piece>,
}

impl View for Game {
    type V = GameState;

    closed spec fn view(&self) -> GameState {
        self.state
    }
}

impl Deref for Game {
    type Target = GameState;

    fn deref(&self) -> (state: &GameState)
        ensures
            *state == self@,
    {
        &self.state
    }
}

/// The number of pieces that the queue is filled up to before a piece is
/// taken from it.
pub const QUEUE_FILL: usize = 7;

impl Game {
    /// The pieces that are left in the bag.
    pub closed spec fn bag(self) -> Seq<Piece> {
        self.bag@
    }

    /// Whether the counters have room for `n` more hard drops.
    pub open spec fn has_room(self, n: int) -> bool {
        &&& self@.score + 11 * n <= u32::MAX
        &&& self@.pieces_placed + n <= u32::MAX
    }

    /// A new game, with bags shuffled by chance.
    pub fn new() -> (game: Game)
        ensures
            game@.wf(),
            game@.fresh(),
    {
        let mut rng = thread_rng();
        Self::new_seeded(draw_seed(&mut rng))
    }

    /// A new game, with bags shuffled as the seed `s` has it.
    pub fn new_seeded(s: u64) -> (game: Game)
        ensures
            game@.wf(),
            game@.fresh(),
    {
        Self::with_rng(rng_from_seed(s))
    }

    fn with_rng(rng: SmallRng) -> (game: Game)
        ensures
            game@.wf(),
            game@.fresh(),
    {
        let mut this = Game {
            state: GameState {
                board: Board::new(),
                queue: VecDeque::with_capacity(6),
                garbage_queued: VecDeque::new(),
                held: None,
                current: PieceData::spawn(Piece::O),
                can_hold: true,
                combo: 0,
                b2b: false,
                score: 0,
                pieces_placed: 0,
                dead: false,
            },
            rng,
            bag: Vec::with_capacity(7),
        };
        proof {
            lemma_spawn_in_field(Piece::O);
        }
        this.spawn_piece();
        proof {
            lemma_spawn_in_field(this.state.current.piece);
            lemma_free_on_empty(this.state.board@, this.state.current);
        }
        this
    }

    /// Performs the commands, one after the other, and a hard drop after
    /// them.
    pub fn perform_commands(&mut self, cmds: &[Command])
        requires
            old(self)@.wf(),
            old(self).has_room(cmds@.len() as int + 1),
        ensures
            final(self)@.wf(),
            final(self)@.pieces_placed >= old(self)@.pieces_placed,
            final(self)@.after_all(old(self)@, cmds@, 0),
    {
        let n = cmds.len();
        let mut i: usize = 0;
        while i < n
            invariant
                0 <= i <= n,
                n == cmds@.len(),
                self.state.wf(),
                self.has_room(n - i + 1),
                self.state.pieces_placed >= old(self)@.pieces_placed,
                forall|end: GameState|
                    end.after_all(self.state, cmds@, i as int) ==> #[trigger] end.after_all(
                        old(self)@,
                        cmds@,
                        0,
                    ),
            decreases n - i,
        {
            let ghost before = self.state;
            let done = self.perform_command(cmds[i]);
            proof {
                assert forall|end: GameState| end.after_all(self.state, cmds@, i + 1) implies #[trigger]
                    end.after_all(old(self)@, cmds@, 0) by {
                    assert(self.state.after(before, cmds@[i as int], done));
                    assert(end.after_all(before, cmds@, i as int));
                }
            }
            i += 1;
        }
        self.perform_command(Command::HardDrop);
    }

    /// Performs the command, and returns whether it has done anything.
    pub fn perform_command(&mut self, cmd: Command) -> (done: bool)
        requires
            old(self)@.wf(),
            old(self).has_room(1),
        ensures
            final(self)@.wf(),
            final(self)@.score <= old(self)@.score + 11,
            old(self)@.pieces_placed <= final(self)@.pieces_placed <= old(self)@.pieces_placed + 1,
            cmd is HardDrop && done ==> final(self)@.pieces_placed == old(self)@.pieces_placed + 1,
            final(self)@.after(old(self)@, cmd, done),
    {
        let ghost before = self.state;
        match cmd {
            Command::MoveLeft => {
                let done = self.state.current.try_offset((-1, 0), &self.state.board);
                proof {
                    if done {
                        lemma_free_in_field(self.state.board@, self.state.current);
                    }
                }
                done
            },
            Command::MoveRight => {
                let done = self.state.current.try_offset((1, 0), &self.state.board);
                proof {
                    if done {
                        lemma_free_in_field(self.state.board@, self.state.current);
                    }
                }
                done
            },
            Command::Drop => {
                let done = self.state.current.try_offset((-1, 0), &self.state.board);
                proof {
                    if done {
                        lemma_free_in_field(self.state.board@, self.state.current);
                    }
                }
                done
            },
            Command::RotateCw => {
                let done = self.state.current.try_rotate_cw(&self.state.board);
                proof {
                    if done {
                        before.current.lemma_turned_free(
                            before.board@,
                            Rotation::from_index(before.current.rotation.index() + 1),
                        );
                        lemma_free_in_field(self.state.board@, self.state.current);
                    }
                }
                done
            },
            Command::RotateCcw => {
                let done = self.state.current.try_rotate_ccw(&self.state.board);
                proof {
                    if done {
                        before.current.lemma_turned_free(
                            before.board@,
                            Rotation::from_index(before.current.rotation.index() + 3),
                        );
                        lemma_free_in_field(self.state.board@, self.state.current);
                    }
                }
                done
            },
            Command::SonicDrop => {
                proof {
                    before.current.lemma_dropped_in_field(before.board@);
                }
                self.state.current.sonic_drop(&self.state.board) > 0
            },
            Command::Hold => {
                if !self.state.can_hold {
                    return false;
                }
                match self.state.held {
                    Some(held) => {
                        self.state.queue.push_front(held);
                    },
                    None => {
                        if self.state.queue.len() == 0 {
                            return false;
                        }
                    },
                }
                self.state.held = Some(self.state.current.piece);
                let ghost held = self.state;
                self.spawn_piece();
                self.state.can_hold = false;
                proof {
                    lemma_spawn_in_field(self.state.current.piece);
                    assert(held.queue@ == (match before.held {
                        Some(piece) => seq![piece] + before.queue@,
                        None => before.queue@,
                    })) by {
                        if before.held.is_some() {
                            assert(held.queue@ =~= seq![before.held.unwrap()] + before.queue@);
                        }
                    }
                }
                true
            },
            Command::HardDrop => {
                proof {
                    before.current.lemma_dropped_in_field(before.board@);
                }
                self.state.current.sonic_drop(&self.state.board);
                if !lies_below_top(self.state.current) {
                    // the board has no room for a piece that high
                    return false;
                }
                let immobile = self.state.board.check_immobile(self.state.current);
                self.state.board.place_piece(self.state.current);
                let ghost filled = self.state.board@;
                let cleared = self.state.board.clear_lines();
                let mut b2b = self.state.b2b;
                let mut combo = self.state.combo;
                let score = calculate_score(cleared, immobile, &mut b2b, &mut combo);
                self.state.b2b = b2b;
                self.state.combo = combo;
                /* the multiplier of the score is not applied */
                let (_cancel, _attack) = self.cancel_garbage(score);
                self.state.score += score;
                self.state.pieces_placed += 1;
                proof {
                    assert(filled.len() <= MAX_HEIGHT);
                    assert(self.state.board@ == filled.filter(not_full()));
                    assert(cleared == filled.len() - self.state.board@.len());
                }
                true
            },
        }
    }

    /// Fills the queue up from the bag, which is filled with all pieces
    /// when it is empty, and lets the first piece of the queue appear.
    fn spawn_piece(&mut self)
        ensures
            final(self)@.spawned_from(old(self)@),
            old(self).bag().len() == 0 && old(self)@.queue@.len() == 0 ==> (seq![
                final(self)@.current.piece,
            ] + final(self)@.queue@).no_duplicates(),
    {
        let ghost before = self.state.queue@;
        let ghost whole = self.bag@.len() == 0 && before.len() == 0;
        while self.state.queue.len() < QUEUE_FILL
            invariant
                whole ==> dealt_from_one_bag(self.state.queue@, self.bag@),
                self.state.board == old(self)@.board,
                self.state.garbage_queued == old(self)@.garbage_queued,
                self.state.held == old(self)@.held,
                self.state.combo == old(self)@.combo,
                self.state.b2b == old(self)@.b2b,
                self.state.score == old(self)@.score,
                self.state.pieces_placed == old(self)@.pieces_placed,
                before == old(self)@.queue@,
                before.is_prefix_of(self.state.queue@),
                self.state.queue@.len() <= QUEUE_FILL || self.state.queue@ == before,
            decreases QUEUE_FILL - self.state.queue@.len(),
        {
            if self.bag.len() == 0 {
                let all = all_pieces();
                self.bag.extend_from_slice(vstd::array::array_as_slice(&all));
                assert(self.bag@ =~= all@);
            }
            let ghost queue = self.state.queue@;
            let ghost bag = self.bag@;
            let i = draw_index(&mut self.rng, self.bag.len());
            deal(&mut self.bag, &mut self.state.queue, i);
            proof {
                if whole {
                    lemma_dealt(queue, bag, i as int);
                }
            }
        }
        let ghost filled = self.state.queue@;
        let piece = match self.state.queue.pop_front() {
            Some(piece) => piece,
            None => {
                proof {
                    assert(false);
                }
                Piece::O
            },
        };
        proof {
            assert(seq![piece] + self.state.queue@ =~= filled);
        }
        self.state.current = PieceData::spawn(piece);
        self.state.dead = self.state.board.check_collision(self.state.current);
        self.state.can_hold = true;
    }

    /// Takes as many lines of garbage from those that wait as the attack
    /// cancels, and returns how many it has taken and what is left of the
    /// attack.
    fn cancel_garbage(&mut self, attack: u32) -> (cancelled: (u32, u32))
        ensures
            cancelled.0 == (if old(self)@.garbage_queued@.len() < attack {
                old(self)@.garbage_queued@.len() as int
            } else {
                attack as int
            }),
            cancelled.1 == attack - cancelled.0,
            final(self)@.garbage_queued@ == old(self)@.garbage_queued@.skip(cancelled.0 as int),
            final(self)@.board == old(self)@.board,
            final(self)@.queue == old(self)@.queue,
            final(self)@.held == old(self)@.held,
            final(self)@.current == old(self)@.current,
            final(self)@.can_hold == old(self)@.can_hold,
            final(self)@.combo == old(self)@.combo,
            final(self)@.b2b == old(self)@.b2b,
            final(self)@.score == old(self)@.score,
            final(self)@.pieces_placed == old(self)@.pieces_placed,
            final(self)@.dead == old(self)@.dead,
    {
        let waiting = self.state.garbage_queued.len();
        let cancel: u32 = if waiting < attack as usize {
            waiting as u32
        } else {
            attack
        };
        let mut i: u32 = 0;
        while i < cancel
            invariant
                0 <= i <= cancel <= old(self)@.garbage_queued@.len(),
                self.state.garbage_queued@ == old(self)@.garbage_queued@.skip(i as int),
                self.state.board == old(self)@.board,
                self.state.queue == old(self)@.queue,
                self.state.held == old(self)@.held,
                self.state.current == old(self)@.current,
                self.state.can_hold == old(self)@.can_hold,
                self.state.combo == old(self)@.combo,
                self.state.b2b == old(self)@.b2b,
                self.state.score == old(self)@.score,
                self.state.pieces_placed == old(self)@.pieces_placed,
                self.state.dead == old(self)@.dead,
            decreases cancel - i,
        {
            self.state.garbage_queued.pop_front();
            assert(self.state.garbage_queued@ =~= old(self)@.garbage_queued@.skip(i + 1));
            i += 1;
        }
        (cancel, attack - cancel)
    }
}

/// A piece where it appears collides with nothing on a board without rows.
pub proof fn lemma_free_on_empty(rows: Seq<[Block; 10]>, data: PieceData)
    requires
        rows.len() == 0,
        in_field(data),
    ensures
        !collides(rows, data),
{
}

impl PieceData {
    /// A piece that has turned collides with nothing.
    pub proof fn lemma_turned_free(self, rows: Seq<[Block; 10]>, r: Rotation)
        ensures
            self.turned_to(rows, r) matches Some(data) ==> !collides(rows, data),
    {
        self.lemma_kicked_free(rows, self.piece.spec_wall_kicks(self.rotation, r), r, 0);
    }

    proof fn lemma_kicked_free(self, rows: Seq<[Block; 10]>, kicks: Seq<(i8, i8)>, r: Rotation, from: int)
        ensures
            self.kicked(rows, kicks, r, from) matches Some(data) ==> !collides(rows, data),
        decreases kicks.len() - from,
    {
        if 0 <= from < kicks.len() {
            self.lemma_kicked_free(rows, kicks, r, from + 1);
        }
    }

    /// A piece in the field is in the field where a sonic drop takes it.
    pub proof fn lemma_dropped_in_field(self, rows: Seq<[Block; 10]>)
        requires
            in_field(self),
        ensures
            in_field(self.spec_offset((0, (-self.drop_distance(rows)) as i8))),
    {
        if self.y >= 0 {
            self.lemma_fall(rows, 0);
            let k = self.fall(rows, 0);
            if k > 0 {
                lemma_free_in_field(rows, self.spec_offset((0, (-k) as i8)));
            } else {
                assert(self.spec_offset((0, 0)) == self);
            }
        } else {
            assert(self.spec_offset((0, 0)) == self);
        }
    }

    /// Where a fall of at least one row ends, the piece collides with
    /// nothing.
    proof fn lemma_fall(self, rows: Seq<[Block; 10]>, k: int)
        requires
            0 <= k <= self.y + 1,
            self.y <= i8::MAX,
            k > 0 ==> !collides(rows, self.spec_offset((0, (-k) as i8))),
        ensures
            k <= self.fall(rows, k) <= self.y + 1,
            self.fall(rows, k) > 0 ==> !collides(rows, self.spec_offset((0, (-self.fall(rows, k)) as i8))),
        decreases self.y - k + 1,
    {
        if !(self.y - k < 0 || collides(rows, self.spec_offset((0, (-(k + 1)) as i8)))) {
            self.lemma_fall(rows, k + 1);
        }
    }
}

} // verus!
