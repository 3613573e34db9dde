//! Where a piece can come to rest, and the shortest way there.

use core::ops::Deref;
use vstd::prelude::*;
use vstd::std_specs::convert::FromSpecImpl;

use crate::input::Dir;
use crate::input::Input;
use crate::input::Turn;
use crate::matrix::Mat;
use crate::piece::Cells;
use crate::piece::Piece;
use crate::piece::Pos;
use crate::piece::Shape;
use crate::piece::Spawn;
use crate::piece::WallKicks;
use crate::visited::PosSet;

pub use crate::shortest_path::reach;

verus! {

/// The piece after one input. An input that the matrix does not allow
/// leaves the piece where it is.
#[verifier::opaque]
pub open spec fn step<T: Shape + WallKicks>(p: Piece<T>, rows: Seq<u16>, input: Input) -> Piece<T> {
    match input {
        Input::Left => match p.shifted(rows, Dir::Left) {
            Some(q) => q,
            None => p,
        },
        Input::Right => match p.shifted(rows, Dir::Right) {
            Some(q) => q,
            None => p,
        },
        Input::Cw => match p.rotated(rows, Turn::Cw) {
            Some(q) => q,
            None => p,
        },
        Input::Ccw => match p.rotated(rows, Turn::Ccw) {
            Some(q) => q,
            None => p,
        },
        Input::SonicDrop => p.dropped(rows),
    }
}

/// The piece after a sequence of inputs.
pub open spec fn run<T: Shape + WallKicks>(p: Piece<T>, rows: Seq<u16>, inputs: Seq<Input>) -> Piece<T>
    decreases inputs.len(),
{
    if inputs.len() == 0 {
        p
    } else {
        step(run(p, rows, inputs.drop_last()), rows, inputs.last())
    }
}

/// Whether some sequence of inputs takes the shape from where it appears to
/// the position `pos`.
pub open spec fn reachable<T: Shape + WallKicks + Spawn>(rows: Seq<u16>, shape: T, pos: Pos) -> bool {
    exists|inputs: Seq<Input>| #[trigger] run(Piece::spec_spawn(shape), rows, inputs).pos == pos
}

/// Whether the shape can be placed at `pos`: it fits where it appears, some
/// sequence of inputs takes it to `pos`, and there it rests on the stack.
pub open spec fn lands<T: Shape + WallKicks + Spawn>(rows: Seq<u16>, shape: T, pos: Pos) -> bool {
    &&& Piece::spec_spawn(shape).fits(rows)
    &&& reachable(rows, shape, pos)
    &&& Piece::spec_spawn(shape).at(pos).drop_distance(rows) == 0
}

/// The positions at which the shape can be placed.
pub open spec fn landings<T: Shape + WallKicks + Spawn>(rows: Seq<u16>, shape: T) -> Set<Pos> {
    Set::new(|pos: Pos| lands(rows, shape, pos))
}

/// What a shift makes of a piece.
pub proof fn lemma_step_shift<T: Shape + WallKicks>(p: Piece<T>, rows: Seq<u16>, dir: Dir)
    ensures
        step(p, rows, dir.input()) == (match p.shifted(rows, dir) {
            Some(q) => q,
            None => p,
        }),
{
    reveal(step);
}

/// What a turn makes of a piece.
pub proof fn lemma_step_turn<T: Shape + WallKicks>(p: Piece<T>, rows: Seq<u16>, dr: Turn)
    ensures
        step(p, rows, dr.input()) == (match p.rotated(rows, dr) {
            Some(q) => q,
            None => p,
        }),
{
    reveal(step);
}

/// What a sonic drop makes of a piece.
pub proof fn lemma_step_drop<T: Shape + WallKicks>(p: Piece<T>, rows: Seq<u16>)
    ensures
        step(p, rows, Input::SonicDrop) == p.dropped(rows),
        p.drop_distance(rows) == 0 ==> p.dropped(rows) == p,
{
    reveal(step);
}

/// No input changes the shape of a piece.
pub proof fn lemma_step_shape<T: Shape + WallKicks>(p: Piece<T>, rows: Seq<u16>, input: Input)
    ensures
        step(p, rows, input) == p.at(step(p, rows, input).pos),
{
    reveal(step);
    lemma_kick_shape(p, rows, Turn::Cw);
    lemma_kick_shape(p, rows, Turn::Ccw);
}

proof fn lemma_kick_shape<T: Shape + WallKicks>(p: Piece<T>, rows: Seq<u16>, dr: Turn)
    ensures
        p.rotated(rows, dr) matches Some(q) ==> q.shape == p.shape,
{
    lemma_first_kick_shape(p, rows, p.shape.spec_wall_kicks(p.pos.r, dr), p.pos.r.turned(dr), 0);
}

proof fn lemma_first_kick_shape<T: Shape + WallKicks>(
    p: Piece<T>,
    rows: Seq<u16>,
    kicks: Seq<(i8, i8)>,
    r: crate::input::Rot,
    from: int,
)
    ensures
        p.first_kick(rows, kicks, r, from) matches Some(q) ==> q.shape == p.shape,
    decreases kicks.len() - from,
{
    if 0 <= from < kicks.len() {
        lemma_first_kick_shape(p, rows, kicks, r, from + 1);
    }
}

/// No sequence of inputs changes the shape of a piece.
pub proof fn lemma_run_shape<T: Shape + WallKicks>(p: Piece<T>, rows: Seq<u16>, inputs: Seq<Input>)
    ensures
        run(p, rows, inputs) == p.at(run(p, rows, inputs).pos),
    decreases inputs.len(),
{
    if inputs.len() > 0 {
        lemma_run_shape(p, rows, inputs.drop_last());
        lemma_step_shape(run(p, rows, inputs.drop_last()), rows, inputs.last());
    }
}

/// Where the shape appears can be reached, with no input at all.
pub proof fn lemma_reachable_spawn<T: Shape + WallKicks + Spawn>(rows: Seq<u16>, shape: T)
    ensures
        reachable(rows, shape, Piece::spec_spawn(shape).pos),
{
    assert(run(Piece::spec_spawn(shape), rows, Seq::<Input>::empty()).pos == Piece::spec_spawn(
        shape,
    ).pos);
}

/// One input from a position that can be reached leads to a position that
/// can be reached.
pub proof fn lemma_reachable_step<T: Shape + WallKicks + Spawn>(
    rows: Seq<u16>,
    shape: T,
    pos: Pos,
    input: Input,
)
    requires
        reachable(rows, shape, pos),
    ensures
        reachable(rows, shape, step(Piece::spec_spawn(shape).at(pos), rows, input).pos),
{
    let spawn = Piece::spec_spawn(shape);
    let inputs = choose|inputs: Seq<Input>| #[trigger] run(spawn, rows, inputs).pos == pos;
    let more = inputs.push(input);
    lemma_run_shape(spawn, rows, inputs);
    assert(more.drop_last() =~= inputs);
    assert(run(spawn, rows, more).pos == step(spawn.at(pos), rows, input).pos);
}

/// The state of a walk over the positions that inputs lead a shape to: the
/// positions to go on from, the last of them first, and the positions that
/// the walk has come to.
pub struct Walk {
    pub stack: Seq<Pos>,
    pub seen: Set<Pos>,
}

/// The steps that a walk has at most: it comes to each position once and
/// goes on from each once.
pub const WALK_STEPS: u32 = 524289;

/// The shifts in one direction that a walk follows at most: after as many
/// the piece is where it was.
pub const DRIFT_STEPS: u32 = 256;

impl Walk {
    /// The walk after it has come to `pos`: a position that is new to it
    /// is one to go on from.
    pub open spec fn push(self, pos: Pos) -> Walk {
        if self.seen.contains(pos) {
            self
        } else {
            Walk { stack: self.stack.push(pos), seen: self.seen.insert(pos) }
        }
    }

    /// The walk after it has come to the position that a turn leads to
    /// from `from`, if the turn succeeds.
    pub open spec fn turn<T: Shape + WallKicks>(self, from: Piece<T>, rows: Seq<u16>, dr: Turn) -> Walk {
        match from.rotated(rows, dr) {
            Some(turned) => self.push(turned.pos),
            None => self,
        }
    }

    /// The walk after it has come to the positions that shifts in one
    /// direction lead to from `from`, one after the other, up to one that
    /// it had come to before.
    pub open spec fn drift<T: Shape + WallKicks>(
        self,
        from: Piece<T>,
        rows: Seq<u16>,
        dir: Dir,
        fuel: nat,
    ) -> Walk
        decreases fuel,
    {
        if fuel == 0 {
            self
        } else {
            match from.shifted(rows, dir) {
                Some(moved) => {
                    if self.seen.contains(moved.pos) {
                        self
                    } else {
                        self.push(moved.pos).drift(moved, rows, dir, (fuel - 1) as nat)
                    }
                },
                None => self,
            }
        }
    }

    /// The walk after it has gone on from the last of the positions to go
    /// on from, and that position if the piece rests there. The walk comes
    /// to the positions that a turn to the right, a turn to the left, the
    /// shifts to the left and the shifts to the right lead to, in this
    /// order, and then, if the piece does not rest, to the position that it
    /// drops to.
    pub open spec fn step<T: Shape + WallKicks>(self, shape: T, rows: Seq<u16>) -> (Walk, Option<Pos>) {
        let pos = self.stack.last();
        let piece = Piece::spawn_at(shape, pos);
        let walk = Walk { stack: self.stack.drop_last(), seen: self.seen };
        let walk = walk.turn(piece, rows, Turn::Cw);
        let walk = walk.turn(piece, rows, Turn::Ccw);
        let walk = walk.drift(piece, rows, Dir::Left, DRIFT_STEPS as nat);
        let walk = walk.drift(piece, rows, Dir::Right, DRIFT_STEPS as nat);
        if piece.drop_distance(rows) != 0 {
            (walk.push(piece.dropped(rows).pos), None)
        } else {
            (walk, Some(pos))
        }
    }

    /// The positions at which the piece rests, in the order in which the
    /// walk finds them in at most `fuel` steps.
    pub open spec fn emits<T: Shape + WallKicks>(self, shape: T, rows: Seq<u16>, fuel: nat) -> Seq<Pos>
        decreases fuel,
    {
        if fuel == 0 || self.stack.len() == 0 {
            Seq::empty()
        } else {
            let next = self.step(shape, rows);
            (match next.1 {
                Some(pos) => seq![pos],
                None => Seq::empty(),
            }) + next.0.emits(shape, rows, (fuel - 1) as nat)
        }
    }

    /// The walk that begins where the shape appears, if it fits there.
    pub open spec fn begin<T: Shape + Spawn>(shape: T, rows: Seq<u16>) -> Walk {
        let spawn = Piece::spec_spawn(shape);
        if spawn.fits(rows) {
            Walk { stack: seq![spawn.pos], seen: set![spawn.pos] }
        } else {
            Walk { stack: Seq::empty(), seen: Set::empty() }
        }
    }
}

/// Whether the walk `before` finds `pos` in `steps` steps and then goes on
/// as the walk `after`, whatever number of steps it is given, of those that
/// it has left.
pub open spec fn finds_in<T: Shape + WallKicks>(
    before: Walk,
    after: Walk,
    pos: Pos,
    shape: T,
    rows: Seq<u16>,
    before_fuel: nat,
    after_fuel: nat,
    steps: nat,
) -> bool {
    &&& steps >= 1
    &&& after_fuel + steps <= before_fuel
    &&& forall|g: nat|
        g >= before_fuel ==> #[trigger] before.emits(shape, rows, g) == seq![pos] + after.emits(
            shape,
            rows,
            (g - steps) as nat,
        )
}

/// Whether the walk `before` finds `item` next and then goes on as the walk
/// `after`, or finds nothing more if there is no item.
pub open spec fn hands_out<T: Shape + WallKicks>(
    before: Walk,
    after: Walk,
    item: Option<Pos>,
    shape: T,
    rows: Seq<u16>,
    before_fuel: nat,
    after_fuel: nat,
) -> bool {
    match item {
        Some(pos) => exists|steps: nat| #[trigger]
            finds_in(before, after, pos, shape, rows, before_fuel, after_fuel, steps),
        None => forall|g: nat|
            g >= before_fuel ==> #[trigger] before.emits(shape, rows, g) == Seq::<Pos>::empty(),
    }
}

/// The places of a shape in the order in which the search finds them.
#[verifier::opaque]
pub open spec fn places_order<T: Shape + WallKicks + Spawn>(rows: Seq<u16>, shape: T) -> Seq<Pos> {
    Walk::begin(shape, rows).emits(shape, rows, WALK_STEPS as nat)
}

/// The positions of the places in a list.
pub open spec fn positions<T>(found: Seq<PlacesResult<T>>) -> Seq<Pos> {
    Seq::new(found.len(), |k: int| found[k].falling_piece.pos)
}

/// Value returned by [`Places::next`], describing the final location and
/// the cells there, from which it can be told if the location is immobile.
#[derive(Copy, Clone, Debug)]
pub struct PlacesResult<T> {
    pub falling_piece: Piece<T>,
    pub cells: Cells,
}

impl<T> From<PlacesResult<T>> for Piece<T> {
    fn from(r: PlacesResult<T>) -> (piece: Piece<T>) {
        r.falling_piece
    }
}

impl<T> FromSpecImpl<PlacesResult<T>> for Piece<T> {
    open spec fn obeys_from_spec() -> bool {
        true
    }

    open spec fn from_spec(r: PlacesResult<T>) -> Piece<T> {
        r.falling_piece
    }
}

impl<T> Deref for PlacesResult<T> {
    type Target = Piece<T>;

    fn deref(&self) -> (piece: &Piece<T>)
        ensures
            *piece == self.falling_piece,
    {
        &self.falling_piece
    }
}

/// The search for the places of a shape on a matrix: a depth-first walk
/// over the positions that inputs lead to, which hands out, one by one, the
/// positions at which the piece rests.
pub struct Places<'m, T> {
    matrix: Mat<'m>,
    piece: T,
    stack: Vec<Pos>,
    visited: PosSet,
}

impl<'m, T: Shape + WallKicks + Spawn + Copy> Places<'m, T> {
    /// The rows of the matrix that is searched.
    pub closed spec fn rows(self) -> Seq<u16> {
        self.matrix@
    }

    /// The shape that is placed.
    pub closed spec fn shape(self) -> T {
        self.piece
    }

    /// The shape at `pos`.
    pub open spec fn at(self, pos: Pos) -> Piece<T> {
        Piece::spec_spawn(self.shape()).at(pos)
    }

    /// Whether the search has come to `pos` and has gone on from there.
    pub closed spec fn done(self, pos: Pos) -> bool {
        self.visited.contains(pos) && !self.stack@.contains(pos)
    }

    /// The state of the walk.
    pub closed spec fn walk(self) -> Walk {
        Walk { stack: self.stack@, seen: Set::new(|pos: Pos| self.visited.contains(pos)) }
    }

    /// The places that have not been handed out yet.
    pub closed spec fn remaining(self) -> Set<Pos> {
        Set::new(|pos: Pos| lands(self.rows(), self.shape(), pos) && !self.done(pos))
    }

    /// A bound on the steps that the search has left: it goes down when the
    /// search goes on from a position, and when it comes to a new one.
    pub closed spec fn fuel(self) -> nat {
        2 * self.visited.room() + self.stack@.len()
    }

    /// The invariant of the search but for the position `hole`, from which
    /// the search is going on at the moment.
    #[verifier::opaque]
    closed spec fn inv(self, hole: Option<Pos>) -> bool {
        let spawn = Piece::spec_spawn(self.shape());
        &&& self.matrix.wf()
        &&& self.stack@.no_duplicates()
        &&& forall|i: int| 0 <= i < self.stack@.len() ==> self.visited.contains(#[trigger] self.stack@[i])
        &&& forall|pos: Pos| #[trigger]
            self.visited.contains(pos) ==> reachable(self.rows(), self.shape(), pos) && self.at(
                pos,
            ).fits(self.rows())
        &&& !spawn.fits(self.rows()) ==> self.visited.is_empty_spec()
        &&& forall|pos: Pos, input: Input|
            self.done(pos) && Some(pos) != hole ==> self.visited.contains(
                #[trigger] step(self.at(pos), self.rows(), input).pos,
            )
    }

    /// The invariant of the search.
    pub closed spec fn wf(self) -> bool {
        let spawn = Piece::spec_spawn(self.shape());
        &&& self.inv(None)
        &&& spawn.fits(self.rows()) ==> self.visited.contains(spawn.pos)
    }

    /// The search can go on from the position where it is going on from
    /// once it has come to each position that one input leads to.
    proof fn lemma_close_hole(self, pos: Pos)
        requires
            self.inv(Some(pos)),
            forall|input: Input|
                self.visited.contains(#[trigger] step(self.at(pos), self.rows(), input).pos),
        ensures
            self.inv(None),
    {
        reveal(Places::inv);
    }

    /// The search has come to no position that does not fit, nor to one
    /// that cannot be reached.
    proof fn lemma_visited(self, hole: Option<Pos>, pos: Pos)
        requires
            self.inv(hole),
            self.visited.contains(pos),
        ensures
            reachable(self.rows(), self.shape(), pos),
            self.at(pos).fits(self.rows()),
            Piece::spec_spawn(self.shape()).fits(self.rows()),
    {
        reveal(Places::inv);
        self.visited.lemma_not_empty(pos);
    }

    /// When the search has gone on from every position that it has come to,
    /// it has come to every position that can be reached.
    proof fn lemma_closed(self, inputs: Seq<Input>)
        requires
            self.wf(),
            self.stack@.len() == 0,
            Piece::spec_spawn(self.shape()).fits(self.rows()),
        ensures
            self.visited.contains(run(Piece::spec_spawn(self.shape()), self.rows(), inputs).pos),
        decreases inputs.len(),
    {
        let spawn = Piece::spec_spawn(self.shape());
        reveal(Places::inv);
        if inputs.len() > 0 {
            let before = run(spawn, self.rows(), inputs.drop_last());
            self.lemma_closed(inputs.drop_last());
            lemma_run_shape(spawn, self.rows(), inputs.drop_last());
            assert(self.done(before.pos));
            assert(self.visited.contains(step(self.at(before.pos), self.rows(), inputs.last()).pos));
        }
    }

    /// When the search has gone on from every position that it has come to,
    /// no place is left.
    proof fn lemma_exhausted(self)
        requires
            self.wf(),
            self.stack@.len() == 0,
        ensures
            self.remaining() == Set::<Pos>::empty(),
    {
        let spawn = Piece::spec_spawn(self.shape());
        assert forall|pos: Pos| !self.remaining().contains(pos) by {
            if lands(self.rows(), self.shape(), pos) {
                let inputs = choose|inputs: Seq<Input>| #[trigger]
                    run(spawn, self.rows(), inputs).pos == pos;
                self.lemma_closed(inputs);
            }
        }
        assert(self.remaining() =~= Set::<Pos>::empty());
    }

    /// Whether the search has gone on from `before` to `self`: on the same
    /// matrix and with the same shape, it has lost no position that it had
    /// come to, and finished with none.
    #[verifier::opaque]
    closed spec fn follows(self, before: Self) -> bool {
        &&& self.rows() == before.rows()
        &&& self.shape() == before.shape()
        &&& self.fuel() <= before.fuel()
        &&& forall|p: Pos| before.visited.contains(p) ==> self.visited.contains(p)
        &&& forall|p: Pos| self.done(p) == before.done(p)
    }

    proof fn lemma_follows_self(self)
        ensures
            self.follows(self),
    {
        reveal(Places::follows);
    }

    proof fn lemma_follows_trans(self, mid: Self, before: Self)
        requires
            self.follows(mid),
            mid.follows(before),
        ensures
            self.follows(before),
    {
        reveal(Places::follows);
    }

    proof fn lemma_follows(self, before: Self)
        requires
            self.follows(before),
        ensures
            self.rows() == before.rows(),
            self.shape() == before.shape(),
            self.fuel() <= before.fuel(),
            self.remaining() == before.remaining(),
    {
        reveal(Places::follows);
        assert(self.remaining() =~= before.remaining());
    }

    proof fn lemma_follows_visited(self, before: Self, pos: Pos)
        requires
            self.follows(before),
            before.visited.contains(pos),
        ensures
            self.visited.contains(pos),
    {
        reveal(Places::follows);
    }

    /// A search that has come nowhere yet has left every place.
    proof fn lemma_fresh(self, hole: Option<Pos>)
        requires
            self.matrix.wf(),
            self.stack@.len() == 0,
            forall|pos: Pos| !self.visited.contains(pos),
            self.visited.is_empty_spec(),
        ensures
            self.inv(hole),
            self.remaining() == landings(self.rows(), self.shape()),
    {
        reveal(Places::inv);
        assert(self.remaining() =~= landings(self.rows(), self.shape()));
    }

    /// A search that has come to the position where the shape appears, if
    /// the shape fits there, and nowhere else, can begin.
    proof fn lemma_started(self, fresh: Self)
        requires
            self.follows(fresh),
            self.inv(Some(Piece::spec_spawn(self.shape()).pos)),
            forall|pos: Pos| !fresh.visited.contains(pos),
            Piece::spec_spawn(self.shape()).fits(self.rows()) ==> self.visited.contains(
                Piece::spec_spawn(self.shape()).pos,
            ),
        ensures
            self.wf(),
            self.remaining() == fresh.remaining(),
            self.rows() == fresh.rows(),
            self.shape() == fresh.shape(),
    {
        reveal(Places::inv);
        reveal(Places::follows);
        assert forall|pos: Pos| !self.done(pos) by {
            assert(!fresh.done(pos));
        }
        assert(self.remaining() =~= fresh.remaining());
    }

    /// Returns true if the player is dead since the piece spawn was blocked.
    pub fn is_dead(&self) -> (dead: bool)
        requires
            self.wf(),
        ensures
            dead == !Piece::spec_spawn(self.shape()).fits(self.rows()),
    {
        proof {
            let spawn = Piece::spec_spawn(self.shape());
            reveal(Places::inv);
            if spawn.fits(self.rows()) {
                self.visited.lemma_not_empty(spawn.pos);
            } else if self.stack@.len() > 0 {
                self.visited.lemma_not_empty(self.stack@[0]);
            }
        }
        self.stack.is_empty() && self.visited.is_empty()
    }

    fn push(&mut self, pos: Pos, Ghost(hole): Ghost<Option<Pos>>) -> (fresh: bool)
        requires
            old(self).inv(hole),
            reachable(old(self).rows(), old(self).shape(), pos),
            old(self).at(pos).fits(old(self).rows()),
            Piece::spec_spawn(old(self).shape()).fits(old(self).rows()),
        ensures
            final(self).inv(hole),
            final(self).follows(*old(self)),
            final(self).visited.contains(pos),
            fresh ==> final(self).visited.room() < old(self).visited.room(),
            fresh == !old(self).visited.contains(pos),
            final(self).walk() == old(self).walk().push(pos),
    {
        proof {
            reveal(Places::inv);
            reveal(Places::follows);
        }
        if !self.visited.insert(pos) {
            proof {
                assert(self.walk().seen =~= old(self).walk().seen);
            }
            return false;
        }
        self.stack.push(pos);
        proof {
            let before = old(self).stack@;
            assert forall|p: Pos| self.stack@.contains(p) == (before.contains(p) || p == pos) by {
                if before.contains(p) {
                    let i = choose|i: int| 0 <= i < before.len() && before[i] == p;
                    assert(self.stack@[i] == p);
                }
                if p == pos {
                    assert(self.stack@[before.len() as int] == p);
                }
            }
            assert(!before.contains(pos));
            assert(self.walk().seen =~= old(self).walk().seen.insert(pos));
        }
        true
    }

    fn pop(&mut self) -> (piece: Option<Piece<T>>)
        requires
            old(self).wf(),
        ensures
            final(self).rows() == old(self).rows(),
            final(self).shape() == old(self).shape(),
            match piece {
                Some(piece) => {
                    &&& final(self).inv(Some(piece.pos))
                    &&& piece == final(self).at(piece.pos)
                    &&& final(self).visited.contains(piece.pos)
                    &&& forall|p: Pos| final(self).done(p) == (old(self).done(p) || p == piece.pos)
                    &&& !old(self).done(piece.pos)
                    &&& final(self).fuel() + 1 == old(self).fuel()
                    &&& Piece::spec_spawn(final(self).shape()).fits(final(self).rows())
                    &&& final(self).visited.contains(Piece::spec_spawn(final(self).shape()).pos)
                    &&& old(self).walk().stack.len() > 0
                    &&& piece.pos == old(self).walk().stack.last()
                    &&& final(self).walk() == (Walk {
                        stack: old(self).walk().stack.drop_last(),
                        seen: old(self).walk().seen,
                    })
                },
                None => {
                    &&& final(self).wf()
                    &&& final(self).stack@.len() == 0
                    &&& final(self).remaining() == old(self).remaining()
                    &&& final(self).fuel() == old(self).fuel()
                    &&& old(self).walk().stack.len() == 0
                },
            },
    {
        proof {
            reveal(Places::inv);
        }
        match self.stack.pop() {
            Some(pos) => {
                proof {
                    let before = old(self).stack@;
                    let n = before.len() - 1;
                    assert(before[n] == pos);
                    assert(self.stack@ == before.drop_last());
                    assert(old(self).visited.contains(pos));
                    old(self).visited.lemma_not_empty(pos);
                    assert forall|p: Pos| self.stack@.contains(p) == (before.contains(p) && p != pos) by {
                        if self.stack@.contains(p) {
                            let i = choose|i: int| 0 <= i < self.stack@.len() && self.stack@[i] == p;
                            assert(before[i] == p);
                        }
                        if before.contains(p) && p != pos {
                            let i = choose|i: int| 0 <= i < before.len() && before[i] == p;
                            assert(self.stack@[i] == p);
                        }
                    }
                    assert(self.stack@.no_duplicates());
                }
                Some(Piece { shape: self.piece, pos })
            },
            None => {
                proof {
                    assert(self.stack@ == old(self).stack@);
                    assert(self.remaining() =~= old(self).remaining());
                }
                None
            },
        }
    }

    /// Comes to the position that a turn leads to from `piece`.
    fn turn_from(&mut self, piece: Piece<T>, dr: Turn, Ghost(hole): Ghost<Option<Pos>>)
        requires
            old(self).inv(hole),
            old(self).visited.contains(piece.pos),
            piece == old(self).at(piece.pos),
        ensures
            final(self).inv(hole),
            final(self).follows(*old(self)),
            final(self).visited.contains(
                step(piece, old(self).rows(), dr.input()).pos,
            ),
            final(self).walk() == old(self).walk().turn(piece, old(self).rows(), dr),
    {
        proof {
            self.lemma_visited(hole, piece.pos);
            self.lemma_follows_self();
            lemma_reachable_step(self.rows(), self.shape(), piece.pos, dr.input());
            lemma_step_turn(piece, self.rows(), dr);
        }
        let mat = self.matrix;
        let mut turned = piece;
        if turned.try_rotate(&mat, dr).is_some() {
            proof {
                lemma_step_shape(piece, self.rows(), dr.input());
            }
            self.push(turned.pos, Ghost(hole));
        }
    }

    /// Comes to the positions that shifts in one direction lead to from
    /// `piece`, one after the other, up to one that the search has come to
    /// before.
    fn drift_from(&mut self, piece: Piece<T>, dir: Dir, Ghost(hole): Ghost<Option<Pos>>)
        requires
            old(self).inv(hole),
            old(self).visited.contains(piece.pos),
            piece == old(self).at(piece.pos),
        ensures
            final(self).inv(hole),
            final(self).follows(*old(self)),
            final(self).visited.contains(
                step(piece, old(self).rows(), dir.input()).pos,
            ),
            final(self).walk() == old(self).walk().drift(piece, old(self).rows(), dir, DRIFT_STEPS as nat),
    {
        proof {
            self.lemma_follows_self();
        }
        let mat = self.matrix;
        let ghost rows = self.rows();
        let ghost goal = self.walk().drift(piece, rows, dir, DRIFT_STEPS as nat);
        let ghost mut shifts = 0int;
        let ghost mut laps = 0int;
        let mut moving = piece;
        loop
            invariant_except_break
                0 <= shifts < DRIFT_STEPS,
                moving.pos.x == piece.pos.x + (if dir == Dir::Left {
                    -shifts
                } else {
                    shifts
                }) - 256 * laps,
                moving.pos.y == piece.pos.y,
                moving.pos.r == piece.pos.r,
                moving.shape == piece.shape,
                goal == self.walk().drift(moving, rows, dir, (DRIFT_STEPS - shifts) as nat),
            invariant
                self.inv(hole),
                self.follows(*old(self)),
                self.rows() == rows,
                old(self).rows() == rows,
                mat@ == rows,
                moving == self.at(moving.pos),
                self.visited.contains(moving.pos),
                self.visited.contains(piece.pos),
                moving != piece ==> self.visited.contains(
                    step(piece, rows, dir.input()).pos,
                ),
            ensures
                self.inv(hole),
                self.follows(*old(self)),
                self.visited.contains(step(piece, rows, dir.input()).pos),
                self.walk() == goal,
            decreases self.visited.room(),
        {
            let ghost was = moving;
            let ghost mid = *self;
            proof {
                self.lemma_visited(hole, was.pos);
                lemma_reachable_step(rows, self.shape(), was.pos, dir.input());
                lemma_step_shift(was, rows, dir);
            }
            if moving.try_shift(&mat, dir).is_none() {
                break;
            }
            proof {
                lemma_step_shape(was, rows, dir.input());
                assert(mid.visited.contains(moving.pos) == mid.walk().seen.contains(moving.pos));
            }
            let fresh = self.push(moving.pos, Ghost(hole));
            proof {
                self.lemma_follows_trans(mid, *old(self));
                self.lemma_follows(mid);
                self.lemma_follows_visited(mid, piece.pos);
                if was != piece {
                    self.lemma_follows_visited(mid, step(piece, rows, dir.input()).pos);
                }
                if fresh {
                    if moving.pos.x != was.pos.x + dir.dx() {
                        laps = laps + dir.dx();
                    }
                    shifts = shifts + 1;
                    if shifts == DRIFT_STEPS {
                        assert(moving.pos == piece.pos);
                    }
                }
            }
            if !fresh {
                break;
            }
        }
    }

    /// Hands out the next place, if one is left: the piece where it rests,
    /// and its cells there. Every place is handed out once, in the order in
    /// which the walk finds them.
    pub fn next(&mut self) -> (item: Option<PlacesResult<T>>)
        requires
            old(self).wf(),
        ensures
            final(self).wf(),
            final(self).rows() == old(self).rows(),
            final(self).shape() == old(self).shape(),
            match item {
                Some(place) => {
                    &&& old(self).remaining().contains(place.falling_piece.pos)
                    &&& final(self).remaining() == old(self).remaining().remove(
                        place.falling_piece.pos,
                    )
                    &&& place.falling_piece == final(self).at(place.falling_piece.pos)
                    &&& place.cells@ == place.falling_piece.spec_cells()
                    &&& place.falling_piece.fits(final(self).rows())
                    &&& final(self).fuel() < old(self).fuel()
                },
                None => old(self).remaining() == Set::<Pos>::empty() && final(self).remaining()
                    == Set::<Pos>::empty(),
            },
            hands_out(
                old(self).walk(),
                final(self).walk(),
                match item {
                    Some(place) => Some(place.falling_piece.pos),
                    None => None,
                },
                old(self).shape(),
                old(self).rows(),
                old(self).fuel(),
                final(self).fuel(),
            ),
    {
        let ghost mut steps = 0nat;
        loop
            invariant
                self.wf(),
                self.rows() == old(self).rows(),
                self.shape() == old(self).shape(),
                self.remaining() == old(self).remaining(),
                self.fuel() + steps <= old(self).fuel(),
                forall|g: nat|
                    g >= old(self).fuel() ==> #[trigger] old(self).walk().emits(
                        old(self).shape(),
                        old(self).rows(),
                        g,
                    ) == self.walk().emits(old(self).shape(), old(self).rows(), (g - steps) as nat),
            decreases self.fuel(),
        {
            let ghost start = *self;
            let mut piece = match self.pop() {
                Some(piece) => piece,
                None => {
                    proof {
                        self.lemma_exhausted();
                        assert forall|g: nat| g >= old(self).fuel() implies #[trigger]
                            old(self).walk().emits(old(self).shape(), old(self).rows(), g)
                                == Seq::<Pos>::empty() by {
                            assert(start.walk().stack.len() == 0);
                        }
                    }
                    return None;
                },
            };
            let ghost from = piece;
            let ghost hole = Some(piece.pos);
            let ghost rows = self.rows();
            let ghost shape = self.shape();
            let ghost popped = *self;
            let mat = self.matrix;

            self.turn_from(piece, Turn::Cw, Ghost(hole));
            let ghost s1 = *self;
            proof {
                s1.lemma_follows(popped);
                s1.lemma_follows_visited(popped, from.pos);
            }
            self.turn_from(piece, Turn::Ccw, Ghost(hole));
            let ghost s2 = *self;
            proof {
                s2.lemma_follows(s1);
                s2.lemma_follows_visited(s1, from.pos);
                s2.lemma_follows_visited(s1, step(from, rows, Input::Cw).pos);
            }
            self.drift_from(piece, Dir::Left, Ghost(hole));
            let ghost s3 = *self;
            proof {
                s3.lemma_follows(s2);
                s3.lemma_follows_visited(s2, from.pos);
                s3.lemma_follows_visited(s2, step(from, rows, Input::Cw).pos);
                s3.lemma_follows_visited(s2, step(from, rows, Input::Ccw).pos);
            }
            self.drift_from(piece, Dir::Right, Ghost(hole));
            let ghost s4 = *self;
            proof {
                s4.lemma_follows(s3);
                s4.lemma_follows_visited(s3, from.pos);
                s4.lemma_follows_visited(s3, step(from, rows, Input::Cw).pos);
                s4.lemma_follows_visited(s3, step(from, rows, Input::Ccw).pos);
                s4.lemma_follows_visited(s3, step(from, rows, Input::Left).pos);
                s4.lemma_visited(hole, from.pos);
                lemma_reachable_step(rows, shape, from.pos, Input::SonicDrop);
                lemma_step_drop(from, rows);
            }

            let (dy, cells) = piece.sonic_drop(&mat);
            let floating = dy != 0;
            if floating {
                // piece was floating so we don't return it yet; push it on the stack and
                // return it when reached in a future iteration
                proof {
                    use_type_invariant(&cells);
                    assert(from.spec_cells().wf());
                    from.lemma_dropped_fits(rows);
                    lemma_step_shape(from, rows, Input::SonicDrop);
                }
                self.push(piece.pos, Ghost(hole));
            }
            let ghost s5 = *self;
            proof {
                if floating {
                    s5.lemma_follows(s4);
                    s5.lemma_follows_visited(s4, from.pos);
                    s5.lemma_follows_visited(s4, step(from, rows, Input::Cw).pos);
                    s5.lemma_follows_visited(s4, step(from, rows, Input::Ccw).pos);
                    s5.lemma_follows_visited(s4, step(from, rows, Input::Left).pos);
                    s5.lemma_follows_visited(s4, step(from, rows, Input::Right).pos);
                    s5.lemma_follows_trans(s4, s3);
                } else {
                    s5.lemma_follows_self();
                    s5.lemma_follows_trans(s4, s3);
                }
                s5.lemma_follows_trans(s3, s2);
                s5.lemma_follows_trans(s2, s1);
                s5.lemma_follows_trans(s1, popped);
                assert forall|input: Input|
                    self.visited.contains(#[trigger] step(self.at(from.pos), rows, input).pos) by {
                    match input {
                        Input::Left => {},
                        Input::Right => {},
                        Input::Cw => {},
                        Input::Ccw => {},
                        Input::SonicDrop => {},
                    }
                }
                self.lemma_close_hole(from.pos);
                s5.lemma_next_remaining(popped, start, from.pos);
                let walk = start.walk();
                let next = walk.step(shape, rows);
                assert(from == Piece::spawn_at(shape, walk.stack.last()));
                assert(s5.walk() == next.0);
                assert(next.1 == (if floating {
                    None
                } else {
                    Some(from.pos)
                }));
                assert forall|g: nat| g >= old(self).fuel() implies #[trigger] old(self).walk().emits(
                    shape,
                    rows,
                    g,
                ) == (match next.1 {
                    Some(pos) => seq![pos],
                    None => Seq::empty(),
                }) + s5.walk().emits(shape, rows, (g - steps - 1) as nat) by {
                    let h = (g - steps) as nat;
                    assert(h >= start.fuel());
                    assert(walk.emits(shape, rows, h) == (match next.1 {
                        Some(pos) => seq![pos],
                        None => Seq::empty(),
                    }) + next.0.emits(shape, rows, (h - 1) as nat));
                }
                steps = steps + 1;
                if !floating {
                    assert(finds_in(
                        old(self).walk(),
                        s5.walk(),
                        from.pos,
                        shape,
                        rows,
                        old(self).fuel(),
                        s5.fuel(),
                        steps,
                    ));
                }
                if floating {
                    assert forall|g: nat| g >= old(self).fuel() implies #[trigger] old(self).walk().emits(
                        shape,
                        rows,
                        g,
                    ) == s5.walk().emits(shape, rows, (g - steps) as nat) by {
                        assert(Seq::<Pos>::empty() + s5.walk().emits(shape, rows, (g - steps) as nat)
                            =~= s5.walk().emits(shape, rows, (g - steps) as nat));
                    }
                }
            }
            if !floating {
                return Some(PlacesResult { falling_piece: piece, cells });
            }
        }
    }

    /// Going on from one position takes that position from the places that
    /// are left, if it is one, and no other.
    proof fn lemma_next_remaining(self, popped: Self, start: Self, pos: Pos)
        requires
            self.follows(popped),
            popped.rows() == start.rows(),
            popped.shape() == start.shape(),
            popped.fuel() + 1 == start.fuel(),
            forall|p: Pos| popped.done(p) == (start.done(p) || p == pos),
            !start.done(pos),
        ensures
            self.fuel() < start.fuel(),
            self.rows() == start.rows(),
            self.shape() == start.shape(),
            self.visited.contains(Piece::spec_spawn(self.shape()).pos) <== popped.visited.contains(
                Piece::spec_spawn(self.shape()).pos,
            ),
            lands(self.rows(), self.shape(), pos) ==> self.remaining() == start.remaining().remove(
                pos,
            ) && start.remaining().contains(pos),
            !lands(self.rows(), self.shape(), pos) ==> self.remaining() == start.remaining(),
    {
        reveal(Places::follows);
        if lands(self.rows(), self.shape(), pos) {
            assert(self.remaining() =~= start.remaining().remove(pos));
        } else {
            assert(self.remaining() =~= start.remaining());
        }
    }
}

/// Starts the search for all of the reachable places on `matrix` of the
/// shape `piece`, from its spawn location. If the spawn location is blocked
/// then there is no place (and [`Places::is_dead`] tells so).
pub fn places<'m, T: Shape + WallKicks + Spawn + Copy>(matrix: &Mat<'m>, piece: T) -> (places: Places<'m, T>)
    ensures
        places.wf(),
        places.rows() == matrix@,
        places.shape() == piece,
        places.remaining() == landings(matrix@, piece),
        places.walk() == Walk::begin(piece, matrix@),
        places.fuel() <= WALK_STEPS,
{
    let mut places = Places {
        matrix: *matrix,
        piece,
        stack: Vec::with_capacity(64),
        visited: PosSet::with_capacity(256),
    };
    let spawn_fp = Piece::spawn(piece);
    let ghost fresh = places;
    proof {
        use_type_invariant(matrix);
        fresh.lemma_fresh(Some(spawn_fp.pos));
        fresh.lemma_follows_self();
    }
    if !spawn_fp.cells().collides(matrix) {
        // if this is not true, then we are dead
        proof {
            lemma_reachable_spawn(matrix@, piece);
        }
        places.push(spawn_fp.pos, Ghost(Some(spawn_fp.pos)));
    }
    proof {
        places.lemma_follows(fresh);
        places.lemma_started(fresh);
        fresh.visited.lemma_room();
        assert(fresh.walk().seen =~= Set::<Pos>::empty());
        assert(fresh.walk().stack =~= Seq::<Pos>::empty());
        assert(places.walk().stack =~= Walk::begin(piece, matrix@).stack);
        assert(places.walk().seen =~= Walk::begin(piece, matrix@).seen);
    }
    places
}

/// Whether `found` lists the places of the shape: each place once, with the
/// piece there and its cells, and nothing else.
pub open spec fn lists_places<T: Shape + WallKicks + Spawn>(
    rows: Seq<u16>,
    shape: T,
    found: Seq<PlacesResult<T>>,
) -> bool {
    &&& forall|k: int|
        0 <= k < found.len() ==> {
            let place = #[trigger] found[k];
            &&& place.falling_piece.shape == shape
            &&& lands(rows, shape, place.falling_piece.pos)
            &&& place.falling_piece.fits(rows)
            &&& place.cells@ == place.falling_piece.spec_cells()
            &&& place.cells.wf()
        }
    &&& forall|j: int, k: int|
        0 <= j < k < found.len() ==> (#[trigger] found[j]).falling_piece.pos != (
        #[trigger] found[k]).falling_piece.pos
    &&& forall|pos: Pos|
        lands(rows, shape, pos) ==> exists|k: int|
            0 <= k < found.len() && (#[trigger] found[k]).falling_piece.pos == pos
}

/// All of the reachable places on `matrix` of the shape `piece`, from its
/// spawn location; none if the spawn location is blocked.
pub fn all_places<T: Shape + WallKicks + Spawn + Copy>(matrix: &Mat, piece: T) -> (found: Vec<PlacesResult<T>>)
    ensures
        lists_places(matrix@, piece, found@),
        positions(found@) == places_order(matrix@, piece),
{
    let mut found: Vec<PlacesResult<T>> = Vec::new();
    let mut search = places(matrix, piece);
    let ghost rows = matrix@;
    let ghost mut budget = WALK_STEPS as nat;
    proof {
        reveal(places_order);
        assert(positions(found@) =~= Seq::<Pos>::empty());
        assert(Seq::<Pos>::empty() + search.walk().emits(piece, rows, budget) =~= places_order(rows, piece));
    }
    loop
        invariant_except_break
            budget >= search.fuel(),
            positions(found@) + search.walk().emits(piece, rows, budget) == places_order(rows, piece),
        invariant
            search.wf(),
            search.rows() == rows,
            search.shape() == piece,
            rows == matrix@,
            forall|k: int|
                0 <= k < found@.len() ==> {
                    let place = #[trigger] found@[k];
                    &&& place.falling_piece.shape == piece
                    &&& lands(rows, piece, place.falling_piece.pos)
                    &&& !search.remaining().contains(place.falling_piece.pos)
                    &&& place.falling_piece.fits(rows)
                    &&& place.cells@ == place.falling_piece.spec_cells()
                    &&& place.cells.wf()
                },
            forall|j: int, k: int|
                0 <= j < k < found@.len() ==> (#[trigger] found@[j]).falling_piece.pos != (
                #[trigger] found@[k]).falling_piece.pos,
            forall|pos: Pos|
                lands(rows, piece, pos) && !search.remaining().contains(pos) ==> exists|k: int|
                    0 <= k < found@.len() && (#[trigger] found@[k]).falling_piece.pos == pos,
            forall|pos: Pos| search.remaining().contains(pos) ==> lands(rows, piece, pos),
        ensures
            lists_places(rows, piece, found@),
            positions(found@) == places_order(rows, piece),
        decreases search.fuel(),
    {
        let ghost left = search.remaining();
        let ghost had = found@;
        let ghost before = search;
        let place = match search.next() {
            Some(place) => place,
            None => {
                proof {
                    assert(before.walk().emits(piece, rows, budget) == Seq::<Pos>::empty());
                    assert(positions(found@) + Seq::<Pos>::empty() =~= positions(found@));
                }
                break;
            },
        };
        proof {
            use_type_invariant(&place.cells);
        }
        found.push(place);
        proof {
            let at = place.falling_piece.pos;
            let steps = choose|steps: nat| #[trigger]
                finds_in(
                    before.walk(),
                    search.walk(),
                    at,
                    piece,
                    rows,
                    before.fuel(),
                    search.fuel(),
                    steps,
                );
            assert(before.walk().emits(piece, rows, budget) == seq![at] + search.walk().emits(
                piece,
                rows,
                (budget - steps) as nat,
            ));
            assert(positions(found@) =~= positions(had).push(at));
            assert(positions(had).push(at) + search.walk().emits(piece, rows, (budget - steps) as nat)
                =~= positions(had) + (seq![at] + search.walk().emits(
                piece,
                rows,
                (budget - steps) as nat,
            )));
            budget = (budget - steps) as nat;
            assert forall|pos: Pos|
                lands(rows, piece, pos) && !search.remaining().contains(pos) implies exists|k: int|
                0 <= k < found@.len() && (#[trigger] found@[k]).falling_piece.pos == pos by {
                if pos == at {
                    assert(found@[had.len() as int].falling_piece.pos == pos);
                } else {
                    assert(!left.contains(pos));
                    let k = choose|k: int| 0 <= k < had.len() && (#[trigger] had[k]).falling_piece.pos == pos;
                    assert(found@[k].falling_piece.pos == pos);
                }
            }
        }
    }
    found
}

} // verus!
