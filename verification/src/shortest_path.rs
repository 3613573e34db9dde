//! The shortest sequence of inputs that brings a piece to a place.

use vstd::prelude::*;

use crate::input::Dir;
use crate::input::Input;
use crate::input::Turn;
use crate::matrix::Mat;
use crate::piece::Cells;
use crate::piece::CellsView;
use crate::piece::Piece;
use crate::piece::Pos;
use crate::piece::Shape;
use crate::piece::Spawn;
use crate::piece::WallKicks;
use crate::places::lands;
use crate::places::lemma_run_shape;
use crate::places::lemma_step_drop;
use crate::places::lemma_step_shape;
use crate::places::lemma_step_shift;
use crate::places::lemma_step_turn;
use crate::places::run;
use crate::places::step;
use crate::visited::PosSet;

verus! {

/// Whether the inputs take the shape from where it appears to a position
/// from which it drops onto `cells`.
pub open spec fn drops_onto<T: Shape + WallKicks + Spawn>(
    rows: Seq<u16>,
    shape: T,
    inputs: Seq<Input>,
    cells: CellsView,
) -> bool {
    run(Piece::spec_spawn(shape), rows, inputs).dropped(rows).spec_cells() == cells
}

/// Some sequence of inputs takes the shape to each place where it can land,
/// and the piece drops no further from there: the sequence drops it onto
/// the cells that it has at the place.
pub proof fn lemma_landing_reached<T: Shape + WallKicks + Spawn>(rows: Seq<u16>, shape: T, pos: Pos)
    requires
        lands(rows, shape, pos),
    ensures
        exists|inputs: Seq<Input>| #[trigger]
            drops_onto(rows, shape, inputs, Piece::spawn_at(shape, pos).spec_cells()),
{
    let spawn = Piece::spec_spawn(shape);
    let inputs = choose|inputs: Seq<Input>| #[trigger] run(spawn, rows, inputs).pos == pos;
    lemma_run_shape(spawn, rows, inputs);
    let piece = Piece::spawn_at(shape, pos);
    assert(run(spawn, rows, inputs) == piece);
    lemma_step_drop(piece, rows);
    assert(drops_onto(rows, shape, inputs, piece.spec_cells()));
}

/// A node of the search for the shortest sequences of inputs: a position,
/// how many inputs of each sort lead to it, and the last of them with the
/// node that it was given at.
#[derive(Copy, Clone, Debug)]
pub struct ShortestPathNode {
    pub n_shift: u32,
    pub n_rotate: u32,
    pub n_drop: u32,
    pub pos: Pos,
    pub input: Option<Input>,
    pub parent: Option<usize>,
}

impl ShortestPathNode {
    /// The number of inputs that lead to the node.
    pub open spec fn len(self) -> int {
        self.n_shift + self.n_rotate + self.n_drop
    }

    /// What the inputs cost that lead to the node: their number, then the
    /// number of sonic drops, then the number of turns among them.
    pub open spec fn cost(self) -> (int, int, int) {
        (self.len(), self.n_drop as int, self.n_rotate as int)
    }

    /// The node at which a search begins.
    pub open spec fn spec_root(pos: Pos) -> ShortestPathNode {
        ShortestPathNode { n_shift: 0, n_rotate: 0, n_drop: 0, pos, input: None, parent: None }
    }

    /// The node of the position `pos`, which `input` leads to from `self`,
    /// the node with the index `at`.
    pub open spec fn spec_child(self, at: usize, input: Input, pos: Pos) -> ShortestPathNode {
        ShortestPathNode {
            n_shift: if input == Input::Left || input == Input::Right {
                (self.n_shift + 1) as u32
            } else {
                self.n_shift
            },
            n_rotate: if input == Input::Cw || input == Input::Ccw {
                (self.n_rotate + 1) as u32
            } else {
                self.n_rotate
            },
            n_drop: if input == Input::SonicDrop {
                (self.n_drop + 1) as u32
            } else {
                self.n_drop
            },
            pos,
            input: Some(input),
            parent: Some(at),
        }
    }

    /// Whether `self` is to be gone on from before `other`: fewer inputs
    /// lead to it, or as many with fewer drops, or as many of both with
    /// fewer turns.
    pub open spec fn closer_than(self, other: ShortestPathNode) -> bool {
        if self.len() != other.len() {
            self.len() < other.len()
        } else if self.n_drop != other.n_drop {
            self.n_drop < other.n_drop
        } else {
            self.n_rotate < other.n_rotate
        }
    }

    /// Whether `self` is the node that `input` leads to from `parent`, the
    /// node with the index `at`.
    closed spec fn child_of(self, parent: ShortestPathNode, at: int, input: Input) -> bool {
        &&& self.parent == Some(at as usize)
        &&& self.input == Some(input)
        &&& self.n_shift == parent.n_shift + (if input == Input::Left || input == Input::Right {
            1int
        } else {
            0int
        })
        &&& self.n_rotate == parent.n_rotate + (if input == Input::Cw || input == Input::Ccw {
            1int
        } else {
            0int
        })
        &&& self.n_drop == parent.n_drop + (if input == Input::SonicDrop {
            1int
        } else {
            0int
        })
    }

    /// Whether `self` is the node at which a search begins.
    closed spec fn is_root(self, pos: Pos) -> bool {
        &&& self.pos == pos
        &&& self.len() == 0
        &&& self.input.is_none()
        &&& self.parent.is_none()
    }

    fn new_root(pos: Pos) -> (node: Self)
        ensures
            node.is_root(pos),
            node == Self::spec_root(pos),
    {
        Self { n_shift: 0, n_rotate: 0, n_drop: 0, pos, input: None, parent: None }
    }

    fn new_child(&self, at: usize, input: Input, pos: Pos) -> (node: Self)
        requires
            self.len() < MAX_NODES,
        ensures
            node.child_of(*self, at as int, input),
            node.pos == pos,
            node.len() == self.len() + 1,
            node == self.spec_child(at, input, pos),
    {
        let mut n_shift = self.n_shift;
        let mut n_rotate = self.n_rotate;
        let mut n_drop = self.n_drop;
        match input {
            Input::Left | Input::Right => {
                n_shift += 1;
            },
            Input::Cw | Input::Ccw => {
                n_rotate += 1;
            },
            Input::SonicDrop => {
                n_drop += 1;
            },
        }
        Self { n_shift, n_rotate, n_drop, pos, input: Some(input), parent: Some(at) }
    }

    fn n_inputs(&self) -> (n: u32)
        requires
            self.len() <= MAX_NODES,
        ensures
            n == self.len(),
    {
        self.n_shift + self.n_rotate + self.n_drop
    }

    /// Whether `self` is to be gone on from before `other`: fewer inputs
    /// lead to it, or as many with fewer drops, or as many of both with
    /// fewer turns. Among sequences of one length this puts shifts first,
    /// then turns, then drops.
    fn closer(&self, other: &Self) -> (closer: bool)
        requires
            self.len() <= MAX_NODES,
            other.len() <= MAX_NODES,
        ensures
            closer == self.closer_than(*other),
            closer == !no_more(other.cost(), self.cost()),
    {
        let n = self.n_inputs();
        let m = other.n_inputs();
        if n != m {
            n < m
        } else if self.n_drop != other.n_drop {
            self.n_drop < other.n_drop
        } else {
            self.n_rotate < other.n_rotate
        }
    }
}

/// The inputs that lead to the node `i`, first input first.
pub open spec fn path(nodes: Seq<ShortestPathNode>, i: int) -> Seq<Input>
    decreases i,
{
    if 0 < i < nodes.len() && nodes[i].parent.is_some() && nodes[i].input.is_some()
        && nodes[i].parent.unwrap() < i {
        path(nodes, nodes[i].parent.unwrap() as int).push(nodes[i].input.unwrap())
    } else {
        Seq::empty()
    }
}

/// The sonic drops among the inputs.
pub open spec fn drops_in(inputs: Seq<Input>) -> int
    decreases inputs.len(),
{
    if inputs.len() == 0 {
        0
    } else {
        drops_in(inputs.drop_last()) + (if inputs.last() == Input::SonicDrop {
            1int
        } else {
            0int
        })
    }
}

/// The turns among the inputs.
pub open spec fn turns_in(inputs: Seq<Input>) -> int
    decreases inputs.len(),
{
    if inputs.len() == 0 {
        0
    } else {
        turns_in(inputs.drop_last()) + (if inputs.last() == Input::Cw || inputs.last() == Input::Ccw {
            1int
        } else {
            0int
        })
    }
}

/// What a sequence of inputs costs: the number of its inputs, then the
/// number of its sonic drops, then the number of its turns.
pub open spec fn cost(inputs: Seq<Input>) -> (int, int, int) {
    (inputs.len() as int, drops_in(inputs), turns_in(inputs))
}

/// The cost of a sequence that costs `c` with `input` behind it.
pub open spec fn cost_with(c: (int, int, int), input: Input) -> (int, int, int) {
    (
        c.0 + 1,
        c.1 + (if input == Input::SonicDrop {
            1int
        } else {
            0int
        }),
        c.2 + (if input == Input::Cw || input == Input::Ccw {
            1int
        } else {
            0int
        }),
    )
}

/// Whether the cost `a` is no more than the cost `b`: the first numbers in
/// which they differ, if they differ, are less in `a`.
pub open spec fn no_more(a: (int, int, int), b: (int, int, int)) -> bool {
    a.0 < b.0 || (a.0 == b.0 && (a.1 < b.1 || (a.1 == b.1 && a.2 <= b.2)))
}

/// Whether `inputs` is no costlier than `other`: it has fewer inputs, or
/// as many with fewer sonic drops, or as many of both with no more turns.
pub open spec fn no_costlier(inputs: Seq<Input>, other: Seq<Input>) -> bool {
    no_more(cost(inputs), cost(other))
}

/// The state of a search for the cheapest sequences of inputs: the nodes
/// it has made, in the order in which it made them, the nodes to go on
/// from, and the positions that it has gone on from.
pub struct Hunt {
    pub nodes: Seq<ShortestPathNode>,
    pub queue: Seq<usize>,
    pub seen: Set<Pos>,
}

/// The nodes that a search has at most: one where the shape appears, and
/// one for each input at each position.
pub const MAX_NODES: u32 = 1310721;

/// The steps that a search has at most: it takes each node once from the
/// nodes to go on from.
pub const HUNT_STEPS: u32 = 1572865;

impl Hunt {
    /// The search that begins at `pos`.
    pub open spec fn begin(pos: Pos) -> Hunt {
        Hunt { nodes: seq![ShortestPathNode::spec_root(pos)], queue: seq![0usize], seen: Set::empty() }
    }

    /// The search after it has come to `pos`, which `input` leads to from
    /// the node `parent`: the position gets a node, which is the last to go
    /// on from.
    pub open spec fn push(self, parent: usize, input: Input, pos: Pos) -> Hunt {
        Hunt {
            nodes: self.nodes.push(self.nodes[parent as int].spec_child(parent, input, pos)),
            queue: self.queue.push(self.nodes.len() as usize),
            seen: self.seen,
        }
    }

    /// Where, among the first `upto` of the nodes to go on from, the one
    /// stands that is closest: the first of them, if there are several.
    pub open spec fn best(self, upto: int) -> int
        decreases upto,
    {
        if upto <= 1 {
            0
        } else {
            let held = self.best(upto - 1);
            if self.nodes[self.queue[upto - 1] as int].closer_than(self.nodes[self.queue[held] as int]) {
                upto - 1
            } else {
                held
            }
        }
    }

    /// The search after it has taken the closest of the nodes to go on
    /// from, and that node if the search goes on from it: it does so if it
    /// has not gone on from the position of the node before. It then comes
    /// to the positions that a turn to the right, a turn to the left, a
    /// shift to the left, a shift to the right and a sonic drop lead to, in
    /// this order, where they move the piece.
    pub open spec fn step<T: Shape + WallKicks>(self, shape: T, rows: Seq<u16>) -> (Hunt, Option<usize>) {
        let at = self.best(self.queue.len() as int);
        let u = self.queue[at];
        let pos = self.nodes[u as int].pos;
        let piece = Piece::spawn_at(shape, pos);
        if self.seen.contains(pos) {
            (Hunt { nodes: self.nodes, queue: self.queue.remove(at), seen: self.seen }, None)
        } else {
            let hunt = Hunt { nodes: self.nodes, queue: self.queue.remove(at), seen: self.seen.insert(pos) };
            let hunt = match piece.rotated(rows, Turn::Cw) {
                Some(moved) => hunt.push(u, Input::Cw, moved.pos),
                None => hunt,
            };
            let hunt = match piece.rotated(rows, Turn::Ccw) {
                Some(moved) => hunt.push(u, Input::Ccw, moved.pos),
                None => hunt,
            };
            let hunt = match piece.shifted(rows, Dir::Left) {
                Some(moved) => hunt.push(u, Input::Left, moved.pos),
                None => hunt,
            };
            let hunt = match piece.shifted(rows, Dir::Right) {
                Some(moved) => hunt.push(u, Input::Right, moved.pos),
                None => hunt,
            };
            let hunt = if piece.drop_distance(rows) != 0 {
                hunt.push(u, Input::SonicDrop, piece.dropped(rows).pos)
            } else {
                hunt
            };
            (hunt, Some(u))
        }
    }

    /// The inputs that lead to the first node that the search goes on from
    /// at which the piece drops onto `goal`, if it comes to one in `fuel`
    /// steps.
    pub open spec fn find<T: Shape + WallKicks>(
        self,
        shape: T,
        rows: Seq<u16>,
        goal: CellsView,
        fuel: nat,
    ) -> Option<Seq<Input>>
        decreases fuel,
    {
        if fuel == 0 || self.queue.len() == 0 {
            None
        } else {
            let next = self.step(shape, rows);
            if next.1.is_some() && Piece::spawn_at(shape, self.nodes[next.1.unwrap() as int].pos).dropped(
                rows,
            ).spec_cells() == goal {
                Some(path(next.0.nodes, next.1.unwrap() as int))
            } else {
                next.0.find(shape, rows, goal, (fuel - 1) as nat)
            }
        }
    }
}

/// The inputs that [`reach`] returns for a target: those that lead to the
/// first position that its search goes on from at which the piece drops
/// onto the cells of the target.
pub open spec fn reach_inputs<T: Shape + WallKicks + Spawn>(rows: Seq<u16>, target: Piece<T>) -> Option<
    Seq<Input>,
> {
    Hunt::begin(Piece::spec_spawn(target.shape).pos).find(
        target.shape,
        rows,
        target.spec_cells(),
        HUNT_STEPS as nat,
    )
}

/// The search for the cheapest sequences of inputs: it goes on from the
/// nodes in the order of what the inputs cost that lead to them, and from
/// each position once, so that it goes on from every position by a
/// cheapest sequence.
pub struct ShortestPath<'m, T> {
    matrix: Mat<'m>,
    piece_type: T,
    nodes: Vec<ShortestPathNode>,
    unvisited: Vec<usize>,
    visited: PosSet,
}

/// What a step of the search came to.
enum Outcome {
    /// No node was left to go on from.
    Spent,
    /// The search had gone on from the position of the node before.
    Passed,
    /// The search went on from the node, from where the piece drops onto
    /// the cells.
    Settled(Cells, usize),
}

impl<'m, T: Shape + WallKicks + Spawn + Copy> ShortestPath<'m, T> {
    /// The rows of the matrix that is searched.
    pub closed spec fn rows(self) -> Seq<u16> {
        self.matrix@
    }

    /// The shape that is moved.
    pub closed spec fn shape(self) -> T {
        self.piece_type
    }

    /// The shape where it appears.
    pub open spec fn spawn(self) -> Piece<T> {
        Piece::spec_spawn(self.shape())
    }

    /// The shape at the position of the node `i`.
    pub closed spec fn at(self, i: int) -> Piece<T> {
        Piece::spec_spawn(self.piece_type).at(self.nodes@[i].pos)
    }

    /// Whether the search has gone on from the position `pos`.
    pub closed spec fn gone_from(self, pos: Pos) -> bool {
        self.visited.contains(pos)
    }

    /// A bound on the steps that the search has left.
    pub closed spec fn fuel(self) -> nat {
        6 * self.visited.room() + self.unvisited@.len()
    }

    /// The nodes that the search can still make.
    closed spec fn spare(self) -> int {
        MAX_NODES - self.nodes@.len() - 5 * self.visited.room()
    }

    /// The state of the search.
    pub closed spec fn hunt(self) -> Hunt {
        Hunt {
            nodes: self.nodes@,
            queue: self.unvisited@,
            seen: Set::new(|pos: Pos| self.visited.contains(pos)),
        }
    }

    /// Whether the node `i` is linked to the node that it was made from.
    closed spec fn link_ok(self, i: int) -> bool {
        let node = self.nodes@[i];
        &&& node.parent.is_some()
        &&& node.input.is_some()
        &&& node.parent.unwrap() < i
        &&& node.child_of(
            self.nodes@[node.parent.unwrap() as int],
            node.parent.unwrap() as int,
            node.input.unwrap(),
        )
        &&& node.pos == step(self.at(node.parent.unwrap() as int), self.rows(), node.input.unwrap()).pos
    }

    /// Whether the nodes are linked as a search links them.
    #[verifier::opaque]
    closed spec fn linked(self) -> bool {
        &&& self.nodes@.len() >= 1
        &&& self.nodes@[0].is_root(self.spawn().pos)
        &&& forall|i: int| 1 <= i < self.nodes@.len() ==> #[trigger] self.link_ok(i)
    }

    /// Whether the nodes to go on from are nodes, each listed once.
    #[verifier::opaque]
    closed spec fn queued(self) -> bool {
        &&& self.unvisited@.no_duplicates()
        &&& forall|k: int|
            0 <= k < self.unvisited@.len() ==> #[trigger] self.unvisited@[k] < self.nodes@.len()
    }

    /// Whether the node `k` is one to go on from.
    closed spec fn waits(self, k: int) -> bool {
        0 <= k < self.nodes@.len() && self.unvisited@.contains(k as usize)
    }

    /// Whether the node `k` is one to go on from that costs no more than
    /// `bound`.
    closed spec fn within(self, k: int, bound: (int, int, int)) -> bool {
        self.waits(k) && no_more(self.nodes@[k].cost(), bound)
    }

    /// Whether the node `k` is one to go on from at `pos` that costs no
    /// more than `bound`.
    closed spec fn offers(self, k: int, pos: Pos, bound: (int, int, int)) -> bool {
        self.within(k, bound) && self.nodes@[k].pos == pos
    }

    /// Whether the search has taken up what `input` leads to from the node
    /// `f`: it has gone on from that position, or will go on from a node
    /// there that costs no more than the node `f` with the input.
    #[verifier::opaque]
    closed spec fn covered(self, f: int, input: Input) -> bool {
        let pos = step(self.at(f), self.rows(), input).pos;
        self.visited.contains(pos) || exists|k: int| #[trigger]
            self.offers(k, pos, cost_with(self.nodes@[f].cost(), input))
    }

    /// Whether no sequence of inputs that leads to the position of the
    /// node `f` costs less than the node.
    #[verifier::opaque]
    closed spec fn least(self, f: int) -> bool {
        forall|inputs: Seq<Input>|
            (#[trigger] run(self.spawn(), self.rows(), inputs)).pos == self.nodes@[f].pos ==> no_more(
                self.nodes@[f].cost(),
                cost(inputs),
            )
    }

    /// Whether the search has gone on from `pos` at the node `f`: no
    /// sequence that leads there costs less, and the search has taken up
    /// what each input leads to from there, unless `f` is the node `hole`.
    closed spec fn settles(self, f: int, pos: Pos, hole: Option<int>) -> bool {
        &&& 0 <= f < self.nodes@.len()
        &&& self.nodes@[f].pos == pos
        &&& !self.unvisited@.contains(f as usize)
        &&& self.least(f)
        &&& Some(f) != hole ==> forall|input: Input| #[trigger] self.covered(f, input)
    }

    /// Whether the search has gone on from each of the positions that it
    /// holds at a cheapest node.
    #[verifier::opaque]
    closed spec fn settled(self, hole: Option<int>) -> bool {
        forall|pos: Pos| #[trigger]
            self.visited.contains(pos) ==> exists|f: int| #[trigger] self.settles(f, pos, hole)
    }

    /// Whether the search has gone on from where the shape appears, or
    /// will go on from its first node.
    closed spec fn rooted(self) -> bool {
        self.visited.contains(self.spawn().pos) || self.unvisited@.contains(0usize)
    }

    /// The invariant of the search but for the node `hole`, from which the
    /// search is going on at the moment.
    closed spec fn inv(self, hole: Option<int>) -> bool {
        &&& self.matrix.wf()
        &&& self.linked()
        &&& self.queued()
        &&& self.rooted()
        &&& self.settled(hole)
        &&& self.spare() >= 0
    }

    /// The invariant of the search.
    pub closed spec fn wf(self) -> bool {
        self.inv(None)
    }

    /// What the state of the search says of a node.
    proof fn lemma_hunt_node(self, i: int)
        requires
            0 <= i < self.nodes@.len(),
        ensures
            self.hunt().nodes == self.nodes@,
            self.at(i) == Piece::spawn_at(self.shape(), self.hunt().nodes[i].pos),
    {
    }

    /// The inputs of a node lead to its position, and they cost what the
    /// node holds.
    proof fn lemma_path(self, i: int)
        requires
            self.linked(),
            0 <= i < self.nodes@.len(),
        ensures
            run(self.spawn(), self.rows(), path(self.nodes@, i)) == self.at(i),
            cost(path(self.nodes@, i)) == self.nodes@[i].cost(),
            self.nodes@[i].len() <= i,
        decreases i,
    {
        reveal(ShortestPath::linked);
        if i > 0 {
            assert(self.link_ok(i));
            let node = self.nodes@[i];
            let j = node.parent.unwrap() as int;
            self.lemma_path(j);
            let before = path(self.nodes@, j);
            let all = path(self.nodes@, i);
            assert(all == before.push(node.input.unwrap()));
            assert(all.drop_last() =~= before);
            assert(all.last() == node.input.unwrap());
            lemma_step_shape(self.at(j), self.rows(), node.input.unwrap());
        } else {
            assert(path(self.nodes@, i) =~= Seq::<Input>::empty());
        }
    }

    /// Whatever a sequence of inputs leads to, the search has gone on from
    /// that position, or it will go on from a node that costs no more than
    /// the sequence.
    proof fn lemma_bound(self, inputs: Seq<Input>)
        requires
            self.inv(None),
        ensures
            self.visited.contains(run(self.spawn(), self.rows(), inputs).pos) || exists|k: int| #[trigger]
                self.within(k, cost(inputs)),
        decreases inputs.len(),
    {
        let spawn = self.spawn();
        let rows = self.rows();
        reveal(ShortestPath::covered);
        reveal(ShortestPath::least);
        if inputs.len() == 0 {
            reveal(ShortestPath::linked);
            reveal(ShortestPath::queued);
            if !self.visited.contains(spawn.pos) {
                assert(self.within(0, cost(inputs)));
            }
        } else {
            let head = inputs.drop_last();
            let input = inputs.last();
            self.lemma_bound(head);
            let from = run(spawn, rows, head);
            assert(run(spawn, rows, inputs) == step(from, rows, input));
            assert(cost(inputs) == cost_with(cost(head), input));
            if self.visited.contains(from.pos) {
                reveal(ShortestPath::settled);
                let f = choose|f: int| #[trigger] self.settles(f, from.pos, None);
                assert(self.settles(f, from.pos, None));
                lemma_run_shape(spawn, rows, head);
                assert(self.at(f) == from);
                assert(self.covered(f, input));
                let pos = step(from, rows, input).pos;
                if !self.visited.contains(pos) {
                    let k = choose|k: int| #[trigger]
                        self.offers(k, pos, cost_with(self.nodes@[f].cost(), input));
                    assert(no_more(self.nodes@[f].cost(), cost(head)));
                    assert(self.within(k, cost(inputs)));
                }
            } else {
                let k = choose|k: int| #[trigger] self.within(k, cost(head));
                assert(self.within(k, cost(inputs)));
            }
        }
    }

    /// What holds of the search once it has taken the node `u`, the
    /// closest, from the nodes to go on from, and holds its position: if
    /// the position is new to it, the node costs no more than any sequence
    /// that leads to a position that the search had not gone on from.
    proof fn lemma_taken(self, before: Self, u: int, fresh: bool)
        requires
            before.inv(None),
            before.waits(u),
            forall|k: int| #[trigger] before.waits(k) ==> no_more(before.nodes@[u].cost(), before.nodes@[k].cost()),
            self.matrix == before.matrix,
            self.piece_type == before.piece_type,
            self.nodes@ == before.nodes@,
            self.unvisited@.no_duplicates(),
            forall|x: usize| self.unvisited@.contains(x) == (before.unvisited@.contains(x) && x != u),
            forall|pos: Pos|
                self.visited.contains(pos) == (before.visited.contains(pos) || pos == before.nodes@[u].pos),
            fresh == !before.visited.contains(before.nodes@[u].pos),
            self.visited.room() + (if fresh {
                1nat
            } else {
                0nat
            }) == before.visited.room(),
        ensures
            fresh ==> self.inv(Some(u)) && self.spare() >= 5,
            !fresh ==> self.inv(None),
            fresh ==> forall|inputs: Seq<Input>|
                before.visited.contains((#[trigger] run(before.spawn(), before.rows(), inputs)).pos) || no_more(
                    before.nodes@[u].cost(),
                    cost(inputs),
                ),
    {
        let hole = if fresh {
            Some(u)
        } else {
            None
        };
        let home = before.nodes@[u].pos;
        reveal(ShortestPath::covered);
        reveal(ShortestPath::least);
        assert(self.linked()) by {
            reveal(ShortestPath::linked);
            assert forall|i: int| 1 <= i < self.nodes@.len() implies #[trigger] self.link_ok(i) by {
                assert(before.link_ok(i));
            }
        }
        assert(self.queued()) by {
            reveal(ShortestPath::queued);
            assert forall|k: int| 0 <= k < self.unvisited@.len() implies #[trigger] self.unvisited@[k]
                < self.nodes@.len() by {
                let x = self.unvisited@[k];
                assert(self.unvisited@.contains(x));
                assert(before.unvisited@.contains(x));
            }
        }
        assert(self.rooted()) by {
            reveal(ShortestPath::linked);
        }
        assert forall|inputs: Seq<Input>|
            before.visited.contains((#[trigger] run(before.spawn(), before.rows(), inputs)).pos) || no_more(
                before.nodes@[u].cost(),
                cost(inputs),
            ) by {
            before.lemma_bound(inputs);
            if !before.visited.contains(run(before.spawn(), before.rows(), inputs).pos) {
                let k = choose|k: int| #[trigger] before.within(k, cost(inputs));
                assert(before.waits(k));
            }
        }
        assert(self.settled(hole)) by {
            reveal(ShortestPath::settled);
            assert forall|pos: Pos| #[trigger] self.visited.contains(pos) implies exists|f: int| #[trigger]
                self.settles(f, pos, hole) by {
                if before.visited.contains(pos) {
                    let f = choose|f: int| #[trigger] before.settles(f, pos, None);
                    assert(before.settles(f, pos, None));
                    assert(self.least(f));
                    assert forall|input: Input| #[trigger] self.covered(f, input) by {
                        assert(before.covered(f, input));
                        let to = step(before.at(f), before.rows(), input).pos;
                        let bound = cost_with(before.nodes@[f].cost(), input);
                        if !before.visited.contains(to) {
                            let k = choose|k: int| #[trigger] before.offers(k, to, bound);
                            if k != u {
                                assert(self.offers(k, to, bound));
                            }
                        }
                    }
                    assert(self.settles(f, pos, hole));
                } else {
                    assert(pos == home);
                    assert(self.least(u));
                    assert(self.settles(u, pos, hole));
                }
            }
        }
    }

    /// The search has taken up what an input leads to that does not move
    /// the piece from a position that the search holds.
    proof fn lemma_in_place(self, u: int, input: Input)
        requires
            self.visited.contains(self.nodes@[u].pos),
            step(self.at(u), self.rows(), input).pos == self.nodes@[u].pos,
        ensures
            self.covered(u, input),
    {
        reveal(ShortestPath::covered);
    }

    /// The search can go on from the node where it is going on from once
    /// it has taken up what each input leads to from there.
    proof fn lemma_close_hole(self, u: int)
        requires
            self.inv(Some(u)),
            forall|input: Input| #[trigger] self.covered(u, input),
        ensures
            self.inv(None),
    {
        reveal(ShortestPath::settled);
        assert forall|pos: Pos| #[trigger] self.visited.contains(pos) implies exists|f: int| #[trigger]
            self.settles(f, pos, None) by {
            let f = choose|f: int| #[trigger] self.settles(f, pos, Some(u));
            assert(self.settles(f, pos, None));
        }
    }

    /// Begins a search at the position where the shape appears.
    fn new(matrix: &Mat<'m>, piece_type: T) -> (search: Self)
        ensures
            search.wf(),
            search.rows() == matrix@,
            search.shape() == piece_type,
            forall|pos: Pos| !search.gone_from(pos),
            search.hunt() == Hunt::begin(Piece::spec_spawn(piece_type).pos),
            search.fuel() <= HUNT_STEPS,
    {
        let spawn_piece = Piece::spawn(piece_type);
        let root = ShortestPathNode::new_root(spawn_piece.pos);
        let mut nodes: Vec<ShortestPathNode> = Vec::new();
        nodes.push(root);
        let mut unvisited: Vec<usize> = Vec::new();
        unvisited.push(0);
        let visited = PosSet::with_capacity(256);
        let search = Self { matrix: *matrix, piece_type, nodes, unvisited, visited };
        proof {
            use_type_invariant(matrix);
            visited.lemma_room();
            visited.lemma_all_room();
            reveal(ShortestPath::linked);
            reveal(ShortestPath::queued);
            reveal(ShortestPath::settled);
            assert(search.unvisited@[0] == 0);
            assert(search.unvisited@.contains(0usize));
            assert(search.nodes@[0].pos == spawn_piece.pos);
            let begin = Hunt::begin(spawn_piece.pos);
            assert(search.hunt().nodes =~= begin.nodes);
            assert(search.hunt().queue =~= begin.queue);
            assert(search.hunt().seen =~= begin.seen);
        }
        search
    }

    /// Comes to `pos`, the position that `input` leads to from the node
    /// `parent`: the position gets a node, from which the search will go
    /// on unless it has gone on from the position by then.
    fn push(&mut self, parent: usize, input: Input, pos: Pos)
        requires
            old(self).inv(Some(parent as int)),
            old(self).spare() >= 1,
            parent < old(self).nodes@.len(),
            pos == step(old(self).at(parent as int), old(self).rows(), input).pos,
        ensures
            final(self).inv(Some(parent as int)),
            final(self).spare() == old(self).spare() - 1,
            final(self).covered(parent as int, input),
            forall|other: Input|
                old(self).covered(parent as int, other) ==> #[trigger] final(self).covered(parent as int, other),
            final(self).matrix == old(self).matrix,
            final(self).piece_type == old(self).piece_type,
            final(self).visited == old(self).visited,
            final(self).nodes@.len() == old(self).nodes@.len() + 1,
            forall|i: int| 0 <= i < old(self).nodes@.len() ==> #[trigger] final(self).nodes@[i] == old(self).nodes@[i],
            final(self).hunt() == old(self).hunt().push(parent, input, pos),
            final(self).fuel() == old(self).fuel() + 1,
    {
        let ghost before = *self;
        proof {
            before.lemma_path(parent as int);
            before.visited.lemma_room();
        }
        let at = self.nodes.len();
        let node = self.nodes[parent].new_child(parent, input, pos);
        self.unvisited.push(at);
        self.nodes.push(node);
        proof {
            reveal(ShortestPath::covered);
            reveal(ShortestPath::least);
            let queue = before.unvisited@;
            assert(self.hunt().seen =~= before.hunt().seen);
            assert(self.hunt().nodes =~= before.hunt().push(parent, input, pos).nodes);
            assert(self.hunt().queue =~= before.hunt().push(parent, input, pos).queue);
            assert forall|x: usize| self.unvisited@.contains(x) == (queue.contains(x) || x == at) by {
                if queue.contains(x) {
                    let k = choose|k: int| 0 <= k < queue.len() && queue[k] == x;
                    assert(self.unvisited@[k] == x);
                }
                if x == at {
                    assert(self.unvisited@[queue.len() as int] == x);
                }
            }
            assert forall|i: int| 0 <= i < before.nodes@.len() implies self.at(i) == before.at(i) by {}
            assert(self.linked()) by {
                reveal(ShortestPath::linked);
                assert forall|i: int| 1 <= i < self.nodes@.len() implies #[trigger] self.link_ok(i) by {
                    if i < at {
                        assert(before.link_ok(i));
                    }
                }
            }
            assert(self.queued()) by {
                reveal(ShortestPath::queued);
                assert forall|i: int, j: int|
                    0 <= i < self.unvisited@.len() && 0 <= j < self.unvisited@.len() && i != j implies self.unvisited@[i]
                    != self.unvisited@[j] by {
                    if i < queue.len() {
                        assert(queue[i] < at);
                    }
                    if j < queue.len() {
                        assert(queue[j] < at);
                    }
                }
            }
            assert forall|f: int, other: Input|
                0 <= f < at && before.covered(f, other) implies #[trigger] self.covered(f, other) by {
                let to = step(before.at(f), before.rows(), other).pos;
                let bound = cost_with(before.nodes@[f].cost(), other);
                if !before.visited.contains(to) {
                    let k = choose|k: int| #[trigger] before.offers(k, to, bound);
                    assert(self.offers(k, to, bound));
                }
            }
            assert(self.covered(parent as int, input)) by {
                assert(self.nodes@[at as int] == node);
                assert(self.unvisited@[queue.len() as int] == at);
                assert(self.unvisited@.contains(at));
                assert(self.waits(at as int));
                assert(node.cost() == cost_with(before.nodes@[parent as int].cost(), input));
                assert(self.nodes@[parent as int] == before.nodes@[parent as int]);
                assert(self.offers(at as int, pos, cost_with(self.nodes@[parent as int].cost(), input)));
            }
            assert(self.settled(Some(parent as int))) by {
                reveal(ShortestPath::settled);
                assert forall|held: Pos| #[trigger] self.visited.contains(held) implies exists|f: int| #[trigger]
                    self.settles(f, held, Some(parent as int)) by {
                    let f = choose|f: int| #[trigger] before.settles(f, held, Some(parent as int));
                    assert(before.settles(f, held, Some(parent as int)));
                    assert(self.least(f));
                    if f != parent {
                        assert forall|other: Input| #[trigger] self.covered(f, other) by {
                            assert(before.covered(f, other));
                        }
                    }
                    assert(self.settles(f, held, Some(parent as int)));
                }
            }
            assert(self.rooted());
        }
    }

    /// Takes from the nodes to go on from the one that is closest, the
    /// first of them if there are several.
    fn pop_min(&mut self) -> (popped: Option<usize>)
        requires
            old(self).wf(),
        ensures
            final(self).matrix == old(self).matrix,
            final(self).piece_type == old(self).piece_type,
            final(self).nodes@ == old(self).nodes@,
            final(self).visited == old(self).visited,
            match popped {
                Some(u) => {
                    &&& old(self).waits(u as int)
                    &&& forall|k: int| #[trigger]
                        old(self).waits(k) ==> no_more(
                            old(self).nodes@[u as int].cost(),
                            old(self).nodes@[k].cost(),
                        )
                    &&& final(self).unvisited@.no_duplicates()
                    &&& forall|x: usize|
                        final(self).unvisited@.contains(x) == (old(self).unvisited@.contains(x) && x != u)
                    &&& final(self).unvisited@.len() + 1 == old(self).unvisited@.len()
                    &&& u == old(self).hunt().queue[old(self).hunt().best(
                        old(self).hunt().queue.len() as int,
                    )]
                    &&& final(self).unvisited@ == old(self).hunt().queue.remove(
                        old(self).hunt().best(old(self).hunt().queue.len() as int),
                    )
                },
                None => {
                    &&& *final(self) == *old(self)
                    &&& old(self).unvisited@.len() == 0
                },
            },
    {
        let ghost before = *self;
        let n = self.unvisited.len();
        if n == 0 {
            return None;
        }
        proof {
            reveal(ShortestPath::queued);
            assert forall|k: int| 0 <= k < n implies (#[trigger] self.nodes@[self.unvisited@[k] as int]).len()
                <= MAX_NODES by {
                self.lemma_path(self.unvisited@[k] as int);
                self.visited.lemma_room();
            }
        }
        let mut best: usize = 0;
        let mut k: usize = 1;
        while k < n
            invariant
                1 <= k <= n,
                0 <= best < k,
                n == self.unvisited@.len(),
                *self == before,
                best == before.hunt().best(k as int),
                forall|j: int| 0 <= j < n ==> #[trigger] self.unvisited@[j] < self.nodes@.len(),
                forall|j: int|
                    0 <= j < n ==> (#[trigger] self.nodes@[self.unvisited@[j] as int]).len() <= MAX_NODES,
                forall|j: int|
                    0 <= j < k ==> no_more(
                        self.nodes@[self.unvisited@[best as int] as int].cost(),
                        (#[trigger] self.nodes@[self.unvisited@[j] as int]).cost(),
                    ),
            decreases n - k,
        {
            let cand = self.unvisited[k];
            let held = self.unvisited[best];
            if self.nodes[cand].closer(&self.nodes[held]) {
                best = k;
            }
            k += 1;
        }
        let u = self.unvisited.remove(best);
        proof {
            let queue = before.unvisited@;
            assert(queue[best as int] == u);
            assert(queue.contains(u));
            assert forall|x: usize| self.unvisited@.contains(x) == (queue.contains(x) && x != u) by {
                if self.unvisited@.contains(x) {
                    let j = choose|j: int| 0 <= j < self.unvisited@.len() && self.unvisited@[j] == x;
                    if j < best {
                        assert(queue[j] == x);
                    } else {
                        assert(queue[j + 1] == x);
                    }
                }
                if queue.contains(x) && x != u {
                    let j = choose|j: int| 0 <= j < queue.len() && queue[j] == x;
                    if j < best {
                        assert(self.unvisited@[j] == x);
                    } else {
                        assert(self.unvisited@[j - 1] == x);
                    }
                }
            }
            assert forall|k: int| #[trigger] before.waits(k) implies no_more(
                before.nodes@[u as int].cost(),
                before.nodes@[k].cost(),
            ) by {
                let j = choose|j: int| 0 <= j < queue.len() && queue[j] == k as usize;
                assert(before.nodes@[queue[j] as int] == before.nodes@[k]);
            }
        }
        Some(u)
    }

    /// Takes the closest of the nodes to go on from, if one is left, and
    /// goes on from it unless the search has gone on from its position
    /// before: comes to the positions that one input leads to from it, and
    /// returns the node with the cells that the piece drops onto from
    /// there.
    fn next(&mut self) -> (went: Outcome)
        requires
            old(self).wf(),
        ensures
            final(self).wf(),
            final(self).rows() == old(self).rows(),
            final(self).shape() == old(self).shape(),
            match went {
                Outcome::Spent => {
                    &&& old(self).hunt().queue.len() == 0
                    &&& forall|inputs: Seq<Input>|
                        final(self).gone_from(
                            (#[trigger] run(final(self).spawn(), final(self).rows(), inputs)).pos,
                        )
                    &&& forall|pos: Pos| final(self).gone_from(pos) == old(self).gone_from(pos)
                },
                Outcome::Passed => {
                    &&& old(self).hunt().queue.len() > 0
                    &&& (final(self).hunt(), None::<usize>) == old(self).hunt().step(
                        old(self).shape(),
                        old(self).rows(),
                    )
                    &&& final(self).fuel() < old(self).fuel()
                    &&& forall|pos: Pos| final(self).gone_from(pos) == old(self).gone_from(pos)
                },
                Outcome::Settled(cells, u) => {
                    &&& old(self).hunt().queue.len() > 0
                    &&& (final(self).hunt(), Some(u)) == old(self).hunt().step(
                        old(self).shape(),
                        old(self).rows(),
                    )
                    &&& final(self).fuel() < old(self).fuel()
                    &&& u < old(self).nodes@.len()
                    &&& final(self).nodes@[u as int] == old(self).nodes@[u as int]
                    &&& cells@ == final(self).at(u as int).dropped(final(self).rows()).spec_cells()
                    &&& forall|pos: Pos|
                        final(self).gone_from(pos) == (old(self).gone_from(pos) || pos == final(self).nodes@[u as int].pos)
                    &&& forall|inputs: Seq<Input>|
                        old(self).gone_from(
                            (#[trigger] run(final(self).spawn(), final(self).rows(), inputs)).pos,
                        ) || no_more(final(self).nodes@[u as int].cost(), cost(inputs))
                },
            },
    {
        let ghost before = *self;
        let u = match self.pop_min() {
            Some(u) => u,
            None => {
                proof {
                    assert forall|inputs: Seq<Input>|
                        self.gone_from((#[trigger] run(self.spawn(), self.rows(), inputs)).pos) by {
                        self.lemma_bound(inputs);
                        if !self.visited.contains(run(self.spawn(), self.rows(), inputs).pos) {
                            let k = choose|k: int| #[trigger] self.within(k, cost(inputs));
                            assert(self.unvisited@.contains(k as usize));
                        }
                    }
                }
                return Outcome::Spent;
            },
        };
        let ghost rows = self.rows();
        let mat = self.matrix;
        let piece = Piece { shape: self.piece_type, pos: self.nodes[u].pos };
        let ghost from = piece;
        assert(from == self.at(u as int));
        let fresh = self.visited.insert(piece.pos);
        let ghost popped = *self;
        proof {
            popped.lemma_taken(before, u as int, fresh);
            before.visited.lemma_room();
            popped.visited.lemma_room();
            let at = before.hunt().best(before.hunt().queue.len() as int);
            assert(popped.hunt().nodes == before.hunt().nodes);
            assert(popped.hunt().queue == before.hunt().queue.remove(at));
            if fresh {
                assert(popped.hunt().seen =~= before.hunt().seen.insert(from.pos));
            } else {
                assert(popped.hunt().seen =~= before.hunt().seen);
            }
        }
        if !fresh {
            return Outcome::Passed;
        }
        proof {
            lemma_step_turn(from, rows, Turn::Cw);
            lemma_step_turn(from, rows, Turn::Ccw);
            lemma_step_shift(from, rows, Dir::Left);
            lemma_step_shift(from, rows, Dir::Right);
            lemma_step_drop(from, rows);
        }

        let mut cw = piece;
        if cw.try_rotate(&mat, Turn::Cw).is_some() {
            self.push(u, Input::Cw, cw.pos);
        } else {
            proof {
                self.lemma_in_place(u as int, Input::Cw);
            }
        }
        assert(self.at(u as int) == from);

        let mut ccw = piece;
        if ccw.try_rotate(&mat, Turn::Ccw).is_some() {
            self.push(u, Input::Ccw, ccw.pos);
        } else {
            proof {
                self.lemma_in_place(u as int, Input::Ccw);
            }
        }
        assert(self.at(u as int) == from);

        let mut left = piece;
        if left.try_shift(&mat, Dir::Left).is_some() {
            self.push(u, Input::Left, left.pos);
        } else {
            proof {
                self.lemma_in_place(u as int, Input::Left);
            }
        }
        assert(self.at(u as int) == from);

        let mut right = piece;
        if right.try_shift(&mat, Dir::Right).is_some() {
            self.push(u, Input::Right, right.pos);
        } else {
            proof {
                self.lemma_in_place(u as int, Input::Right);
            }
        }
        assert(self.at(u as int) == from);

        let mut sd = piece;
        let (dy, cells) = sd.sonic_drop(&mat);
        if dy != 0 {
            self.push(u, Input::SonicDrop, sd.pos);
        } else {
            proof {
                self.lemma_in_place(u as int, Input::SonicDrop);
            }
        }
        proof {
            assert(self.at(u as int) == from);
            assert forall|input: Input| #[trigger] self.covered(u as int, input) by {
                match input {
                    Input::Left => {},
                    Input::Right => {},
                    Input::Cw => {},
                    Input::Ccw => {},
                    Input::SonicDrop => {},
                }
            }
            self.lemma_close_hole(u as int);
        }
        Outcome::Settled(cells, u)
    }

    /// The inputs that lead to the node `node`, first input first.
    fn inputs(&self, node: usize) -> (inputs: Vec<Input>)
        requires
            self.wf(),
            node < self.nodes@.len(),
        ensures
            inputs@ == path(self.nodes@, node as int),
    {
        let mut inputs: Vec<Input> = Vec::new();
        let mut at = node;
        proof {
            assert(path(self.nodes@, node as int) =~= path(self.nodes@, at as int) + inputs@);
        }
        while at != 0
            invariant
                self.wf(),
                at < self.nodes@.len(),
                path(self.nodes@, node as int) == path(self.nodes@, at as int) + inputs@,
            decreases at,
        {
            proof {
                reveal(ShortestPath::linked);
                assert(self.link_ok(at as int));
            }
            let link = self.nodes[at];
            match (link.input, link.parent) {
                (Some(input), Some(parent)) => {
                    proof {
                        let rest = path(self.nodes@, parent as int);
                        assert(path(self.nodes@, at as int) == rest.push(input));
                        assert(rest.push(input) + inputs@ =~= rest + inputs@.insert(0, input));
                    }
                    inputs.insert(0, input);
                    at = parent;
                },
                _ => {
                    assert(false);
                },
            }
        }
        proof {
            assert(path(self.nodes@, 0) =~= Seq::<Input>::empty());
            assert(path(self.nodes@, node as int) =~= inputs@);
        }
        inputs
    }
}

/// Returns the minimal input sequence to reach `target` from the piece spawn location. If
/// a reachable path is not found then returns `None`.
///
/// The input sequence does *not* include the `SonicDrop` that would place it on the
/// ground; it is implied that this would be accomplished by a hard drop always performed.
/// The piece need not end at the position of `target`: it ends at a position from which
/// it drops onto the cells of `target`. No sequence that does so has fewer inputs; of
/// those with as few, none has fewer sonic drops; and of those with as few of both, none
/// has fewer turns.
pub fn reach<T: Shape + WallKicks + Spawn + Copy>(matrix: &Mat, target: Piece<T>) -> (found: Option<Vec<Input>>)
    ensures
        match found {
            Some(inputs) => {
                &&& drops_onto(matrix@, target.shape, inputs@, target.spec_cells())
                &&& forall|other: Seq<Input>|
                    drops_onto(matrix@, target.shape, other, target.spec_cells()) ==> inputs@.len()
                        <= other.len()
                &&& forall|other: Seq<Input>|
                    drops_onto(matrix@, target.shape, other, target.spec_cells()) ==> no_costlier(
                        inputs@,
                        other,
                    )
            },
            None => forall|other: Seq<Input>| !drops_onto(matrix@, target.shape, other, target.spec_cells()),
        },
        match found {
            Some(inputs) => reach_inputs(matrix@, target) == Some(inputs@),
            None => reach_inputs(matrix@, target).is_none(),
        },
        lands(matrix@, target.shape, target.pos) ==> found.is_some(),
{
    let target_cells = target.cells();
    let mut search = ShortestPath::new(matrix, target.shape);
    let ghost rows = matrix@;
    let ghost shape = target.shape;
    let ghost goal = target.spec_cells();
    let ghost spawn = Piece::spec_spawn(shape);
    let ghost mut budget = HUNT_STEPS as nat;
    loop
        invariant
            budget >= search.fuel(),
            reach_inputs(matrix@, target) == search.hunt().find(shape, rows, goal, budget),
            search.wf(),
            search.rows() == rows,
            search.shape() == shape,
            rows == matrix@,
            shape == target.shape,
            goal == target.spec_cells(),
            spawn == Piece::spec_spawn(shape),
            target_cells@ == goal,
            forall|pos: Pos| #[trigger] search.gone_from(pos) ==> spawn.at(pos).dropped(rows).spec_cells() != goal,
        decreases search.fuel(),
    {
        let ghost before = search;
        match search.next() {
            Outcome::Settled(cells, node) => {
                proof {
                    before.lemma_hunt_node(node as int);
                    search.lemma_hunt_node(node as int);
                    assert(before.hunt().find(shape, rows, goal, budget) == (if cells@ == goal {
                        Some(path(search.hunt().nodes, node as int))
                    } else {
                        search.hunt().find(shape, rows, goal, (budget - 1) as nat)
                    }));
                    budget = (budget - 1) as nat;
                }
                if cells == target_cells {
                    let inputs = search.inputs(node);
                    proof {
                        search.lemma_path(node as int);
                        assert(run(search.spawn(), rows, inputs@) == search.at(node as int));
                        assert(cells@ == goal);
                        assert(drops_onto(rows, shape, inputs@, goal));
                        assert forall|other: Seq<Input>| drops_onto(rows, shape, other, goal) implies no_costlier(
                            inputs@,
                            other,
                        ) by {
                            lemma_run_shape(spawn, rows, other);
                            let end = run(spawn, rows, other);
                            assert(!before.gone_from(end.pos));
                        }
                        assert forall|other: Seq<Input>| drops_onto(rows, shape, other, goal) implies inputs@.len()
                            <= other.len() by {
                            assert(no_costlier(inputs@, other));
                        }
                    }
                    return Some(inputs);
                }
                proof {
                    Cells::lemma_view_distinct(cells, target_cells);
                    assert(search.at(node as int) == spawn.at(search.nodes@[node as int].pos));
                }
            },
            Outcome::Passed => {
                proof {
                    assert(before.hunt().find(shape, rows, goal, budget) == search.hunt().find(
                        shape,
                        rows,
                        goal,
                        (budget - 1) as nat,
                    ));
                    budget = (budget - 1) as nat;
                }
            },
            Outcome::Spent => {
                proof {
                    if lands(rows, shape, target.pos) {
                        lemma_landing_reached(rows, shape, target.pos);
                    }
                    assert forall|other: Seq<Input>| !drops_onto(rows, shape, other, goal) by {
                        lemma_run_shape(spawn, rows, other);
                        let end = run(spawn, rows, other);
                        assert(search.gone_from(end.pos));
                    }
                }
                return None;
            },
        }
    }
}

} // verus!
