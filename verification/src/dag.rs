//! The boards that placements lead to, as nodes of a graph that grows from
//! the board of the moment.

use vstd::prelude::*;

use crate::eval::evaluate;
use crate::eval::score;
use crate::matrix::MAX_ROWS;
use crate::matrix::Mat;
use crate::matrix::MatBuf;
use crate::matrix::rows_cleared;
use crate::matrix::rows_placed;
use crate::matrix::rows_wf;
use crate::piece::CellsView;
use crate::piece::Pos;
use crate::places::PlacesResult;
use crate::places::all_places;
use crate::places::landings;
use crate::places::places_order;
use crate::places::positions;
use crate::queue::QueueView;
use crate::standard_rules::FallingPiece;
use crate::standard_rules::Piece;
use crate::standard_rules::Queue;
use crate::state::State;

pub use bumpalo::Bump as Alloc;

verus! {

/// `bumpalo::Bump`, the arena that holds the rows of the boards. Verus
/// knows nothing of what is inside.
#[verifier::external_type_specification]
#[verifier::external_body]
pub struct ExBump<const MIN_ALIGN: usize>(bumpalo::Bump<MIN_ALIGN>);

/// `bumpalo::Bump::alloc_slice_copy` copies the slice into the arena and
/// returns the copy. (It ends the program where the arena cannot get the
/// memory, as a `Vec` does.)
#[verifier::external_body]
fn alloc_slice_copy<'a>(alo: &'a Alloc, rows: &[u16]) -> (copy: &'a [u16])
    ensures
        copy@ == rows@,
{
    alo.alloc_slice_copy(rows)
}

/// The rows of `mat`, copied into the arena.
pub fn copy_matrix<'a>(alo: &'a Alloc, mat: &Mat) -> (copy: Mat<'a>)
    ensures
        copy@ == mat@,
{
    Mat::new(alloc_slice_copy(alo, mat.rows()))
}

/// The greatest number of pieces that a search can look ahead over: each
/// piece may raise the stack by four rows, and a matrix holds
/// [`MAX_ROWS`] rows.
pub const MAX_COUNT: usize = 31;

/// The rows of a board after `cells` have been placed on it and the full
/// rows among those that the cells reach have been cleared.
pub open spec fn rows_after(rows: Seq<u16>, cells: CellsView) -> Seq<u16> {
    rows_cleared(rows_placed(rows, cells), cells.y)
}

/// The number of rows that placing `cells` clears.
pub open spec fn lines_cleared(rows: Seq<u16>, cells: CellsView) -> int {
    rows_placed(rows, cells).len() - rows_after(rows, cells).len()
}

/// The clears after `cells` have been placed on `rows`: the placement is a
/// spin if the cells cannot move before any row is cleared.
pub open spec fn state_after(rows: Seq<u16>, state: State, cells: CellsView) -> State {
    state.spec_next(lines_cleared(rows, cells) as u8, cells.immobile(rows))
}

/// Whether `found` lists the positions of `set`, each once.
pub open spec fn lists(found: Seq<Pos>, set: Set<Pos>) -> bool {
    &&& found.no_duplicates()
    &&& forall|pos: Pos| set.contains(pos) <==> found.contains(pos)
}

/// The node of the board that the placement `piece` leads to from the board
/// `parent`, the node `at`, where it leaves the pieces `queue`.
pub open spec fn child_view(parent: NodeView, at: int, piece: FallingPiece, queue: QueueView<Piece>) -> NodeView {
    let rows = rows_after(parent.rows, piece.spec_cells());
    let state = state_after(parent.rows, parent.state, piece.spec_cells());
    NodeView { rows, queue, state, score: score(rows, state), parent: Some((at, piece)), children: Seq::empty() }
}

/// The nodes that the placements of one piece on the board `parent` lead
/// to, in the order in which the search for places finds them.
pub open spec fn litter_views(parent: NodeView, at: int, succ: (Piece, QueueView<Piece>)) -> Seq<NodeView> {
    let order = places_order(parent.rows, succ.0);
    Seq::new(order.len(), |k: int| child_view(parent, at, FallingPiece::spawn_at(succ.0, order[k]), succ.1))
}

/// The nodes that the placements on the board `parent` lead to: those of
/// the piece that is held first, then those of the piece that a hold
/// brings up.
pub open spec fn brood_views(parent: NodeView, at: int) -> Seq<NodeView> {
    let succs = parent.queue.successors();
    if succs.len() == 0 {
        Seq::empty()
    } else if succs.len() == 1 {
        litter_views(parent, at, succs[0])
    } else {
        litter_views(parent, at, succs[0]) + litter_views(parent, at, succs[1])
    }
}

/// The graph after the nodes that the placements on the board of the node
/// `at` lead to have been made: they stand behind the nodes that were
/// there, and the node `at` lists them as its children.
pub open spec fn expanded(dag: Seq<NodeView>, at: int) -> Seq<NodeView> {
    let brood = brood_views(dag[at], at);
    let children = Seq::new(brood.len(), |k: int| (dag.len() + k) as usize);
    dag.update(
        at,
        NodeView {
            rows: dag[at].rows,
            queue: dag[at].queue,
            state: dag[at].state,
            score: dag[at].score,
            parent: dag[at].parent,
            children,
        },
    ) + brood
}

/// The first placement on the way from the first node of a graph to the
/// node that `edge` leads to.
pub open spec fn first_piece_in(dag: Seq<NodeView>, edge: Option<(int, FallingPiece)>) -> Option<FallingPiece>
    decreases
            (match edge {
                Some(e) => e.0 + 1,
                None => 0,
            }),
{
    match edge {
        Some(e) => {
            if 0 <= e.0 < dag.len() {
                match dag[e.0].parent {
                    Some(up) => if 0 <= up.0 < e.0 {
                        first_piece_in(dag, Some(up))
                    } else {
                        Some(e.1)
                    },
                    None => Some(e.1),
                }
            } else {
                Some(e.1)
            }
        },
        None => None,
    }
}

/// Nodes that stand behind a graph, one for each place of a piece in the
/// order of the places, make the graph with the litter of the piece.
proof fn lemma_litter_appended(
    start: Seq<NodeView>,
    dag: Seq<NodeView>,
    from: NodeView,
    at: int,
    succ: (Piece, QueueView<Piece>),
    spots: Seq<Pos>,
)
    requires
        dag.len() == start.len() + spots.len(),
        spots == places_order(from.rows, succ.0),
        forall|i: int| 0 <= i < start.len() ==> #[trigger] dag[i] == start[i],
        forall|i: int|
            0 <= i < spots.len() ==> #[trigger] dag[start.len() + i] == child_view(
                from,
                at,
                FallingPiece::spawn_at(succ.0, spots[i]),
                succ.1,
            ),
    ensures
        dag == start + litter_views(from, at, succ),
{
    let litter = litter_views(from, at, succ);
    assert(litter.len() == spots.len());
    assert forall|i: int| 0 <= i < dag.len() implies dag[i] == (start + litter)[i] by {
        if i >= start.len() {
            assert(dag[start.len() + (i - start.len())] == litter[i - start.len()]);
        }
    }
    assert(dag =~= start + litter);
}

/// The placement that led to a node, and the node that it was made on.
#[derive(Copy, Clone, Debug)]
pub struct Edge {
    node: usize,
    piece: FallingPiece,
}

/// The mathematical model of a [`Node`].
pub struct NodeView {
    /// The rows of the board.
    pub rows: Seq<u16>,
    /// The pieces that are left.
    pub queue: QueueView<Piece>,
    /// The clears on the way to the board.
    pub state: State,
    /// The score of the board.
    pub score: int,
    /// The node that the board was reached from, and the placement that
    /// led from it; nothing for the board that the search begins with.
    pub parent: Option<(int, FallingPiece)>,
    /// The nodes that the placements on this board led to, once they are
    /// made.
    pub children: Seq<usize>,
}

impl NodeView {
    /// Whether the stack leaves room for every piece that is left, and the
    /// counters of clears for every clear to come.
    pub open spec fn roomy(self) -> bool {
        &&& rows_wf(self.rows)
        &&& self.queue.wf()
        &&& self.rows.len() + 4 * self.queue.count() <= MAX_ROWS
        &&& self.state.clears() + self.queue.count() <= MAX_COUNT
        &&& self.state.b2b_clears + self.queue.count() <= MAX_COUNT
    }

    /// Whether `self` is the board that the placement `piece` leads to
    /// from the board `parent`, the node `at`: the piece is one that can be
    /// played next, it is placed where it can land, and the board, the
    /// clears and the score are those after the placement.
    pub open spec fn made_from(self, parent: NodeView, at: int, piece: FallingPiece) -> bool {
        &&& self.parent == Some((at, piece))
        &&& parent.queue.successors().contains((piece.shape, self.queue))
        &&& landings(parent.rows, piece.shape).contains(piece.pos)
        &&& self.rows == rows_after(parent.rows, piece.spec_cells())
        &&& self.state == state_after(parent.rows, parent.state, piece.spec_cells())
        &&& self.score == score(self.rows, self.state)
    }
}

/// A board that the search has come to.
pub struct Node<'a> {
    matrix: Mat<'a>,
    queue: Queue<'a>,
    score: i32,
    state: State,
    parent: Option<Edge>,
    children: Vec<usize>,
}

impl<'a> View for Node<'a> {
    type V = NodeView;

    closed spec fn view(&self) -> NodeView {
        NodeView {
            rows: self.matrix@,
            queue: self.queue@,
            state: self.state,
            score: self.score as int,
            parent: match self.parent {
                Some(edge) => Some((edge.node as int, edge.piece)),
                None => None,
            },
            children: self.children@,
        }
    }
}

impl<'a> Node<'a> {
    /// The node of the board that the search begins with. Its score is the
    /// least there is, so that any other node is better.
    pub fn root(matrix: &Mat<'a>, queue: Queue<'a>, b2b: bool) -> (node: Self)
        ensures
            node@ == (NodeView {
                rows: matrix@,
                queue: queue@,
                state: State::spec_new(b2b),
                score: i32::MIN as int,
                parent: None,
                children: Seq::empty(),
            }),
    {
        Node {
            matrix: *matrix,
            queue,
            state: State::new(b2b),
            score: i32::MIN,
            parent: None,
            children: Vec::new(),
        }
    }

    /// The score of the board.
    pub fn score(&self) -> (score: i32)
        ensures
            score == self@.score,
    {
        self.score
    }

    /// The clears on the way to the board.
    pub fn state(&self) -> (state: State)
        ensures
            state == self@.state,
    {
        self.state
    }

    /// The board of the node.
    pub fn matrix(&self) -> (matrix: &Mat<'a>)
        ensures
            matrix@ == self@.rows,
    {
        &self.matrix
    }

    /// The pieces that are left at the node.
    pub fn queue(&self) -> (queue: Queue<'a>)
        ensures
            queue@ == self@.queue,
    {
        self.queue
    }

    /// If `n.ord_min_best() < m.ord_min_best()` then `n` is better than `m`.
    pub fn ord_min_best(&self) -> (key: i64)
        ensures
            key == -self@.score,
    {
        -(self.ord_max_best() as i64)
    }

    /// If `n.ord_max_best() > m.ord_max_best()` then `n` is better than `m`.
    pub fn ord_max_best(&self) -> (key: i32)
        ensures
            key == self@.score,
    {
        self.score()
    }

    /// The nodes that the placements on this board led to; none before
    /// [`Node::expand`] has made them.
    pub fn children(&self) -> (children: &[usize])
        ensures
            children@ == self@.children,
    {
        self.children.as_slice()
    }

    /// The first placement on the way from the board that the search began
    /// with to this node; none for the node of that board.
    pub fn original_piece(&self, dag: &Dag<'a>) -> (first: Option<FallingPiece>)
        requires
            dag.wf(),
            self@.parent matches Some(edge) ==> 0 <= edge.0 < dag@.len(),
        ensures
            first == dag.first_piece(self@.parent),
    {
        let mut edge = self.parent;
        let mut target = None;
        loop
            invariant
                dag.wf(),
                edge matches Some(e) ==> e.node < dag@.len(),
                dag.first_piece(self@.parent) == (match edge {
                    Some(e) => dag.first_piece(Some((e.node as int, e.piece))),
                    None => target,
                }),
            ensures
                target == dag.first_piece(self@.parent),
            decreases
                    (match edge {
                        Some(e) => e.node + 1,
                        None => 0,
                    }),
        {
            match edge {
                Some(e) => {
                    proof {
                        dag.lemma_parent(e.node as int);
                    }
                    target = Some(e.piece);
                    edge = dag.nodes[e.node].parent;
                },
                None => {
                    break;
                },
            }
        }
        target
    }

    /// The node of the board that the placement `place` leads to from the
    /// board `matrix` with the clears `state`, the node `at`. `queue` holds
    /// the pieces that the placement leaves; `new_matrix` is room to work
    /// in.
    fn child(
        matrix: &Mat,
        state: State,
        at: usize,
        queue: Queue<'a>,
        place: &PlacesResult<Piece>,
        new_matrix: &mut MatBuf,
        alo: &'a Alloc,
    ) -> (node: Self)
        requires
            place.cells@ == place.falling_piece.spec_cells(),
            place.falling_piece.fits(matrix@),
            place.falling_piece.drop_distance(matrix@) == 0,
            matrix@.len() + 4 <= MAX_ROWS,
            state.clears() < MAX_COUNT,
            state.b2b_clears < MAX_COUNT,
        ensures
            node@.rows == rows_after(matrix@, place.cells@),
            node@.state == state_after(matrix@, state, place.cells@),
            node@.score == score(node@.rows, node@.state),
            node@.queue == queue@,
            node@.parent == Some((at as int, place.falling_piece)),
            node@.children.len() == 0,
            rows_wf(node@.rows),
            node@.rows.len() <= matrix@.len() + 4,
            node@.state.clears() <= state.clears() + 1,
            node@.state.b2b_clears <= state.b2b_clears + 1,
    {
        let cells = place.cells;
        proof {
            use_type_invariant(matrix);
            use_type_invariant(&cells);
            cells@.lemma_fits_inside(matrix@);
            cells@.lemma_resting_low(matrix@);
            let cleared = lines_cleared(matrix@, cells@) as u8;
            crate::state::lemma_can_count(state, cleared, cells@.immobile(matrix@));
            crate::state::lemma_next_counts(state, cleared, cells@.immobile(matrix@));
        }
        new_matrix.copy_from(matrix);
        let is_spin = cells.immobile(&new_matrix.as_mat());
        new_matrix.place(cells);
        proof {
            use_type_invariant(&*new_matrix);
            crate::matrix::lemma_cleared_wf(rows_placed(matrix@, cells@), cells@.y);
        }
        let cleared = new_matrix.clear_lines(cells.bottom());
        let state = state.next(cleared, is_spin);
        // the rows go to the arena, where they stay while the graph is there
        let matrix = copy_matrix(alo, &new_matrix.as_mat());
        let score = evaluate(&matrix, state);
        Node {
            matrix,
            queue,
            score,
            state,
            parent: Some(Edge { node: at, piece: place.falling_piece }),
            children: Vec::new(),
        }
    }

    /// Makes the nodes of the boards that the placements of the shape `pc`
    /// on the board of the node `at` lead to, and lists them in `children`.
    fn expand_piece(
        dag: &mut Dag<'a>,
        at: usize,
        pc: Piece,
        queue: Queue<'a>,
        children: &mut Vec<usize>,
        new_matrix: &mut MatBuf,
        alo: &'a Alloc,
        Ghost(before): Ghost<Dag<'a>>,
    )
        requires
            before.wf(),
            at < before@.len(),
            old(dag).growing(before, at as int, old(children)@),
            before@[at as int].queue.successors().contains((pc, queue@)),
        ensures
            final(dag).growing(before, at as int, final(children)@),
            final(dag).litter(at as int, (pc, queue@), old(dag)@.len() as int, final(dag)@.len() as int),
            forall|t: (Piece, QueueView<Piece>), lo: int, hi: int|
                old(dag).litter(at as int, t, lo, hi) ==> final(dag).litter(at as int, t, lo, hi),
            final(dag)@ == old(dag)@ + litter_views(before@[at as int], at as int, (pc, queue@)),
    {
        let ghost from = before@[at as int];
        let ghost lo = dag@.len() as int;
        let ghost start = *dag;
        proof {
            before.lemma_roomy(at as int);
            let i = choose|i: int| 0 <= i < from.queue.successors().len() && from.queue.successors()[i] == (pc, queue@);
            crate::queue::lemma_successors_shrink(from.queue, i);
            reveal(Dag::growing);
        }
        let matrix = dag.nodes[at].matrix;
        let state = dag.nodes[at].state;
        let found = all_places(&matrix, pc);
        let ghost spots = Seq::new(found@.len(), |k: int| found@[k].falling_piece.pos);
        proof {
            assert(spots =~= positions(found@));
        }
        let mut k: usize = 0;
        while k < found.len()
            invariant
                0 <= k <= found@.len(),
                before.wf(),
                at < before@.len(),
                from == before@[at as int],
                from.roomy(),
                from.queue.count() >= 1,
                from.queue.successors().contains((pc, queue@)),
                queue@.count() + 1 == from.queue.count(),
                queue@.wf(),
                matrix@ == from.rows,
                state == from.state,
                crate::places::lists_places(from.rows, pc, found@),
                spots == Seq::new(found@.len(), |k: int| found@[k].falling_piece.pos),
                spots == places_order(from.rows, pc),
                forall|i: int|
                    0 <= i < k ==> #[trigger] dag@[lo + i] == child_view(
                        from,
                        at as int,
                        FallingPiece::spawn_at(pc, spots[i]),
                        queue@,
                    ),
                lo == start@.len(),
                dag@.len() == lo + k,
                dag.growing(before, at as int, children@),
                forall|i: int| 0 <= i < lo ==> #[trigger] dag@[i] == start@[i],
                forall|i: int|
                    0 <= i < k ==> {
                        let node = #[trigger] dag@[lo + i];
                        &&& node.queue == queue@
                        &&& node.made_from(from, at as int, FallingPiece::spawn_at(pc, spots[i]))
                    },
            decreases found@.len() - k,
        {
            let ghost mid = *dag;
            let ghost listed = children@;
            let place = &found[k];
            let node = Node::child(&matrix, state, at, queue, place, new_matrix, alo);
            let id = dag.nodes.len();
            proof {
                assert(place.falling_piece == FallingPiece::spawn_at(pc, spots[k as int]));
                assert(node@.made_from(from, at as int, place.falling_piece));
                assert(node@.roomy());
                let view = child_view(from, at as int, place.falling_piece, queue@);
                assert(node@.children =~= view.children);
                assert(node@ == view);
            }
            dag.nodes.push(node);
            children.push(id);
            proof {
                reveal(Dag::growing);
                assert forall|i: int| 0 <= i < mid@.len() implies #[trigger] dag@[i] == mid@[i] by {}
                assert(dag@[id as int] == node@);
            }
            k += 1;
        }
        proof {
            assert(lists(spots, landings(from.rows, pc))) by {
                assert forall|pos: Pos| landings(from.rows, pc).contains(pos) implies spots.contains(pos) by {
                    let k = choose|k: int| 0 <= k < found@.len() && (#[trigger] found@[k]).falling_piece.pos == pos;
                    assert(spots[k] == pos);
                }
            }
            reveal(Dag::growing);
            assert(dag@[at as int] == from);
            assert(dag.litter_of(at as int, (pc, queue@), lo, dag@.len() as int, spots));
            assert forall|t: (Piece, QueueView<Piece>), a: int, b: int|
                start.litter(at as int, t, a, b) implies dag.litter(at as int, t, a, b) by {
                let f = choose|f: Seq<Pos>| start.litter_of(at as int, t, a, b, f);
                assert(start@[at as int] == from);
                assert forall|i: int| 0 <= i < f.len() implies #[trigger] dag@[a + i] == start@[a + i] by {}
                assert(dag.litter_of(at as int, t, a, b, f));
            }
            lemma_litter_appended(start@, dag@, from, at as int, (pc, queue@), spots);
        }
    }

    /// Makes the nodes of the boards that the placements on the board of
    /// the node `at` lead to: for each piece that can be played next, for
    /// each place where it can land, one node. They are added to the graph
    /// and listed as the children of the node. Returns their number.
    pub fn expand(dag: &mut Dag<'a>, at: usize, alo: &'a Alloc) -> (made: usize)
        requires
            old(dag).wf(),
            at < old(dag)@.len(),
            old(dag)@[at as int].children.len() == 0,
        ensures
            final(dag).wf(),
            final(dag).grown_from(*old(dag), at as int),
            made == final(dag)@.len() - old(dag)@.len(),
            final(dag).brood(at as int, old(dag)@.len() as int),
            final(dag)@ == expanded(old(dag)@, at as int),
    {
        let ghost before = *dag;
        let ghost first = dag@.len() as int;
        let mut children: Vec<usize> = Vec::with_capacity(64);
        let mut new_matrix = MatBuf::new();
        let matrix = dag.nodes[at].matrix;
        let state = dag.nodes[at].state;
        let queue = dag.nodes[at].queue;
        let score = dag.nodes[at].score;
        let parent = dag.nodes[at].parent;
        let ghost from = before@[at as int];
        let ghost succs = from.queue.successors();
        let mut pop = queue.pop();
        let ghost mut turn = 0int;
        let ghost mut mid = first;
        proof {
            reveal(Dag::growing);
        }
        loop
            invariant
                before.wf(),
                at < before@.len(),
                first == before@.len(),
                from == before@[at as int],
                succs == from.queue.successors(),
                0 <= turn <= succs.len() <= 2,
                pop@ == succs.skip(turn),
                dag.growing(before, at as int, children@),
                turn == 0 ==> dag@ == before@,
                turn == 1 ==> dag@ == before@ + litter_views(from, at as int, succs[0]),
                turn == 2 ==> dag@ == before@ + (litter_views(from, at as int, succs[0]) + litter_views(
                    from,
                    at as int,
                    succs[1],
                )),
                turn == 0 ==> dag@.len() == first,
                turn == 1 ==> dag.litter(at as int, succs[0], first, dag@.len() as int) && mid == dag@.len(),
                turn == 2 ==> dag.litter(at as int, succs[0], first, mid) && dag.litter(
                    at as int,
                    succs[1],
                    mid,
                    dag@.len() as int,
                ),
            ensures
                turn == succs.len(),
                dag.growing(before, at as int, children@),
                dag@ == before@ + brood_views(from, at as int),
                turn == 0 ==> dag@.len() == first,
                turn == 1 ==> dag.litter(at as int, succs[0], first, dag@.len() as int),
                turn == 2 ==> dag.litter(at as int, succs[0], first, mid) && dag.litter(
                    at as int,
                    succs[1],
                    mid,
                    dag@.len() as int,
                ),
            decreases succs.len() - turn,
        {
            let (pc, queue) = match pop.next() {
                Some(item) => item,
                None => {
                    proof {
                        if turn == 0 {
                            assert(before@ + brood_views(from, at as int) =~= before@);
                        }
                    }
                    break;
                },
            };
            proof {
                assert(succs[turn] == (pc, queue@));
                assert(succs.contains((pc, queue@)));
            }
            Node::expand_piece(dag, at, pc, queue, &mut children, &mut new_matrix, alo, Ghost(before));
            proof {
                if turn == 0 {
                    mid = dag@.len() as int;
                } else {
                    let one = litter_views(from, at as int, succs[0]);
                    let two = litter_views(from, at as int, succs[1]);
                    assert((before@ + one) + two =~= before@ + (one + two));
                }
                turn = turn + 1;
                assert(pop@ =~= succs.skip(turn));
            }
        }
        let made = children.len();
        let ghost listed = children@;
        let ghost grown = *dag;
        dag.nodes.set(at, Node { matrix, queue, score, state, parent, children });
        proof {
            reveal(Dag::growing);
            reveal(Dag::wf);
            assert forall|i: int| 0 <= i < grown@.len() && i != at implies #[trigger] dag@[i] == grown@[i] by {}
            assert(dag@[at as int].children == listed);
            assert(dag.grown_from(before, at as int));
            assert(grown@[at as int] == before@[at as int]);
            assert forall|j: int| 1 <= j < dag@.len() implies #[trigger] dag.child_ok(j) by {
                if j < first {
                    assert(before.child_ok(j));
                    assert(grown@[j] == before@[j]);
                    let up = before@[j].parent.unwrap().0;
                    assert(grown@[up] == before@[up]);
                } else {
                    assert(grown@[j].parent.unwrap().0 == at);
                }
            }
            assert forall|j: int| 0 <= j < dag@.len() implies #[trigger] dag@[j].roomy() by {
                if j < first {
                    assert(before@[j].roomy());
                    assert(grown@[j] == before@[j]);
                } else {
                    assert(grown@[j].roomy());
                }
            }
            assert forall|i: int| 0 <= i < dag@.len() implies #[trigger] dag.family_ok(i) by {
                if i < first && i != at {
                    assert(before.family_ok(i));
                    assert(grown@[i] == before@[i]);
                    assert forall|k: int| 0 <= k < dag@[i].children.len() implies {
                        let c = #[trigger] dag@[i].children[k];
                        &&& i < c < dag@.len()
                        &&& dag@[c as int].parent.is_some()
                        &&& dag@[c as int].parent.unwrap().0 == i
                    } by {
                        let c = before@[i].children[k];
                        assert(grown@[c as int] == before@[c as int]);
                    }
                } else if i == at {
                    assert forall|k: int| 0 <= k < dag@[i].children.len() implies {
                        let c = #[trigger] dag@[i].children[k];
                        &&& i < c < dag@.len()
                        &&& dag@[c as int].parent.is_some()
                        &&& dag@[c as int].parent.unwrap().0 == i
                    } by {
                        assert(listed[k] == first + k);
                        assert(grown@[first + k].parent.unwrap().0 == at);
                    }
                } else {
                    assert(grown@[i].children.len() == 0);
                }
            }
            assert forall|t: (Piece, QueueView<Piece>), a: int, b: int|
                grown.litter(at as int, t, a, b) implies dag.litter(at as int, t, a, b) by {
                let f = choose|f: Seq<Pos>| grown.litter_of(at as int, t, a, b, f);
                assert forall|i: int| 0 <= i < f.len() implies #[trigger] dag@[a + i] == grown@[a + i] by {}
                assert(dag.litter_of(at as int, t, a, b, f));
            }
            let want = expanded(before@, at as int);
            assert(dag@.len() == want.len());
            assert(dag@[at as int].children =~= want[at as int].children);
            assert forall|i: int| 0 <= i < dag@.len() implies dag@[i] == want[i] by {
                if i != at {
                    assert(dag@[i] == grown@[i]);
                }
            }
            assert(dag@ =~= want);
        }
        made
    }
}

/// The graph of the boards that a search has come to. The nodes stand in
/// the order in which they were made, so that a node stands behind the node
/// that it was made from.
pub struct Dag<'a> {
    nodes: Vec<Node<'a>>,
}

impl<'a> View for Dag<'a> {
    type V = Seq<NodeView>;

    closed spec fn view(&self) -> Seq<NodeView> {
        Seq::new(self.nodes@.len(), |i: int| self.nodes@[i]@)
    }
}

impl<'a> Dag<'a> {
    /// Whether the node `j` was made from the node that it names, which
    /// stands before it.
    pub open spec fn child_ok(self, j: int) -> bool {
        match self@[j].parent {
            Some(edge) => 0 <= edge.0 < j && self@[j].made_from(self@[edge.0], edge.0, edge.1),
            None => false,
        }
    }

    /// Whether each child that the node `i` lists is a node behind it that
    /// was made from it.
    pub open spec fn family_ok(self, i: int) -> bool {
        forall|k: int|
            0 <= k < self@[i].children.len() ==> {
                let c = #[trigger] self@[i].children[k];
                &&& i < c < self@.len()
                &&& self@[c as int].parent.is_some()
                &&& self@[c as int].parent.unwrap().0 == i
            }
    }

    /// The invariant of the graph: the first node is the board that the
    /// search began with, every other node was made from a node before it,
    /// and every node leaves room for the pieces that are left to it.
    #[verifier::opaque]
    pub open spec fn wf(self) -> bool {
        &&& self@.len() >= 1
        &&& self@[0].parent.is_none()
        &&& forall|j: int| 1 <= j < self@.len() ==> #[trigger] self.child_ok(j)
        &&& forall|j: int| 0 <= j < self@.len() ==> #[trigger] self@[j].roomy()
        &&& forall|i: int| 0 <= i < self@.len() ==> #[trigger] self.family_ok(i)
    }

    /// The first placement on the way from the first node to the node that
    /// `edge` leads to.
    pub open spec fn first_piece(self, edge: Option<(int, FallingPiece)>) -> Option<FallingPiece> {
        first_piece_in(self@, edge)
    }

    /// Whether the nodes from `lo` up to `hi` are the ones that the
    /// placements of one piece on the board of the node `at` lead to: one
    /// node for each place where the piece can land.
    pub open spec fn litter(self, at: int, succ: (Piece, QueueView<Piece>), lo: int, hi: int) -> bool {
        exists|found: Seq<Pos>| self.litter_of(at, succ, lo, hi, found)
    }

    /// Whether the nodes from `lo` up to `hi` are the ones that the
    /// placements of one piece at the positions `found` lead to, which are
    /// the places where the piece can land.
    pub open spec fn litter_of(
        self,
        at: int,
        succ: (Piece, QueueView<Piece>),
        lo: int,
        hi: int,
        found: Seq<Pos>,
    ) -> bool {
        &&& 0 <= lo <= hi <= self@.len()
        &&& hi - lo == found.len()
        &&& lists(found, landings(self@[at].rows, succ.0))
        &&& forall|k: int|
            0 <= k < found.len() ==> {
                let node = #[trigger] self@[lo + k];
                &&& node.queue == succ.1
                &&& node.made_from(self@[at], at, FallingPiece::spawn_at(succ.0, found[k]))
            }
    }

    /// Whether the nodes from `lo` on are the ones that the placements on
    /// the board of the node `at` lead to: they come in one run for each
    /// piece that can be played next, in the order of those pieces.
    pub open spec fn brood(self, at: int, lo: int) -> bool {
        let succs = self@[at].queue.successors();
        if succs.len() == 0 {
            lo == self@.len()
        } else if succs.len() == 1 {
            self.litter(at, succs[0], lo, self@.len() as int)
        } else {
            exists|mid: int|
                self.litter(at, succs[0], lo, mid) && self.litter(at, succs[1], mid, self@.len() as int)
        }
    }

    /// Whether the graph is growing from `before` by nodes made from the
    /// node `at`: the nodes of `before` are there as they were, and behind
    /// them stand nodes made from the node `at`, which `children` lists.
    #[verifier::opaque]
    pub open spec fn growing(self, before: Self, at: int, children: Seq<usize>) -> bool {
        &&& self@.len() >= before@.len()
        &&& forall|i: int| 0 <= i < before@.len() ==> #[trigger] self@[i] == before@[i]
        &&& children.len() == self@.len() - before@.len()
        &&& forall|k: int| 0 <= k < children.len() ==> #[trigger] children[k] == before@.len() + k
        &&& forall|j: int|
            before@.len() <= j < self@.len() ==> {
                let node = #[trigger] self@[j];
                &&& node.parent.is_some()
                &&& node.parent.unwrap().0 == at
                &&& node.made_from(before@[at], at, node.parent.unwrap().1)
                &&& node.roomy()
                &&& node.children.len() == 0
            }
    }

    /// Whether the graph has grown from `before` by nodes made from the
    /// node `at`: the nodes of `before` are there as they were, but that
    /// the node `at` lists the new nodes as its children.
    pub open spec fn grown_from(self, before: Self, at: int) -> bool {
        &&& self@.len() >= before@.len()
        &&& forall|i: int| 0 <= i < before@.len() && i != at ==> #[trigger] self@[i] == before@[i]
        &&& self@[at].rows == before@[at].rows
        &&& self@[at].queue == before@[at].queue
        &&& self@[at].state == before@[at].state
        &&& self@[at].score == before@[at].score
        &&& self@[at].parent == before@[at].parent
        &&& self@[at].children.len() == self@.len() - before@.len()
        &&& forall|k: int|
            0 <= k < self@[at].children.len() ==> #[trigger] self@[at].children[k] == before@.len() + k
    }

    /// A node but the first names a node before it.
    pub proof fn lemma_parent(self, j: int)
        requires
            self.wf(),
            0 <= j < self@.len(),
        ensures
            self@[j].parent matches Some(edge) ==> 0 <= edge.0 < j,
            self@[j].parent.is_none() <==> j == 0,
    {
        reveal(Dag::wf);
        if j > 0 {
            assert(self.child_ok(j));
        }
    }

    /// Every node leaves room for the pieces that are left to it.
    pub proof fn lemma_roomy(self, j: int)
        requires
            self.wf(),
            0 <= j < self@.len(),
        ensures
            self@[j].roomy(),
    {
        reveal(Dag::wf);
    }

    /// The number of nodes.
    pub fn len(&self) -> (len: usize)
        ensures
            len == self@.len(),
    {
        self.nodes.len()
    }

    /// The node `id`.
    pub fn node(&self, id: usize) -> (node: &Node<'a>)
        requires
            id < self@.len(),
        ensures
            node@ == self@[id as int],
    {
        &self.nodes[id]
    }

    /// The graph of one board.
    pub fn new(root: Node<'a>) -> (dag: Self)
        requires
            root@.parent.is_none(),
            root@.children.len() == 0,
            root@.roomy(),
        ensures
            dag.wf(),
            dag@ == seq![root@],
    {
        let mut nodes: Vec<Node<'a>> = Vec::new();
        nodes.push(root);
        let dag = Dag { nodes };
        proof {
            reveal(Dag::wf);
            assert(dag@ =~= seq![root@]);
        }
        dag
    }
}

} // verus!
