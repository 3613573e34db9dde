//! The player: a beam search over the boards that the pieces of the queue
//! lead to, which ends in the inputs for the piece of the moment.

use vstd::prelude::*;

use crate::dag::Alloc;
use crate::dag::Dag;
use crate::dag::Node;
use crate::dag::NodeView;
use crate::dag::expanded;
use crate::dag::first_piece_in;
use crate::eval::lemma_score_bounded;
use crate::input::Input;
use crate::matrix::MAX_ROWS;
use crate::matrix::Mat;
use crate::piece::Pos;
use crate::places::landings;
use crate::queue::QueueView;
use crate::shortest_path::drops_onto;
use crate::shortest_path::reach;
use crate::shortest_path::reach_inputs;
use crate::standard_rules::FallingPiece;
use crate::standard_rules::Piece;
use crate::standard_rules::Queue;
use crate::state::State;

verus! {

/// The bytes that the arena sets aside at the start.
const INITIAL_HEAP_CAPACITY: usize = 32 * 1024 * 1024;

/// The nodes that a beam has room for at the start.
const INITIAL_BEAM_CAPACITY: usize = 32 * 1024;

/// The number of searches, each with a beam twice as wide as the one before.
pub const MAX_GEN: usize = 5;

/// The width of the first beam.
pub const FIRST_BEAM_WIDTH: usize = 16;

/// `bumpalo::Bump::with_capacity` makes an arena with room for `capacity`
/// bytes. (It ends the program where it cannot get the memory.)
#[verifier::external_body]
fn arena_with_capacity(capacity: usize) -> (alo: Alloc) {
    Alloc::with_capacity(capacity)
}

/// The order that `<[T]>::select_nth_unstable_by_key` gives to the nodes of
/// a beam with the given scores, for the given width.
pub uninterp spec fn selected(beam: Seq<usize>, scores: Seq<int>, width: usize) -> Seq<usize>;

/// `<[T]>::select_nth_unstable_by_key`, with the negated score as the key,
/// reorders the beam so that the node at `width` is where a sort from the
/// best score down would put it: no node before it has a lower score than
/// it, no node behind it a higher one. Which of several such orders comes
/// out depends on the order and the scores of the nodes alone.
#[verifier::external_body]
fn select_best(beam: &mut Vec<usize>, dag: &Dag, width: usize)
    requires
        width < old(beam)@.len(),
        forall|i: int| 0 <= i < old(beam)@.len() ==> #[trigger] old(beam)@[i] < dag@.len(),
    ensures
        final(beam)@ == selected(old(beam)@, scores_of(dag@, old(beam)@), width),
        final(beam)@.to_multiset() == old(beam)@.to_multiset(),
        forall|i: int|
            0 <= i < width ==> dag@[#[trigger] final(beam)@[i] as int].score
                >= dag@[final(beam)@[width as int] as int].score,
        forall|j: int|
            width < j < final(beam)@.len() ==> dag@[final(beam)@[width as int] as int].score
                >= dag@[#[trigger] final(beam)@[j] as int].score,
{
    beam.select_nth_unstable_by_key(width, |id| dag.node(*id).ord_min_best());
}

/// The scores of the nodes of a beam.
pub open spec fn scores_of(dag: Seq<NodeView>, beam: Seq<usize>) -> Seq<int> {
    Seq::new(beam.len(), |i: int| dag[beam[i] as int].score)
}

/// The beam cut down to `width` nodes, if it has more: the ones that
/// [`selected`] puts first, none of which scores lower than one that is cut.
pub open spec fn trimmed(dag: Seq<NodeView>, beam: Seq<usize>, width: usize) -> Seq<usize> {
    if beam.len() > width {
        selected(beam, scores_of(dag, beam), width).take(width as int)
    } else {
        beam
    }
}

/// The graph and the next beam after the nodes of the beam from the
/// `i`-th on have been gone through: each node that has no children yet is
/// expanded, and its children are added to the next beam.
pub open spec fn beam_pass(dag: Seq<NodeView>, beam: Seq<usize>, i: int, next: Seq<usize>) -> (
    Seq<NodeView>,
    Seq<usize>,
)
    decreases beam.len() - i,
{
    if i < 0 || i >= beam.len() {
        (dag, next)
    } else {
        let node = beam[i] as int;
        let dag = if dag[node].children.len() == 0 {
            expanded(dag, node)
        } else {
            dag
        };
        beam_pass(dag, beam, i + 1, next + dag[node].children)
    }
}

/// The best node after the nodes of the beam from the `j`-th on have been
/// held against it: a node takes the place of the best only with a higher
/// score.
pub open spec fn pick_best(dag: Seq<NodeView>, beam: Seq<usize>, j: int, best: usize) -> usize
    decreases beam.len() - j,
{
    if j < 0 || j >= beam.len() {
        best
    } else {
        pick_best(
            dag,
            beam,
            j + 1,
            if dag[beam[j] as int].score > dag[best as int].score {
                beam[j]
            } else {
                best
            },
        )
    }
}

/// The graph and the best node after a search with beams of the given
/// width has gone down from a beam, level by level, to a beam whose nodes
/// have no children, and has held the nodes of that beam against the best.
pub open spec fn descend(dag: Seq<NodeView>, beam: Seq<usize>, best: usize, width: usize, levels: nat) -> (
    Seq<NodeView>,
    usize,
)
    decreases levels,
{
    let beam = trimmed(dag, beam, width);
    let pass = beam_pass(dag, beam, 0, Seq::empty());
    if pass.1.len() == 0 {
        (pass.0, pick_best(pass.0, beam, 0, best))
    } else if levels == 0 {
        (pass.0, best)
    } else {
        descend(pass.0, pass.1, best, width, (levels - 1) as nat)
    }
}

/// The width of the beam of a search.
pub open spec fn width_of(generation: usize) -> usize {
    FIRST_BEAM_WIDTH << generation
}

/// The graph and the best node after the searches from the given one on.
pub open spec fn searches(dag: Seq<NodeView>, best: usize, generation: usize) -> (Seq<NodeView>, usize)
    decreases MAX_GEN - generation,
{
    if generation >= MAX_GEN {
        (dag, best)
    } else {
        let found = descend(dag, seq![0usize], best, width_of(generation), dag[0].queue.count());
        searches(found.0, found.1, (generation + 1) as usize)
    }
}

/// The node of the board that a search begins with.
pub open spec fn root_view(rows: Seq<u16>, queue: QueueView<Piece>, b2b: bool) -> NodeView {
    NodeView {
        rows,
        queue,
        state: State::spec_new(b2b),
        score: i32::MIN as int,
        parent: None,
        children: Seq::empty(),
    }
}

/// The choice of the player: whether to hold, and the inputs for the first
/// placement on the way to the best node that its searches find; nothing if
/// the best node is the one that they began with.
pub open spec fn bot_choice(
    current: Piece,
    queue: Seq<Piece>,
    hold: Option<Piece>,
    rows: Seq<u16>,
    b2b: bool,
) -> Option<(bool, Seq<Input>)> {
    let root = root_view(rows, first_queue(current, queue, hold), b2b);
    let found = searches(seq![root], 0, 0);
    match first_piece_in(found.0, found.0[found.1 as int].parent) {
        Some(target) => match reach_inputs(rows, target) {
            Some(inputs) => Some((target.shape != current, inputs)),
            None => None,
        },
        None => None,
    }
}

/// Whether the node `x` stands in the beam `whole` more often than in what
/// is kept of it.
pub open spec fn is_cut(whole: Seq<usize>, kept: Seq<usize>, x: usize) -> bool {
    whole.to_multiset().count(x) > kept.to_multiset().count(x)
}

/// Cuts the beam down to the `width` nodes that score best, if it has more:
/// no node that is cut scores higher than one that stays.
pub fn trim(beam: &mut Vec<usize>, dag: &Dag, width: usize)
    requires
        width >= 1,
        forall|i: int| 0 <= i < old(beam)@.len() ==> #[trigger] old(beam)@[i] < dag@.len(),
    ensures
        final(beam)@ == trimmed(dag@, old(beam)@, width),
        final(beam)@.len() == (if old(beam)@.len() > width {
            width as nat
        } else {
            old(beam)@.len()
        }),
        forall|i: int| 0 <= i < final(beam)@.len() ==> old(beam)@.contains(#[trigger] final(beam)@[i]),
        final(beam)@.to_multiset().subset_of(old(beam)@.to_multiset()),
        forall|i: int, x: usize|
            #![trigger final(beam)@[i], is_cut(old(beam)@, final(beam)@, x)]
            0 <= i < final(beam)@.len() && is_cut(old(beam)@, final(beam)@, x) ==> dag@[final(beam)@[i] as int].score
                >= dag@[x as int].score,
{
    if beam.len() > width {
        let ghost whole = beam@;
        select_best(beam, dag, width);
        let ghost sorted = beam@;
        beam.truncate(width);
        proof {
            whole.to_multiset_ensures();
            sorted.to_multiset_ensures();
            let kept = beam@;
            let cut = sorted.skip(width as int);
            assert(sorted =~= kept + cut);
            vstd::seq_lib::lemma_multiset_commutative(kept, cut);
            kept.to_multiset_ensures();
            cut.to_multiset_ensures();
            assert forall|i: int| 0 <= i < kept.len() implies whole.contains(#[trigger] kept[i]) by {
                assert(kept[i] == sorted[i]);
                assert(sorted.contains(sorted[i]));
                assert(sorted.to_multiset().count(sorted[i]) > 0);
                assert(whole.to_multiset().count(sorted[i]) > 0);
            }
            assert forall|i: int, x: usize|
                #![trigger kept[i], is_cut(whole, kept, x)]
                0 <= i < kept.len() && is_cut(whole, kept, x) implies dag@[kept[i] as int].score
                >= dag@[x as int].score by {
                assert(cut.to_multiset().count(x) > 0);
                assert(cut.contains(x));
                let j = choose|j: int| 0 <= j < cut.len() && cut[j] == x;
                assert(sorted[width + j] == x);
                assert(kept[i] == sorted[i]);
                if j > 0 {
                    assert(dag@[sorted[width as int] as int].score >= dag@[sorted[width + j] as int].score);
                }
            }
        }
    }
}

/// Cuts the beam of a level of the search down to `width` nodes.
fn trim_beam(beam: &mut Vec<usize>, dag: &Dag, width: usize, Ghost(count): Ghost<int>, Ghost(deep): Ghost<bool>)
    requires
        width >= 1,
        old(beam)@.len() >= 1,
        on_level(dag@, old(beam)@, count, deep),
    ensures
        final(beam)@ == trimmed(dag@, old(beam)@, width),
        final(beam)@.len() >= 1,
        on_level(dag@, final(beam)@, count, deep),
        old(beam)@.len() == 1 ==> final(beam)@ == old(beam)@,
{
    let ghost whole = beam@;
    trim(beam, dag, width);
    proof {
        assert forall|i: int| 0 <= i < beam@.len() implies {
            let id = #[trigger] beam@[i];
            &&& id < dag@.len()
            &&& dag@[id as int].queue.count() == count
            &&& deep ==> id != 0
        } by {
            let id = beam@[i];
            let k = choose|k: int| 0 <= k < whole.len() && whole[k] == id;
            assert(whole[k] < dag@.len());
        }
    }
}

/// The queue that a search begins with: the held piece, if there is one,
/// then the piece of the moment, then the pieces to come; the first of them
/// counts as held.
pub open spec fn first_queue(current: Piece, queue: Seq<Piece>, hold: Option<Piece>) -> QueueView<Piece> {
    QueueView::normalized(
        None,
        (match hold {
            Some(held) => seq![held],
            None => Seq::empty(),
        }) + seq![current] + queue,
    )
}

/// Whether `shape` is a piece that can be played at once: the piece of the
/// moment, or the piece that a hold brings up.
pub open spec fn playable(current: Piece, queue: Seq<Piece>, hold: Option<Piece>, shape: Piece) -> bool {
    exists|k: int|
        0 <= k < first_queue(current, queue, hold).successors().len() && (#[trigger] first_queue(
            current,
            queue,
            hold,
        ).successors()[k]).0 == shape
}

/// Whether no piece that can be played next on the board of a node can
/// land anywhere.
pub open spec fn barren(rows: Seq<u16>, queue: QueueView<Piece>) -> bool {
    forall|k: int, pos: Pos|
        0 <= k < queue.successors().len() ==> !(#[trigger] landings(rows, queue.successors()[k].0).contains(
            pos,
        ))
}

/// Whether the nodes of a beam are nodes of the graph with `count` pieces
/// left, and, if `deep`, none of them the first node.
pub open spec fn on_level(dag: Seq<NodeView>, beam: Seq<usize>, count: int, deep: bool) -> bool {
    forall|i: int|
        0 <= i < beam.len() ==> {
            let id = #[trigger] beam[i];
            &&& id < dag.len()
            &&& dag[id as int].queue.count() == count
            &&& deep ==> id != 0
        }
}

/// The board of a node has children exactly if a piece that can be played
/// next can land somewhere.
proof fn lemma_brood(dag: Dag, at: int, lo: int)
    requires
        dag.brood(at, lo),
        0 <= at < dag@.len(),
    ensures
        lo <= dag@.len(),
        (dag@.len() == lo) <==> barren(dag@[at].rows, dag@[at].queue),
{
    let node = dag@[at];
    let succs = node.queue.successors();
    if succs.len() == 0 {
    } else if succs.len() == 1 {
        lemma_litter(dag, at, succs[0], lo, dag@.len() as int);
        if dag@.len() > lo {
            let pos = choose|pos: Pos| landings(node.rows, succs[0].0).contains(pos);
            assert(!barren(node.rows, node.queue));
        }
    } else {
        let mid = choose|mid: int|
            dag.litter(at, succs[0], lo, mid) && dag.litter(at, succs[1], mid, dag@.len() as int);
        lemma_litter(dag, at, succs[0], lo, mid);
        lemma_litter(dag, at, succs[1], mid, dag@.len() as int);
        if mid > lo {
            let pos = choose|pos: Pos| landings(node.rows, succs[0].0).contains(pos);
            assert(!barren(node.rows, node.queue));
        } else if dag@.len() > mid {
            let pos = choose|pos: Pos| landings(node.rows, succs[1].0).contains(pos);
            assert(!barren(node.rows, node.queue));
        }
    }
}

/// There are nodes for the placements of a piece exactly if the piece can
/// land somewhere.
proof fn lemma_litter(dag: Dag, at: int, succ: (Piece, QueueView<Piece>), lo: int, hi: int)
    requires
        dag.litter(at, succ, lo, hi),
    ensures
        lo <= hi,
        hi > lo <==> exists|pos: Pos| landings(dag@[at].rows, succ.0).contains(pos),
{
    let found = choose|found: Seq<Pos>| dag.litter_of(at, succ, lo, hi, found);
    if hi > lo {
        assert(found.contains(found[0]));
    }
    if exists|pos: Pos| landings(dag@[at].rows, succ.0).contains(pos) {
        let pos = choose|pos: Pos| landings(dag@[at].rows, succ.0).contains(pos);
        assert(found.contains(pos));
    }
}

/// The first placement on the way to a node was made on the first board:
/// with a piece that could be played there, at a place where it could land.
proof fn lemma_first_piece(dag: Dag, j: int)
    requires
        dag.wf(),
        1 <= j < dag@.len(),
    ensures
        dag.first_piece(dag@[j].parent) matches Some(target) && {
            &&& exists|k: int|
                0 <= k < dag@[0].queue.successors().len() && (#[trigger] dag@[0].queue.successors()[k]).0
                    == target.shape
            &&& landings(dag@[0].rows, target.shape).contains(target.pos)
        },
    decreases j,
{
    dag.lemma_parent(j);
    reveal(Dag::wf);
    assert(dag.child_ok(j));
    let edge = dag@[j].parent.unwrap();
    dag.lemma_parent(edge.0);
    if edge.0 == 0 {
        let succs = dag@[0].queue.successors();
        let k = choose|k: int| 0 <= k < succs.len() && succs[k] == (edge.1.shape, dag@[j].queue);
        assert(succs[k].0 == edge.1.shape);
    } else {
        lemma_first_piece(dag, edge.0);
    }
}

/// A node has one piece less left than the node that it was made from, and
/// a score above the least there is.
proof fn lemma_child(dag: Dag, c: int)
    requires
        dag.wf(),
        1 <= c < dag@.len(),
    ensures
        dag@[c].parent matches Some(edge) && 0 <= edge.0 < c && dag@[c].queue.count() + 1
            == dag@[edge.0].queue.count(),
        dag@[c].score > i32::MIN,
{
    reveal(Dag::wf);
    assert(dag.child_ok(c));
    let edge = dag@[c].parent.unwrap();
    let succs = dag@[edge.0].queue.successors();
    let k = choose|k: int| 0 <= k < succs.len() && succs[k] == (edge.1.shape, dag@[c].queue);
    assert(dag@[edge.0].roomy());
    crate::queue::lemma_successors_shrink(dag@[edge.0].queue, k);
    assert(dag@[c].roomy());
    lemma_score_bounded(dag@[c].rows, dag@[c].state);
}

/// The children that a node lists are nodes behind the first, with one
/// piece less left than the node.
proof fn lemma_children(dag: Dag, at: int)
    requires
        dag.wf(),
        0 <= at < dag@.len(),
    ensures
        on_level(dag@, dag@[at].children, dag@[at].queue.count() - 1, true),
{
    reveal(Dag::wf);
    assert(dag.family_ok(at));
    assert forall|i: int| 0 <= i < dag@[at].children.len() implies {
        let id = #[trigger] dag@[at].children[i];
        &&& id < dag@.len()
        &&& dag@[id as int].queue.count() == dag@[at].queue.count() - 1
        &&& id != 0
    } by {
        let id = dag@[at].children[i];
        lemma_child(dag, id as int);
    }
}

/// What a placement on the board of the moment can say of itself: the piece
/// is one that can be played at once, and it can land there.
pub open spec fn placement(
    current: Piece,
    queue: Seq<Piece>,
    hold: Option<Piece>,
    rows: Seq<u16>,
    target: FallingPiece,
) -> bool {
    &&& playable(current, queue, hold, target.shape)
    &&& landings(rows, target.shape).contains(target.pos)
}

/// Chooses a placement for the piece of the moment or for the piece that a
/// hold brings up, and returns whether to hold and the inputs that bring
/// the piece to where a hard drop places it.
///
/// The placement is the first on the way to the board that scores best
/// among those that a beam search comes to when it has played every piece
/// of the queue. The search runs [`MAX_GEN`] times, each time with a beam
/// twice as wide; of boards that score the same it keeps the one it came to
/// first. There is no placement, and no move, only if no piece that can be
/// played can land anywhere.
///
/// Each piece may raise the stack by four rows: the rows of the matrix and
/// four for each piece must not be more than a matrix can hold.
pub fn bot(current: Piece, queue: &[Piece], hold: Option<Piece>, matrix: &Mat) -> (choice: Option<(bool, Vec<Input>)>)
    requires
        matrix@.len() + 4 * (queue@.len() + 2) <= MAX_ROWS,
    ensures
        match choice {
            Some((hold_needed, inputs)) => exists|target: FallingPiece|
                {
                    &&& #[trigger] placement(current, queue@, hold, matrix@, target)
                    &&& hold_needed == (target.shape != current)
                    &&& drops_onto(matrix@, target.shape, inputs@, target.spec_cells())
                    &&& forall|other: Seq<Input>|
                        drops_onto(matrix@, target.shape, other, target.spec_cells()) ==> inputs@.len()
                            <= other.len()
                },
            None => forall|target: FallingPiece| !placement(current, queue@, hold, matrix@, target),
        },
        match choice {
            Some((hold_needed, inputs)) => bot_choice(current, queue@, hold, matrix@, false) == Some(
                (hold_needed, inputs@),
            ),
            None => bot_choice(current, queue@, hold, matrix@, false).is_none(),
        },
{
    bot_with_b2b(current, queue, hold, matrix, false)
}

/// As [`bot`], for a game in which the last clear was a difficult one or
/// not, as `b2b` says.
pub fn bot_with_b2b(
    current: Piece,
    queue: &[Piece],
    hold: Option<Piece>,
    matrix: &Mat,
    b2b: bool,
) -> (choice: Option<(bool, Vec<Input>)>)
    requires
        matrix@.len() + 4 * (queue@.len() + 2) <= MAX_ROWS,
    ensures
        match choice {
            Some((hold_needed, inputs)) => exists|target: FallingPiece|
                {
                    &&& #[trigger] placement(current, queue@, hold, matrix@, target)
                    &&& hold_needed == (target.shape != current)
                    &&& drops_onto(matrix@, target.shape, inputs@, target.spec_cells())
                    &&& forall|other: Seq<Input>|
                        drops_onto(matrix@, target.shape, other, target.spec_cells()) ==> inputs@.len()
                            <= other.len()
                },
            None => forall|target: FallingPiece| !placement(current, queue@, hold, matrix@, target),
        },
        match choice {
            Some((hold_needed, inputs)) => bot_choice(current, queue@, hold, matrix@, b2b) == Some(
                (hold_needed, inputs@),
            ),
            None => bot_choice(current, queue@, hold, matrix@, b2b).is_none(),
        },
{
    let mut combined_queue_pieces: Vec<Piece> = Vec::new();
    match hold {
        Some(held) => {
            combined_queue_pieces.push(held);
        },
        None => {},
    }
    combined_queue_pieces.push(current);
    combined_queue_pieces.extend_from_slice(queue);
    let first = Queue::new(None, combined_queue_pieces.as_slice());
    proof {
        assert(combined_queue_pieces@ =~= (match hold {
            Some(held) => seq![held],
            None => Seq::empty(),
        }) + seq![current] + queue@);
        assert(first@ == first_queue(current, queue@, hold));
        use_type_invariant(matrix);
    }

    let alo = arena_with_capacity(INITIAL_HEAP_CAPACITY);
    let mut beam: Vec<usize> = Vec::with_capacity(INITIAL_BEAM_CAPACITY);
    let mut next_beam: Vec<usize> = Vec::with_capacity(INITIAL_BEAM_CAPACITY);

    let root = Node::root(matrix, first, b2b);
    let mut dag = Dag::new(root);
    let ghost top = dag@[0];
    let ghost levels = top.queue.count() as int;
    let ghost goal = searches(dag@, 0, 0);
    proof {
        assert(dag@ =~= seq![root_view(matrix@, first_queue(current, queue@, hold), b2b)]);
    }

    let mut best: usize = 0;
    let mut generation: usize = 0;
    while generation < MAX_GEN
        invariant
            0 <= generation <= MAX_GEN,
            searches(dag@, best, generation) == goal,
            goal == searches(seq![root_view(matrix@, first_queue(current, queue@, hold), b2b)], 0, 0),
            dag.wf(),
            best < dag@.len(),
            dag@[0].rows == top.rows,
            dag@[0].queue == top.queue,
            dag@[0].score == i32::MIN,
            top.rows == matrix@,
            top.queue == first_queue(current, queue@, hold),
            levels == top.queue.count(),
            best != 0 ==> !barren(top.rows, top.queue),
            generation > 0 && best == 0 ==> barren(top.rows, top.queue),
        decreases MAX_GEN - generation,
    {
        assert(generation < 5 ==> (16usize << generation) >= 16) by (bit_vector);
        let beam_width: usize = FIRST_BEAM_WIDTH << generation;  // 16, 32, 64, 128, 256
        beam.clear();
        beam.push(0);
        let ghost mut count = levels;
        let ghost mut deep = false;
        let ghost gen_goal = descend(dag@, seq![0usize], best, beam_width, levels as nat);
        proof {
            assert(beam@ =~= seq![0usize]);
            assert(beam_width == width_of(generation));
            assert(searches(dag@, best, generation) == searches(
                gen_goal.0,
                gen_goal.1,
                (generation + 1) as usize,
            ));
        }
        loop
            invariant_except_break
                descend(dag@, beam@, best, beam_width, count as nat) == gen_goal,
            invariant
                generation < MAX_GEN,
                beam_width >= 16,
                dag.wf(),
                best < dag@.len(),
                dag@[0].rows == top.rows,
                dag@[0].queue == top.queue,
                dag@[0].score == i32::MIN,
                best != 0 ==> !barren(top.rows, top.queue),
                beam@.len() >= 1,
                count >= 0,
                on_level(dag@, beam@, count, deep),
                !deep ==> beam@ == seq![0usize],
                deep ==> !barren(top.rows, top.queue),
            ensures
                dag.wf(),
                best < dag@.len(),
                dag@[0].rows == top.rows,
                dag@[0].queue == top.queue,
                dag@[0].score == i32::MIN,
                best != 0 ==> !barren(top.rows, top.queue),
                best == 0 ==> barren(top.rows, top.queue),
                (dag@, best) == gen_goal,
            decreases count,
        {
            let ghost level_dag = dag@;
            let ghost level_beam = beam@;
            let ghost level_best = best;
            trim_beam(&mut beam, &dag, beam_width, Ghost(count), Ghost(deep));
            next_beam.clear();
            let n = beam.len();
            let mut i: usize = 0;
            let ghost pass_goal = beam_pass(dag@, beam@, 0, Seq::empty());
            proof {
                assert(beam@ == trimmed(level_dag, level_beam, beam_width));
                assert(next_beam@ =~= Seq::<usize>::empty());
            }
            while i < n
                invariant
                    0 <= i <= n,
                    n == beam@.len(),
                    n >= 1,
                    beam_pass(dag@, beam@, i as int, next_beam@) == pass_goal,
                    dag.wf(),
                    best < dag@.len(),
                    dag@[0].rows == top.rows,
                    dag@[0].queue == top.queue,
                    dag@[0].score == i32::MIN,
                    best != 0 ==> !barren(top.rows, top.queue),
                    on_level(dag@, beam@, count, deep),
                    on_level(dag@, next_beam@, count - 1, true),
                    !deep ==> beam@ == seq![0usize],
                    deep ==> !barren(top.rows, top.queue),
                    next_beam@.len() > 0 ==> !barren(top.rows, top.queue),
                    !deep && i == n && next_beam@.len() == 0 ==> barren(top.rows, top.queue),
                decreases n - i,
            {
                let node = beam[i];
                let ghost pass_dag = dag@;
                let ghost pass_next = next_beam@;
                if dag.node(node).children().is_empty() {
                    let ghost before = dag;
                    Node::expand(&mut dag, node, &alo);
                    proof {
                        lemma_brood(dag, node as int, before@.len() as int);
                        if node == 0 && dag@[0].children.len() == 0 {
                            assert(barren(top.rows, top.queue));
                        }
                        assert forall|k: int| 0 <= k < beam@.len() implies {
                            let id = #[trigger] beam@[k];
                            &&& id < dag@.len()
                            &&& dag@[id as int].queue.count() == count
                            &&& deep ==> id != 0
                        } by {
                            let id = beam@[k];
                            if id != node {
                                assert(dag@[id as int] == before@[id as int]);
                            }
                        }
                        assert forall|k: int| 0 <= k < next_beam@.len() implies {
                            let id = #[trigger] next_beam@[k];
                            &&& id < dag@.len()
                            &&& dag@[id as int].queue.count() == count - 1
                            &&& id != 0
                        } by {
                            let id = next_beam@[k];
                            if id != node {
                                assert(dag@[id as int] == before@[id as int]);
                            }
                        }
                        if best != node {
                            assert(dag@[best as int] == before@[best as int]);
                        }
                        if node != 0 {
                            assert(dag@[0] == before@[0]);
                        }
                    }
                }
                proof {
                    lemma_children(dag, node as int);
                    if dag@[node as int].children.len() > 0 && node == 0 {
                        // the first node has children: a piece can land
                        lemma_root_alive(dag);
                    }
                }
                let ghost had = next_beam@;
                next_beam.extend_from_slice(dag.node(node).children());
                proof {
                    let kids = dag@[node as int].children;
                    assert forall|k: int| 0 <= k < next_beam@.len() implies {
                        let id = #[trigger] next_beam@[k];
                        &&& id < dag@.len()
                        &&& dag@[id as int].queue.count() == count - 1
                        &&& id != 0
                    } by {
                        if k < had.len() {
                            assert(next_beam@[k] == had[k]);
                        } else {
                            assert(next_beam@[k] == kids[k - had.len()]);
                        }
                    }
                    if !deep && next_beam@.len() == 0 {
                        assert(node == 0);
                        assert(kids.len() == 0);
                        assert(barren(top.rows, top.queue));
                    }
                    assert(next_beam@ =~= pass_next + kids);
                    assert(dag@ == (if pass_dag[node as int].children.len() == 0 {
                        expanded(pass_dag, node as int)
                    } else {
                        pass_dag
                    }));
                    assert(beam_pass(pass_dag, beam@, i as int, pass_next) == beam_pass(
                        dag@,
                        beam@,
                        i + 1,
                        next_beam@,
                    ));
                }
                i += 1;
            }

            proof {
                assert((dag@, next_beam@) == pass_goal);
            }
            if next_beam.is_empty() {
                let mut j: usize = 0;
                let ghost pick_goal = pick_best(dag@, beam@, 0, best);
                while j < n
                    invariant
                        0 <= j <= n,
                        n == beam@.len(),
                        n >= 1,
                        pick_best(dag@, beam@, j as int, best) == pick_goal,
                        dag.wf(),
                        best < dag@.len(),
                        on_level(dag@, beam@, count, deep),
                        best != 0 ==> !barren(top.rows, top.queue),
                        deep ==> !barren(top.rows, top.queue),
                        !deep ==> beam@ == seq![0usize],
                        deep && j > 0 ==> best != 0,
                        dag@[0].score == i32::MIN,
                    decreases n - j,
                {
                    let node = beam[j];
                    proof {
                        if node != 0 {
                            lemma_child(dag, node as int);
                        }
                    }
                    if dag.node(node).ord_max_best() > dag.node(best).ord_max_best() {
                        best = node;
                    }
                    j += 1;
                }
                proof {
                    assert(best == pick_goal);
                    assert(descend(level_dag, level_beam, level_best, beam_width, count as nat) == (
                        dag@,
                        best,
                    ));
                }
                break;
            }
            proof {
                let id = next_beam@[0];
                lemma_child(dag, id as int);
                assert(count >= 1);
                assert(descend(level_dag, level_beam, level_best, beam_width, count as nat) == descend(
                    dag@,
                    next_beam@,
                    best,
                    beam_width,
                    (count - 1) as nat,
                ));
                count = count - 1;
                deep = true;
            }
            core::mem::swap(&mut beam, &mut next_beam);
        }
        generation += 1;
    }

    proof {
        dag.lemma_parent(best as int);
    }
    let target = match dag.node(best).original_piece(&dag) {
        Some(target) => target,
        None => {
            proof {
                dag.lemma_parent(best as int);
                if best != 0 {
                    lemma_first_piece(dag, best as int);
                }
                assert(best == 0);
                assert(goal == (dag@, best));
                assert forall|target: FallingPiece| !placement(current, queue@, hold, matrix@, target) by {
                    if placement(current, queue@, hold, matrix@, target) {
                        let succs = first_queue(current, queue@, hold).successors();
                        let k = choose|k: int| 0 <= k < succs.len() && (#[trigger] succs[k]).0 == target.shape;
                        assert(landings(top.rows, top.queue.successors()[k].0).contains(target.pos));
                    }
                }
            }
            return None;
        },
    };
    proof {
        dag.lemma_parent(best as int);
        lemma_first_piece(dag, best as int);
        assert(placement(current, queue@, hold, matrix@, target));
        crate::shortest_path::lemma_landing_reached(matrix@, target.shape, target.pos);
        assert(goal == (dag@, best));
    }
    let hold_needed = target.shape != current;
    match reach(matrix, target) {
        Some(reach_inputs) => Some((hold_needed, reach_inputs)),
        None => {
            proof {
                assert(false);
            }
            None
        },
    }
}

/// The first node has children only if a piece can land on its board.
proof fn lemma_root_alive(dag: Dag)
    requires
        dag.wf(),
        dag@[0].children.len() > 0,
    ensures
        !barren(dag@[0].rows, dag@[0].queue),
{
    reveal(Dag::wf);
    assert(dag.family_ok(0));
    let c = dag@[0].children[0];
    assert(dag.child_ok(c as int));
    let edge = dag@[c as int].parent.unwrap();
    let succs = dag@[0].queue.successors();
    let k = choose|k: int| 0 <= k < succs.len() && succs[k] == (edge.1.shape, dag@[c as int].queue);
    assert(landings(dag@[0].rows, succs[k].0).contains(edge.1.pos));
}

} // verus!
