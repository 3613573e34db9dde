use bluefin::dag::{copy_matrix, Alloc, Dag, Node};
use bluefin::input::{Dir, Input, Turn};
use bluefin::matrix::{Mat, MatBuf, EMPTY};
use bluefin::piece::Piece;
use bluefin::search::{bot, bot_with_b2b, trim};
use bluefin::standard_rules::{self, FallingPiece, Queue, I, J, L, O, S, T, Z};

fn play(mat: &Mat, shape: standard_rules::Piece, inputs: &[Input]) -> FallingPiece {
    let mut piece: Piece<standard_rules::Piece> = FallingPiece::spawn(shape);
    for input in inputs {
        let moved = match input {
            Input::Left => piece.try_shift(mat, Dir::Left).is_some(),
            Input::Right => piece.try_shift(mat, Dir::Right).is_some(),
            Input::Cw => piece.try_rotate(mat, Turn::Cw).is_some(),
            Input::Ccw => piece.try_rotate(mat, Turn::Ccw).is_some(),
            Input::SonicDrop => piece.sonic_drop(mat).0 > 0,
        };
        assert!(moved, "{input:?} does nothing");
    }
    piece.sonic_drop(mat);
    piece
}

#[test]
fn test_bot_smoke() {
    let mat = Mat::empty();
    let (hold_needed, inputs) = bot(T, &[J, L, S, Z, I, O], None, &mat).expect("a move");
    assert!(!inputs.is_empty());
    assert!(!hold_needed);
    let piece = play(&mat, T, &inputs);
    for (x, y) in piece.cells().coords() {
        assert!((0..10).contains(&x) && y >= 0, "{piece:?}");
    }
    assert!(!piece.cells().collides(&mat));
}

#[test]
fn test_bot_gives_the_same_move_again() {
    let mut mat = MatBuf::new();
    mat.set(0, 0b1111001111);
    mat.set(1, 0b1110011111);
    let first = bot(S, &[T, I, O], Some(L), &mat.as_mat());
    let second = bot(S, &[T, I, O], Some(L), &mat.as_mat());
    assert!(first.is_some());
    assert_eq!(first, second);
    let third = bot_with_b2b(S, &[T, I, O], Some(L), &mat.as_mat(), false);
    assert_eq!(first, third);
}

#[test]
fn test_bot_holds_for_the_better_piece() {
    // a well for an I piece: four rows are cleared by the piece that is held
    let mut mat = MatBuf::new();
    for y in 0..4 {
        mat.set(y, 0b0111111111);
    }
    let (hold_needed, inputs) = bot(O, &[], Some(I), &mat.as_mat()).expect("a move");
    assert!(hold_needed);
    let piece = play(&mat.as_mat(), I, &inputs);
    let mut after = mat.clone();
    after.place(piece.cells());
    assert_eq!(after.clear_lines(piece.cells().bottom()), 4);
    assert_eq!(after.len(), 0);
}

#[test]
fn test_bot_has_no_move_where_nothing_can_land() {
    let mut mat = MatBuf::new();
    for y in 0..21 {
        mat.set(y, 0b0111111110);
    }
    assert_eq!(bot(T, &[], None, &mat.as_mat()), None);
    assert_eq!(bot(T, &[O], Some(I), &mat.as_mat()), None);
}

#[test]
fn test_bot_plays_the_last_piece() {
    let mat = Mat::empty();
    let (hold_needed, inputs) = bot(O, &[], None, &mat).expect("a move");
    assert!(!hold_needed);
    let piece = play(&mat, O, &inputs);
    assert_eq!(piece.pos.y, 1);
}

#[test]
fn test_expand_makes_a_node_for_each_place() {
    let alo = Alloc::new();
    let mat = Mat::empty();
    let pieces = [T, I];
    let queue = Queue::new(None, &pieces);
    let root = Node::root(&mat, queue, false);
    assert_eq!(root.score(), i32::MIN);
    assert_eq!(root.ord_max_best(), i32::MIN);
    assert_eq!(root.ord_min_best(), -(i32::MIN as i64));
    assert!(root.children().is_empty());
    let mut dag = Dag::new(root);
    // 34 places of T and 34 of I
    assert_eq!(Node::expand(&mut dag, 0, &alo), 68);
    assert_eq!(dag.len(), 69);
    assert_eq!(dag.node(0).children(), (1..69).collect::<Vec<usize>>());
    assert_eq!(dag.node(0).original_piece(&dag), None);
    for id in 1..69 {
        let node = dag.node(id);
        let first = node.original_piece(&dag).expect("a placement");
        assert_eq!(first.shape, if id <= 34 { T } else { I });
        assert_eq!(node.queue().hold(), Some(if id <= 34 { I } else { T }));
        assert_eq!(node.queue().next().len(), 0);
        assert_eq!(node.matrix().len(), first.cells().extents().1.end);
        assert_eq!(node.state(), bluefin::state::State::new(false));
        assert_eq!(node.score(), bluefin::eval::evaluate(node.matrix(), node.state()));
        assert!(node.children().is_empty());
    }
    let made = Node::expand(&mut dag, 1, &alo);
    assert_eq!(dag.len(), 69 + made);
    let grandchild = dag.node(69);
    assert_eq!(grandchild.original_piece(&dag), dag.node(1).original_piece(&dag));
    assert_eq!(grandchild.queue().hold(), None);
}

#[test]
fn test_copy_matrix_copies_the_rows() {
    let alo = Alloc::new();
    let mut mat = MatBuf::new();
    mat.set(1, 0b11);
    let copy = copy_matrix(&alo, &mat.as_mat());
    mat.set(0, 0b1);
    assert_eq!(copy.rows(), &[EMPTY, EMPTY | 0b11]);
}

#[test]
fn test_bot_counts_spins_and_clears_on_the_way() {
    // the S piece fits the gap only with a spin, which clears two rows
    let mut mat = MatBuf::new();
    mat.set(0, 0b1111001111);
    mat.set(1, 0b1110011111);
    let (hold_needed, inputs) = bot(S, &[], None, &mat.as_mat()).expect("a move");
    assert!(!hold_needed);
    assert_eq!(inputs, [Input::Cw, Input::SonicDrop, Input::Cw]);
    let _ = Z;
}

#[test]
fn test_trim_keeps_the_best() {
    let alo = Alloc::new();
    let mat = Mat::empty();
    let pieces = [T, I];
    let mut dag = Dag::new(Node::root(&mat, Queue::new(None, &pieces), false));
    assert_eq!(Node::expand(&mut dag, 0, &alo), 68);
    let whole: Vec<usize> = (1..69).rev().collect();
    let mut scores: Vec<i32> = whole.iter().map(|&id| dag.node(id).score()).collect();
    scores.sort();
    scores.reverse();
    // the scores differ, so that the order of the beam cannot be right by chance
    assert!(scores[0] > scores[67]);

    let mut beam = whole.clone();
    trim(&mut beam, &dag, 16);
    assert_eq!(beam.len(), 16);
    let mut kept: Vec<i32> = beam.iter().map(|&id| dag.node(id).score()).collect();
    kept.sort();
    kept.reverse();
    assert_eq!(kept, scores[..16]);
    let mut ids = beam.clone();
    ids.sort();
    ids.dedup();
    assert_eq!(ids.len(), 16);
    assert_ne!(beam, whole[..16]);

    // a beam that is narrow enough stays as it is
    let mut narrow = whole[..16].to_vec();
    trim(&mut narrow, &dag, 16);
    assert_eq!(narrow, whole[..16]);
}
