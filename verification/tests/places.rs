use std::collections::BTreeSet;
use std::ops::RangeInclusive;

use bluefin::input::{Input, Rot};
use bluefin::matrix::{Mat, MatBuf};
use bluefin::piece::{Piece, Pos};
use bluefin::places::{all_places, places, reach, PlacesResult};
use bluefin::standard_rules::{self, FallingPiece};

fn assert_places(
    piece: standard_rules::Piece,
    mat: &Mat,
    expected: &[(RangeInclusive<i8>, i8, Rot)],
    immobile: &[(i8, i8, Rot)],
) {
    let immobile = immobile.iter().copied().map(Pos::from).collect::<Vec<_>>();
    let mut actual_places = Vec::new();
    let mut search = places(mat, piece);
    while let Some(f) = search.next() {
        let pos = f.pos;
        let imm = f.cells.immobile(mat);
        assert_eq!(imm, immobile.contains(&pos), "{pos:?}");
        assert_eq!(f.falling_piece.cells(), f.cells, "{pos:?}");
        assert_eq!(f.falling_piece.shape, piece);
        actual_places.push(pos);
    }
    let n = actual_places.len();
    let xs = actual_places.into_iter().collect::<BTreeSet<_>>();
    assert_eq!(xs.len(), n, "a place was handed out twice");
    let ys = expected
        .iter()
        .flat_map(|(xs, y, r)| xs.clone().map(move |x| Pos::from((x, *y, *r))))
        .collect::<BTreeSet<_>>();
    let xs_ys = xs.difference(&ys).collect::<Vec<_>>();
    let ys_xs = ys.difference(&xs).collect::<Vec<_>>();
    assert!(
        xs_ys.is_empty() && ys_xs.is_empty(),
        "different sets: {piece:?}\n  left: +{xs_ys:?}\n right: +{ys_xs:?}"
    );
}

#[test]
fn test_t_places() {
    assert_places(
        standard_rules::T,
        &Mat::empty(),
        &[
            (0..=7, 1, Rot::N),
            (-1..=7, 2, Rot::E),
            (0..=7, 2, Rot::S),
            (0..=8, 2, Rot::W),
        ],
        &[],
    );
}

#[test]
fn test_i_places() {
    assert_places(
        standard_rules::I,
        &Mat::empty(),
        &[
            (0..=6, 1, Rot::N),
            (0..=6, 2, Rot::S), // same as N
            (-2..=7, 3, Rot::E),
            (-1..=8, 3, Rot::W), // same as W
        ],
        &[],
    );
}

fn s_spin_matrix() -> MatBuf {
    let mut mat = MatBuf::new();
    // 1 xxxxx..xxx
    // 0 xxxx..xxxx
    //   0123456789
    mat.set(0, 0b1111001111);
    mat.set(1, 0b1110011111);
    mat
}

#[test]
fn test_s_spin_places() {
    let mat = s_spin_matrix();
    assert_places(
        standard_rules::S,
        &mat.as_mat(),
        &[
            (0..=4, 3, Rot::N),
            (5..=5, 2, Rot::N),
            (6..=7, 3, Rot::N),
            (0..=4, 4, Rot::S),
            (5..=5, 3, Rot::S),
            (6..=7, 4, Rot::S),
            (-1..=2, 4, Rot::E),
            (3..=4, 3, Rot::E),
            (5..=7, 4, Rot::E),
            (0..=3, 4, Rot::W),
            (4..=5, 3, Rot::W),
            (6..=8, 4, Rot::W),
            // spin
            (4..=4, 2, Rot::S),
        ],
        &[(4, 2, Rot::S)],
    );
}

#[test]
fn test_reach_simple() {
    let mat = Mat::empty();
    let tgt = FallingPiece::new(standard_rules::T, (0, 1, Rot::N));
    let inputs = reach(&mat, tgt).unwrap();
    assert_eq!(inputs, [Input::Left, Input::Left, Input::Left]);
}

#[test]
fn test_reach_simple_rotate() {
    let mat = Mat::empty();
    let tgt = FallingPiece::new(standard_rules::T, (-1, 2, Rot::E));
    let inputs = reach(&mat, tgt).unwrap();
    assert_eq!(
        inputs,
        [Input::Left, Input::Left, Input::Left, Input::Cw, Input::Left]
    );
}

#[test]
fn test_reach_s_spin() {
    let mat = s_spin_matrix();
    let tgt = FallingPiece::new(standard_rules::S, (4, 2, Rot::S));
    let inputs = reach(&mat.as_mat(), tgt).unwrap();
    assert_eq!(inputs, [Input::Cw, Input::SonicDrop, Input::Cw]);
}

#[test]
fn test_reach_of_spawn_needs_no_input() {
    let mat = Mat::empty();
    let tgt = FallingPiece::new(standard_rules::O, (4, 1, Rot::N));
    assert_eq!(reach(&mat, tgt), Some(vec![]));
}

#[test]
fn test_reach_finds_no_floating_target() {
    let mat = Mat::empty();
    let tgt = FallingPiece::new(standard_rules::T, (3, 5, Rot::N));
    assert_eq!(reach(&mat, tgt), None);
}

fn blocked_matrix() -> MatBuf {
    let mut mat = MatBuf::new();
    for y in 0..21 {
        mat.set(y, 0b0111111110);
    }
    mat
}

#[test]
fn test_blocked_spawn_has_no_places() {
    let mat = blocked_matrix();
    let mut search = places(&mat.as_mat(), standard_rules::T);
    assert!(search.is_dead());
    assert!(search.next().is_none());
    let mut open = places(&Mat::empty(), standard_rules::T);
    assert!(!open.is_dead());
    assert!(open.next().is_some());
    assert!(!open.is_dead());
}

#[test]
fn test_every_place_is_reached() {
    let mat = s_spin_matrix();
    for shape in [
        standard_rules::I,
        standard_rules::J,
        standard_rules::L,
        standard_rules::O,
        standard_rules::S,
        standard_rules::T,
        standard_rules::Z,
    ] {
        let mut search = places(&mat.as_mat(), shape);
        while let Some(place) = search.next() {
            let inputs = reach(&mat.as_mat(), place.falling_piece).expect("a place is reached");
            let mut piece: Piece<standard_rules::Piece> = FallingPiece::spawn(shape);
            for input in inputs {
                let moved = match input {
                    Input::Left => piece.try_shift(&mat.as_mat(), bluefin::input::Dir::Left).is_some(),
                    Input::Right => piece.try_shift(&mat.as_mat(), bluefin::input::Dir::Right).is_some(),
                    Input::Cw => piece.try_rotate(&mat.as_mat(), bluefin::input::Turn::Cw).is_some(),
                    Input::Ccw => piece.try_rotate(&mat.as_mat(), bluefin::input::Turn::Ccw).is_some(),
                    Input::SonicDrop => piece.sonic_drop(&mat.as_mat()).0 > 0,
                };
                assert!(moved, "an input of a shortest sequence does nothing");
            }
            let (_, cells) = piece.sonic_drop(&mat.as_mat());
            assert_eq!(cells, place.cells);
        }
    }
}

fn lands_on(mat: &Mat, shape: standard_rules::Piece, inputs: &[Input], target: &FallingPiece) -> bool {
    let mut piece: Piece<standard_rules::Piece> = FallingPiece::spawn(shape);
    for input in inputs {
        match input {
            Input::Left => {
                piece.try_shift(mat, bluefin::input::Dir::Left);
            }
            Input::Right => {
                piece.try_shift(mat, bluefin::input::Dir::Right);
            }
            Input::Cw => {
                piece.try_rotate(mat, bluefin::input::Turn::Cw);
            }
            Input::Ccw => {
                piece.try_rotate(mat, bluefin::input::Turn::Ccw);
            }
            Input::SonicDrop => {
                piece.sonic_drop(mat);
            }
        }
    }
    piece.sonic_drop(mat).1 == target.cells()
}

#[test]
fn test_no_shorter_sequence_reaches() {
    let mat = s_spin_matrix();
    let mat = mat.as_mat();
    let all = [Input::Left, Input::Right, Input::Cw, Input::Ccw, Input::SonicDrop];
    for target in [
        FallingPiece::new(standard_rules::S, (4, 2, Rot::S)),
        FallingPiece::new(standard_rules::S, (5, 2, Rot::N)),
        FallingPiece::new(standard_rules::S, (0, 3, Rot::N)),
    ] {
        let found = reach(&mat, target).expect("a place is reached");
        assert!(lands_on(&mat, standard_rules::S, &found, &target));
        let mut shorter: Vec<Vec<Input>> = vec![vec![]];
        for _ in 0..found.len() {
            for inputs in &shorter {
                assert!(!lands_on(&mat, standard_rules::S, inputs, &target), "{inputs:?}");
            }
            shorter = shorter
                .iter()
                .flat_map(|inputs| {
                    all.iter().map(move |&input| {
                        let mut longer = inputs.clone();
                        longer.push(input);
                        longer
                    })
                })
                .collect();
        }
    }
}

#[test]
fn test_all_places_are_the_places_in_their_order() {
    let mat = s_spin_matrix();
    let found = all_places(&mat.as_mat(), standard_rules::S);
    let mut search = places(&mat.as_mat(), standard_rules::S);
    let mut one_by_one = Vec::new();
    while let Some(place) = search.next() {
        one_by_one.push(place);
    }
    assert_eq!(found.len(), 35);
    assert_eq!(found.len(), one_by_one.len());
    for (a, b) in found.iter().zip(&one_by_one) {
        assert_eq!(a.falling_piece, b.falling_piece);
        assert_eq!(a.cells, b.cells);
    }
    let first: PlacesResult<standard_rules::Piece> = found[0];
    assert_eq!(first.pos, first.falling_piece.pos);
    assert_eq!(FallingPiece::from(first), first.falling_piece);
}

fn cost_of(inputs: &[Input]) -> (usize, usize, usize) {
    let drops = inputs.iter().filter(|input| **input == Input::SonicDrop).count();
    let turns = inputs.iter().filter(|input| **input == Input::Cw || **input == Input::Ccw).count();
    (inputs.len(), drops, turns)
}

fn moved_by(mat: &Mat, piece: FallingPiece, input: Input) -> FallingPiece {
    let mut moved = piece;
    match input {
        Input::Left => {
            moved.try_shift(mat, bluefin::input::Dir::Left);
        }
        Input::Right => {
            moved.try_shift(mat, bluefin::input::Dir::Right);
        }
        Input::Cw => {
            moved.try_rotate(mat, bluefin::input::Turn::Cw);
        }
        Input::Ccw => {
            moved.try_rotate(mat, bluefin::input::Turn::Ccw);
        }
        Input::SonicDrop => {
            moved.sonic_drop(mat);
        }
    }
    moved
}

#[test]
fn test_reach_takes_the_cheapest_sequence() {
    let every = [Input::Left, Input::Right, Input::Cw, Input::Ccw, Input::SonicDrop];
    let mat = s_spin_matrix();
    for shape in [standard_rules::J, standard_rules::S, standard_rules::T] {
        // what the cheapest sequence to each position costs, by trying each
        // input from each position until nothing gets cheaper
        let mut known: Vec<(FallingPiece, (usize, usize, usize))> = vec![(FallingPiece::spawn(shape), (0, 0, 0))];
        let mut changed = true;
        while changed {
            changed = false;
            let mut i = 0;
            while i < known.len() {
                let (piece, cost) = known[i];
                for input in every {
                    let moved = moved_by(&mat.as_mat(), piece, input);
                    let step = cost_of(&[input]);
                    let next = (cost.0 + step.0, cost.1 + step.1, cost.2 + step.2);
                    match known.iter().position(|(held, _)| held.pos == moved.pos) {
                        Some(at) => {
                            if next < known[at].1 {
                                known[at].1 = next;
                                changed = true;
                            }
                        }
                        None => {
                            known.push((moved, next));
                            changed = true;
                        }
                    }
                }
                i += 1;
            }
        }
        let mut search = places(&mat.as_mat(), shape);
        let mut seen = 0;
        while let Some(place) = search.next() {
            let cheapest = known
                .iter()
                .filter(|(piece, _)| {
                    let mut dropped = *piece;
                    dropped.sonic_drop(&mat.as_mat()).1 == place.cells
                })
                .map(|(_, cost)| *cost)
                .min()
                .expect("a place is reached");
            let inputs = reach(&mat.as_mat(), place.falling_piece).expect("a place is reached");
            assert_eq!(cost_of(&inputs), cheapest);
            seen += 1;
        }
        assert!(seen > 0);
    }
}

#[test]
fn test_reach_prefers_a_turn_to_a_sonic_drop() {
    // on an empty matrix shifts and turns alone lead to a position above
    // each place, and cost less than a sequence as long with a sonic drop
    let mat = MatBuf::new();
    let mut known = 0;
    let mut search = places(&mat.as_mat(), standard_rules::T);
    while let Some(place) = search.next() {
        let inputs = reach(&mat.as_mat(), place.falling_piece).expect("a place is reached");
        assert!(!inputs.contains(&Input::SonicDrop));
        known += 1;
    }
    assert_eq!(known, 34);
}
