use bluefin::eval::evaluate;
use bluefin::matrix::{Mat, MatBuf, FULL};
use bluefin::state::State;

#[test]
fn test_clear_state_b2b() {
    let mut state = State::new(false);
    for (cleared, is_spin) in [
        (2, false),
        (2, false),
        (0, false),
        (2, true),
        (0, false),
        (4, false),
        (0, false),
    ] {
        let next = state.next(cleared, is_spin);
        // no counter goes down
        assert!(next.b2b_clears >= state.b2b_clears);
        assert!(next.single_clears >= state.single_clears);
        assert!(next.double_clears >= state.double_clears);
        assert!(next.triple_clears >= state.triple_clears);
        assert!(next.quad_clears >= state.quad_clears);
        assert!(next.spin_single_clears >= state.spin_single_clears);
        assert!(next.spin_double_clears >= state.spin_double_clears);
        assert!(next.spin_triple_clears >= state.spin_triple_clears);
        state = next;
    }
    assert!(state.b2b);
    assert_eq!(state.b2b_clears, 1);
    assert_eq!(state.quad_clears, 1);
    assert_eq!(state.spin_double_clears, 1);
    assert_eq!(state.double_clears, 2);
    assert_eq!(state.single_clears, 0);
    assert_eq!(state.triple_clears, 0);
    assert_eq!(state.spin_single_clears, 0);
    assert_eq!(state.spin_triple_clears, 0);
}

#[test]
fn test_clear_state_kinds() {
    let zero = State::new(true);
    assert_eq!(zero, State { b2b: true, ..State::default() });
    assert_eq!(zero.next(0, true), zero);
    assert_eq!(zero.next(1, false), State { b2b: false, single_clears: 1, ..zero });
    assert_eq!(zero.next(3, false), State { b2b: false, triple_clears: 1, ..zero });
    assert_eq!(zero.next(4, false), State { b2b_clears: 1, quad_clears: 1, ..zero });
    assert_eq!(zero.next(1, true), State { b2b_clears: 1, spin_single_clears: 1, ..zero });
    assert_eq!(zero.next(3, true), State { b2b_clears: 1, spin_triple_clears: 1, ..zero });
    // a spin that clears four lines counts as a spin triple
    assert_eq!(zero.next(4, true), State { b2b_clears: 1, spin_triple_clears: 1, ..zero });
    let fresh = State::new(false);
    assert_eq!(fresh.next(4, false), State { b2b: true, quad_clears: 1, ..fresh });
    assert_eq!(fresh.next(2, true), State { b2b: true, spin_double_clears: 1, ..fresh });
}

#[test]
fn test_evaluate_empty_board() {
    // no height, no transitions, 36 blocks from the target
    assert_eq!(evaluate(&Mat::empty(), State::new(false)), 1024 - 36 * 20);
}

#[test]
fn test_evaluate_weights() {
    let empty = Mat::empty();
    let base = evaluate(&empty, State::new(false));
    let clears = State {
        b2b: true,
        b2b_clears: 1,
        single_clears: 2,
        double_clears: 3,
        triple_clears: 4,
        quad_clears: 5,
        spin_single_clears: 6,
        spin_double_clears: 7,
        spin_triple_clears: 8,
    };
    assert_eq!(
        evaluate(&empty, clears) - base,
        200 - 2 * 200 - 3 * 100 + 4 * 400 + 5 * 1024 + 6 * 512 + 7 * 1200 + 8 * 1600
    );
}

#[test]
fn test_evaluate_board() {
    let mut mat = MatBuf::new();
    mat.set(0, 0b0111111111);
    mat.set(1, 0b0000000011);
    // height 2; transitions: 1 bit to the floor, 7 bits between the rows, and the 8
    // bits of the top row less 16; 11 blocks, 25 from the target
    assert_eq!(
        evaluate(&mat.as_mat(), State::new(false)),
        1024 - 2 * 50 - (1 + 7 + 8 - 16) * 200 - 25 * 20
    );
}

#[test]
fn test_evaluate_full_row() {
    let mut mat = MatBuf::new();
    mat.set(0, FULL);
    // height 1; no transitions: the row is as the floor, and has all 16 bits; 10
    // blocks
    assert_eq!(evaluate(&mat.as_mat(), State::new(false)), 1024 - 50 - 26 * 20);
}

#[test]
fn test_extra_block_lowers_the_score() {
    let mut flat = MatBuf::new();
    flat.set(0, 0b1111111110);
    flat.set(1, 0b1111111110);
    let state = State::new(false);
    let before = evaluate(&flat.as_mat(), state);
    for x in 0..10 {
        let mut bumpy = flat.clone();
        bumpy.set(2, 1 << x);
        assert!(evaluate(&bumpy.as_mat(), state) < before, "block at {x}");
    }
}
