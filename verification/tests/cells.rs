use bluefin::input::{Dir, Input, Rot, Turn};
use bluefin::matrix::{Mat, MatBuf, EMPTY};
use bluefin::piece::{Cells, Piece, Pos};
use bluefin::standard_rules::{FallingPiece, I, J, L, O, S, T, Z};

fn filled(mat: &Mat, x: i8, y: i8) -> bool {
    !(0..10).contains(&x) || y < 0 || (mat.get(y) >> x) & 1 == 1
}

#[test]
fn test_collides_where_a_cell_is_filled() {
    let mut mat = MatBuf::new();
    mat.set(0, 0b1111001111);
    mat.set(1, 0b1110011111);
    mat.set(3, 0b0000010000);
    let mat = mat.as_mat();
    for shape in [I, J, L, O, S, T, Z] {
        for r in [Rot::N, Rot::E, Rot::S, Rot::W] {
            for x in -4..12 {
                for y in -2..8 {
                    let cells = FallingPiece::new(shape, (x, y, r)).cells();
                    let expected = cells.coords().iter().any(|&(x, y)| filled(&mat, x, y));
                    assert_eq!(cells.collides(&mat), expected, "{shape:?} {x} {y} {r:?}");
                }
            }
        }
    }
}

#[test]
fn test_offset_wraps() {
    let cells = Cells::new(0..3, -1..1, 0b0010_0111);
    assert_eq!(cells.offset(3, 20).extents(), (3..6, 19..21));
    assert_eq!(cells.offset(3, 20).bottom(), 19);
    assert_eq!(cells.offset(127, 0).extents(), (127..-126, -1..1));
    assert_eq!(cells.offset(127, 0).offset(-127, 0), cells);
    assert!(cells.offset(127, 0).collides(&Mat::empty()));
    assert!(cells.offset(0, -127).collides(&Mat::empty()));
    assert!(!cells.offset(0, 127).offset(0, 1).collides(&Mat::empty()));
}

#[test]
fn test_immobile_needs_all_four_sides() {
    let mut mat = MatBuf::new();
    mat.set(0, 0b1111001111);
    mat.set(1, 0b1110011111);
    let spin = FallingPiece::new(S, (4, 2, Rot::S)).cells();
    assert!(!spin.collides(&mat.as_mat()));
    assert!(spin.immobile(&mat.as_mat()));
    // on the floor of an empty field a piece can still move up and sideways
    let flat = FallingPiece::new(O, (4, 1, Rot::N)).cells();
    assert!(flat.offset(0, -1).collides(&Mat::empty()));
    assert!(!flat.immobile(&Mat::empty()));
}

#[test]
fn test_place_fills_the_cells() {
    let mut mat = MatBuf::new();
    mat.set(0, 0b1);
    let cells = FallingPiece::new(T, (3, 3, Rot::N)).cells();
    mat.place(cells);
    assert_eq!(mat.rows(), &[EMPTY | 0b1, EMPTY, EMPTY | 0b111000, EMPTY | 0b010000]);
    let mut other = MatBuf::new();
    cells.place(&mut other);
    assert_eq!(other.rows(), &[EMPTY, EMPTY, EMPTY | 0b111000, EMPTY | 0b010000]);
    for (x, y) in cells.coords() {
        assert!(filled(&other.as_mat(), x, y));
    }
}

#[test]
fn test_turn_and_back() {
    let mat = Mat::empty();
    for shape in [I, J, L, O, S, T, Z] {
        for r in [Rot::N, Rot::E, Rot::S, Rot::W] {
            for (there, back) in [(Turn::Cw, Turn::Ccw), (Turn::Ccw, Turn::Cw)] {
                let from: Piece<_> = FallingPiece::new(shape, (4, 10, r));
                let mut piece = from;
                assert!(piece.try_rotate(&mat, there).is_some());
                assert_eq!(piece.pos, Pos { x: 4, y: 10, r: r + there });
                assert!(piece.try_rotate(&mat, back).is_some());
                assert_eq!(piece, from);
            }
        }
    }
}

#[test]
fn test_turn_with_a_kick_does_not_come_back() {
    let mat = Mat::empty();
    let from = FallingPiece::new(T, (3, 1, Rot::N));
    let mut piece = from;
    assert!(piece.try_rotate(&mat, Turn::Cw).is_some());
    assert_eq!(piece.pos, Pos::from((2, 2, Rot::E)));
    assert!(piece.try_rotate(&mat, Turn::Ccw).is_some());
    assert_eq!(piece.pos, Pos::from((2, 2, Rot::N)));
}

#[test]
fn test_shift_stops_at_the_walls() {
    let mat = Mat::empty();
    let mut piece = FallingPiece::new(O, (0, 5, Rot::N));
    assert_eq!(piece.try_shift(&mat, Dir::Left), None);
    assert_eq!(piece.pos, Pos::from((0, 5)));
    let cells = piece.try_shift(&mat, Dir::Right).expect("room to the right");
    assert_eq!(piece.pos, Pos::from((1, 5)));
    assert_eq!(cells, piece.cells());
    let mut piece = FallingPiece::new(O, (8, 5, Rot::N));
    assert_eq!(piece.try_shift(&mat, Dir::Right), None);
}

#[test]
fn test_turn_fails_where_no_kick_fits() {
    let mut mat = MatBuf::new();
    for y in 0..6 {
        mat.set(y, 0b1111001111);
    }
    let mut piece = FallingPiece::new(O, (4, 1, Rot::N));
    assert!(piece.try_rotate(&mat.as_mat(), Turn::Cw).is_some());
    let mut piece = FallingPiece::new(I, (3, 3, Rot::E));
    assert!(!piece.cells().collides(&mat.as_mat()));
    assert_eq!(piece.try_rotate(&mat.as_mat(), Turn::Cw), None);
    assert_eq!(piece.pos, Pos::from((3, 3, Rot::E)));
}

#[test]
fn test_sonic_drop_onto_the_stack() {
    let mut mat = MatBuf::new();
    mat.set(0, 0b0000110000);
    mat.set(1, 0b0000010000);
    let mut piece = FallingPiece::spawn(O);
    let (dy, cells) = piece.sonic_drop(&mat.as_mat());
    assert_eq!((dy, piece.pos), (17, Pos::from((4, 3))));
    assert_eq!(cells.bottom(), 2);
    // below the floor a piece stays where it is
    let mut sunk = FallingPiece::new(O, (4, -3, Rot::N));
    assert_eq!(sunk.sonic_drop(&mat.as_mat()).0, 0);
    assert_eq!(sunk.pos, Pos::from((4, -3)));
}

#[test]
fn test_conversions() {
    assert_eq!(Rot::from(6u8), Rot::S);
    assert_eq!(u8::from(Rot::W), 3);
    assert_eq!(Rot::default(), Rot::N);
    assert_eq!(Rot::W + Turn::Cw, Rot::N);
    assert_eq!(Rot::N + Turn::Ccw, Rot::W);
    assert_eq!(i8::from(Dir::Left), -1);
    assert_eq!(3i8 + Dir::Right, 4);
    assert_eq!(Input::from(Dir::Left), Input::Left);
    assert_eq!(Input::from(Turn::Ccw), Input::Ccw);
    assert_eq!(Pos::from((1, 2)), Pos { x: 1, y: 2, r: Rot::N });
}

#[test]
fn test_place_beyond_the_right_wall() {
    // the bits that reach beyond the play field fall on bits that are set anyway
    let cells = FallingPiece::new(T, (9, 1, Rot::N)).cells();
    assert_eq!(cells.extents(), (9..12, 0..2));
    let mut mat = MatBuf::new();
    mat.place(cells);
    assert_eq!(mat.rows(), &[EMPTY | 0b1000000000, EMPTY]);
    let far = FallingPiece::new(I, (12, 1, Rot::N)).cells();
    let mut mat = MatBuf::new();
    far.place(&mut mat);
    assert_eq!(mat.rows(), &[EMPTY]);
    for row in mat.rows() {
        assert_eq!(row & EMPTY, EMPTY);
    }
}
