use std::collections::BTreeSet;

use bluefin::input::{Rot, Turn};
use bluefin::matrix::Mat;
use bluefin::piece::{Cells, Pos, Spawn, WallKicks};
use bluefin::standard_rules::{FallingPiece, Piece, I, J, L, O, S, T, Z};

fn assert_same_set(xs: Vec<(i8, i8)>, ys: [(i8, i8); 4], why: &str) {
    let xs = xs.into_iter().collect::<BTreeSet<_>>();
    let ys = ys.into_iter().collect::<BTreeSet<_>>();
    let xs_ys = xs.difference(&ys).collect::<Vec<_>>();
    let ys_xs = ys.difference(&xs).collect::<Vec<_>>();
    assert!(
        xs_ys.is_empty() && ys_xs.is_empty(),
        "different sets: {why}\n  left: +{xs_ys:?}\n right: +{ys_xs:?}"
    );
}

fn cells(p: Piece, x: i8, y: i8, r: Rot) -> Cells {
    FallingPiece::new(p, (x, y, r)).cells()
}

fn assert_cells(p: Piece, x: i8, y: i8, r: Rot, coords: [(i8, i8); 4]) {
    let fp = FallingPiece::new(p, (x, y, r));
    let cells = fp.cells();
    assert_eq!(cells.coords().len(), 4, "{fp:?}");
    assert_same_set(cells.coords(), coords, &format!("{fp:?}"));

    let (mut x0, mut y0, mut x1, mut y1) = (i8::MAX, i8::MAX, i8::MIN, i8::MIN);
    for (cx, cy) in coords {
        x0 = x0.min(cx);
        y0 = y0.min(cy);
        x1 = x1.max(cx + 1);
        y1 = y1.max(cy + 1);
    }
    assert_eq!(cells.extents(), (x0..x1, y0..y1), "{fp:?}");
}

#[test]
fn test_cells() {
    assert_cells(I, 3, 20, Rot::N, [(3, 19), (4, 19), (5, 19), (6, 19)]);
    assert_cells(I, 3, 20, Rot::E, [(5, 20), (5, 19), (5, 18), (5, 17)]);
    assert_cells(I, 3, 20, Rot::S, [(3, 18), (4, 18), (5, 18), (6, 18)]);
    assert_cells(I, 3, 20, Rot::W, [(4, 20), (4, 19), (4, 18), (4, 17)]);
    assert_cells(J, 3, 20, Rot::N, [(3, 19), (4, 19), (5, 19), (3, 20)]);
    assert_cells(J, 3, 20, Rot::E, [(4, 18), (4, 19), (4, 20), (5, 20)]);
    assert_cells(J, 3, 20, Rot::S, [(3, 19), (4, 19), (5, 19), (5, 18)]);
    assert_cells(J, 3, 20, Rot::W, [(4, 18), (4, 19), (4, 20), (3, 18)]);
    assert_cells(L, 3, 20, Rot::N, [(3, 19), (4, 19), (5, 19), (5, 20)]);
    assert_cells(L, 3, 20, Rot::E, [(4, 18), (4, 19), (4, 20), (5, 18)]);
    assert_cells(L, 3, 20, Rot::S, [(3, 19), (4, 19), (5, 19), (3, 18)]);
    assert_cells(L, 3, 20, Rot::W, [(4, 18), (4, 19), (4, 20), (3, 20)]);
    assert_cells(O, 4, 20, Rot::N, [(4, 19), (5, 19), (4, 20), (5, 20)]);
    assert_cells(O, 4, 20, Rot::E, [(4, 19), (5, 19), (4, 20), (5, 20)]);
    assert_cells(O, 4, 20, Rot::S, [(4, 19), (5, 19), (4, 20), (5, 20)]);
    assert_cells(O, 4, 20, Rot::W, [(4, 19), (5, 19), (4, 20), (5, 20)]);
    assert_cells(S, 3, 20, Rot::N, [(3, 19), (4, 19), (4, 20), (5, 20)]);
    assert_cells(S, 3, 20, Rot::E, [(4, 19), (4, 20), (5, 18), (5, 19)]);
    assert_cells(S, 3, 20, Rot::S, [(3, 18), (4, 18), (4, 19), (5, 19)]);
    assert_cells(S, 3, 20, Rot::W, [(3, 19), (3, 20), (4, 18), (4, 19)]);
    assert_eq!(cells(S, 3, 20, Rot::N), cells(S, 3, 21, Rot::S));
    assert_eq!(cells(S, 3, 20, Rot::E), cells(S, 4, 20, Rot::W));
    assert_cells(T, 3, 20, Rot::N, [(3, 19), (4, 19), (5, 19), (4, 20)]);
    assert_cells(T, 3, 20, Rot::E, [(4, 18), (4, 19), (4, 20), (5, 19)]);
    assert_cells(T, 3, 20, Rot::S, [(3, 19), (4, 19), (5, 19), (4, 18)]);
    assert_cells(T, 3, 20, Rot::W, [(4, 18), (4, 19), (4, 20), (3, 19)]);
    assert_cells(Z, 3, 20, Rot::N, [(3, 20), (4, 20), (4, 19), (5, 19)]);
    assert_cells(Z, 3, 20, Rot::E, [(4, 19), (4, 18), (5, 20), (5, 19)]);
    assert_cells(Z, 3, 20, Rot::S, [(3, 19), (4, 19), (4, 18), (5, 18)]);
    assert_cells(Z, 3, 20, Rot::W, [(3, 19), (3, 18), (4, 20), (4, 19)]);
    assert_eq!(cells(Z, 3, 20, Rot::N), cells(Z, 3, 21, Rot::S));
    assert_eq!(cells(Z, 3, 20, Rot::E), cells(Z, 4, 20, Rot::W));
}

#[test]
fn test_spawn() {
    assert_eq!(FallingPiece::spawn(I).pos, Pos::from((3, 20, Rot::N)));
    assert_eq!(FallingPiece::spawn(J).pos, Pos::from((3, 20, Rot::N)));
    assert_eq!(FallingPiece::spawn(L).pos, Pos::from((3, 20, Rot::N)));
    assert_eq!(FallingPiece::spawn(O).pos, Pos::from((4, 20, Rot::N)));
    assert_eq!(FallingPiece::spawn(S).pos, Pos::from((3, 20, Rot::N)));
    assert_eq!(FallingPiece::spawn(T).pos, Pos::from((3, 20, Rot::N)));
    assert_eq!(FallingPiece::spawn(Z).pos, Pos::from((3, 20, Rot::N)));
}

#[test]
fn test_wall_kick_lookup() {
    assert_eq!(
        Z.wall_kicks(Rot::N, Turn::Cw),
        [(0, 0), (-1, 0), (-1, 1), (0, -2), (-1, -2)]
    );
    assert_eq!(
        J.wall_kicks(Rot::S, Turn::Ccw),
        [(0, 0), (-1, 0), (-1, 1), (0, -2), (-1, -2)],
    );
    assert_eq!(
        I.wall_kicks(Rot::E, Turn::Ccw),
        [(0, 0), (2, 0), (-1, 0), (2, 1), (-1, -2)],
    );
}

#[test]
fn test_sonic_drop() {
    let mat = Mat::empty();
    let mut fp = FallingPiece::spawn(T);
    assert_eq!(fp.pos, Pos::from((3, 20, Rot::N)));
    let (dy, cells) = fp.sonic_drop(&mat);
    assert_eq!(dy, 19);
    assert_eq!(fp.pos, Pos::from((3, 1, Rot::N)));
    assert_eq!(fp.cells(), cells);
    let (dy, cells) = fp.sonic_drop(&mat);
    assert_eq!(dy, 0);
    assert_eq!(fp.pos, Pos::from((3, 1, Rot::N)));
    assert_eq!(fp.cells(), cells);
}

#[test]
fn test_t_wall_kick() {
    let mat = Mat::empty();
    let mut fp = FallingPiece::new(T, (3, 1, Rot::N));
    let cells = fp.try_rotate(&mat, Turn::Cw).expect("turn(Cw)");
    assert_eq!(fp.cells(), cells);
    assert_eq!(fp.pos, Pos::from((2, 2, Rot::E)));
}

#[test]
fn test_names_and_spawn_points() {
    let names: Vec<&str> = [I, J, L, O, S, T, Z].iter().map(|p| p.name()).collect();
    assert_eq!(names, ["I", "J", "L", "O", "S", "T", "Z"]);
    assert_eq!(O.spawn(), (4, 20));
    assert_eq!(T.spawn(), (3, 20));
}
