use bluefin::matrix::{Mat, MatBuf, COLS, EMPTY, FULL};

#[test]
fn test_empty_bits() {
    for x in 0..13 {
        let occ = (EMPTY & (1 << x)) != 0;
        assert_eq!((x, occ), (x, x >= COLS));
    }
}

#[test]
fn test_get_empty() {
    let mat = Mat::empty();
    assert_eq!(mat.get(0), EMPTY);
    assert_eq!(mat.get(1), EMPTY);
    assert_eq!(mat.get(-1), FULL);
}

#[test]
fn test_mat_set() {
    let mut mat = MatBuf::new();
    mat.set(0, 0b1);
    assert_eq!(mat.get(0), EMPTY | 0b1);
    assert_eq!(mat.get(1), EMPTY);
    mat.set(2, 0b100);
    assert_eq!(mat.get(0), EMPTY | 0b1);
    assert_eq!(mat.get(1), EMPTY);
    assert_eq!(mat.get(2), EMPTY | 0b100);
    assert_eq!(mat.get(3), EMPTY);
    mat.set(0, 0b110000);
    assert_eq!(mat.get(0), EMPTY | 0b110001);
}

#[test]
fn test_mat_clear_lines() {
    let mut mat = MatBuf::new();
    assert_eq!(mat.clear_lines(0), 0);
    assert_eq!(mat.len(), 0);
    mat.set(0, FULL);
    mat.set(1, FULL);
    mat.set(2, 0b100);
    mat.set(3, FULL);
    mat.set(4, FULL);
    assert_eq!(mat.clear_lines(1), 3);
    assert_eq!(mat.len(), 2);
    assert_eq!(mat.get(0), FULL, "{:b}", mat.get(0));
    assert_eq!(mat.get(1), EMPTY | 0b100, "{:b}", mat.get(1));
    assert_eq!(mat.get(2), EMPTY, "{:b}", mat.get(2));
    assert_eq!(mat.clear_lines(1), 0);
    assert_eq!(mat.len(), 2);
    assert_eq!(mat.clear_lines(0), 1);
    assert_eq!(mat.len(), 1);
    assert_eq!(mat.get(0), EMPTY | 0b100, "{:b}", mat.get(0));
    assert_eq!(mat.get(1), EMPTY, "{:b}", mat.get(1));
}

#[test]
fn test_set_below_floor_is_ignored() {
    let mut mat = MatBuf::new();
    mat.set(-1, 0b1);
    assert_eq!(mat.len(), 0);
    mat.set(1, 0);
    assert_eq!(mat.len(), 2);
    assert_eq!(mat.rows(), &[EMPTY, EMPTY]);
}

#[test]
fn test_rows_keep_their_sentinels() {
    let mut mat = MatBuf::new();
    mat.set(0, 0b11_1111_1111);
    mat.set(3, 0b1);
    mat.set(1, 0xffff);
    let mut copy = MatBuf::new();
    copy.copy_from(&mat.as_mat());
    assert_eq!(copy.rows(), mat.rows());
    assert_eq!(copy.clear_lines(0), 2);
    for row in copy.rows().iter().chain(mat.rows()) {
        assert_eq!(row & EMPTY, EMPTY);
    }
    assert_eq!(copy.rows(), &[EMPTY, EMPTY | 0b1]);
}

#[test]
fn test_clear_lines_leaves_rows_below_start() {
    let mut mat = MatBuf::new();
    mat.set(0, FULL);
    mat.set(1, 0b1);
    mat.set(2, FULL);
    assert_eq!(mat.clear_lines(1), 1);
    assert_eq!(mat.rows(), &[FULL, EMPTY | 0b1]);
    assert_eq!(mat.clear_lines(-3), 1);
    assert_eq!(mat.rows(), &[EMPTY | 0b1]);
    assert_eq!(mat.clear_lines(100), 0);
    assert_eq!(mat.rows(), &[EMPTY | 0b1]);
}

#[test]
fn test_clear_and_clone() {
    let mut mat = MatBuf::new();
    mat.set(2, 0b101);
    let copy = mat.clone();
    mat.clear();
    assert_eq!(mat.len(), 0);
    assert_eq!(copy.len(), 3);
    assert_eq!(copy.get(2), EMPTY | 0b101);
    assert_eq!(copy.cols(), 10);
    let view = Mat::new(copy.rows());
    assert_eq!(view.len(), 3);
    assert_eq!(view.rows(), copy.rows());
    assert_eq!(view.get_unchecked(2), EMPTY | 0b101);
    assert_eq!(MatBuf::default().len(), 0);
}

#[test]
fn test_no_empty_row_after_clear_lines() {
    let mut mat = MatBuf::new();
    mat.set(0, 0b1);
    mat.set(1, FULL);
    mat.set(2, 0b10);
    mat.set(3, FULL);
    assert_eq!(mat.clear_lines(0), 2);
    assert_eq!(mat.rows(), &[EMPTY | 0b1, EMPTY | 0b10]);
    assert!(mat.rows().iter().all(|&row| row != EMPTY));
    // a row that is empty before the clear is still there after it
    let mut gap = MatBuf::new();
    gap.set(0, 0b1);
    gap.set(2, FULL);
    assert_eq!(gap.clear_lines(0), 1);
    assert_eq!(gap.rows(), &[EMPTY | 0b1, EMPTY]);
}
