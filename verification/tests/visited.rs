use bluefin::input::Rot;
use bluefin::piece::Pos;
use bluefin::visited::{key, PosSet, KEYS};

#[test]
fn test_pos_set_holds_what_was_inserted() {
    let mut set = PosSet::with_capacity(4);
    assert!(set.is_empty());
    assert!(set.insert(Pos::from((3, 20, Rot::N))));
    assert!(!set.is_empty());
    assert!(!set.insert(Pos::from((3, 20, Rot::N))));
    assert!(set.insert(Pos::from((3, 20, Rot::E))));
    assert!(set.insert(Pos::from((20, 3, Rot::N))));
    assert!(!set.insert(Pos::from((3, 20, Rot::E))));
}

#[test]
fn test_keys_tell_positions_apart() {
    let mut keys = std::collections::BTreeSet::new();
    for x in [i8::MIN, -1, 0, 1, i8::MAX] {
        for y in [i8::MIN, -1, 0, 1, i8::MAX] {
            for r in [Rot::N, Rot::E, Rot::S, Rot::W] {
                let k = key(Pos { x, y, r });
                assert!(k < KEYS);
                assert!(keys.insert(k));
            }
        }
    }
    assert_eq!(key(Pos { x: i8::MIN, y: i8::MIN, r: Rot::N }), 0);
    assert_eq!(key(Pos { x: i8::MAX, y: i8::MAX, r: Rot::W }), KEYS - 1);
    assert_eq!(key(Pos { x: 0, y: 0, r: Rot::E }), (128 * 256 + 128) * 4 + 1);
}
