use bluefin::game_state::{AttackTable, GameState};

#[test]
fn test_attacks() {
    let mut game = GameState::new();
    game.send(2, false, &AttackTable::standard());
    assert_eq!(game.sent, 1); // double = +1
    game.send(2, false, &AttackTable::standard());
    assert_eq!(game.sent, 2); // double (1 ren) = +1
    assert_eq!(game.ren, 2);
    game.send(0, false, &AttackTable::standard());
    assert_eq!(game.sent, 2);
    assert_eq!(game.ren, 0);
    assert_eq!(game.b2b, false);
    game.send(2, true, &AttackTable::standard());
    game.send(0, false, &AttackTable::standard());
    assert_eq!(game.sent, 6); // tsd = +4
    assert_eq!(game.b2b, true);
    game.send(4, false, &AttackTable::standard());
    game.send(0, false, &AttackTable::standard());
    assert_eq!(game.sent, 11); // b2b quad = +5
    assert_eq!(game.b2b, true);
    game.send(1, false, &AttackTable::standard());
    assert_eq!(game.sent, 11); // single = +0
    assert_eq!(game.b2b, false);
    game.send(1, false, &AttackTable::standard());
    assert_eq!(game.sent, 11); // single (1 ren) = +0
    assert_eq!(game.ren, 2);
    game.send(1, false, &AttackTable::standard());
    assert_eq!(game.sent, 12); // single (2 ren) = +1
    assert_eq!(game.ren, 3);
    game.send(1, false, &AttackTable::standard());
    assert_eq!(game.sent, 13); // single (3 ren) = +1
    assert_eq!(game.ren, 4);
    game.send(1, false, &AttackTable::standard());
    assert_eq!(game.sent, 14); // single (4 ren) = +1
    assert_eq!(game.ren, 5);
    game.send(1, false, &AttackTable::standard());
    assert_eq!(game.sent, 16); // single (5 ren) = +2
    assert_eq!(game.ren, 6);
    game.send(1, false, &AttackTable::standard());
    assert_eq!(game.sent, 18); // single (6 ren) = +2
    assert_eq!(game.ren, 7);
    game.send(1, false, &AttackTable::standard());
    assert_eq!(game.sent, 21); // single (7 ren) = +3
    assert_eq!(game.ren, 8);
    game.send(1, false, &AttackTable::standard());
    assert_eq!(game.sent, 24); // single (8 ren) = +3
    assert_eq!(game.ren, 9);
    game.send(1, false, &AttackTable::standard());
    assert_eq!(game.sent, 28); // single (9+ ren) = +4
    assert_eq!(game.ren, 9);
    game.send(3, true, &AttackTable::standard());
    assert_eq!(game.sent, 38); // tst (9+ ren) = +10
    assert_eq!(game.ren, 9);
    assert_eq!(game.b2b, true);
    game.send(3, true, &AttackTable::standard());
    assert_eq!(game.sent, 49); // b2b tst (9+ ren) = +11
}

#[test]
fn test_default_game_state() {
    assert_eq!(GameState::default(), GameState::new());
    assert_eq!(GameState::new(), GameState { sent: 0, ren: 0, b2b: false });
}
