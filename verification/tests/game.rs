use bluefin::game::{deal, Board, Command, Game, NonEmptyBlock, Piece, PieceData, Rotation};
use std::collections::VecDeque;

fn board_of(rows: &[&str]) -> Board {
    let mut board = Board::new();
    for (y, row) in rows.iter().rev().enumerate() {
        for (x, c) in row.chars().enumerate() {
            if c != '.' {
                board.set((x as i8, y as i8), Some(NonEmptyBlock::G));
            }
        }
    }
    board
}

#[test]
fn test_board_blocks() {
    let mut board = Board::new();
    assert!(board.is_empty());
    assert_eq!(board.len(), 0);
    assert_eq!(board.get((0, 0)), None);
    assert_eq!(board.get((-1, 0)), Some(NonEmptyBlock::G));
    assert_eq!(board.get((10, 0)), Some(NonEmptyBlock::G));
    assert_eq!(board.get((0, -1)), Some(NonEmptyBlock::G));
    // above the stack every square is free, however high
    assert_eq!(board.get((0, 126)), None);
    assert_eq!(board.get((0, 127)), None);
    assert_eq!(board.get((10, 127)), Some(NonEmptyBlock::G));
    board.set((3, 2), Some(NonEmptyBlock::T));
    assert_eq!(board.len(), 3);
    assert_eq!(board.rows().len(), 3);
    assert_eq!(board.get((3, 2)), Some(NonEmptyBlock::T));
    assert_eq!(board.get((3, 1)), None);
    assert_eq!(board.get((4, 2)), None);
    board.set((3, 2), None);
    assert_eq!(board.get((3, 2)), None);
    assert_eq!(board.len(), 3);
    assert_eq!(Board::default(), Board::new());
}

#[test]
fn test_piece_coords() {
    let coords = |piece, rotation| {
        let mut coords = PieceData { piece, rotation, x: 3, y: 20 }.coords().to_vec();
        coords.sort();
        coords
    };
    assert_eq!(coords(Piece::I, Rotation::North), [(3, 19), (4, 19), (5, 19), (6, 19)]);
    assert_eq!(coords(Piece::I, Rotation::East), [(5, 17), (5, 18), (5, 19), (5, 20)]);
    assert_eq!(coords(Piece::I, Rotation::South), [(3, 18), (4, 18), (5, 18), (6, 18)]);
    assert_eq!(coords(Piece::I, Rotation::West), [(4, 17), (4, 18), (4, 19), (4, 20)]);
    assert_eq!(coords(Piece::T, Rotation::North), [(3, 19), (4, 19), (4, 20), (5, 19)]);
    assert_eq!(coords(Piece::T, Rotation::East), [(4, 18), (4, 19), (4, 20), (5, 19)]);
    assert_eq!(coords(Piece::J, Rotation::North), [(3, 19), (3, 20), (4, 19), (5, 19)]);
    assert_eq!(coords(Piece::L, Rotation::West), [(3, 20), (4, 18), (4, 19), (4, 20)]);
    assert_eq!(coords(Piece::S, Rotation::North), [(3, 19), (4, 19), (4, 20), (5, 20)]);
    assert_eq!(coords(Piece::Z, Rotation::South), [(3, 19), (4, 18), (4, 19), (5, 18)]);
    assert_eq!(coords(Piece::O, Rotation::South), [(3, 19), (3, 20), (4, 19), (4, 20)]);
}

#[test]
fn test_piece_spawn() {
    assert_eq!(
        PieceData::spawn(Piece::I),
        PieceData { piece: Piece::I, rotation: Rotation::North, x: 3, y: 20 }
    );
    assert_eq!(PieceData::spawn(Piece::O).x, 4);
    assert_eq!(PieceData::spawn(Piece::T).x, 3);
    assert_eq!(PieceData::spawn(Piece::T).offset((-2, 3)).x, 1);
    assert_eq!(PieceData::spawn(Piece::T).offset((-2, 3)).y, 23);
    assert_eq!(PieceData::spawn(Piece::T).rotate(Rotation::West).rotation, Rotation::West);
}

#[test]
fn test_rotations_and_names() {
    assert_eq!(Rotation::North.cw(), Rotation::East);
    assert_eq!(Rotation::West.cw(), Rotation::North);
    assert_eq!(Rotation::North.ccw(), Rotation::West);
    assert_eq!(Rotation::from(7u8), Rotation::West);
    assert_eq!(u8::from(Rotation::South), 2);
    assert_eq!(Rotation::default(), Rotation::North);
    assert_eq!(NonEmptyBlock::default(), NonEmptyBlock::G);
    assert_eq!(NonEmptyBlock::from(Piece::Z), NonEmptyBlock::Z);
    assert_eq!(Piece::J.name(), "J");
    assert_eq!(NonEmptyBlock::G.name(), "G");
    assert_eq!(
        bluefin::game::all_pieces(),
        [Piece::I, Piece::O, Piece::J, Piece::L, Piece::S, Piece::Z, Piece::T]
    );
}

#[test]
fn test_collision_and_moves() {
    let board = board_of(&["xxxxx..xxx", "xxxx..xxxx"]);
    let mut piece = PieceData::spawn(Piece::S);
    assert!(!board.check_collision(piece));
    assert_eq!(piece.sonic_drop(&board), -17);
    assert_eq!(piece.y, 3);
    assert_eq!(piece.sonic_drop(&board), 0);
    // a piece that rests but can still move up is not immobile
    assert!(!board.check_immobile(piece));
    assert!(piece.try_offset((1, 0), &board));
    assert_eq!(piece.x, 4);
    assert!(!piece.try_offset((0, -1), &board));
    assert_eq!((piece.x, piece.y), (4, 3));
    assert!(piece.try_rotate_cw(&board));
    assert_eq!(piece.rotation, Rotation::East);
    assert!(piece.try_rotate_ccw(&board));
    assert_eq!(piece.rotation, Rotation::North);
    // a piece in the open moves every way
    let open = PieceData { piece: Piece::T, rotation: Rotation::North, x: 3, y: 10 };
    assert!(!Board::new().check_immobile(open));
    // on the floor of an empty board a piece can still move up and sideways
    let mut resting = PieceData::spawn(Piece::O);
    resting.sonic_drop(&Board::new());
    assert_eq!(resting.y, 1);
    assert!(!Board::new().check_immobile(resting));
    // a piece at the greatest height collides with nothing on an empty board
    let high = PieceData { piece: Piece::O, rotation: Rotation::North, x: 4, y: 127 };
    assert!(!Board::new().check_collision(high));
    // a piece that fills the gap under the overhang cannot move at all
    let spun = PieceData { piece: Piece::S, rotation: Rotation::North, x: 4, y: 1 };
    assert!(!board.check_collision(spun));
    assert!(board.check_immobile(spun));
    // a piece below the floor collides and does not drop
    let mut sunk = PieceData { piece: Piece::T, rotation: Rotation::North, x: 3, y: -2 };
    assert!(board.check_collision(sunk));
    assert_eq!(sunk.sonic_drop(&board), 0);
}

#[test]
fn test_wall_kick_on_the_floor() {
    let board = Board::new();
    let mut piece = PieceData { piece: Piece::T, rotation: Rotation::North, x: 3, y: 1 };
    assert!(!board.check_collision(piece));
    assert!(piece.try_rotate_cw(&board));
    assert_eq!((piece.x, piece.y, piece.rotation), (2, 2, Rotation::East));
}

#[test]
fn test_place_and_clear() {
    let mut board = board_of(&["xxx....xxx", "xxxxxxxxx.", "xxx....xxx"]);
    let piece = PieceData { piece: Piece::I, rotation: Rotation::North, x: 3, y: 1 };
    assert!(!board.check_collision(piece));
    board.place_piece(piece);
    assert!(board.check_collision(piece));
    assert_eq!(board.get((3, 0)), Some(NonEmptyBlock::I));
    assert_eq!(board.clear_lines(), 1);
    assert_eq!(board, board_of(&["xxx....xxx", "xxxxxxxxx."]));
    assert_eq!(board.clear_lines(), 0);
}

#[test]
fn test_seeded_games_are_the_same() {
    let a = Game::new_seeded(7);
    let b = Game::new_seeded(7);
    assert_eq!(a.state.queue, b.state.queue);
    assert_eq!(a.state.current, b.state.current);
    assert_eq!(a.state.queue.len(), 6);
    assert!(!a.state.dead);
    assert!(a.can_hold);
    // the first bag holds each piece once
    let mut first: Vec<Piece> = a.state.queue.iter().copied().collect();
    first.push(a.state.current.piece);
    first.sort();
    first.dedup();
    assert_eq!(first.len(), 7);
    let fresh = Game::new();
    assert_eq!(fresh.state.queue.len(), 6);
    assert_eq!(fresh.state.score, 0);
}

#[test]
fn test_commands() {
    let mut game = Game::new_seeded(1);
    let piece = game.state.current.piece;
    let x = game.state.current.x;
    assert!(game.perform_command(Command::MoveLeft));
    assert_eq!(game.state.current.x, x - 1);
    assert!(game.perform_command(Command::MoveRight));
    assert!(game.perform_command(Command::RotateCw));
    assert_eq!(game.state.current.rotation, Rotation::East);
    assert!(game.perform_command(Command::RotateCcw));
    assert!(!game.perform_command(Command::SonicDrop));
    assert!(game.state.current.y < 20);

    let next = game.state.queue[0];
    assert!(game.perform_command(Command::Hold));
    assert_eq!(game.state.held, Some(piece));
    assert_eq!(game.state.current, PieceData::spawn(next));
    assert_eq!(game.state.queue.len(), 6);
    assert!(!game.perform_command(Command::Hold));

    assert!(game.perform_command(Command::HardDrop));
    assert_eq!(game.state.pieces_placed, 1);
    assert_eq!(game.state.score, 0);
    assert!(!game.state.board.is_empty());
    assert!(game.state.board.check_collision(game.state.current));

    game.perform_commands(&[Command::MoveLeft, Command::MoveLeft]);
    assert_eq!(game.state.pieces_placed, 2);
}

#[test]
fn test_deal_takes_the_drawn_piece() {
    let mut bag = vec![Piece::I, Piece::O, Piece::J, Piece::L];
    let mut queue = VecDeque::from([Piece::T]);
    deal(&mut bag, &mut queue, 1);
    assert_eq!(bag, [Piece::I, Piece::L, Piece::J]);
    assert_eq!(queue, [Piece::T, Piece::O]);
    deal(&mut bag, &mut queue, 2);
    assert_eq!(bag, [Piece::I, Piece::L]);
    assert_eq!(queue, [Piece::T, Piece::O, Piece::J]);
    deal(&mut bag, &mut queue, 0);
    deal(&mut bag, &mut queue, 0);
    assert!(bag.is_empty());
    assert_eq!(queue, [Piece::T, Piece::O, Piece::J, Piece::I, Piece::L]);
}

#[test]
fn test_hard_drop_scores_a_spin_only_for_a_spin() {
    let mut game = Game::new_seeded(2);
    game.state.board = board_of(&["xxxxx..xxx", "xxxx..xxxx"]);
    // the piece rests in the gap, where it cannot move: a spin that clears two lines
    game.state.current = PieceData { piece: Piece::S, rotation: Rotation::North, x: 4, y: 1 };
    assert!(game.perform_command(Command::HardDrop));
    assert_eq!(game.state.score, 4);
    assert!(game.state.b2b);
    assert!(game.state.board.is_empty());

    let mut game = Game::new_seeded(2);
    game.state.board = board_of(&["xxxxxxxx..", "xxxxxxxx.."]);
    // the piece drops into the well from above: two lines, and no spin
    game.state.current = PieceData::spawn(Piece::O).offset((4, 0));
    assert!(game.perform_command(Command::HardDrop));
    assert_eq!(game.state.score, 1);
    assert!(!game.state.b2b);
    assert!(game.state.board.is_empty());
}

#[test]
fn test_hard_drop_needs_room_on_the_board() {
    let mut game = Game::new_seeded(2);
    for y in 0..126 {
        game.state.board.set((0, y), Some(NonEmptyBlock::G));
    }
    game.state.current = PieceData { piece: Piece::O, rotation: Rotation::North, x: 0, y: 127 };
    assert!(!game.state.board.check_collision(game.state.current));
    assert!(!game.perform_command(Command::HardDrop));
    assert_eq!(game.state.pieces_placed, 0);
    assert_eq!(game.state.board.len(), 126);
    game.state.current = PieceData { piece: Piece::O, rotation: Rotation::North, x: 4, y: 126 };
    assert!(game.perform_command(Command::HardDrop));
    assert_eq!(game.state.pieces_placed, 1);
    assert_eq!(game.state.board.len(), 126);
}
