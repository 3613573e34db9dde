use bluefin::game::{Board, Command, Game, NonEmptyBlock, Piece, PieceData};
use bluefin::matrix::EMPTY;
use bluefin::player::{board_height, board_matrix, request_move};

#[test]
fn test_board_matrix_has_a_bit_for_each_block() {
    let mut board = Board::new();
    board.set((0, 0), Some(NonEmptyBlock::G));
    board.set((9, 0), Some(NonEmptyBlock::T));
    board.set((4, 2), Some(NonEmptyBlock::I));
    let matrix = board_matrix(board.rows());
    assert_eq!(matrix.rows(), &[EMPTY | 0b1000000001, EMPTY, EMPTY | 0b10000]);
    assert_eq!(board_matrix(Board::new().rows()).len(), 0);
    // rows without a block above the stack are no rows of the matrix
    board.set((4, 5), None);
    assert_eq!(board.len(), 6);
    assert_eq!(board_height(board.rows()), 3);
    assert_eq!(board_matrix(board.rows()).rows(), matrix.rows());
    board.set((4, 2), None);
    assert_eq!(board_height(board.rows()), 1);
    assert_eq!(board_matrix(board.rows()).rows(), &[EMPTY | 0b1000000001]);
    board.set((0, 0), None);
    board.set((9, 0), None);
    assert_eq!(board_height(board.rows()), 0);
    assert_eq!(board_matrix(board.rows()).len(), 0);
}

#[test]
fn test_request_move_gives_commands_of_the_game() {
    let mut game = Game::new_seeded(3);
    let cmds = request_move(&game).expect("a move");
    assert!(!cmds.is_empty());
    for cmd in &cmds[1..] {
        assert!(!matches!(cmd, Command::Hold | Command::HardDrop | Command::Drop));
    }
    let held = matches!(cmds[0], Command::Hold);
    let piece = if held { game.state.queue[0] } else { game.state.current.piece };
    game.perform_commands(&cmds);
    assert_eq!(game.state.current.piece, piece);
    assert_eq!(game.state.pieces_placed, 1);
    assert!(!game.state.board.is_empty());
    assert!(game.state.board.rows().len() <= 4);
}

#[test]
fn test_request_move_holds_for_a_quad() {
    let mut game = Game::new_seeded(5);
    for y in 0..4 {
        for x in 0..9 {
            game.state.board.set((x, y), Some(NonEmptyBlock::G));
        }
    }
    game.state.current = PieceData::spawn(Piece::O);
    game.state.held = Some(Piece::I);
    game.state.queue.clear();
    let cmds = request_move(&game).expect("a move");
    assert!(matches!(cmds[0], Command::Hold));
}

#[test]
fn test_request_move_gives_up_out_of_sight() {
    let mut game = Game::new_seeded(5);
    for y in 0..110 {
        game.state.board.set((0, y), Some(NonEmptyBlock::G));
    }
    assert!(request_move(&game).is_none());
    // rows without a block do not count: the stack is what the search looks at
    let mut blank = Game::new_seeded(5);
    blank.state.board.set((0, 0), Some(NonEmptyBlock::G));
    blank.state.board.set((0, 120), None);
    assert_eq!(blank.state.board.len(), 121);
    assert!(request_move(&blank).is_some());
    // nothing can land on a stack that fills the field up to where pieces appear
    let mut full = Game::new_seeded(5);
    for y in 0..22 {
        for x in 1..9 {
            full.state.board.set((x, y), Some(NonEmptyBlock::G));
        }
    }
    full.state.queue.clear();
    assert!(request_move(&full).is_none());
}
