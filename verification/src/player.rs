//! The player at the table of a game: it reads the state of the game, asks
//! the search for a move, and answers with the commands of the game.

use vstd::prelude::*;

use crate::game::Block;
use crate::game::Command;
use crate::game::GameState;
use crate::input::Input;
use crate::matrix::EMPTY;
use crate::matrix::MAX_ROWS;
use crate::matrix::MatBuf;
use crate::matrix::bit;
use crate::matrix::rows_wf;
use crate::search::bot;
use crate::search::bot_choice;
use crate::standard_rules;

verus! {

/// The shape that the search knows a piece of the game as.
pub open spec fn shape_of(pc: crate::game::Piece) -> standard_rules::Piece {
    match pc {
        crate::game::Piece::I => standard_rules::Piece::I,
        crate::game::Piece::J => standard_rules::Piece::J,
        crate::game::Piece::L => standard_rules::Piece::L,
        crate::game::Piece::O => standard_rules::Piece::O,
        crate::game::Piece::S => standard_rules::Piece::S,
        crate::game::Piece::T => standard_rules::Piece::T,
        crate::game::Piece::Z => standard_rules::Piece::Z,
    }
}

/// The command of the game that gives an input.
pub open spec fn command_of(inp: Input) -> Command {
    match inp {
        Input::Left => Command::MoveLeft,
        Input::Right => Command::MoveRight,
        Input::Cw => Command::RotateCw,
        Input::Ccw => Command::RotateCcw,
        Input::SonicDrop => Command::SonicDrop,
    }
}

/// The commands for a choice of the search: a hold, if one is needed, and
/// then the inputs.
pub open spec fn commands_of(choice: (bool, Seq<Input>)) -> Seq<Command> {
    (if choice.0 {
        seq![Command::Hold]
    } else {
        Seq::empty()
    }) + Seq::new(choice.1.len(), |i: int| command_of(choice.1[i]))
}

/// Whether no square of a row holds a block.
pub open spec fn row_blank(row: [Block; 10]) -> bool {
    forall|x: int| 0 <= x < 10 ==> (#[trigger] row@[x]).is_none()
}

/// The height of the stack in the lowest `n` rows of a board: the number of
/// rows up to the topmost of them that holds a block.
pub open spec fn stack_height(board: Seq<[Block; 10]>, n: int) -> int
    decreases n,
{
    if n <= 0 {
        0
    } else if !row_blank(board[n - 1]) {
        n
    } else {
        stack_height(board, n - 1)
    }
}

/// Whether `rows` is the matrix of a board: as high as the stack of the
/// board, with a block in each square in which the board has one.
pub open spec fn matrix_of(rows: Seq<u16>, board: Seq<[Block; 10]>) -> bool {
    &&& rows_wf(rows)
    &&& rows.len() == stack_height(board, board.len() as int)
    &&& forall|x: int, y: int|
        0 <= x < 10 && 0 <= y < rows.len() ==> #[trigger] bit(rows[y], x) == board[y]@[x].is_some()
}

/// The shapes of the pieces of a queue.
pub open spec fn shapes_of(queue: Seq<crate::game::Piece>) -> Seq<standard_rules::Piece> {
    Seq::new(queue.len(), |i: int| shape_of(queue[i]))
}

/// Whether a game is within what the search can look at: the rows of the
/// stack and four for each piece are not more than a matrix can hold.
pub open spec fn in_sight(game: GameState) -> bool {
    stack_height(game.board@, game.board@.len() as int) + 4 * (game.queue@.len() + 2) <= MAX_ROWS
}

fn mino_piece_type(pc: crate::game::Piece) -> (shape: standard_rules::Piece)
    ensures
        shape == shape_of(pc),
{
    match pc {
        crate::game::Piece::I => standard_rules::Piece::I,
        crate::game::Piece::J => standard_rules::Piece::J,
        crate::game::Piece::L => standard_rules::Piece::L,
        crate::game::Piece::O => standard_rules::Piece::O,
        crate::game::Piece::S => standard_rules::Piece::S,
        crate::game::Piece::T => standard_rules::Piece::T,
        crate::game::Piece::Z => standard_rules::Piece::Z,
    }
}

fn botris_command(inp: Input) -> (cmd: Command)
    ensures
        cmd == command_of(inp),
{
    match inp {
        Input::Left => Command::MoveLeft,
        Input::Right => Command::MoveRight,
        Input::Cw => Command::RotateCw,
        Input::Ccw => Command::RotateCcw,
        Input::SonicDrop => Command::SonicDrop,
    }
}

proof fn lemma_set_bit(row: u16, x: u16, i: u16)
    by (bit_vector)
    requires
        x < 10,
        i < 16,
    ensures
        ((row | (1u16 << x)) >> i) & 1 == 1 <==> (i == x || (row >> i) & 1 == 1),
        ((EMPTY >> i) & 1 == 1) <==> i >= 10,
{
}

/// The stack is no higher than the rows that it is the stack of, rows above
/// it hold no block, and it does not shrink when rows are added.
proof fn lemma_stack_height(board: Seq<[Block; 10]>, n: int)
    requires
        0 <= n <= board.len(),
    ensures
        0 <= stack_height(board, n) <= n,
        forall|v: int| stack_height(board, n) <= v < n ==> row_blank(#[trigger] board[v]),
        forall|m: int| 0 <= m <= n ==> #[trigger] stack_height(board, m) <= stack_height(board, n),
    decreases n,
{
    if n > 0 {
        lemma_stack_height(board, n - 1);
    }
}

fn is_blank(row: &[Block; 10]) -> (blank: bool)
    ensures
        blank == row_blank(*row),
{
    let mut x: usize = 0;
    while x < 10
        invariant
            0 <= x <= 10,
            forall|i: int| 0 <= i < x ==> (#[trigger] row@[i]).is_none(),
        decreases 10 - x,
    {
        if row[x].is_some() {
            return false;
        }
        x += 1;
    }
    true
}

/// The height of the stack of a board: the number of rows up to the topmost
/// row that holds a block.
pub fn board_height(rows: &[[Block; 10]]) -> (height: usize)
    ensures
        height == stack_height(rows@, rows@.len() as int),
{
    let mut n = rows.len();
    while n > 0 && is_blank(&rows[n - 1])
        invariant
            0 <= n <= rows@.len(),
            stack_height(rows@, n as int) == stack_height(rows@, rows@.len() as int),
        decreases n,
    {
        n -= 1;
    }
    n
}

/// The matrix of the board of a game: a row gets a bit for each block, so
/// that the matrix ends with the topmost row that holds a block.
pub fn board_matrix(rows: &[[Block; 10]]) -> (matrix: MatBuf)
    requires
        stack_height(rows@, rows@.len() as int) <= MAX_ROWS,
    ensures
        matrix_of(matrix@, rows@),
{
    let mut matrix = MatBuf::new();
    let n = rows.len();
    let mut y: usize = 0;
    while y < n
        invariant
            0 <= y <= n,
            n == rows@.len(),
            stack_height(rows@, n as int) <= MAX_ROWS,
            matrix.wf(),
            matrix@.len() == stack_height(rows@, y as int),
            matrix@.len() <= y,
            forall|x: int, v: int|
                0 <= x < 10 && 0 <= v < matrix@.len() ==> #[trigger] bit(matrix@[v], x) == rows@[v]@[x].is_some(),
        decreases n - y,
    {
        let ghost below = matrix@;
        proof {
            lemma_stack_height(rows@, y as int);
            lemma_stack_height(rows@, n as int);
        }
        let mut found = false;
        let mut x: usize = 0;
        while x < 10
            invariant
                0 <= x <= 10,
                y < n,
                n == rows@.len(),
                stack_height(rows@, n as int) <= MAX_ROWS,
                matrix.wf(),
                below.len() == stack_height(rows@, y as int),
                below.len() <= y,
                forall|v: int| below.len() <= v < y ==> row_blank(#[trigger] rows@[v]),
                found == (exists|i: int| 0 <= i < x && (#[trigger] rows@[y as int]@[i]).is_some()),
                !found ==> matrix@ == below,
                found ==> matrix@.len() == y + 1 && y < MAX_ROWS,
                forall|i: int, v: int|
                    0 <= i < 10 && 0 <= v < y && v < matrix@.len() ==> #[trigger] bit(matrix@[v], i)
                        == rows@[v]@[i].is_some(),
                found ==> forall|i: int|
                    0 <= i < 10 ==> #[trigger] bit(matrix@[y as int], i) == (i < x && rows@[y as int]@[i].is_some()),
            decreases 10 - x,
        {
            let ghost before = matrix@;
            if rows[y][x].is_some() {
                proof {
                    // the row holds a block, so that the stack reaches up to it
                    assert(!row_blank(rows@[y as int]));
                    assert(stack_height(rows@, y + 1) == y + 1);
                    lemma_stack_height(rows@, n as int);
                }
                let column = x as u16;
                matrix.set(y as i8, 1u16 << column);
                proof {
                    assert(matrix@.len() == y + 1);
                    let row_before = if found {
                        before[y as int]
                    } else {
                        EMPTY
                    };
                    assert(matrix@[y as int] == row_before | (1u16 << column));
                    assert forall|i: int| 0 <= i < 10 implies #[trigger] bit(matrix@[y as int], i) == (i < x
                        + 1 && rows@[y as int]@[i].is_some()) by {
                        lemma_set_bit(row_before, column, i as u16);
                        if found {
                            assert(bit(before[y as int], i) == (i < x && rows@[y as int]@[i].is_some()));
                        }
                    }
                    assert forall|i: int, v: int| 0 <= i < 10 && 0 <= v < y implies #[trigger] bit(
                        matrix@[v],
                        i,
                    ) == rows@[v]@[i].is_some() by {
                        if v < before.len() {
                            assert(matrix@[v] == before[v]);
                        } else {
                            assert(matrix@[v] == EMPTY);
                            lemma_set_bit(0, 0, i as u16);
                            assert(row_blank(rows@[v]));
                        }
                    }
                }
                found = true;
            }
            x += 1;
        }
        proof {
            if !found {
                assert(row_blank(rows@[y as int]));
            }
        }
        y += 1;
    }
    matrix
}

/// Asks the search for a move in the game, and returns the commands of the
/// move: a hold, if the search wants one, and the inputs. There is no move
/// where the search finds none, nor where the game is out of its sight.
pub fn request_move(game: &GameState) -> (cmds: Option<Vec<Command>>)
    ensures
        match cmds {
            Some(cmds) => in_sight(*game) && exists|rows: Seq<u16>|
                #![trigger matrix_of(rows, game.board@)]
                {
                    &&& matrix_of(rows, game.board@)
                    &&& bot_choice(
                        shape_of(game.current.piece),
                        shapes_of(game.queue@),
                        match game.held {
                            Some(held) => Some(shape_of(held)),
                            None => None,
                        },
                        rows,
                        false,
                    ) matches Some(choice) && cmds@ == commands_of(choice)
                },
            None => !in_sight(*game) || exists|rows: Seq<u16>|
                #![trigger matrix_of(rows, game.board@)]
                {
                    &&& matrix_of(rows, game.board@)
                    &&& bot_choice(
                        shape_of(game.current.piece),
                        shapes_of(game.queue@),
                        match game.held {
                            Some(held) => Some(shape_of(held)),
                            None => None,
                        },
                        rows,
                        false,
                    ).is_none()
                },
        },
{
    let height = board_height(game.board.rows());
    let count = game.queue.len();
    if height > MAX_ROWS || count > MAX_ROWS || height + 4 * (count + 2) > MAX_ROWS {
        return None;
    }
    let current = mino_piece_type(game.current.piece);
    let hold = match game.held {
        Some(held) => Some(mino_piece_type(held)),
        None => None,
    };
    let mut queue: Vec<standard_rules::Piece> = Vec::with_capacity(count);
    let mut i: usize = 0;
    while i < count
        invariant
            0 <= i <= count,
            count == game.queue@.len(),
            queue@.len() == i,
            forall|k: int| 0 <= k < i ==> #[trigger] queue@[k] == shape_of(game.queue@[k]),
        decreases count - i,
    {
        queue.push(mino_piece_type(game.queue[i]));
        i += 1;
    }
    proof {
        assert(queue@ =~= shapes_of(game.queue@));
    }
    let matrix = board_matrix(game.board.rows());
    match bot(current, queue.as_slice(), hold, &matrix.as_mat()) {
        Some((hold, inputs)) => {
            let mut cmds: Vec<Command> = Vec::new();
            if hold {
                cmds.push(Command::Hold);
            }
            let ghost head = cmds@;
            let n = inputs.len();
            let mut k: usize = 0;
            while k < n
                invariant
                    0 <= k <= n,
                    n == inputs@.len(),
                    cmds@.len() == head.len() + k,
                    forall|j: int| 0 <= j < head.len() ==> #[trigger] cmds@[j] == head[j],
                    forall|j: int| 0 <= j < k ==> #[trigger] cmds@[head.len() + j] == command_of(inputs@[j]),
                decreases n - k,
            {
                cmds.push(botris_command(inputs[k]));
                k += 1;
            }
            proof {
                let want = commands_of((hold, inputs@));
                assert(cmds@.len() == want.len());
                assert forall|j: int| 0 <= j < cmds@.len() implies cmds@[j] == want[j] by {
                    if j >= head.len() {
                        assert(cmds@[head.len() + (j - head.len())] == command_of(inputs@[j - head.len()]));
                    }
                }
                assert(cmds@ =~= want);
            }
            Some(cmds)
        },
        None => None,
    }
}

} // verus!
