use mnk_game::board::Board;
use mnk_game::cell::BoardState;
use mnk_game::cell::Mark;
use mnk_game::input::read_move;
use mnk_game::play::const_for_boardstate;
use mnk_game::play::make_move;
use mnk_game::play::Turn;
use mnk_game::play::AI_WINS;
use mnk_game::play::CATS_GAME;
use mnk_game::play::INVALID_MOVE;
use mnk_game::play::IN_PROGRESS;
use mnk_game::play::PLAYER_WINS;

fn layout(rows: &[&str], k: usize) -> Board {
    let mut board = Board::new(rows.len(), rows[0].len(), k);
    for (y, row) in rows.iter().enumerate() {
        for (x, letter) in row.chars().enumerate() {
            match letter {
                'X' => board.set_mark((x, y), Mark::Player),
                'O' => board.set_mark((x, y), Mark::Ai),
                _ => (),
            }
        }
    }
    board
}

#[test]
fn states_have_their_numbers() {
    assert_eq!(INVALID_MOVE, 0);
    assert_eq!(PLAYER_WINS, 1);
    assert_eq!(AI_WINS, 2);
    assert_eq!(CATS_GAME, 3);
    assert_eq!(IN_PROGRESS, 4);
    assert_eq!(const_for_boardstate(BoardState::PlayerWins), 1);
    assert_eq!(const_for_boardstate(BoardState::AiWins), 2);
    assert_eq!(const_for_boardstate(BoardState::CatsGame), 3);
    assert_eq!(const_for_boardstate(BoardState::InProgress), 4);
}

#[test]
fn turn_makes_both_moves() {
    let mut board = Board::new(3, 3, 3);
    let turn = make_move(&mut board, 0, 0);
    assert_eq!(turn, Turn { status: IN_PROGRESS, reply: Some((1, 1)) });
    assert_eq!(board.get_cell(0, 0).mark, Mark::Player);
    assert_eq!(board.get_cell(1, 1).mark, Mark::Ai);
    assert_eq!(board.cells_with_mark(Mark::Empty).len(), 7);
}

#[test]
fn turn_refuses_an_illegal_move() {
    let mut board = Board::new(3, 3, 3);
    make_move(&mut board, 0, 0);
    let before = board.to_string();
    assert_eq!(make_move(&mut board, 0, 0), Turn { status: INVALID_MOVE, reply: None });
    assert_eq!(make_move(&mut board, 1, 1), Turn { status: INVALID_MOVE, reply: None });
    assert_eq!(make_move(&mut board, 5, 5), Turn { status: INVALID_MOVE, reply: None });
    assert_eq!(make_move(&mut board, 3, 0), Turn { status: INVALID_MOVE, reply: None });
    assert_eq!(make_move(&mut board, 0, 3), Turn { status: INVALID_MOVE, reply: None });
    assert_eq!(board.to_string(), before);
}

#[test]
fn turn_by_turn_to_a_win_of_the_engine() {
    let mut board = Board::new(3, 3, 3);
    assert_eq!(make_move(&mut board, 0, 0), Turn { status: IN_PROGRESS, reply: Some((1, 1)) });
    assert_eq!(make_move(&mut board, 2, 0), Turn { status: IN_PROGRESS, reply: Some((1, 0)) });
    assert_eq!(make_move(&mut board, 1, 2), Turn { status: IN_PROGRESS, reply: Some((0, 1)) });
    assert_eq!(make_move(&mut board, 0, 1), Turn { status: INVALID_MOVE, reply: None });
    assert_eq!(make_move(&mut board, 2, 2), Turn { status: AI_WINS, reply: Some((2, 1)) });
    assert_eq!(board.get_state(), BoardState::AiWins);
    assert_eq!(board.to_string(), "  0 1 2 \n0 X|O|X\n  -+-+-\n1 O|O|O\n  -+-+-\n2  |X|X");
}

#[test]
fn turn_ends_with_the_player_winning() {
    let mut board = layout(&["XX ", "OO ", "   "], 3);
    assert_eq!(make_move(&mut board, 2, 0), Turn { status: PLAYER_WINS, reply: None });
    assert_eq!(board.get_state(), BoardState::PlayerWins);
    assert_eq!(board.cells_with_mark(Mark::Ai).len(), 2);
}

#[test]
fn turn_ends_in_a_draw_by_the_player() {
    let mut board = layout(&["OXX", "XXO", "OO "], 3);
    assert_eq!(make_move(&mut board, 2, 2), Turn { status: CATS_GAME, reply: None });
    assert_eq!(board.get_state(), BoardState::CatsGame);
}

#[test]
fn turn_ends_in_a_draw_by_the_engine() {
    let mut board = layout(&["XOX", "XOO", "   "], 3);
    board.set_mark((1, 2), Mark::Player);
    board.set_mark((1, 2), Mark::Empty);
    let first = make_move(&mut board, 1, 2);
    assert_eq!(first, Turn { status: IN_PROGRESS, reply: Some((0, 2)) });
    let second = make_move(&mut board, 2, 2);
    assert_eq!(second, Turn { status: CATS_GAME, reply: None });
    let mut other = layout(&["XOX", "OOX", "X  "], 3);
    let turn = make_move(&mut other, 1, 2);
    assert_eq!(turn, Turn { status: CATS_GAME, reply: Some((2, 2)) });
    assert_eq!(other.cells_with_mark(Mark::Empty).len(), 0);
}

#[test]
fn lines_are_read_as_moves() {
    assert_eq!(read_move("1,2"), Some((1, 2)));
    assert_eq!(read_move("1,2\n"), Some((1, 2)));
    assert_eq!(read_move("  10 ,\t7 \r\n"), Some((10, 7)));
    assert_eq!(read_move("0,0"), Some((0, 0)));
    assert_eq!(read_move("007,08"), Some((7, 8)));
    assert_eq!(read_move("+3,+4"), Some((3, 4)));
    assert_eq!(read_move("\u{a0}5\u{2003},\u{3000}6\u{85}"), Some((5, 6)));
}

#[test]
fn lines_with_other_than_two_numbers_are_no_moves() {
    assert_eq!(read_move(""), None);
    assert_eq!(read_move("\n"), None);
    assert_eq!(read_move(","), None);
    assert_eq!(read_move("1"), None);
    assert_eq!(read_move("1,"), None);
    assert_eq!(read_move(",1"), None);
    assert_eq!(read_move("1,2,3"), None);
    assert_eq!(read_move("a,b"), None);
    assert_eq!(read_move("1 2"), None);
    assert_eq!(read_move("1;2"), None);
    assert_eq!(read_move("-1,2"), None);
    assert_eq!(read_move("1.0,2"), None);
    assert_eq!(read_move("1,2x"), None);
    assert_eq!(read_move("1,+"), None);
    assert_eq!(read_move("1,++2"), None);
    assert_eq!(read_move("1,2 3"), None);
    assert_eq!(read_move("1,\u{661}"), None);
}

#[test]
fn pieces_that_are_no_numbers_are_passed_over() {
    assert_eq!(read_move("1,x,2"), Some((1, 2)));
    assert_eq!(read_move("1,,2"), Some((1, 2)));
    assert_eq!(read_move(",1,2,"), Some((1, 2)));
    assert_eq!(read_move("x,3, ,4,y"), Some((3, 4)));
    assert_eq!(read_move("1,x,2,3"), None);
}

#[test]
fn numbers_must_fit_a_machine_word() {
    let largest = format!("{},{}", usize::MAX, 0);
    assert_eq!(read_move(&largest), Some((usize::MAX, 0)));
    let too_large = format!("{}0,1", usize::MAX);
    assert_eq!(read_move(&too_large), None);
    assert_eq!(read_move("99999999999999999999999999999999999999999,1"), None);
    let over_by_one = format!("1,{}", usize::MAX as u128 + 1);
    assert_eq!(read_move(&over_by_one), None);
    let passed_over = format!("1,{},2", usize::MAX as u128 + 1);
    assert_eq!(read_move(&passed_over), Some((1, 2)));
}

#[test]
fn marks_and_states_have_their_words() {
    assert_eq!(Mark::Player.to_string(), "X");
    assert_eq!(Mark::Ai.to_string(), "O");
    assert_eq!(Mark::Empty.to_string(), " ");
    assert_eq!(BoardState::PlayerWins.to_string(), "Player Wins!");
    assert_eq!(BoardState::AiWins.to_string(), "Ai Wins!");
    assert_eq!(BoardState::CatsGame.to_string(), "Cats Game");
    assert_eq!(BoardState::InProgress.to_string(), "Game still in progress");
}

#[test]
fn empty_board_as_text() {
    let board = Board::new(3, 3, 3);
    assert_eq!(board.to_string(), "  0 1 2 \n0  | | \n  -+-+-\n1  | | \n  -+-+-\n2  | | ");
}

#[test]
fn played_board_as_text() {
    let board = layout(&["OXX", "XXO", "OOX"], 3);
    assert_eq!(board.to_string(), "  0 1 2 \n0 O|X|X\n  -+-+-\n1 X|X|O\n  -+-+-\n2 O|O|X");
    let wide = layout(&["X O ", " O X"], 3);
    assert_eq!(wide.to_string(), "  0 1 2 3 \n0 X| |O| \n  -+-+-+-\n1  |O| |X");
}

#[test]
fn narrow_and_long_boards_as_text() {
    let column = layout(&["X", "O", " "], 3);
    assert_eq!(column.to_string(), "  0 \n0 X\n  -\n1 O\n  -\n2  ");
    let single = Board::new(1, 1, 1);
    assert_eq!(single.to_string(), "  0 \n0  ");
    let none = Board::new(0, 3, 1);
    assert_eq!(none.to_string(), "  0 1 2 \n");
    let no_columns = Board::new(3, 0, 1);
    assert_eq!(no_columns.to_string(), "  \n");
}

#[test]
fn numbers_of_two_figures_in_the_text() {
    let board = Board::new(11, 12, 5);
    let text = board.to_string();
    let lines: Vec<&str> = text.split('\n').collect();
    assert_eq!(lines.len(), 22);
    assert_eq!(lines[0], "  0 1 2 3 4 5 6 7 8 9 10 11 ");
    assert_eq!(lines[1], "0  | | | | | | | | | | | ");
    assert_eq!(lines[2], "  -+-+-+-+-+-+-+-+-+-+-+-");
    assert_eq!(lines[19], "9  | | | | | | | | | | | ");
    assert_eq!(lines[21], "10  | | | | | | | | | | | ");
}
