use mnk_game::board::Board;
use mnk_game::cell::BoardState;
use mnk_game::cell::Cell;
use mnk_game::cell::Mark;

fn filled(rows: &[&str], k: usize) -> Board {
    let mut board = Board::new(rows.len(), rows[0].len(), k);
    for (y, row) in rows.iter().enumerate() {
        for (x, letter) in row.chars().enumerate() {
            match letter {
                'X' => board.set_mark((x, y), Mark::Player),
                'O' => board.set_mark((x, y), Mark::Ai),
                _ => (),
            }
        }
    }
    board
}

#[test]
fn test_count_consecutive() {
    let mut board = Board::new(5, 5, 4);
    board.set_mark((0, 0), Mark::Ai);
    assert!(board.count_consecutive(board.get_cell(0, 0), (0, 1), true) == 1);

    board.set_mark((1, 0), Mark::Ai);
    assert!(board.count_consecutive(board.get_cell(0, 0), (1, 0), true) == 2);
    assert!(board.count_consecutive(board.get_cell(0, 0), (0, 1), true) == 1);

    board.set_mark((1, 1), Mark::Ai);
    board.set_mark((2, 2), Mark::Ai);
    assert!(board.count_consecutive(board.get_cell(0, 0), (1, 1), true) == 3);
    assert!(board.count_consecutive(board.get_cell(1, 0), (0, 1), true) == 2);

    board.set_mark((0, 4), Mark::Ai);
    board.set_mark((1, 3), Mark::Ai);
    assert!(board.count_consecutive(board.get_cell(0, 4), (1, -1), true) == 3);

    board.set_mark((1, 4), Mark::Ai);
    board.set_mark((2, 4), Mark::Ai);
    board.set_mark((3, 4), Mark::Ai);
    board.set_mark((4, 4), Mark::Ai);
    assert!(board.count_consecutive(board.get_cell(0, 4), (1, 0), true) == 5);
}

#[test]
fn test_win() {
    let mut board = Board::new(5, 5, 4);
    board.set_mark((0, 0), Mark::Player);
    board.set_mark((1, 1), Mark::Player);
    board.set_mark((2, 2), Mark::Player);
    board.set_mark((3, 3), Mark::Player);

    assert!(board.get_state() == BoardState::PlayerWins);
}

#[test]
fn new_board_is_empty_and_in_progress() {
    let board = Board::new(4, 7, 3);
    assert_eq!(board.get_num_rows(), 4);
    assert_eq!(board.get_num_cols(), 7);
    assert_eq!(board.get_k(), 3);
    assert_eq!(board.get_state(), BoardState::InProgress);
    assert_eq!(board.cells_with_mark(Mark::Empty).len(), 28);
    assert_eq!(board.cells_with_mark(Mark::Player).len(), 0);
    assert_eq!(board.cells_with_mark(Mark::Ai).len(), 0);
    for y in 0..4 {
        for x in 0..7 {
            assert_eq!(*board.get_cell(x, y), Cell { x, y, mark: Mark::Empty });
        }
    }
}

#[test]
fn board_without_squares_has_no_cells() {
    let board = Board::new(0, 5, 3);
    assert_eq!(board.cells_with_mark(Mark::Empty).len(), 0);
    assert_eq!(board.get_state(), BoardState::InProgress);
    assert!(!board.check_valid_move((0, 0)));
    let narrow = Board::new(5, 0, 3);
    assert_eq!(narrow.cells_with_mark(Mark::Empty).len(), 0);
    assert!(!narrow.check_valid_move((0, 0)));
}

#[test]
fn get_cell_is_found_by_column_then_row() {
    let mut board = Board::new(2, 3, 2);
    board.set_mark((2, 0), Mark::Player);
    board.set_mark((0, 1), Mark::Ai);
    assert_eq!(*board.get_cell(2, 0), Cell { x: 2, y: 0, mark: Mark::Player });
    assert_eq!(*board.get_cell(0, 1), Cell { x: 0, y: 1, mark: Mark::Ai });
    assert_eq!(*board.get_cell(1, 1), Cell { x: 1, y: 1, mark: Mark::Empty });
    assert_eq!(*board.get_cell(0, 0), Cell { x: 0, y: 0, mark: Mark::Empty });
}

#[test]
fn set_mark_overwrites_without_asking() {
    let mut board = Board::new(3, 3, 3);
    board.set_mark((1, 1), Mark::Player);
    board.set_mark((1, 1), Mark::Ai);
    assert_eq!(board.get_cell(1, 1).mark, Mark::Ai);
    board.set_mark((1, 1), Mark::Empty);
    assert_eq!(board.get_cell(1, 1).mark, Mark::Empty);
    assert_eq!(board.cells_with_mark(Mark::Empty).len(), 9);
}

#[test]
fn check_valid_move_rejects_outside_and_occupied() {
    let mut board = Board::new(3, 4, 3);
    assert!(board.check_valid_move((0, 0)));
    assert!(board.check_valid_move((3, 2)));
    assert!(!board.check_valid_move((4, 0)));
    assert!(!board.check_valid_move((0, 3)));
    assert!(!board.check_valid_move((4, 3)));
    assert!(!board.check_valid_move((usize::MAX, usize::MAX)));
    board.set_mark((3, 2), Mark::Ai);
    assert!(!board.check_valid_move((3, 2)));
    board.set_mark((3, 2), Mark::Empty);
    assert!(board.check_valid_move((3, 2)));
}

#[test]
fn cells_with_mark_come_in_row_major_order() {
    let board = filled(&["X O", " XO", "O X"], 3);
    let players: Vec<(usize, usize)> =
        board.cells_with_mark(Mark::Player).iter().map(|c| (c.x, c.y)).collect();
    assert_eq!(players, vec![(0, 0), (1, 1), (2, 2)]);
    let engines: Vec<(usize, usize)> =
        board.cells_with_mark(Mark::Ai).iter().map(|c| (c.x, c.y)).collect();
    assert_eq!(engines, vec![(2, 0), (2, 1), (0, 2)]);
    let empties: Vec<(usize, usize)> =
        board.cells_with_mark(Mark::Empty).iter().map(|c| (c.x, c.y)).collect();
    assert_eq!(empties, vec![(1, 0), (0, 1), (1, 2)]);
    for cell in board.cells_with_mark(Mark::Ai) {
        assert_eq!(cell.mark, Mark::Ai);
    }
}

#[test]
fn win_needs_the_fourth_mark() {
    let mut board = Board::new(5, 5, 4);
    board.set_mark((0, 0), Mark::Player);
    assert_eq!(board.get_state(), BoardState::InProgress);
    board.set_mark((1, 1), Mark::Player);
    assert_eq!(board.get_state(), BoardState::InProgress);
    board.set_mark((2, 2), Mark::Player);
    assert_eq!(board.get_state(), BoardState::InProgress);
    board.set_mark((3, 3), Mark::Player);
    assert_eq!(board.get_state(), BoardState::PlayerWins);
}

#[test]
fn win_is_found_when_the_last_mark_joins_two_runs() {
    let mut board = Board::new(5, 5, 4);
    board.set_mark((0, 2), Mark::Ai);
    board.set_mark((1, 2), Mark::Ai);
    board.set_mark((3, 2), Mark::Ai);
    assert_eq!(board.get_state(), BoardState::InProgress);
    board.set_mark((2, 2), Mark::Ai);
    assert_eq!(board.max_consecutive(board.get_cell(2, 2)), 4);
    assert!(board.check_for_win(board.get_cell(2, 2)));
    assert_eq!(board.get_state(), BoardState::AiWins);
}

#[test]
fn win_counts_on_each_axis() {
    for direction in [(0isize, 1isize), (1, 0), (1, 1), (1, -1)] {
        let mut board = Board::new(5, 5, 3);
        let (dx, dy) = direction;
        let start: (isize, isize) = if dy < 0 { (1, 3) } else { (1, 1) };
        for step in 0..3isize {
            let x = (start.0 + step * dx) as usize;
            let y = (start.1 + step * dy) as usize;
            assert_eq!(board.get_state(), BoardState::InProgress);
            board.set_mark((x, y), Mark::Player);
        }
        assert_eq!(board.get_state(), BoardState::PlayerWins);
    }
}

#[test]
fn state_is_judged_from_the_last_change_only() {
    let mut board = Board::new(3, 3, 3);
    board.set_mark((0, 0), Mark::Player);
    board.set_mark((1, 0), Mark::Player);
    board.set_mark((2, 0), Mark::Player);
    assert_eq!(board.get_state(), BoardState::PlayerWins);
    board.set_mark((1, 1), Mark::Ai);
    assert_eq!(board.get_state(), BoardState::InProgress);
}

#[test]
fn full_board_without_a_run_is_drawn() {
    let rows = ["XXOOX", "OOXXO", "XXOOX", "OOXXO", "XXOOX"];
    let mut board = Board::new(5, 5, 4);
    for (y, row) in rows.iter().enumerate() {
        for (x, letter) in row.chars().enumerate() {
            assert_eq!(board.get_state(), BoardState::InProgress);
            let mark = if letter == 'X' { Mark::Player } else { Mark::Ai };
            board.set_mark((x, y), mark);
        }
    }
    assert_eq!(board.cells_with_mark(Mark::Empty).len(), 0);
    for y in 0..5 {
        for x in 0..5 {
            assert!(board.max_consecutive(board.get_cell(x, y)) < 4);
        }
    }
    assert_eq!(board.get_state(), BoardState::CatsGame);
}

#[test]
fn full_board_with_a_run_is_won_not_drawn() {
    let mut board = filled(&["XOX", "OXO", "OX "], 3);
    board.set_mark((2, 2), Mark::Player);
    assert_eq!(board.cells_with_mark(Mark::Empty).len(), 0);
    assert_eq!(board.get_state(), BoardState::PlayerWins);
}

#[test]
fn unwinnable_board_goes_on_until_full() {
    let mut board = Board::new(2, 2, 5);
    board.set_mark((0, 0), Mark::Player);
    board.set_mark((1, 0), Mark::Player);
    board.set_mark((0, 1), Mark::Player);
    assert_eq!(board.get_state(), BoardState::InProgress);
    board.set_mark((1, 1), Mark::Player);
    assert_eq!(board.get_state(), BoardState::CatsGame);
}

#[test]
fn undo_restores_empties_and_progress() {
    let mut board = filled(&["XO ", " X ", "O  "], 3);
    let before: Vec<Cell> = board.cells_with_mark(Mark::Empty).into_iter().copied().collect();
    for &cell in before.iter() {
        board.set_mark((cell.x, cell.y), Mark::Player);
        board.set_mark((cell.x, cell.y), Mark::Empty);
        assert_eq!(board.get_state(), BoardState::InProgress);
        let after: Vec<Cell> = board.cells_with_mark(Mark::Empty).into_iter().copied().collect();
        assert_eq!(after, before);
    }
    board.set_mark((2, 2), Mark::Player);
    assert_eq!(board.get_state(), BoardState::PlayerWins);
    board.set_mark((2, 2), Mark::Empty);
    assert_eq!(board.get_state(), BoardState::InProgress);
}

#[test]
fn count_is_the_maximal_run_through_the_cell() {
    let board = filled(&["OOXOO", "     ", "     ", "     ", "     "], 4);
    assert_eq!(board.count_consecutive(board.get_cell(0, 0), (1, 0), true), 2);
    assert_eq!(board.count_consecutive(board.get_cell(1, 0), (1, 0), true), 2);
    assert_eq!(board.count_consecutive(board.get_cell(2, 0), (1, 0), true), 1);
    assert_eq!(board.count_consecutive(board.get_cell(3, 0), (1, 0), true), 2);
    assert_eq!(board.count_consecutive(board.get_cell(4, 0), (1, 0), true), 2);
    assert_eq!(board.count_consecutive(board.get_cell(4, 0), (-1, 0), true), 2);
}

#[test]
fn count_follows_any_step() {
    let board = filled(&["O    ", "     ", " O   ", "     ", "  O  "], 4);
    assert_eq!(board.count_consecutive(board.get_cell(1, 2), (1, 2), true), 3);
    assert_eq!(board.count_consecutive(board.get_cell(0, 0), (1, 2), true), 3);
    assert_eq!(board.count_consecutive(board.get_cell(2, 4), (-1, -2), true), 3);
    assert_eq!(board.count_consecutive(board.get_cell(1, 2), (1, 1), true), 1);
    assert_eq!(board.count_consecutive(board.get_cell(1, 2), (isize::MAX, isize::MIN), true), 1);
    assert_eq!(board.count_consecutive(board.get_cell(1, 2), (isize::MIN, 0), true), 1);
}

#[test]
fn count_goes_by_the_mark_of_the_cell_handed_in() {
    let board = filled(&["XX ", "   ", "   "], 3);
    let as_player = Cell { x: 2, y: 0, mark: Mark::Player };
    assert_eq!(board.count_consecutive(&as_player, (1, 0), true), 3);
    let as_engine = Cell { x: 2, y: 0, mark: Mark::Ai };
    assert_eq!(board.count_consecutive(&as_engine, (1, 0), true), 1);
    let outside = Cell { x: 3, y: 0, mark: Mark::Empty };
    assert_eq!(board.count_consecutive(&outside, (1, 0), true), 2);
    assert_eq!(board.count_consecutive(&outside, (0, 1), true), 1);
}

#[test]
fn open_count_takes_empties_along() {
    let mut board = Board::new(5, 5, 4);
    board.set_mark((2, 2), Mark::Ai);
    board.set_mark((4, 2), Mark::Ai);
    board.set_mark((0, 2), Mark::Player);
    let cell = *board.get_cell(2, 2);
    assert_eq!(board.count_consecutive(&cell, (0, 1), false), 5);
    assert_eq!(board.count_consecutive(&cell, (1, 0), false), 4);
    assert_eq!(board.count_consecutive(&cell, (1, 1), false), 5);
    assert_eq!(board.count_consecutive(&cell, (1, -1), false), 5);
    assert_eq!(board.count_consecutive(&cell, (0, 1), true), 1);
    assert_eq!(board.count_consecutive(&cell, (1, 0), true), 1);
}

#[test]
fn max_consecutive_is_the_longest_of_four() {
    let board = filled(&["O  O", "OO  ", "O O ", "   O"], 5);
    assert_eq!(board.max_consecutive(board.get_cell(0, 0)), 4);
    assert_eq!(board.max_consecutive(board.get_cell(1, 1)), 4);
    assert_eq!(board.max_consecutive(board.get_cell(0, 1)), 3);
    assert_eq!(board.max_consecutive(board.get_cell(3, 0)), 1);
    assert_eq!(board.max_consecutive(board.get_cell(1, 0)), 3);
    assert!(!board.check_for_win(board.get_cell(0, 0)));
    let enough = filled(&["O  O", "OO  ", "O O ", "   O"], 4);
    assert!(enough.check_for_win(enough.get_cell(0, 0)));
    assert!(!enough.check_for_win(enough.get_cell(0, 1)));
    assert!(!enough.check_for_win(enough.get_cell(3, 0)));
}

#[test]
fn walk_steps_to_the_edge_and_stays() {
    let board = filled(&["XO ", " X ", "O  "], 3);
    let mut walk = board.iter(board.get_cell(0, 0), (1, 1));
    assert_eq!(walk.size_hint(), (0, Some(9)));
    assert_eq!(walk.next(), Some(&Cell { x: 1, y: 1, mark: Mark::Player }));
    assert_eq!(walk.next(), Some(&Cell { x: 2, y: 2, mark: Mark::Empty }));
    assert_eq!(walk.next(), None);
    assert_eq!(walk.next(), None);
    assert_eq!(walk.next_back(), Some(&Cell { x: 1, y: 1, mark: Mark::Player }));
    assert_eq!(walk.next_back(), Some(&Cell { x: 0, y: 0, mark: Mark::Player }));
    assert_eq!(walk.next_back(), None);
    assert_eq!(walk.next(), Some(&Cell { x: 1, y: 1, mark: Mark::Player }));
}

#[test]
fn walk_against_a_rising_step() {
    let board = filled(&["  O", " X ", "O  "], 3);
    let mut walk = board.iter(board.get_cell(1, 1), (1, -1));
    assert_eq!(walk.next(), Some(&Cell { x: 2, y: 0, mark: Mark::Ai }));
    assert_eq!(walk.next(), None);
    let mut back = board.iter(board.get_cell(1, 1), (1, -1));
    assert_eq!(back.next_back(), Some(&Cell { x: 0, y: 2, mark: Mark::Ai }));
    assert_eq!(back.next_back(), None);
}

#[test]
fn walk_with_a_step_beyond_the_grid_finds_nothing() {
    let board = Board::new(3, 3, 3);
    let mut far = board.iter(board.get_cell(1, 1), (isize::MAX, 0));
    assert_eq!(far.next(), None);
    assert_eq!(far.next_back(), None);
    let mut low = board.iter(board.get_cell(1, 1), (isize::MIN, isize::MIN));
    assert_eq!(low.next(), None);
    assert_eq!(low.next_back(), None);
    let mut still = board.iter(board.get_cell(1, 1), (0, 0));
    assert_eq!(still.next_back(), Some(&Cell { x: 1, y: 1, mark: Mark::Empty }));
}

#[test]
fn clone_is_a_board_of_its_own() {
    let mut board = filled(&["XO ", " X ", "O  "], 3);
    let copy = board.clone();
    board.set_mark((2, 2), Mark::Player);
    assert_eq!(board.get_state(), BoardState::PlayerWins);
    assert_eq!(copy.get_state(), BoardState::InProgress);
    assert_eq!(copy.get_cell(2, 2).mark, Mark::Empty);
    assert_eq!(copy.get_cell(1, 1).mark, Mark::Player);
    assert_eq!(copy.get_num_rows(), 3);
    assert_eq!(copy.get_num_cols(), 3);
    assert_eq!(copy.get_k(), 3);
}
