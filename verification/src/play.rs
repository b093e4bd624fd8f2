//! One turn of a game against the engine, with its outcome as plain
//! numbers that any caller can pass on.

use vstd::prelude::*;
use crate::cell::Mark;
use crate::cell::BoardState;
use crate::model::BoardView;
use crate::model::lemma_index_of_square;
use crate::board::Board;
use crate::ai::Ai;
use crate::ai::Mode;
use crate::ai::scorable;

verus! {

/// The move was not legal; nothing was done.
pub const INVALID_MOVE: u32 = 0;

/// The first player has won.
pub const PLAYER_WINS: u32 = 1;

/// The engine has won.
pub const AI_WINS: u32 = 2;

/// The game is drawn.
pub const CATS_GAME: u32 = 3;

/// The game goes on.
pub const IN_PROGRESS: u32 = 4;

/// How deep the engine searches in a turn.
pub const TURN_PLIES: usize = 9;

/// The number that stands for a state.
pub open spec fn state_code(state: BoardState) -> u32 {
    match state {
        BoardState::PlayerWins => PLAYER_WINS,
        BoardState::AiWins => AI_WINS,
        BoardState::CatsGame => CATS_GAME,
        BoardState::InProgress => IN_PROGRESS,
    }
}

/// The number that stands for `state`.
pub fn const_for_boardstate(state: BoardState) -> (code: u32)
    ensures
        code == state_code(state),
{
    match state {
        BoardState::PlayerWins => PLAYER_WINS,
        BoardState::AiWins => AI_WINS,
        BoardState::CatsGame => CATS_GAME,
        BoardState::InProgress => IN_PROGRESS,
    }
}

/// What a turn came to.
#[derive(Clone, Copy, PartialEq, Eq, Debug)]
pub struct Turn {
    /// `INVALID_MOVE`, or the number of the state in which the turn left
    /// the game.
    pub status: u32,
    /// The square that the engine answered with, if it moved.
    pub reply: Option<(usize, usize)>,
}

/// The engine that answers in a turn: it searches with pruning, to the
/// depth of a whole game on three by three squares.
pub open spec fn engine() -> Ai {
    Ai::spec_new(Mode::AlphaBeta, TURN_PLIES)
}

/// The board and the outcome after the first player asks for column `x`,
/// row `y`. An illegal move changes nothing. A legal one is made; if the
/// game goes on after it, the engine answers with the move of its choice.
/// The status is the state after the last move made.
pub open spec fn turn_of(v: BoardView, x: int, y: int) -> (BoardView, Turn) {
    if !v.accepts(x, y) {
        (v, Turn { status: INVALID_MOVE, reply: None })
    } else {
        let played = v.place(x, y, Mark::Player);
        if played.state() != BoardState::InProgress {
            (played, Turn { status: state_code(played.state()), reply: None })
        } else {
            let reply = engine().choice(played);
            let answered = played.place(reply.0 as int, reply.1 as int, Mark::Ai);
            (answered, Turn { status: state_code(answered.state()), reply: Some(reply) })
        }
    }
}

/// Plays one turn on `board`: the first player's move to column `x`, row
/// `y`, and, where the game goes on, the engine's answer.
pub fn make_move(board: &mut Board, x: usize, y: usize) -> (turn: Turn)
    requires
        old(board).wf(),
        scorable(old(board)@),
    ensures
        final(board).wf(),
        (final(board)@, turn) == turn_of(old(board)@, x as int, y as int),
        final(board)@.marks.len() == old(board)@.marks.len(),
{
    let mv = (x, y);
    proof {
        board.lemma_wf_view();
    }
    if !board.check_valid_move(mv) {
        return Turn { status: INVALID_MOVE, reply: None };
    }
    board.set_mark(mv, Mark::Player);
    let const_state: u32 = const_for_boardstate(board.get_state());
    if const_state != IN_PROGRESS {
        return Turn { status: const_state, reply: None };
    }
    proof {
        board.lemma_wf_view();
        lemma_index_of_square(old(board)@, x as int, y as int);
    }
    let ai_move = Ai::new(Mode::AlphaBeta, TURN_PLIES).get_move(board);
    board.set_mark(ai_move, Mark::Ai);
    Turn { status: const_for_boardstate(board.get_state()), reply: Some(ai_move) }
}

} // verus!
