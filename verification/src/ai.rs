//! The engine that plays the second player's marks: it evaluates boards and
//! chooses its moves by searching the game tree.

use vstd::prelude::*;
use crate::cell::Mark;
use crate::cell::Cell;
use crate::cell::BoardState;
use crate::model::BoardView;
use crate::model::lemma_index_of_square;
use crate::model::lemma_listed_cell;
use crate::model::lemma_listed_cells_fit;
use crate::model::lemma_free_square_accepts;
use crate::model::lemma_free_square_exists;
use crate::model::lemma_run_within_grid;
use crate::board::Board;
use crate::minimax::MinimaxDelegate;
use crate::minimax::minimax;
use crate::minimax::minimax_alpha_beta;
use crate::minimax::minimax_move;
use crate::minimax::minimax_index;
use crate::minimax::minimax_score;
use crate::minimax::lemma_best_child_is_child;

verus! {

/// How the engine chooses its move.
#[derive(Clone, Copy, PartialEq, Eq, Structural, Debug)]
pub enum Mode {
    /// The first free square.
    Simple,
    /// The plain search of the game tree.
    Minimax,
    /// The pruned search of the game tree.
    AlphaBeta,
}

/// The engine: a way to choose moves and the depth to which it searches.
#[derive(Clone, Copy, Debug)]
pub struct Ai {
    mode: Mode,
    plies: usize,
}

/// The mark that is written at `depth`: the engine moves at even depths,
/// its opponent at odd ones.
pub open spec fn mover(depth: nat) -> Mark {
    if depth % 2 == 0 {
        Mark::Ai
    } else {
        Mark::Player
    }
}

/// The sum over the four axes of the open runs through a cell: the runs in
/// which empty squares count with the cell's mark.
pub open spec fn openness(v: BoardView, c: Cell) -> nat {
    v.run_length(c.x as int, c.y as int, 0, 1, c.mark, false) + v.run_length(
        c.x as int,
        c.y as int,
        1,
        0,
        c.mark,
        false,
    ) + v.run_length(c.x as int, c.y as int, 1, 1, c.mark, false) + v.run_length(
        c.x as int,
        c.y as int,
        1,
        -1,
        c.mark,
        false,
    )
}

/// What a cell adds to its side: a hundred for each square of its open
/// runs, if these together are long enough for a win, else nothing.
pub open spec fn cell_weight(v: BoardView, c: Cell) -> int {
    if openness(v, c) < v.k {
        0
    } else {
        (openness(v, c) * 100) as int
    }
}

/// What the cells add to their side together.
pub open spec fn cells_weight(v: BoardView, cells: Seq<Cell>) -> int
    decreases cells.len(),
{
    if cells.len() == 0 {
        0
    } else {
        cells_weight(v, cells.drop_last()) + cell_weight(v, cells.last())
    }
}

/// What all cells of a mark add to their side.
pub open spec fn side_weight(v: BoardView, mark: Mark) -> int {
    cells_weight(v, v.cells_with(mark))
}

/// The grid is small enough for the weights of a side to be summed in a
/// machine integer.
pub open spec fn scorable(v: BoardView) -> bool {
    400 * v.marks.len() * v.marks.len() <= isize::MAX
}

/// A depth as far as it changes a score.
pub open spec fn depth_bias(depth: nat) -> int {
    if depth > isize::MAX {
        isize::MAX as int
    } else {
        depth as int
    }
}

/// What a board is worth to the engine at `depth`. A win of the engine is
/// worth the largest score less the depth, so that the faster win is worth
/// more; a win of the opponent the smallest score plus the depth, so that
/// the slower loss is worth more; any other board the weight of the
/// engine's cells less that of the opponent's.
pub open spec fn worth(v: BoardView, depth: nat) -> int {
    match v.state() {
        BoardState::AiWins => isize::MAX - depth_bias(depth),
        BoardState::PlayerWins => isize::MIN + depth_bias(depth),
        _ => side_weight(v, Mark::Ai) - side_weight(v, Mark::Player),
    }
}

/// The weight of a cell of the grid is bounded by the size of the grid.
proof fn lemma_cell_weight_bounded(v: BoardView, c: Cell)
    requires
        v.wf(),
        v.on_board(c.x as int, c.y as int),
    ensures
        openness(v, c) <= 4 * v.marks.len(),
        0 <= cell_weight(v, c) <= 400 * v.marks.len(),
{
    lemma_run_within_grid(v, c.x as int, c.y as int, 0, 1, c.mark, false);
    lemma_run_within_grid(v, c.x as int, c.y as int, 1, 0, c.mark, false);
    lemma_run_within_grid(v, c.x as int, c.y as int, 1, 1, c.mark, false);
    lemma_run_within_grid(v, c.x as int, c.y as int, 1, -1, c.mark, false);
}

/// The weight of the first `n` cells listed for a mark is bounded by their
/// number and the size of the grid.
proof fn lemma_cells_weight_bounded(v: BoardView, mark: Mark, n: int)
    requires
        v.wf(),
        0 <= n <= v.cells_with(mark).len(),
    ensures
        0 <= cells_weight(v, v.cells_with(mark).take(n)) <= n * (400 * v.marks.len()),
    decreases n,
{
    let cells = v.cells_with(mark);
    if n > 0 {
        lemma_cells_weight_bounded(v, mark, n - 1);
        lemma_listed_cell(v, mark, n - 1);
        lemma_cell_weight_bounded(v, cells[n - 1]);
        assert(cells.take(n).drop_last() =~= cells.take(n - 1));
        assert((n - 1) * (400 * v.marks.len()) + 400 * v.marks.len() == n * (400 * v.marks.len()))
            by (nonlinear_arith);
    }
}

/// The weight of a side is bounded by the square of the size of the grid.
pub proof fn lemma_side_weight_at_most(v: BoardView, mark: Mark)
    requires
        v.wf(),
    ensures
        0 <= side_weight(v, mark) <= 400 * v.marks.len() * v.marks.len(),
{
    let cells = v.cells_with(mark);
    let n = cells.len() as int;
    let size = v.marks.len() as int;
    lemma_cells_weight_bounded(v, mark, n);
    lemma_listed_cells_fit(v, mark);
    assert(cells.take(n) =~= cells);
    assert(n * (400 * size) <= 400 * size * size) by (nonlinear_arith)
        requires
            0 <= n <= size,
    ;
}

/// On a grid that is small enough, the weight of a side fits a machine
/// integer.
pub proof fn lemma_side_weight_bounded(v: BoardView, mark: Mark)
    requires
        v.wf(),
        scorable(v),
    ensures
        0 <= side_weight(v, mark) <= isize::MAX,
{
    lemma_side_weight_at_most(v, mark);
}

/// On a grid that is small enough, what a board is worth fits a machine
/// integer.
pub proof fn lemma_worth_bounded(v: BoardView, depth: nat)
    requires
        v.wf(),
        scorable(v),
    ensures
        isize::MIN <= worth(v, depth) <= isize::MAX,
{
    lemma_side_weight_bounded(v, Mark::Ai);
    lemma_side_weight_bounded(v, Mark::Player);
}

/// The sooner a game is won, the more the win is worth; the later it is
/// lost, the more the loss is worth.
pub proof fn lemma_depth_biases_decided_games(v: BoardView, sooner: nat, later: nat)
    requires
        sooner < later <= isize::MAX,
    ensures
        v.state() == BoardState::AiWins ==> worth(v, sooner) > worth(v, later),
        v.state() == BoardState::PlayerWins ==> worth(v, sooner) < worth(v, later),
{
}

/// A decided game outweighs every undecided one: at depths that leave room
/// above the weights of a grid, a win is worth more and a loss less than
/// any board of that size on which nobody has just won.
pub proof fn lemma_decided_game_outweighs(won: BoardView, lost: BoardView, open: BoardView, depth: nat)
    requires
        open.wf(),
        scorable(open),
        won.state() == BoardState::AiWins,
        lost.state() == BoardState::PlayerWins,
        open.state() != BoardState::AiWins,
        open.state() != BoardState::PlayerWins,
        depth + 400 * open.marks.len() * open.marks.len() < isize::MAX,
    ensures
        forall|d: nat| worth(lost, depth) < #[trigger] worth(open, d) < worth(won, depth),
{
    lemma_side_weight_at_most(open, Mark::Ai);
    lemma_side_weight_at_most(open, Mark::Player);
}

/// Whether the grid of `board` is small enough for the engine to evaluate
/// it.
pub fn is_scorable(board: &Board) -> (yes: bool)
    requires
        board.wf(),
    ensures
        yes == scorable(board@),
{
    proof {
        board.lemma_wf_view();
    }
    let size: usize = board.get_num_rows() * board.get_num_cols();
    let limit: usize = (isize::MAX as usize) / 400;
    if size == 0 {
        return true;
    }
    let yes = size <= limit / size;
    proof {
        let s = size as int;
        let l = limit as int;
        let q = l / s;
        vstd::arithmetic::div_mod::lemma_fundamental_div_mod(l, s);
        vstd::arithmetic::div_mod::lemma_fundamental_div_mod(isize::MAX as int, 400);
        if s <= q {
            assert(s * s <= q * s) by (nonlinear_arith)
                requires
                    0 < s <= q,
            ;
            assert(400 * s * s <= isize::MAX) by (nonlinear_arith)
                requires
                    s * s <= l,
                    400 * l <= isize::MAX,
            ;
        } else {
            assert(s * s >= (q + 1) * s) by (nonlinear_arith)
                requires
                    s >= q + 1,
                    s > 0,
            ;
            assert((q + 1) * s == q * s + s) by (nonlinear_arith);
            assert(400 * s * s > isize::MAX) by (nonlinear_arith)
                requires
                    s * s >= l + 1,
                    400 * (l + 1) > isize::MAX,
            ;
        }
    }
    yes
}

/// The sum over the four axes of the open runs through `cell`.
fn cell_count(board: &Board, cell: &Cell) -> (count: usize)
    requires
        board.wf(),
        board@.on_board(cell.x as int, cell.y as int),
        scorable(board@),
    ensures
        count == openness(board@, *cell),
        count <= 4 * board@.marks.len(),
{
    proof {
        board.lemma_wf_view();
        let size = board@.marks.len() as int;
        assert(4 * size <= 400 * size * size) by (nonlinear_arith)
            requires
                0 <= size,
        ;
        lemma_run_within_grid(board@, cell.x as int, cell.y as int, 0, 1, cell.mark, false);
        lemma_run_within_grid(board@, cell.x as int, cell.y as int, 1, 0, cell.mark, false);
        lemma_run_within_grid(board@, cell.x as int, cell.y as int, 1, 1, cell.mark, false);
        lemma_run_within_grid(board@, cell.x as int, cell.y as int, 1, -1, cell.mark, false);
    }
    let down: usize = board.count_consecutive(cell, (0, 1), false);
    let across: usize = board.count_consecutive(cell, (1, 0), false);
    let falling: usize = board.count_consecutive(cell, (1, 1), false);
    let rising: usize = board.count_consecutive(cell, (1, -1), false);
    down + across + falling + rising
}

/// What all cells of `mark` add to their side.
fn side_score(board: &Board, mark: Mark) -> (score: isize)
    requires
        board.wf(),
        scorable(board@),
    ensures
        score == side_weight(board@, mark),
{
    let ghost v = board@;
    let ghost size = v.marks.len() as int;
    let cells = board.cells_with_mark(mark);
    let ghost listed = cells@.map_values(|c: &Cell| *c);
    let k: usize = board.get_k();
    let mut score: isize = 0;
    let mut i: usize = 0;
    proof {
        board.lemma_wf_view();
        lemma_listed_cells_fit(v, mark);
    }
    while i < cells.len()
        invariant
            board.wf(),
            v == board@,
            v.wf(),
            scorable(v),
            size == v.marks.len(),
            k == v.k,
            listed == cells@.map_values(|c: &Cell| *c),
            listed == v.cells_with(mark),
            listed.len() <= size,
            0 <= i <= cells@.len(),
            score == cells_weight(v, listed.take(i as int)),
        decreases cells@.len() - i,
    {
        let cell: &Cell = cells[i];
        proof {
            lemma_listed_cell(v, mark, i as int);
            lemma_cells_weight_bounded(v, mark, i as int);
            lemma_cells_weight_bounded(v, mark, i + 1);
            assert(listed.take(i + 1).drop_last() =~= listed.take(i as int));
            assert((i + 1) * (400 * size) <= 400 * size * size) by (nonlinear_arith)
                requires
                    0 <= i + 1 <= size,
            ;
        }
        let count: usize = cell_count(board, cell);
        let weight: isize = if count < k {
            0
        } else {
            count as isize * 100
        };
        score = score + weight;
        i = i + 1;
    }
    assert(listed.take(i as int) =~= listed);
    score
}

impl Ai {
    /// How the engine chooses its move.
    pub closed spec fn spec_mode(&self) -> Mode {
        self.mode
    }

    /// The engine that chooses in the way of `mode` and searches `plies`
    /// levels deep.
    pub closed spec fn spec_new(mode: Mode, plies: usize) -> Ai {
        Ai { mode, plies }
    }

    /// The engine of a mode and a depth has that mode and that depth.
    pub proof fn lemma_spec_new(mode: Mode, plies: usize)
        ensures
            Ai::spec_new(mode, plies).spec_mode() == mode,
            Ai::spec_new(mode, plies).plies() == plies,
    {
    }

    /// An engine that chooses in the way of `mode` and searches `plies`
    /// levels deep.
    pub fn new(mode: Mode, plies: usize) -> (ai: Ai)
        ensures
            ai == Ai::spec_new(mode, plies),
            ai.spec_mode() == mode,
            ai.plies() == plies,
    {
        Ai { mode, plies }
    }

    /// The square that the engine chooses on `board`, on which it is to
    /// move: the first free square in the simple mode; else the move that
    /// minimax chooses, whichever of the two searches looks for it.
    pub open spec fn choice(&self, v: BoardView) -> (usize, usize) {
        match self.spec_mode() {
            Mode::Simple => v.free_squares()[0],
            _ => minimax_move(self, v, 0),
        }
    }

    /// The engine's move on `board`. The board is left as it is: the search
    /// works on a copy.
    pub fn get_move(&self, board: &Board) -> (mv: (usize, usize))
        requires
            board.wf(),
            !board@.is_full(),
            self.spec_mode() != Mode::Simple ==> scorable(board@),
        ensures
            mv == self.choice(board@),
            board@.accepts(mv.0 as int, mv.1 as int),
    {
        match self.mode {
            Mode::Simple => self.simple(board),
            Mode::Minimax => self.minimax(board),
            Mode::AlphaBeta => self.alpha_beta(board),
        }
    }

    /// The score of the square that the engine chooses on `board`: in the
    /// simple mode what the board is worth once the engine has moved there;
    /// else the score that minimax gives the move.
    pub open spec fn choice_score(&self, v: BoardView) -> int {
        match self.spec_mode() {
            Mode::Simple => worth(
                v.place(v.free_squares()[0].0 as int, v.free_squares()[0].1 as int, Mark::Ai),
                1,
            ),
            _ => minimax_score(self, v, 0),
        }
    }

    /// The engine's move on `board` with its score, found in the way of
    /// the engine's mode. The board is left as it is: the search works on a
    /// copy.
    pub fn run_search(&self, board: &Board) -> (found: ((usize, usize), isize))
        requires
            board.wf(),
            !board@.is_full(),
            scorable(board@),
        ensures
            found.0 == self.choice(board@),
            found.1 == self.choice_score(board@),
            board@.accepts(found.0.0 as int, found.0.1 as int),
    {
        proof {
            board.lemma_wf_view();
            lemma_free_square_exists(board@);
            lemma_best_child_is_child(self, board@, 0, board@.free_squares().len() as int);
            lemma_free_square_accepts(board@, minimax_index(self, board@, 0));
            lemma_free_square_accepts(board@, 0);
        }
        let mut scrap_board = board.clone();
        match self.mode {
            Mode::Simple => {
                let mv = self.simple(board);
                proof {
                    lemma_index_of_square(board@, mv.0 as int, mv.1 as int);
                    lemma_worth_bounded(board@.place(mv.0 as int, mv.1 as int, Mark::Ai), 1);
                }
                scrap_board.set_mark(mv, Mark::Ai);
                (mv, self.score(&mut scrap_board, 1))
            },
            Mode::Minimax => minimax(self, &mut scrap_board, 0),
            Mode::AlphaBeta => minimax_alpha_beta(self, &mut scrap_board),
        }
    }

    /// The first free square of `board`.
    pub fn simple(&self, board: &Board) -> (mv: (usize, usize))
        requires
            board.wf(),
            !board@.is_full(),
        ensures
            mv == board@.free_squares()[0],
            board@.accepts(mv.0 as int, mv.1 as int),
    {
        proof {
            board.lemma_wf_view();
            lemma_free_square_exists(board@);
            lemma_free_square_accepts(board@, 0);
        }
        let cells = board.cells_with_mark(Mark::Empty);
        let cell: &Cell = cells[0];
        (cell.x, cell.y)
    }

    /// The move that the plain search chooses on `board`.
    pub fn minimax(&self, board: &Board) -> (mv: (usize, usize))
        requires
            board.wf(),
            !board@.is_full(),
            scorable(board@),
        ensures
            mv == minimax_move(self, board@, 0),
            board@.accepts(mv.0 as int, mv.1 as int),
    {
        proof {
            board.lemma_wf_view();
            lemma_free_square_exists(board@);
            lemma_best_child_is_child(self, board@, 0, board@.free_squares().len() as int);
            lemma_free_square_accepts(board@, minimax_index(self, board@, 0));
        }
        let mut scrap_board = board.clone();
        let chosen = minimax(self, &mut scrap_board, 0);
        chosen.0
    }

    /// The move that the pruned search chooses on `board`: that of the
    /// plain search.
    pub fn alpha_beta(&self, board: &Board) -> (mv: (usize, usize))
        requires
            board.wf(),
            !board@.is_full(),
            scorable(board@),
        ensures
            mv == minimax_move(self, board@, 0),
            board@.accepts(mv.0 as int, mv.1 as int),
    {
        proof {
            board.lemma_wf_view();
            lemma_free_square_exists(board@);
            lemma_best_child_is_child(self, board@, 0, board@.free_squares().len() as int);
            lemma_free_square_accepts(board@, minimax_index(self, board@, 0));
        }
        let mut scrap_board = board.clone();
        let chosen = minimax_alpha_beta(self, &mut scrap_board);
        chosen.0
    }
}

/// The game as the search sees it: the states are boards, the moves are
/// free squares, and the engine and its opponent write their marks in turn.
impl MinimaxDelegate<Board, (usize, usize)> for Ai {
    /// A board can be handed over when it is well-formed.
    open spec fn valid(&self, state: Board) -> bool {
        state.wf()
    }

    /// A board can be searched when it is well-formed and small enough to
    /// be evaluated.
    open spec fn admissible(&self, pos: BoardView, depth: nat) -> bool {
        pos.wf() && scorable(pos)
    }

    /// The moves are the free squares, in row-major order.
    open spec fn moves(&self, pos: BoardView, depth: nat) -> Seq<(usize, usize)> {
        pos.free_squares()
    }

    /// A move writes the mark of the side that moves at `depth`.
    open spec fn after(&self, pos: BoardView, mv: (usize, usize), depth: nat) -> BoardView {
        pos.place(mv.0 as int, mv.1 as int, mover(depth))
    }

    /// Boards are alike when they have the same grid; the cell that they
    /// remember as changed last may differ.
    open spec fn alike(&self, a: BoardView, b: BoardView) -> bool {
        a.wf() && b.wf() && a.same_grid(b)
    }

    /// The game goes on while the board says that it is in progress.
    open spec fn continues(&self, pos: BoardView, depth: nat) -> bool {
        pos.state() == BoardState::InProgress
    }

    /// What the board is worth to the engine.
    open spec fn value(&self, pos: BoardView, depth: nat) -> isize {
        worth(pos, depth) as isize
    }

    /// The engine, which maximizes, moves at even depths.
    open spec fn maximizing(&self, pos: BoardView, depth: nat) -> bool {
        depth % 2 == 0
    }

    /// The depth that the engine was made with.
    closed spec fn plies(&self) -> nat {
        self.plies as nat
    }

    proof fn lemma_alike_reflexive(&self, pos: BoardView, depth: nat) {
    }

    proof fn lemma_alike_plays_alike(&self, a: BoardView, b: BoardView, depth: nat) {
        assert(a.cells() =~= b.cells());
    }

    proof fn lemma_move_keeps_admissible(&self, pos: BoardView, mv: (usize, usize), depth: nat) {
        let i = choose|i: int| 0 <= i < pos.free_squares().len() && pos.free_squares()[i] == mv;
        lemma_free_square_accepts(pos, i);
        lemma_index_of_square(pos, mv.0 as int, mv.1 as int);
    }

    proof fn lemma_continuing_has_moves(&self, pos: BoardView, mv: (usize, usize), depth: nat) {
        let i = choose|i: int| 0 <= i < pos.free_squares().len() && pos.free_squares()[i] == mv;
        lemma_free_square_accepts(pos, i);
        lemma_index_of_square(pos, mv.0 as int, mv.1 as int);
        let next = pos.place(mv.0 as int, mv.1 as int, mover(depth));
        lemma_free_square_exists(next);
    }

    fn possible_moves(&self, current_state: &mut Board, depth: usize) -> (moves: Vec<
        (usize, usize),
    >) {
        let cells = current_state.cells_with_mark(Mark::Empty);
        let ghost listed = cells@.map_values(|c: &Cell| *c);
        let mut moves: Vec<(usize, usize)> = Vec::new();
        let mut i: usize = 0;
        while i < cells.len()
            invariant
                0 <= i <= cells@.len(),
                listed == cells@.map_values(|c: &Cell| *c),
                moves@ == listed.take(i as int).map_values(|c: Cell| (c.x, c.y)),
            decreases cells@.len() - i,
        {
            let cell: &Cell = cells[i];
            moves.push((cell.x, cell.y));
            i = i + 1;
        }
        moves
    }

    fn do_move(&self, board: &mut Board, mv: &(usize, usize), depth: usize) {
        proof {
            let v = board@;
            let i = choose|i: int| 0 <= i < v.free_squares().len() && v.free_squares()[i] == *mv;
            lemma_free_square_accepts(v, i);
        }
        let mark_type = if self.shouldMaximize(board, depth) {
            Mark::Ai
        } else {
            Mark::Player
        };
        board.set_mark(*mv, mark_type);
    }

    fn should_continue(&self, board: &mut Board, depth: usize) -> (goes_on: bool) {
        match board.get_state() {
            BoardState::PlayerWins | BoardState::AiWins | BoardState::CatsGame => false,
            _ => true,
        }
    }

    fn undo_move(&self, board: &mut Board, mv: &(usize, usize), depth: usize)
        ensures
            final(board)@ == old(board)@.place(mv.0 as int, mv.1 as int, Mark::Empty),
    {
        let ghost later = board@;
        proof {
            board.lemma_wf_view();
            let before = choose|before: BoardView|
                self.admissible(before, depth as nat) && self.moves(before, depth as nat).contains(
                    *mv,
                ) && self.alike(later, #[trigger] self.after(before, *mv, depth as nat));
            let i = choose|i: int|
                0 <= i < before.free_squares().len() && before.free_squares()[i] == *mv;
            lemma_free_square_accepts(before, i);
        }
        board.set_mark(*mv, Mark::Empty);
        proof {
            board.lemma_wf_view();
            assert forall|before: BoardView|
                self.admissible(before, depth as nat) && self.moves(before, depth as nat).contains(
                    *mv,
                ) && self.alike(
                    later,
                    #[trigger] self.after(before, *mv, depth as nat),
                ) implies self.alike(board@, before) by {
                let i = choose|i: int|
                    0 <= i < before.free_squares().len() && before.free_squares()[i] == *mv;
                lemma_free_square_accepts(before, i);
                lemma_index_of_square(before, mv.0 as int, mv.1 as int);
                assert(board@.marks =~= before.marks);
            }
        }
    }

    fn score(&self, board: &mut Board, depth: usize) -> (worth: isize) {
        let bias: isize = if depth > isize::MAX as usize {
            isize::MAX
        } else {
            depth as isize
        };
        match board.get_state() {
            BoardState::AiWins => {
                return isize::MAX - bias;
            },
            BoardState::PlayerWins => {
                return isize::MIN + bias;
            },
            _ => (),
        }
        proof {
            board.lemma_wf_view();
            lemma_side_weight_bounded(board@, Mark::Ai);
            lemma_side_weight_bounded(board@, Mark::Player);
        }
        let mut score: isize = 0;
        score = score + side_score(board, Mark::Ai);
        score = score - side_score(board, Mark::Player);
        score
    }

    #[allow(non_snake_case)]
    fn shouldMaximize(&self, board: &mut Board, depth: usize) -> (maximize: bool) {
        depth % 2 == 0
    }

    fn max_plies(&self) -> (plies: usize) {
        self.plies
    }
}

} // verus!
