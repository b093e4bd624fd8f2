//! The mathematical model of a board: a row-major sequence of marks with
//! its dimensions, the run length that wins, and the cell changed last.
//! Every contract of the crate that speaks of a board speaks of this model.

use vstd::prelude::*;
use vstd::arithmetic::div_mod::lemma_fundamental_div_mod;
use vstd::arithmetic::div_mod::lemma_fundamental_div_mod_converse;
use crate::cell::Mark;
use crate::cell::Cell;
use crate::cell::BoardState;

verus! {

/// The content of a board as plain mathematics.
pub struct BoardView {
    /// Number of rows.
    pub rows: nat,
    /// Number of columns.
    pub cols: nat,
    /// Length of a run that wins.
    pub k: nat,
    /// The marks, row after row.
    pub marks: Seq<Mark>,
    /// Index of the cell that was written last, if any was.
    pub last: Option<nat>,
}

impl BoardView {
    /// The grid has `rows * cols` marks, few enough to be held in memory,
    /// and the last change lies on it.
    pub open spec fn wf(self) -> bool {
        &&& self.marks.len() == self.rows * self.cols
        &&& self.marks.len() <= isize::MAX
        &&& self.rows <= usize::MAX
        &&& self.cols <= usize::MAX
        &&& self.k <= usize::MAX
        &&& (self.last matches Some(i) ==> i < self.marks.len())
    }

    /// The board before any move.
    pub open spec fn blank(rows: nat, cols: nat, k: nat) -> BoardView {
        BoardView { rows, cols, k, marks: Seq::new(rows * cols, |i: int| Mark::Empty), last: None }
    }

    /// Column `x`, row `y` is a square of the grid.
    pub open spec fn on_board(self, x: int, y: int) -> bool {
        0 <= x < self.cols && 0 <= y < self.rows
    }

    /// Place of column `x`, row `y` in the row-major order.
    pub open spec fn index(self, x: int, y: int) -> int {
        y * self.cols + x
    }

    /// The mark at column `x`, row `y`.
    pub open spec fn mark_at(self, x: int, y: int) -> Mark {
        self.marks[self.index(x, y)]
    }

    /// The cell at place `i` of the row-major order.
    pub open spec fn cell(self, i: int) -> Cell {
        Cell { x: (i % self.cols as int) as usize, y: (i / self.cols as int) as usize, mark: self.marks[i] }
    }

    /// The cell at column `x`, row `y`.
    pub open spec fn cell_at(self, x: int, y: int) -> Cell {
        Cell { x: x as usize, y: y as usize, mark: self.mark_at(x, y) }
    }

    /// All cells in row-major order.
    pub open spec fn cells(self) -> Seq<Cell> {
        Seq::new(self.marks.len(), |i: int| self.cell(i))
    }

    /// The cells that hold `mark`, in row-major order.
    pub open spec fn cells_with(self, mark: Mark) -> Seq<Cell> {
        self.cells().filter(|c: Cell| c.mark == mark)
    }

    /// The board after `mark` was written at column `x`, row `y`.
    pub open spec fn place(self, x: int, y: int, mark: Mark) -> BoardView {
        BoardView {
            marks: self.marks.update(self.index(x, y), mark),
            last: Some(self.index(x, y) as nat),
            ..self
        }
    }

    /// A move to column `x`, row `y` is legal: the square exists and is empty.
    pub open spec fn accepts(self, x: int, y: int) -> bool {
        self.on_board(x, y) && self.mark_at(x, y) == Mark::Empty
    }

    /// The squares that a move can go to: column and row of each empty
    /// cell, in row-major order.
    pub open spec fn free_squares(self) -> Seq<(usize, usize)> {
        self.cells_with(Mark::Empty).map_values(|c: Cell| (c.x, c.y))
    }

    /// The two boards have the same dimensions, the same winning length and
    /// the same marks; the cell changed last may differ.
    pub open spec fn same_grid(self, other: BoardView) -> bool {
        &&& self.rows == other.rows
        &&& self.cols == other.cols
        &&& self.k == other.k
        &&& self.marks == other.marks
    }

    /// No square is empty.
    pub open spec fn is_full(self) -> bool {
        forall|i: int| 0 <= i < self.marks.len() ==> self.marks[i] != Mark::Empty
    }

    /// A square that holds `found` continues a run of `wanted`; an empty
    /// square does so too unless empties break runs.
    pub open spec fn fits(found: Mark, wanted: Mark, break_on_empty: bool) -> bool {
        found == wanted || (!break_on_empty && found == Mark::Empty)
    }

    /// How many squares lie from column `x`, row `y` to the edge of the grid
    /// along `(dx, dy)`, the square itself included; 0 off the grid.
    pub open spec fn room(self, x: int, y: int, dx: int, dy: int) -> nat {
        if !self.on_board(x, y) {
            0
        } else if dx > 0 {
            (self.cols - x) as nat
        } else if dx < 0 {
            (x + 1) as nat
        } else if dy > 0 {
            (self.rows - y) as nat
        } else if dy < 0 {
            (y + 1) as nat
        } else {
            0
        }
    }

    /// How many squares in a row continue a run of `mark`, walking from
    /// column `x`, row `y` in steps of `(dx, dy)`, the start not counted.
    pub open spec fn reach(
        self,
        x: int,
        y: int,
        dx: int,
        dy: int,
        mark: Mark,
        break_on_empty: bool,
    ) -> nat
        decreases self.room(x + dx, y + dy, dx, dy),
    {
        if (dx != 0 || dy != 0) && self.on_board(x + dx, y + dy) && Self::fits(
            self.mark_at(x + dx, y + dy),
            mark,
            break_on_empty,
        ) {
            1 + self.reach(x + dx, y + dy, dx, dy, mark, break_on_empty)
        } else {
            0
        }
    }

    /// Length of the run of `mark` through column `x`, row `y` along the
    /// axis of `(dx, dy)`: the square itself and what continues it on
    /// both sides.
    pub open spec fn run_length(
        self,
        x: int,
        y: int,
        dx: int,
        dy: int,
        mark: Mark,
        break_on_empty: bool,
    ) -> nat {
        1 + self.reach(x, y, dx, dy, mark, break_on_empty) + self.reach(
            x,
            y,
            -dx,
            -dy,
            mark,
            break_on_empty,
        )
    }

    /// The longest unbroken run of `mark` through column `x`, row `y` over
    /// the four axes.
    pub open spec fn longest_run(self, x: int, y: int, mark: Mark) -> nat {
        let down = self.run_length(x, y, 0, 1, mark, true);
        let across = self.run_length(x, y, 1, 0, mark, true);
        let falling = self.run_length(x, y, 1, 1, mark, true);
        let rising = self.run_length(x, y, 1, -1, mark, true);
        larger(larger(down, across), larger(falling, rising))
    }

    /// How the game stands, judged from column `x`, row `y` and the `mark`
    /// there. It is in progress if the mark is the empty one; else the mark
    /// has won if it lies in a run of `k`; else the game is drawn if no
    /// square is empty; else it is in progress.
    pub open spec fn judged(self, x: int, y: int, mark: Mark) -> BoardState {
        if mark == Mark::Empty {
            BoardState::InProgress
        } else if self.longest_run(x, y, mark) >= self.k {
            if mark == Mark::Player {
                BoardState::PlayerWins
            } else {
                BoardState::AiWins
            }
        } else if self.is_full() {
            BoardState::CatsGame
        } else {
            BoardState::InProgress
        }
    }

    /// How the game stands. It is in progress while nothing was written;
    /// else it is judged from the cell that was written last.
    pub open spec fn state(self) -> BoardState {
        match self.last {
            None => BoardState::InProgress,
            Some(i) => {
                let c = self.cell(i as int);
                self.judged(c.x as int, c.y as int, c.mark)
            },
        }
    }
}

/// The larger of two numbers.
pub open spec fn larger(a: nat, b: nat) -> nat {
    if a >= b {
        a
    } else {
        b
    }
}

/// The square `j` steps of `(dx, dy)` from column `x`, row `y` lies on the
/// grid and holds `mark`.
pub open spec fn in_run(v: BoardView, x: int, y: int, dx: int, dy: int, j: int, mark: Mark) -> bool {
    v.on_board(x + j * dx, y + j * dy) && v.mark_at(x + j * dx, y + j * dy) == mark
}

/// The squares from step `lo` to step `hi` along `(dx, dy)`, counted from
/// column `x`, row `y`, are a run of `mark` that cannot be extended: each of
/// them holds `mark`, and the squares just beyond its two ends do not.
pub open spec fn is_maximal_run(
    v: BoardView,
    x: int,
    y: int,
    dx: int,
    dy: int,
    mark: Mark,
    lo: int,
    hi: int,
) -> bool {
    &&& lo <= 0 <= hi
    &&& forall|j: int| lo <= j <= hi ==> in_run(v, x, y, dx, dy, j, mark)
    &&& !in_run(v, x, y, dx, dy, lo - 1, mark)
    &&& !in_run(v, x, y, dx, dy, hi + 1, mark)
}

/// A square of the grid has a place in the row-major order, and that place
/// gives the square back.
pub proof fn lemma_index_of_square(v: BoardView, x: int, y: int)
    requires
        v.wf(),
        v.on_board(x, y),
    ensures
        0 <= v.index(x, y) < v.marks.len(),
        v.index(x, y) % (v.cols as int) == x,
        v.index(x, y) / (v.cols as int) == y,
        v.cell(v.index(x, y)) == v.cell_at(x, y),
{
    let c = v.cols as int;
    let r = v.rows as int;
    assert(y * c + x < r * c) by (nonlinear_arith)
        requires
            0 <= x < c,
            0 <= y < r,
    ;
    lemma_fundamental_div_mod_converse(y * c + x, c, y, x);
}

/// A place in the row-major order is a square of the grid, and that square
/// has the place as its index.
pub proof fn lemma_square_of_index(v: BoardView, i: int)
    requires
        v.wf(),
        0 <= i < v.marks.len(),
    ensures
        v.on_board(i % (v.cols as int), i / (v.cols as int)),
        v.index(i % (v.cols as int), i / (v.cols as int)) == i,
        v.cell(i) == v.cell_at(i % (v.cols as int), i / (v.cols as int)),
{
    let c = v.cols as int;
    let r = v.rows as int;
    assert(c > 0) by (nonlinear_arith)
        requires
            0 <= i < r * c,
            0 <= c,
    ;
    lemma_fundamental_div_mod(i, c);
    let q = i / c;
    let m = i % c;
    assert(0 <= q < r) by (nonlinear_arith)
        requires
            0 <= i < r * c,
            i == q * c + m,
            0 <= m < c,
    ;
}

/// A cell that is listed for a mark is the cell of a square of the grid,
/// and the square holds the mark.
pub proof fn lemma_listed_cell(v: BoardView, mark: Mark, i: int)
    requires
        v.wf(),
        0 <= i < v.cells_with(mark).len(),
    ensures
        ({
            let c = v.cells_with(mark)[i];
            &&& v.on_board(c.x as int, c.y as int)
            &&& c.mark == mark
            &&& c == v.cell_at(c.x as int, c.y as int)
        }),
{
    let keep = |c: Cell| c.mark == mark;
    let all = v.cells();
    let c = all.filter(keep)[i];
    all.lemma_filter_pred(keep, i);
    all.lemma_filter_contains_rev(keep, c);
    let j = choose|j: int| 0 <= j < all.len() && all[j] == c;
    lemma_square_of_index(v, j);
}

/// No more cells are listed for a mark than the grid has.
pub proof fn lemma_listed_cells_fit(v: BoardView, mark: Mark)
    ensures
        v.cells_with(mark).len() <= v.marks.len(),
{
    v.cells().lemma_filter_len(|c: Cell| c.mark == mark);
}

/// The grid is full exactly when no cell holds the empty mark.
pub proof fn lemma_no_empty_cells_is_full(v: BoardView)
    requires
        v.wf(),
    ensures
        v.is_full() <==> v.cells_with(Mark::Empty).len() == 0,
{
    let keep = |c: Cell| c.mark == Mark::Empty;
    let all = v.cells();
    if v.is_full() {
        if all.filter(keep).len() > 0 {
            let c = all.filter(keep)[0];
            all.lemma_filter_pred(keep, 0);
            all.lemma_filter_contains_rev(keep, c);
        }
    } else {
        let i = choose|i: int| 0 <= i < v.marks.len() && v.marks[i] == Mark::Empty;
        all.lemma_filter_contains(keep, i);
    }
}

/// Every free square is a legal move.
pub proof fn lemma_free_square_accepts(v: BoardView, i: int)
    requires
        v.wf(),
        0 <= i < v.free_squares().len(),
    ensures
        v.accepts(v.free_squares()[i].0 as int, v.free_squares()[i].1 as int),
{
    lemma_listed_cell(v, Mark::Empty, i);
}

/// A grid is full exactly when it has no free square.
pub proof fn lemma_free_square_exists(v: BoardView)
    requires
        v.wf(),
    ensures
        v.is_full() <==> v.free_squares().len() == 0,
{
    lemma_no_empty_cells_is_full(v);
}

/// A walk cannot continue a run beyond the edge of the grid.
proof fn lemma_reach_within_room(
    v: BoardView,
    x: int,
    y: int,
    dx: int,
    dy: int,
    mark: Mark,
    break_on_empty: bool,
)
    ensures
        v.reach(x, y, dx, dy, mark, break_on_empty) <= v.room(x + dx, y + dy, dx, dy),
    decreases v.room(x + dx, y + dy, dx, dy),
{
    if (dx != 0 || dy != 0) && v.on_board(x + dx, y + dy) && BoardView::fits(
        v.mark_at(x + dx, y + dy),
        mark,
        break_on_empty,
    ) {
        lemma_reach_within_room(v, x + dx, y + dy, dx, dy, mark, break_on_empty);
    }
}

/// A run is no longer than the grid has squares.
pub proof fn lemma_reach_within_grid(
    v: BoardView,
    x: int,
    y: int,
    dx: int,
    dy: int,
    mark: Mark,
    break_on_empty: bool,
)
    requires
        v.wf(),
    ensures
        v.reach(x, y, dx, dy, mark, break_on_empty) <= v.marks.len(),
{
    lemma_reach_within_room(v, x, y, dx, dy, mark, break_on_empty);
    if v.on_board(x + dx, y + dy) {
        let r = v.rows as int;
        let c = v.cols as int;
        assert(r <= r * c && c <= r * c) by (nonlinear_arith)
            requires
                r >= 1,
                c >= 1,
        ;
    }
}

/// A run through a square of the grid is no longer than the grid has
/// squares.
pub proof fn lemma_run_within_grid(
    v: BoardView,
    x: int,
    y: int,
    dx: int,
    dy: int,
    mark: Mark,
    break_on_empty: bool,
)
    requires
        v.wf(),
        v.on_board(x, y),
    ensures
        v.run_length(x, y, dx, dy, mark, break_on_empty) <= v.marks.len(),
{
    lemma_reach_within_room(v, x, y, dx, dy, mark, break_on_empty);
    lemma_reach_within_room(v, x, y, -dx, -dy, mark, break_on_empty);
    let r = v.rows as int;
    let c = v.cols as int;
    assert(r <= r * c && c <= r * c) by (nonlinear_arith)
        requires
            r >= 1,
            c >= 1,
    ;
}

/// The squares that a walk counts hold the mark, and the first one that it
/// does not count is off the grid or holds another mark.
proof fn lemma_reach_is_run(v: BoardView, x: int, y: int, dx: int, dy: int, mark: Mark)
    requires
        dx != 0 || dy != 0,
    ensures
        forall|j: int|
            1 <= j <= v.reach(x, y, dx, dy, mark, true) ==> in_run(v, x, y, dx, dy, j, mark),
        !in_run(v, x, y, dx, dy, v.reach(x, y, dx, dy, mark, true) as int + 1, mark),
    decreases v.room(x + dx, y + dy, dx, dy),
{
    let n = v.reach(x, y, dx, dy, mark, true) as int;
    assert(1 * dx == dx && 1 * dy == dy);
    if v.on_board(x + dx, y + dy) && v.mark_at(x + dx, y + dy) == mark {
        lemma_reach_is_run(v, x + dx, y + dy, dx, dy, mark);
        assert forall|j: int| 1 <= j <= n implies in_run(v, x, y, dx, dy, j, mark) by {
            if j > 1 {
                assert(in_run(v, x + dx, y + dy, dx, dy, j - 1, mark));
                assert(x + dx + (j - 1) * dx == x + j * dx && y + dy + (j - 1) * dy == y + j * dy)
                    by (nonlinear_arith);
            }
        }
        assert(x + dx + n * dx == x + (n + 1) * dx && y + dy + n * dy == y + (n + 1) * dy)
            by (nonlinear_arith);
    }
}

/// The count along an axis is the length of the one maximal run: where
/// column `x`, row `y` holds `mark`, the squares that the two walks count,
/// with the square between them, are a run that cannot be extended, and
/// every such run through the square has the counted length.
pub proof fn lemma_count_is_maximal_run(v: BoardView, x: int, y: int, dx: int, dy: int, mark: Mark)
    requires
        v.on_board(x, y),
        v.mark_at(x, y) == mark,
        dx != 0 || dy != 0,
    ensures
        is_maximal_run(
            v,
            x,
            y,
            dx,
            dy,
            mark,
            -(v.reach(x, y, -dx, -dy, mark, true) as int),
            v.reach(x, y, dx, dy, mark, true) as int,
        ),
        forall|lo: int, hi: int| #[trigger]
            is_maximal_run(v, x, y, dx, dy, mark, lo, hi) ==> v.run_length(
                x,
                y,
                dx,
                dy,
                mark,
                true,
            ) == hi - lo + 1,
{
    let ahead = v.reach(x, y, dx, dy, mark, true) as int;
    let behind = v.reach(x, y, -dx, -dy, mark, true) as int;
    lemma_reach_is_run(v, x, y, dx, dy, mark);
    lemma_reach_is_run(v, x, y, -dx, -dy, mark);
    assert(0 * dx == 0 && 0 * dy == 0);
    assert forall|j: int| -behind <= j <= ahead implies in_run(v, x, y, dx, dy, j, mark) by {
        if j < 0 {
            assert(in_run(v, x, y, -dx, -dy, -j, mark));
            assert((-j) * (-dx) == j * dx && (-j) * (-dy) == j * dy) by (nonlinear_arith);
        }
    }
    assert(!in_run(v, x, y, dx, dy, -behind - 1, mark)) by {
        assert((behind + 1) * (-dx) == (-behind - 1) * dx && (behind + 1) * (-dy) == (-behind - 1)
            * dy) by (nonlinear_arith);
    }
    // Any other run that cannot be extended would end inside this one or
    // reach beyond it, and so hold a square that breaks it.
}

/// Writing a mark makes its square part of the one maximal run that the
/// count along an axis then measures.
pub proof fn lemma_count_after_mark(v: BoardView, x: int, y: int, dx: int, dy: int, mark: Mark)
    requires
        v.wf(),
        v.on_board(x, y),
        dx != 0 || dy != 0,
    ensures
        ({
            let w = v.place(x, y, mark);
            &&& w.wf()
            &&& exists|lo: int, hi: int| #[trigger] is_maximal_run(w, x, y, dx, dy, mark, lo, hi)
            &&& forall|lo: int, hi: int| #[trigger]
                is_maximal_run(w, x, y, dx, dy, mark, lo, hi) ==> w.run_length(
                    x,
                    y,
                    dx,
                    dy,
                    mark,
                    true,
                ) == hi - lo + 1
        }),
{
    let w = v.place(x, y, mark);
    lemma_index_of_square(v, x, y);
    lemma_count_is_maximal_run(w, x, y, dx, dy, mark);
}

/// After a mark is written to a square, the game is judged from that
/// square and that mark.
pub proof fn lemma_state_after_mark(v: BoardView, x: int, y: int, mark: Mark)
    requires
        v.wf(),
        v.on_board(x, y),
    ensures
        v.place(x, y, mark).state() == v.place(x, y, mark).judged(x, y, mark),
{
    lemma_index_of_square(v, x, y);
    lemma_index_of_square(v.place(x, y, mark), x, y);
}

/// A grid that was filled without a winning run is drawn: where no square
/// is empty and no square lies in a run of its mark of the winning
/// length, the state is the draw, whichever square was written last.
pub proof fn lemma_full_grid_without_run_is_drawn(v: BoardView)
    requires
        v.wf(),
        v.last is Some,
        v.is_full(),
        forall|x: int, y: int|
            v.on_board(x, y) ==> #[trigger] v.longest_run(x, y, v.mark_at(x, y)) < v.k,
    ensures
        v.state() == BoardState::CatsGame,
{
    let i = v.last->0 as int;
    lemma_square_of_index(v, i);
}

/// Taking a move back gives the grid of before: after a legal move and the
/// writing of the empty mark over it, the marks are those of before, so are
/// the empty cells, and the game is in progress.
pub proof fn lemma_undo_restores(v: BoardView, x: int, y: int, mark: Mark)
    requires
        v.wf(),
        v.accepts(x, y),
    ensures
        ({
            let back = v.place(x, y, mark).place(x, y, Mark::Empty);
            &&& back.wf()
            &&& back.marks == v.marks
            &&& back.rows == v.rows && back.cols == v.cols && back.k == v.k
            &&& back.cells_with(Mark::Empty) == v.cells_with(Mark::Empty)
            &&& back.state() == BoardState::InProgress
        }),
{
    let back = v.place(x, y, mark).place(x, y, Mark::Empty);
    lemma_index_of_square(v, x, y);
    assert(back.cells() =~= v.cells());
}

} // verus!
