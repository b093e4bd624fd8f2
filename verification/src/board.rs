//! The board: a fixed grid of cells that marks are written to.

use vstd::prelude::*;
pub use crate::cell::Mark;
pub use crate::cell::Cell;
pub use crate::cell::BoardState;
use crate::model::BoardView;
use crate::model::lemma_index_of_square;
use crate::model::lemma_state_after_mark;
use crate::model::lemma_reach_within_grid;
use crate::model::lemma_no_empty_cells_is_full;

verus! {

/// A grid of `rows * cols` cells on which `k` marks in a row win.
pub struct Board {
    rows: usize,
    cols: usize,
    k: usize,
    cells: Vec<Cell>,
    last_changed_cell: Option<usize>,
}

impl View for Board {
    type V = BoardView;

    closed spec fn view(&self) -> BoardView {
        BoardView {
            rows: self.rows as nat,
            cols: self.cols as nat,
            k: self.k as nat,
            marks: Seq::new(self.cells@.len(), |i: int| self.cells@[i].mark),
            last: match self.last_changed_cell {
                Some(i) => Some(i as nat),
                None => None,
            },
        }
    }
}

impl Board {
    /// The grid is complete, every cell knows its own square, and the
    /// whole is small enough to be held in memory.
    pub closed spec fn wf(&self) -> bool {
        &&& self@.wf()
        &&& forall|i: int| 0 <= i < self.cells@.len() ==> #[trigger] self.cells@[i] == self@.cell(i)
    }

    /// A well-formed board has a well-formed model.
    pub proof fn lemma_wf_view(&self)
        requires
            self.wf(),
        ensures
            self@.wf(),
    {
    }

    /// An empty board of `rows` rows and `cols` columns on which `k` in a
    /// row win.
    pub fn new(rows: usize, cols: usize, k: usize) -> (board: Board)
        requires
            rows * cols <= isize::MAX,
        ensures
            board.wf(),
            board@ == BoardView::blank(rows as nat, cols as nat, k as nat),
            board@.marks.len() == rows * cols,
            rows * cols > 0 ==> !board@.is_full(),
    {
        let mut cells: Vec<Cell> = Vec::new();
        let mut y: usize = 0;
        while y < rows
            invariant
                0 <= y <= rows,
                rows * cols <= isize::MAX,
                cells@.len() == y * cols,
                forall|i: int| 0 <= i < cells@.len() ==> #[trigger] cells@[i] == (Cell {
                    x: (i % cols as int) as usize,
                    y: (i / cols as int) as usize,
                    mark: Mark::Empty,
                }),
            decreases rows - y,
        {
            let mut x: usize = 0;
            while x < cols
                invariant
                    0 <= x <= cols,
                    0 <= y < rows,
                    rows * cols <= isize::MAX,
                    cells@.len() == y * cols + x,
                    forall|i: int| 0 <= i < cells@.len() ==> #[trigger] cells@[i] == (Cell {
                        x: (i % cols as int) as usize,
                        y: (i / cols as int) as usize,
                        mark: Mark::Empty,
                    }),
                decreases cols - x,
            {
                proof {
                    let v = BoardView::blank(rows as nat, cols as nat, k as nat);
                    lemma_index_of_square(v, x as int, y as int);
                }
                cells.push(Cell { x, y, mark: Mark::Empty });
                x = x + 1;
            }
            assert(y * cols + cols == (y + 1) * cols) by (nonlinear_arith);
            y = y + 1;
        }
        let board = Board { rows, cols, k, cells, last_changed_cell: None };
        assert(rows * cols > 0 ==> board@.marks[0] == Mark::Empty);
        assert(board@.marks =~= BoardView::blank(rows as nat, cols as nat, k as nat).marks);
        board
    }

    /// The number of rows.
    pub fn get_num_rows(&self) -> (rows: usize)
        ensures
            rows == self@.rows,
    {
        self.rows
    }

    /// The number of columns.
    pub fn get_num_cols(&self) -> (cols: usize)
        ensures
            cols == self@.cols,
    {
        self.cols
    }

    /// The length of a run that wins.
    pub fn get_k(&self) -> (k: usize)
        ensures
            k == self@.k,
    {
        self.k
    }

    /// The cell at column `x`, row `y`.
    pub fn get_cell<'a>(&'a self, x: usize, y: usize) -> (cell: &'a Cell)
        requires
            self.wf(),
            self@.on_board(x as int, y as int),
        ensures
            *cell == self@.cell_at(x as int, y as int),
    {
        proof {
            lemma_index_of_square(self@, x as int, y as int);
        }
        &self.cells[y * self.cols + x]
    }

    /// Writes `mark` at column `place.0`, row `place.1`, whatever the square
    /// held, and remembers the square as the one changed last.
    pub fn set_mark(&mut self, place: (usize, usize), mark: Mark)
        requires
            old(self).wf(),
            old(self)@.on_board(place.0 as int, place.1 as int),
        ensures
            final(self).wf(),
            final(self)@ == old(self)@.place(place.0 as int, place.1 as int, mark),
            final(self)@.marks.len() == old(self)@.marks.len(),
            final(self)@.state() == final(self)@.judged(place.0 as int, place.1 as int, mark),
    {
        let x: usize = place.0;
        let y: usize = place.1;
        proof {
            lemma_index_of_square(self@, x as int, y as int);
            lemma_state_after_mark(self@, x as int, y as int, mark);
        }
        let cell_idx: usize = y * self.cols + x;
        self.cells[cell_idx] = Cell { x, y, mark };
        self.last_changed_cell = Some(cell_idx);
        assert(self@.marks =~= old(self)@.place(x as int, y as int, mark).marks);
    }

    /// Whether a move to column `place.0`, row `place.1` is legal: the
    /// square exists and is empty.
    pub fn check_valid_move(&self, place: (usize, usize)) -> (valid: bool)
        requires
            self.wf(),
        ensures
            valid == self@.accepts(place.0 as int, place.1 as int),
    {
        let x: usize = place.0;
        let y: usize = place.1;
        if x >= self.get_num_cols() || y >= self.get_num_rows() {
            return false;
        }
        self.get_cell(x, y).mark == Mark::Empty
    }

    /// The cells that hold `mark`, in row-major order.
    pub fn cells_with_mark<'a>(&'a self, mark: Mark) -> (found: Vec<&'a Cell>)
        requires
            self.wf(),
        ensures
            found@.map_values(|c: &Cell| *c) == self@.cells_with(mark),
    {
        let ghost keep = |c: Cell| c.mark == mark;
        let mut found: Vec<&'a Cell> = Vec::new();
        let mut i: usize = 0;
        while i < self.cells.len()
            invariant
                self.wf(),
                0 <= i <= self.cells@.len(),
                self.cells@.len() == self@.cells().len(),
                keep == (|c: Cell| c.mark == mark),
                found@.map_values(|c: &Cell| *c) == self@.cells().take(i as int).filter(keep),
            decreases self.cells@.len() - i,
        {
            let cell = &self.cells[i];
            proof {
                let before = self@.cells().take(i as int);
                assert(self@.cells().take(i + 1) =~= before.push(*cell));
                before.lemma_filter_push(*cell, keep);
            }
            if cell.mark == mark {
                found.push(cell);
            }
            i = i + 1;
        }
        assert(self@.cells().take(i as int) =~= self@.cells());
        found
    }

    /// Length of the run through `cell` along the axis of `direction`: the
    /// cell itself and, on both sides, the cells in a row that hold its
    /// mark, or, unless `break_on_empty`, none.
    pub fn count_consecutive(
        &self,
        cell: &Cell,
        direction: (isize, isize),
        break_on_empty: bool,
    ) -> (count: usize)
        requires
            self.wf(),
            direction != (0isize, 0isize),
        ensures
            count == self@.run_length(
                cell.x as int,
                cell.y as int,
                direction.0 as int,
                direction.1 as int,
                cell.mark,
                break_on_empty,
            ),
    {
        let ghost v = self@;
        let ghost dx = direction.0 as int;
        let ghost dy = direction.1 as int;
        let ghost ahead = v.reach(cell.x as int, cell.y as int, dx, dy, cell.mark, break_on_empty);
        let ghost behind = v.reach(
            cell.x as int,
            cell.y as int,
            -dx,
            -dy,
            cell.mark,
            break_on_empty,
        );
        proof {
            lemma_reach_within_grid(v, cell.x as int, cell.y as int, dx, dy, cell.mark, break_on_empty);
            lemma_reach_within_grid(
                v,
                cell.x as int,
                cell.y as int,
                -dx,
                -dy,
                cell.mark,
                break_on_empty,
            );
        }
        let mut count: usize = 1;
        let mut forward = self.iter(cell, direction);
        loop
            invariant_except_break
                forward.board() == *self,
                forward.direction() == direction,
                ahead == (count - 1) + v.reach(
                    forward.cell().x as int,
                    forward.cell().y as int,
                    dx,
                    dy,
                    cell.mark,
                    break_on_empty,
                ),
            invariant
                self.wf(),
                v == self@,
                dx == direction.0 as int,
                dy == direction.1 as int,
                direction != (0isize, 0isize),
                1 <= count,
                ahead <= isize::MAX,
            ensures
                count == 1 + ahead,
            decreases v.room(forward.cell().x + dx, forward.cell().y + dy, dx, dy),
        {
            match forward.next() {
                Some(c) => {
                    if c.mark == cell.mark || (!break_on_empty && c.mark == Mark::Empty) {
                        count += 1;
                    } else {
                        break ;
                    }
                },
                None => {
                    break ;
                },
            }
        }
        let mut reversed = self.iter(cell, direction);
        loop
            invariant_except_break
                reversed.board() == *self,
                reversed.direction() == direction,
                behind == (count - 1 - ahead) + v.reach(
                    reversed.cell().x as int,
                    reversed.cell().y as int,
                    -dx,
                    -dy,
                    cell.mark,
                    break_on_empty,
                ),
            invariant
                self.wf(),
                v == self@,
                dx == direction.0 as int,
                dy == direction.1 as int,
                direction != (0isize, 0isize),
                1 + ahead <= count,
                ahead <= isize::MAX,
                behind <= isize::MAX,
            ensures
                count == 1 + ahead + behind,
            decreases v.room(reversed.cell().x - dx, reversed.cell().y - dy, -dx, -dy),
        {
            match reversed.next_back() {
                Some(c) => {
                    if c.mark == cell.mark || (!break_on_empty && c.mark == Mark::Empty) {
                        count += 1;
                    } else {
                        break ;
                    }
                },
                None => {
                    break ;
                },
            }
        }
        count
    }

    /// The longest unbroken run of the mark of `changed_cell` through it,
    /// over the four axes.
    pub fn max_consecutive(&self, changed_cell: &Cell) -> (longest: usize)
        requires
            self.wf(),
        ensures
            longest == self@.longest_run(
                changed_cell.x as int,
                changed_cell.y as int,
                changed_cell.mark,
            ),
    {
        let down: usize = self.count_consecutive(changed_cell, (0, 1), true);
        let across: usize = self.count_consecutive(changed_cell, (1, 0), true);
        let falling: usize = self.count_consecutive(changed_cell, (1, 1), true);
        let rising: usize = self.count_consecutive(changed_cell, (1, -1), true);
        let straight: usize = if down >= across {
            down
        } else {
            across
        };
        let slanted: usize = if falling >= rising {
            falling
        } else {
            rising
        };
        if straight >= slanted {
            straight
        } else {
            slanted
        }
    }

    /// Whether `changed_cell` lies in an unbroken run of its mark that is
    /// long enough to win.
    pub fn check_for_win(&self, changed_cell: &Cell) -> (won: bool)
        requires
            self.wf(),
        ensures
            won == (self@.longest_run(
                changed_cell.x as int,
                changed_cell.y as int,
                changed_cell.mark,
            ) >= self@.k),
    {
        self.max_consecutive(changed_cell) >= self.k
    }

    /// How the game stands, judged from the cell that was written last.
    pub fn get_state(&self) -> (state: BoardState)
        requires
            self.wf(),
        ensures
            state == self@.state(),
    {
        let cell_idx: usize = match self.last_changed_cell {
            None => {
                return BoardState::InProgress;
            },
            Some(x) => x,
        };
        let cell = &self.cells[cell_idx];
        if cell.mark == Mark::Empty {
            BoardState::InProgress
        } else if self.check_for_win(cell) {
            match cell.mark {
                Mark::Player => BoardState::PlayerWins,
                _ => BoardState::AiWins,
            }
        } else if self.cells_with_mark(Mark::Empty).len() == 0 {
            proof {
                lemma_no_empty_cells_is_full(self@);
            }
            BoardState::CatsGame
        } else {
            proof {
                lemma_no_empty_cells_is_full(self@);
            }
            BoardState::InProgress
        }
    }

    /// A walk over the grid that starts beside `cell` and moves by
    /// `direction`, or against it.
    pub fn iter<'a>(&'a self, cell: &'a Cell, direction: (isize, isize)) -> (walk: BoardIterator<'a>)
        ensures
            walk.board() == *self,
            walk.cell() == *cell,
            walk.direction() == direction,
    {
        BoardIterator { board: self, cell, direction }
    }
}

impl Clone for Board {
    /// A second board with the same content.
    fn clone(&self) -> (copy: Board)
        ensures
            self.wf() ==> copy.wf(),
            copy@ == self@,
    {
        let mut cells: Vec<Cell> = Vec::new();
        let mut i: usize = 0;
        while i < self.cells.len()
            invariant
                0 <= i <= self.cells@.len(),
                cells@ == self.cells@.take(i as int),
            decreases self.cells@.len() - i,
        {
            cells.push(self.cells[i]);
            i = i + 1;
        }
        assert(cells@ =~= self.cells@);
        let copy = Board {
            rows: self.rows,
            cols: self.cols,
            k: self.k,
            cells,
            last_changed_cell: self.last_changed_cell,
        };
        copy
    }
}

/// A walk over the squares of a board in a straight line. It stands on a
/// cell and steps by its direction (`next`) or against it (`next_back`)
/// until the edge of the grid.
pub struct BoardIterator<'a> {
    board: &'a Board,
    cell: &'a Cell,
    direction: (isize, isize),
}

impl<'a> BoardIterator<'a> {
    /// The board that is walked.
    pub closed spec fn board(&self) -> Board {
        *self.board
    }

    /// The cell on which the walk stands.
    pub closed spec fn cell(&self) -> Cell {
        *self.cell
    }

    /// The step of the walk, as columns and rows.
    pub closed spec fn direction(&self) -> (isize, isize) {
        self.direction
    }

    /// The walk after it has looked one step of `(dx, dy)` ahead: on the
    /// square there, if the grid has it, else where it was.
    pub open spec fn moved(&self, after: &Self, found: Option<&'a Cell>, dx: int, dy: int) -> bool {
        let v = self.board()@;
        let x = self.cell().x + dx;
        let y = self.cell().y + dy;
        &&& after.board() == self.board()
        &&& after.direction() == self.direction()
        &&& if v.on_board(x, y) {
            &&& found matches Some(c)
            &&& *c == v.cell_at(x, y)
            &&& after.cell() == v.cell_at(x, y)
        } else {
            &&& found is None
            &&& after.cell() == self.cell()
        }
    }

    /// Steps along the direction. Gives the cell stepped onto, or `None`
    /// at the edge of the grid, where the walk stays.
    pub fn next(&mut self) -> (found: Option<&'a Cell>)
        requires
            old(self).board().wf(),
            old(self).direction() != (0isize, 0isize),
        ensures
            old(self).moved(
                final(self),
                found,
                old(self).direction().0 as int,
                old(self).direction().1 as int,
            ),
    {
        let newy = shifted(self.cell.y, self.direction.1, self.board.rows);
        let newx = shifted(self.cell.x, self.direction.0, self.board.cols);
        match (newx, newy) {
            (Some(x), Some(y)) => {
                self.cell = self.board.get_cell(x, y);
                Some(self.cell)
            },
            _ => None,
        }
    }

    /// Bounds on the number of cells still ahead: none is promised, and
    /// there are no more than the grid has.
    pub fn size_hint(&self) -> (hint: (usize, Option<usize>))
        ensures
            hint == (0usize, Some(self.board()@.marks.len() as usize)),
    {
        (0, Some(self.board.cells.len()))
    }

    /// Steps against the direction. Gives the cell stepped onto, or `None`
    /// at the edge of the grid, where the walk stays.
    pub fn next_back(&mut self) -> (found: Option<&'a Cell>)
        requires
            old(self).board().wf(),
        ensures
            old(self).moved(
                final(self),
                found,
                -(old(self).direction().0 as int),
                -(old(self).direction().1 as int),
            ),
    {
        let newy = shifted_back(self.cell.y, self.direction.1, self.board.rows);
        let newx = shifted_back(self.cell.x, self.direction.0, self.board.cols);
        match (newx, newy) {
            (Some(x), Some(y)) => {
                self.cell = self.board.get_cell(x, y);
                Some(self.cell)
            },
            _ => None,
        }
    }
}

/// `coord + delta` where that lies in `0..limit`.
fn shifted(coord: usize, delta: isize, limit: usize) -> (moved: Option<usize>)
    ensures
        match moved {
            Some(n) => n == coord + delta && n < limit,
            None => !(0 <= coord + delta < limit),
        },
{
    if delta >= 0 {
        let d: usize = delta as usize;
        if coord < limit && d < limit - coord {
            Some(coord + d)
        } else {
            None
        }
    } else {
        let d: usize = (-(delta + 1)) as usize + 1;
        if coord >= d && coord - d < limit {
            Some(coord - d)
        } else {
            None
        }
    }
}

/// `coord - delta` where that lies in `0..limit`.
fn shifted_back(coord: usize, delta: isize, limit: usize) -> (moved: Option<usize>)
    ensures
        match moved {
            Some(n) => n == coord - delta && n < limit,
            None => !(0 <= coord - delta < limit),
        },
{
    if delta < 0 {
        let d: usize = (-(delta + 1)) as usize + 1;
        if coord < limit && d < limit - coord {
            Some(coord + d)
        } else {
            None
        }
    } else {
        let d: usize = delta as usize;
        if coord >= d && coord - d < limit {
            Some(coord - d)
        } else {
            None
        }
    }
}

} // verus!
