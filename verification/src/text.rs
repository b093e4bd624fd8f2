//! Boards, marks and states as text.

use vstd::prelude::*;
use crate::cell::Mark;
use crate::cell::BoardState;
use crate::model::BoardView;
use crate::board::Board;

verus! {

/// The letter for a mark: `X` for the first player, `O` for the engine, a
/// blank for none.
pub open spec fn mark_char(mark: Mark) -> char {
    match mark {
        Mark::Player => 'X',
        Mark::Ai => 'O',
        Mark::Empty => ' ',
    }
}

/// What is said of a state.
pub open spec fn state_text(state: BoardState) -> Seq<char> {
    match state {
        BoardState::PlayerWins => "Player Wins!"@,
        BoardState::AiWins => "Ai Wins!"@,
        BoardState::CatsGame => "Cats Game"@,
        BoardState::InProgress => "Game still in progress"@,
    }
}

/// The figure for a number below ten.
pub open spec fn digit_char(d: nat) -> char {
    if d == 0 {
        '0'
    } else if d == 1 {
        '1'
    } else if d == 2 {
        '2'
    } else if d == 3 {
        '3'
    } else if d == 4 {
        '4'
    } else if d == 5 {
        '5'
    } else if d == 6 {
        '6'
    } else if d == 7 {
        '7'
    } else if d == 8 {
        '8'
    } else {
        '9'
    }
}

/// A number in decimal figures, without leading zeros.
pub open spec fn decimal(n: nat) -> Seq<char>
    decreases n,
{
    if n < 10 {
        seq![digit_char(n)]
    } else {
        decimal(n / 10).push(digit_char(n % 10))
    }
}

/// The start of the heading: two blanks, then the numbers of the first `n`
/// columns, each followed by a blank.
pub open spec fn heading_upto(n: nat) -> Seq<char>
    decreases n,
{
    if n == 0 {
        seq![' ', ' ']
    } else {
        heading_upto((n - 1) as nat) + decimal((n - 1) as nat) + seq![' ']
    }
}

/// The letters of the first `n` marks of row `y`, with a bar between
/// neighbours.
pub open spec fn row_marks(v: BoardView, y: int, n: nat) -> Seq<char>
    decreases n,
{
    if n == 0 {
        Seq::empty()
    } else if n == 1 {
        seq![mark_char(v.mark_at(0, y))]
    } else {
        row_marks(v, y, (n - 1) as nat) + seq!['|', mark_char(v.mark_at(n - 1, y))]
    }
}

/// A row: its number, a blank, and its marks.
pub open spec fn row_text(v: BoardView, y: int) -> Seq<char> {
    decimal(y as nat) + seq![' '] + row_marks(v, y, v.cols)
}

/// `n` times a dash and a cross.
pub open spec fn dashes(n: nat) -> Seq<char>
    decreases n,
{
    if n == 0 {
        Seq::empty()
    } else {
        dashes((n - 1) as nat) + seq!['-', '+']
    }
}

/// The line between two rows, from its own line break to the next: under
/// each mark a dash, under each bar a cross.
pub open spec fn rule(cols: nat) -> Seq<char> {
    seq!['\n', ' ', ' '] + dashes((cols - 1) as nat) + seq!['-', '\n']
}

/// The first `n` rows with the lines between them.
pub open spec fn rows_text(v: BoardView, n: nat) -> Seq<char>
    decreases n,
{
    if n == 0 {
        Seq::empty()
    } else if n == 1 {
        row_text(v, 0)
    } else {
        rows_text(v, (n - 1) as nat) + rule(v.cols) + row_text(v, n - 1)
    }
}

/// A board as text: a heading with the column numbers, then the rows, each
/// with its number before it, the marks of a row parted by bars and the
/// rows by lines of dashes. The last row ends the text.
pub open spec fn board_text(v: BoardView) -> Seq<char> {
    if v.cols == 0 {
        heading_upto(0).push('\n')
    } else {
        heading_upto(v.cols).push('\n') + rows_text(v, v.rows)
    }
}

/// The figure for a number below ten, as text.
fn digit_str(d: usize) -> (text: &'static str)
    requires
        d < 10,
    ensures
        text@ == seq![digit_char(d as nat)],
{
    proof {
        reveal_strlit("0");
        reveal_strlit("1");
        reveal_strlit("2");
        reveal_strlit("3");
        reveal_strlit("4");
        reveal_strlit("5");
        reveal_strlit("6");
        reveal_strlit("7");
        reveal_strlit("8");
        reveal_strlit("9");
    }
    let text = if d == 0 {
        "0"
    } else if d == 1 {
        "1"
    } else if d == 2 {
        "2"
    } else if d == 3 {
        "3"
    } else if d == 4 {
        "4"
    } else if d == 5 {
        "5"
    } else if d == 6 {
        "6"
    } else if d == 7 {
        "7"
    } else if d == 8 {
        "8"
    } else {
        "9"
    };
    text
}

/// The letter for a mark, as text.
fn mark_str(mark: Mark) -> (text: &'static str)
    ensures
        text@ == seq![mark_char(mark)],
{
    proof {
        reveal_strlit("X");
        reveal_strlit("O");
        reveal_strlit(" ");
    }
    let text = match mark {
        Mark::Player => "X",
        Mark::Ai => "O",
        Mark::Empty => " ",
    };
    text
}

/// Writes `n` in decimal figures at the end of `out`.
fn push_decimal(out: &mut String, n: usize)
    ensures
        final(out)@ == old(out)@ + decimal(n as nat),
    decreases n,
{
    if n >= 10 {
        push_decimal(out, n / 10);
    }
    out.append(digit_str(n % 10));
}

impl Mark {
    /// The letter for the mark.
    pub fn to_string(&self) -> (text: String)
        ensures
            text@ == seq![mark_char(*self)],
    {
        mark_str(*self).to_owned()
    }
}

impl BoardState {
    /// What is said of the state.
    pub fn to_string(&self) -> (text: String)
        ensures
            text@ == state_text(*self),
    {
        let text = match self {
            BoardState::PlayerWins => "Player Wins!",
            BoardState::AiWins => "Ai Wins!",
            BoardState::CatsGame => "Cats Game",
            BoardState::InProgress => "Game still in progress",
        };
        text.to_owned()
    }
}

impl Board {
    /// The board as text.
    pub fn to_string(&self) -> (text: String)
        requires
            self.wf(),
        ensures
            text@ == board_text(self@),
    {
        let ghost v = self@;
        let rows: usize = self.get_num_rows();
        let cols: usize = self.get_num_cols();
        let mut out = String::new();
        proof {
            reveal_strlit("  ");
            reveal_strlit(" ");
            reveal_strlit("\n");
            reveal_strlit("|");
            reveal_strlit("\n  ");
            reveal_strlit("-+");
            reveal_strlit("-\n");
        }
        out.append("  ");
        let mut x: usize = 0;
        while x < cols
            invariant
                0 <= x <= cols,
                " "@ == seq![' '],
                out@ == heading_upto(x as nat),
            decreases cols - x,
        {
            push_decimal(&mut out, x);
            out.append(" ");
            x = x + 1;
        }
        out.append("\n");
        if cols == 0 {
            return out;
        }
        let ghost heading = out@;
        let mut y: usize = 0;
        while y < rows
            invariant
                self.wf(),
                v == self@,
                rows == v.rows,
                cols == v.cols,
                cols > 0,
                0 <= y <= rows,
                " "@ == seq![' '],
                "|"@ == seq!['|'],
                "\n  "@ == seq!['\n', ' ', ' '],
                "-+"@ == seq!['-', '+'],
                "-\n"@ == seq!['-', '\n'],
                out@ == heading + rows_text(v, y as nat),
            decreases rows - y,
        {
            let ghost done = out@;
            if y > 0 {
                out.append("\n  ");
                let mut i: usize = 0;
                while i < cols - 1
                    invariant
                        cols > 0,
                        0 <= i <= cols - 1,
                        "-+"@ == seq!['-', '+'],
                        out@ == done + seq!['\n', ' ', ' '] + dashes(i as nat),
                    decreases cols - 1 - i,
                {
                    out.append("-+");
                    i = i + 1;
                }
                out.append("-\n");
            }
            let ghost ruled = out@;
            push_decimal(&mut out, y);
            out.append(" ");
            let mut x: usize = 0;
            while x < cols
                invariant
                    self.wf(),
                    v == self@,
                    cols == v.cols,
                    rows == v.rows,
                    0 <= y < rows,
                    0 <= x <= cols,
                    "|"@ == seq!['|'],
                    out@ == ruled + decimal(y as nat) + seq![' '] + row_marks(
                        v,
                        y as int,
                        x as nat,
                    ),
                decreases cols - x,
            {
                if x > 0 {
                    out.append("|");
                }
                out.append(mark_str(self.get_cell(x, y).mark));
                x = x + 1;
            }
            y = y + 1;
        }
        out
    }
}

} // verus!
