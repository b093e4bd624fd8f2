//! Reading a move from a line of text: two numbers with a comma between
//! them, column first.

use vstd::prelude::*;

verus! {

/// White space, as Unicode defines it.
pub open spec fn is_blank(c: char) -> bool {
    let n = c as u32;
    ||| 0x09 <= n <= 0x0d
    ||| n == 0x20
    ||| n == 0x85
    ||| n == 0xa0
    ||| n == 0x1680
    ||| 0x2000 <= n <= 0x200a
    ||| n == 0x2028
    ||| n == 0x2029
    ||| n == 0x202f
    ||| n == 0x205f
    ||| n == 0x3000
}

/// One of the ten decimal figures.
pub open spec fn is_digit(c: char) -> bool {
    0x30 <= c as u32 <= 0x39
}

/// The number that a decimal figure stands for.
pub open spec fn digit_value(c: char) -> nat {
    (c as u32 - 0x30) as nat
}

/// The text without the white space at its start.
pub open spec fn trim_start(s: Seq<char>) -> Seq<char>
    decreases s.len(),
{
    if s.len() > 0 && is_blank(s[0]) {
        trim_start(s.skip(1))
    } else {
        s
    }
}

/// The text without the white space at its end.
pub open spec fn trim_end(s: Seq<char>) -> Seq<char>
    decreases s.len(),
{
    if s.len() > 0 && is_blank(s.last()) {
        trim_end(s.drop_last())
    } else {
        s
    }
}

/// The text without the white space at its two ends.
pub open spec fn trimmed(s: Seq<char>) -> Seq<char> {
    trim_end(trim_start(s))
}

/// Every character is a decimal figure.
pub open spec fn all_digits(s: Seq<char>) -> bool {
    forall|i: int| 0 <= i < s.len() ==> is_digit(#[trigger] s[i])
}

/// The number that a row of decimal figures stands for.
pub open spec fn digits_value(s: Seq<char>) -> nat
    decreases s.len(),
{
    if s.len() == 0 {
        0
    } else {
        digits_value(s.drop_last()) * 10 + digit_value(s.last())
    }
}

/// The number that a row of decimal figures stands for, where there is
/// at least one of them and the number fits a machine word.
pub open spec fn figures_number(figures: Seq<char>) -> Option<usize> {
    if figures.len() > 0 && all_digits(figures) && digits_value(figures) <= usize::MAX {
        Some(digits_value(figures) as usize)
    } else {
        None
    }
}

/// The number that a text stands for: the text is one or more decimal
/// figures, with or without a plus sign before them, and the number fits a
/// machine word.
pub open spec fn number_in(s: Seq<char>) -> Option<usize> {
    if s.len() > 0 && s[0] == '+' {
        figures_number(s.skip(1))
    } else {
        figures_number(s)
    }
}

/// The pieces of a text between its commas: one more than it has commas.
pub open spec fn split_at_commas(s: Seq<char>) -> Seq<Seq<char>>
    decreases s.len(),
{
    if s.len() == 0 {
        seq![Seq::<char>::empty()]
    } else {
        let before = split_at_commas(s.drop_last());
        if s.last() == ',' {
            before.push(Seq::<char>::empty())
        } else {
            before.drop_last().push(before.last().push(s.last()))
        }
    }
}

/// The numbers that the pieces stand for once trimmed, in their order;
/// a piece that stands for none is passed over.
pub open spec fn numbers_in(pieces: Seq<Seq<char>>) -> Seq<usize>
    decreases pieces.len(),
{
    if pieces.len() == 0 {
        Seq::empty()
    } else {
        let before = numbers_in(pieces.drop_last());
        match number_in(trimmed(pieces.last())) {
            Some(n) => before.push(n),
            None => before,
        }
    }
}

/// The move that a line stands for: column and row, where exactly two of
/// the pieces between its commas are numbers.
pub open spec fn move_in(line: Seq<char>) -> Option<(usize, usize)> {
    let numbers = numbers_in(split_at_commas(line));
    if numbers.len() == 2 {
        Some((numbers[0], numbers[1]))
    } else {
        None
    }
}

/// A row of figures stands for no less than any of its beginnings.
proof fn lemma_digits_value_grows(s: Seq<char>, n: int)
    requires
        0 <= n <= s.len(),
    ensures
        digits_value(s.take(n)) <= digits_value(s),
    decreases s.len(),
{
    if n < s.len() {
        assert(s.drop_last().take(n) =~= s.take(n));
        lemma_digits_value_grows(s.drop_last(), n);
    } else {
        assert(s.take(n) =~= s);
    }
}

/// Trimming at the start passes over a leading blank.
proof fn lemma_trim_start_skips(s: Seq<char>, from: int, to: int)
    requires
        0 <= from < to <= s.len(),
        is_blank(s[from]),
    ensures
        trim_start(s.subrange(from, to)) == trim_start(s.subrange(from + 1, to)),
{
    assert(s.subrange(from, to).skip(1) =~= s.subrange(from + 1, to));
}

/// Trimming at the end passes over a trailing blank.
proof fn lemma_trim_end_skips(s: Seq<char>, from: int, to: int)
    requires
        0 <= from < to <= s.len(),
        is_blank(s[to - 1]),
    ensures
        trim_end(s.subrange(from, to)) == trim_end(s.subrange(from, to - 1)),
{
    assert(s.subrange(from, to).drop_last() =~= s.subrange(from, to - 1));
}

/// The characters of `line`.
fn chars_of(line: &str) -> (chars: Vec<char>)
    ensures
        chars@ == line@,
{
    let mut chars: Vec<char> = Vec::new();
    for c in it: line.chars()
        invariant
            it.seq() == line@,
            chars@ == it.seq().take(it.index() as int),
    {
        chars.push(c);
    }
    chars
}

/// Whether `c` is white space.
fn blank(c: char) -> (yes: bool)
    ensures
        yes == is_blank(c),
{
    let n: u32 = c as u32;
    (0x09 <= n && n <= 0x0d) || n == 0x20 || n == 0x85 || n == 0xa0 || n == 0x1680 || (0x2000 <= n
        && n <= 0x200a) || n == 0x2028 || n == 0x2029 || n == 0x202f || n == 0x205f || n == 0x3000
}

/// The number that the characters from `from` up to `to` stand for once
/// trimmed.
fn number_between(chars: &Vec<char>, from: usize, to: usize) -> (number: Option<usize>)
    requires
        from <= to <= chars@.len(),
    ensures
        number == number_in(trimmed(chars@.subrange(from as int, to as int))),
{
    let ghost s = chars@;
    let mut a: usize = from;
    while a < to && blank(chars[a])
        invariant
            s == chars@,
            from <= a <= to <= s.len(),
            trim_start(s.subrange(from as int, to as int)) == trim_start(
                s.subrange(a as int, to as int),
            ),
        decreases to - a,
    {
        proof {
            lemma_trim_start_skips(s, a as int, to as int);
        }
        a = a + 1;
    }
    let mut b: usize = to;
    while a < b && blank(chars[b - 1])
        invariant
            s == chars@,
            a <= b <= to <= s.len(),
            trim_end(s.subrange(a as int, to as int)) == trim_end(s.subrange(a as int, b as int)),
        decreases b - a,
    {
        proof {
            lemma_trim_end_skips(s, a as int, b as int);
        }
        b = b - 1;
    }
    let ghost text = s.subrange(a as int, b as int);
    if a < b && chars[a] == '+' {
        assert(text.skip(1) =~= s.subrange(a + 1, b as int));
        a = a + 1;
    }
    let ghost figures = s.subrange(a as int, b as int);
    let ghost wanted = number_in(text);
    if a == b {
        return None;
    }
    let mut value: usize = 0;
    let mut i: usize = a;
    while i < b
        invariant
            s == chars@,
            a <= i <= b <= s.len(),
            figures == s.subrange(a as int, b as int),
            wanted == figures_number(figures),
            wanted == number_in(trimmed(s.subrange(from as int, to as int))),
            all_digits(figures.take(i - a)),
            value == digits_value(figures.take(i - a)),
        decreases b - i,
    {
        let n: u32 = chars[i] as u32;
        assert(figures[i - a] == s[i as int]);
        if n < 0x30 || n > 0x39 {
            return None;
        }
        let d: usize = (n - 0x30) as usize;
        proof {
            assert(figures.take(i - a + 1).drop_last() =~= figures.take(i - a));
            lemma_digits_value_grows(figures, i - a + 1);
        }
        if value > (usize::MAX - d) / 10 {
            return None;
        }
        value = value * 10 + d;
        i = i + 1;
    }
    assert(figures.take(b - a) =~= figures);
    Some(value)
}

/// The move that `line` stands for: the numbers among the pieces between
/// its commas, where there are exactly two of them, as column and row.
pub fn read_move(line: &str) -> (mv: Option<(usize, usize)>)
    ensures
        mv == move_in(line@),
{
    let chars = chars_of(line);
    let ghost s = chars@;
    let mut parts: Vec<usize> = Vec::new();
    let mut start: usize = 0;
    let mut i: usize = 0;
    while i < chars.len()
        invariant
            s == chars@,
            0 <= start <= i <= s.len(),
            split_at_commas(s.take(i as int)).len() >= 1,
            split_at_commas(s.take(i as int)).last() == s.subrange(start as int, i as int),
            parts@ == numbers_in(split_at_commas(s.take(i as int)).drop_last()),
        decreases s.len() - i,
    {
        let ghost before = split_at_commas(s.take(i as int));
        proof {
            assert(s.take(i + 1).drop_last() =~= s.take(i as int));
        }
        if chars[i] == ',' {
            match number_between(&chars, start, i) {
                Some(n) => {
                    parts.push(n);
                },
                None => {},
            }
            proof {
                assert(before.push(Seq::<char>::empty()).drop_last() =~= before);
            }
            start = i + 1;
        } else {
            proof {
                let after = before.drop_last().push(before.last().push(s[i as int]));
                assert(after.drop_last() =~= before.drop_last());
            }
        }
        i = i + 1;
    }
    assert(s.take(i as int) =~= s);
    match number_between(&chars, start, i) {
        Some(n) => {
            parts.push(n);
        },
        None => {},
    }
    if parts.len() == 2 {
        Some((parts[0], parts[1]))
    } else {
        None
    }
}

} // verus!
