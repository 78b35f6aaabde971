//! The board as text: one line per row, `*` where the queen stands and `.`
//! elsewhere, each cell followed by a space; in verbose mode each line ends
//! with the parts of the queen's cost and their sum.
use vstd::prelude::*;

use crate::board::NQueens;
use crate::cost::{column_count, left_count, right_count};

verus! {

/// The character of decimal digit `d`.
pub open spec fn digit_char(d: nat) -> char {
    if d == 0 {
        '0'
    } else if d == 1 {
        '1'
    } else if d == 2 {
        '2'
    } else if d == 3 {
        '3'
    } else if d == 4 {
        '4'
    } else if d == 5 {
        '5'
    } else if d == 6 {
        '6'
    } else if d == 7 {
        '7'
    } else if d == 8 {
        '8'
    } else {
        '9'
    }
}

/// The decimal digits of `v`, without leading zeros.
pub open spec fn decimal(v: nat) -> Seq<char>
    decreases v,
{
    if v < 10 {
        seq![digit_char(v)]
    } else {
        decimal(v / 10) + seq![digit_char(v % 10)]
    }
}

/// `v` in decimal, right-aligned in a field of two characters.
pub open spec fn padded(v: nat) -> Seq<char> {
    if v < 10 {
        seq![' '] + decimal(v)
    } else {
        decimal(v)
    }
}

/// The first `k` cells of a row whose queen stands in column `at`.
pub open spec fn cells(at: int, k: int) -> Seq<char>
    decreases k,
{
    if k <= 0 {
        Seq::empty()
    } else {
        cells(at, k - 1) + seq![if at == k - 1 { '*' } else { '.' }, ' ']
    }
}

/// The cost parts of row `r`: lower-column diagonal, higher-column
/// diagonal, column, and their sum.
pub open spec fn cost_text(q: Seq<usize>, r: int) -> Seq<char> {
    let c = column_count(q, r, q[r] as int);
    let l = left_count(q, r, q[r] as int);
    let d = right_count(q, r, q[r] as int);
    seq![' ', '|', ' ', 'l', 'd', ':'] + padded(l) + seq![' ', 'r', 'd', ':'] + padded(d) + seq![
        ' ',
        'c',
        'c',
        ':',
    ] + padded(c) + seq![' ', '|', ' ', 't', 't', ':'] + padded(c + l + d)
}

/// Row `r` of the board as text.
pub open spec fn row_text(q: Seq<usize>, r: int, verbose: bool) -> Seq<char> {
    cells(q[r] as int, q.len() as int) + if verbose {
        cost_text(q, r)
    } else {
        Seq::empty()
    }
}

/// The first `k` rows of the board, separated by line breaks.
pub open spec fn rows_text(q: Seq<usize>, k: int, verbose: bool) -> Seq<char>
    decreases k,
{
    if k <= 0 {
        Seq::empty()
    } else if k == 1 {
        row_text(q, 0, verbose)
    } else {
        rows_text(q, k - 1, verbose) + seq!['\n'] + row_text(q, k - 1, verbose)
    }
}

fn push_digit(out: &mut Vec<char>, d: usize)
    requires
        d < 10,
    ensures
        final(out)@ == old(out)@.push(digit_char(d as nat)),
{
    let c = if d == 0 {
        '0'
    } else if d == 1 {
        '1'
    } else if d == 2 {
        '2'
    } else if d == 3 {
        '3'
    } else if d == 4 {
        '4'
    } else if d == 5 {
        '5'
    } else if d == 6 {
        '6'
    } else if d == 7 {
        '7'
    } else if d == 8 {
        '8'
    } else {
        '9'
    };
    out.push(c);
}

fn push_decimal(out: &mut Vec<char>, v: usize)
    ensures
        final(out)@ == old(out)@ + decimal(v as nat),
    decreases v,
{
    if v >= 10 {
        push_decimal(out, v / 10);
    }
    push_digit(out, v % 10);
    proof {
        if v >= 10 {
            assert(decimal(v as nat) == decimal((v / 10) as nat) + seq![digit_char((v % 10) as nat)]);
        }
    }
    assert(final(out)@ =~= old(out)@ + decimal(v as nat));
}

fn push_padded(out: &mut Vec<char>, v: usize)
    ensures
        final(out)@ == old(out)@ + padded(v as nat),
{
    if v < 10 {
        out.push(' ');
    }
    push_decimal(out, v);
    assert(final(out)@ =~= old(out)@ + padded(v as nat));
}

fn push_str_chars(out: &mut Vec<char>, s: &[char])
    ensures
        final(out)@ == old(out)@ + s@,
{
    let mut i: usize = 0;
    while i < s.len()
        invariant
            i <= s@.len(),
            out@ == old(out)@ + s@.subrange(0, i as int),
        decreases s@.len() - i,
    {
        out.push(s[i]);
        assert(s@.subrange(0, i + 1) =~= s@.subrange(0, i as int).push(s@[i as int]));
        i = i + 1;
    }
    assert(s@.subrange(0, s@.len() as int) =~= s@);
}

/// Relies on `String`'s `FromIterator<&char>`: the string of the characters
/// in order.
#[verifier::external_body]
fn chars_to_string(chars: &Vec<char>) -> (r: String)
    ensures
        r@ == chars@,
{
    chars.iter().collect()
}

fn push_cells(out: &mut Vec<char>, at: usize, n: usize)
    ensures
        final(out)@ == old(out)@ + cells(at as int, n as int),
{
    let mut i: usize = 0;
    while i < n
        invariant
            i <= n,
            out@ == old(out)@ + cells(at as int, i as int),
        decreases n - i,
    {
        if at == i {
            out.push('*');
        } else {
            out.push('.');
        }
        out.push(' ');
        assert(out@ =~= old(out)@ + cells(at as int, i + 1));
        i = i + 1;
    }
}

impl NQueens {
    fn push_cost_text(&self, out: &mut Vec<char>, row: usize)
        requires
            self.wf(),
            row < self.board_size(),
        ensures
            final(out)@ == old(out)@ + cost_text(self.positions(), row as int),
    {
        let (c, l, d) = self.cost_of(row);
        let n = self.size();
        assert(c + l + d <= n);
        push_str_chars(out, &[' ', '|', ' ', 'l', 'd', ':']);
        push_padded(out, l);
        push_str_chars(out, &[' ', 'r', 'd', ':']);
        push_padded(out, d);
        push_str_chars(out, &[' ', 'c', 'c', ':']);
        push_padded(out, c);
        push_str_chars(out, &[' ', '|', ' ', 't', 't', ':']);
        push_padded(out, c + l + d);
        assert(final(out)@ =~= old(out)@ + cost_text(self.positions(), row as int));
    }

    /// The board as text, with each queen's cost when the board is verbose.
    pub fn render(&self) -> (r: String)
        requires
            self.wf(),
        ensures
            r@ == rows_text(self.positions(), self.board_size() as int, self.verbose_mode()),
    {
        let n = self.size();
        let q = self.queens();
        let verbose = self.is_verbose();
        let mut out: Vec<char> = Vec::new();
        let mut row: usize = 0;
        while row < n
            invariant
                n == self.board_size(),
                q@ == self.positions(),
                q@.len() == n,
                verbose == self.verbose_mode(),
                self.wf(),
                row <= n,
                out@ == rows_text(q@, row as int, verbose),
            decreases n - row,
        {
            let ghost before = out@;
            if row > 0 {
                out.push('\n');
            }
            let ghost sep = out@;
            push_cells(&mut out, q[row], n);
            if verbose {
                self.push_cost_text(&mut out, row);
            }
            proof {
                assert(out@ =~= sep + row_text(q@, row as int, verbose));
                if row > 0 {
                    assert(sep =~= before + seq!['\n']);
                }
                assert(out@ =~= rows_text(q@, row + 1, verbose));
            }
            row = row + 1;
        }
        chars_to_string(&out)
    }
}

} // verus!
