//! Human-readable dumps of cell states and of the whole board.

use vstd::prelude::*;
use vstd::string::*;
use crate::action::{at, Action};
use crate::board::Board;
use crate::model::BoardView;
use crate::state::{State, StateView};

verus! {

/// The character of a decimal digit.
pub open spec fn digit(d: int) -> char {
    if d == 0 {
        '0'
    } else if d == 1 {
        '1'
    } else if d == 2 {
        '2'
    } else if d == 3 {
        '3'
    } else if d == 4 {
        '4'
    } else if d == 5 {
        '5'
    } else if d == 6 {
        '6'
    } else if d == 7 {
        '7'
    } else if d == 8 {
        '8'
    } else {
        '9'
    }
}

/// The decimal numeral of a natural number, without leading zeros.
pub open spec fn decimal(n: nat) -> Seq<char>
    decreases n,
{
    if n < 10 {
        seq![digit(n as int)]
    } else {
        decimal(n / 10).push(digit((n % 10) as int))
    }
}

/// The magnitude of a fixed-point quantity in tenths, rounded to the
/// nearest tenth, halves upward.
pub open spec fn tenths(v: int) -> nat {
    if v >= 0 {
        ((v + 5_000) / 10_000) as nat
    } else {
        ((-v + 5_000) / 10_000) as nat
    }
}

/// A fixed-point quantity written with one decimal place, and with a minus
/// sign if it is negative.
pub open spec fn value_text(v: i64) -> Seq<char> {
    (if v < 0 {
        seq!['-']
    } else {
        Seq::empty()
    }) + decimal(tenths(v as int) / 10).push('.').push(digit((tenths(v as int) % 10) as int))
}

/// `n` spaces.
pub open spec fn spaces(n: nat) -> Seq<char>
    decreases n,
{
    if n == 0 {
        Seq::empty()
    } else {
        spaces((n - 1) as nat).push(' ')
    }
}

/// The text, followed by as many spaces as it lacks to `width` characters.
pub open spec fn padded(text: Seq<char>, width: nat) -> Seq<char> {
    if text.len() >= width {
        text
    } else {
        text + spaces((width - text.len()) as nat)
    }
}

/// One slot of a cell's block in the board dump: the symbol of a move and
/// its value estimate in a field of seven characters, or ten spaces where
/// the cell has no such move.
pub open spec fn action_text(x: Option<Action>, weight: Option<i64>) -> Seq<char> {
    match x {
        Some(a) => a.symbol() + ": "@ + padded(
            match weight {
                Some(w) => value_text(w),
                None => "_______"@,
            },
            7,
        ),
        None => "          "@,
    }
}

/// The symbols of the moves, one after the other.
pub open spec fn symbols(actions: Seq<Action>) -> Seq<char>
    decreases actions.len(),
{
    if actions.len() == 0 {
        Seq::empty()
    } else {
        symbols(actions.drop_last()) + actions.last().symbol()
    }
}

/// The value estimates, each with one decimal place, separated by single
/// spaces.
pub open spec fn joined(values: Seq<i64>) -> Seq<char>
    decreases values.len(),
{
    if values.len() == 0 {
        Seq::empty()
    } else if values.len() == 1 {
        value_text(values[0])
    } else {
        joined(values.drop_last()) + " "@ + value_text(values.last())
    }
}

impl StateView {
    /// The one-line dump of a cell state.
    pub open spec fn text(self) -> Seq<char> {
        "[<"@ + symbols(self.actions) + "> | <"@ + joined(self.values) + ">]"@
    }

    /// Move number `i` of the cell, if it has that many.
    pub open spec fn action_slot(self, i: int) -> Option<Action> {
        if 0 <= i < self.actions.len() {
            Some(self.actions[i])
        } else {
            None
        }
    }

    /// Value estimate number `i` of the cell, if it has that many.
    pub open spec fn value_slot(self, i: int) -> Option<i64> {
        if 0 <= i < self.values.len() {
            Some(self.values[i])
        } else {
            None
        }
    }
}

/// `n` times thirteen dashes.
pub open spec fn dashes(n: nat) -> Seq<char>
    decreases n,
{
    if n == 0 {
        Seq::empty()
    } else {
        dashes((n - 1) as nat) + "-------------"@
    }
}

impl BoardView {
    /// The horizontal rule between the rows of the dump.
    pub open spec fn rule(self) -> Seq<char> {
        "-"@ + dashes(self.maze.cols as nat) + "\n"@
    }

    /// The mark behind a slot: `S` in the start cell, `F` in the goal cell,
    /// a space elsewhere, then the bar that closes the slot.
    pub open spec fn mark(self, p: (int, int)) -> Seq<char> {
        if p == self.start {
            "S|"@
        } else if p == self.finish {
            "F|"@
        } else {
            " |"@
        }
    }

    /// Slot `i` of the cell at `p`, as it stands in the dump.
    pub open spec fn slot_text(self, p: (int, int), i: int) -> Seq<char> {
        " "@ + action_text(self.cell(p).action_slot(i), self.cell(p).value_slot(i)) + self.mark(p)
    }

    /// The first `n` slots of line `i` of row `m`, behind the opening bar.
    pub open spec fn line_prefix(self, m: int, i: int, n: nat) -> Seq<char>
        decreases n,
    {
        if n == 0 {
            "|"@
        } else {
            self.line_prefix(m, i, (n - 1) as nat) + self.slot_text((m, n - 1), i)
        }
    }

    /// Line `i` of row `m`: slot `i` of every cell of the row.
    pub open spec fn line(self, m: int, i: int) -> Seq<char> {
        self.line_prefix(m, i, self.maze.cols as nat) + "\n"@
    }

    /// The first `i` lines of row `m`.
    pub open spec fn lines(self, m: int, i: nat) -> Seq<char>
        decreases i,
    {
        if i == 0 {
            Seq::empty()
        } else {
            self.lines(m, (i - 1) as nat) + self.line(m, i - 1)
        }
    }

    /// The first `m` rows: four lines each, and a rule below.
    pub open spec fn blocks(self, m: nat) -> Seq<char>
        decreases m,
    {
        if m == 0 {
            Seq::empty()
        } else {
            self.blocks((m - 1) as nat) + self.lines(m - 1, 4) + self.rule()
        }
    }

    /// The dump of the whole board.
    pub open spec fn text(self) -> Seq<char> {
        self.rule() + self.blocks(self.maze.rows as nat)
    }
}

/// Calls `String::push` of std, which appends the character to the end of
/// the string.
#[verifier::external_body]
fn push_char(s: &mut String, c: char)
    ensures
        final(s)@ == old(s)@.push(c),
{
    s.push(c)
}

/// The character of the decimal digit `d`.
pub fn digit_char(d: u64) -> (c: char)
    requires
        d < 10,
    ensures
        c == digit(d as int),
{
    if d == 0 {
        '0'
    } else if d == 1 {
        '1'
    } else if d == 2 {
        '2'
    } else if d == 3 {
        '3'
    } else if d == 4 {
        '4'
    } else if d == 5 {
        '5'
    } else if d == 6 {
        '6'
    } else if d == 7 {
        '7'
    } else if d == 8 {
        '8'
    } else {
        '9'
    }
}

/// The digits gathered so far, last gathered first.
spec fn gathered(rev: Seq<char>) -> Seq<char> {
    Seq::new(rev.len(), |i: int| rev[rev.len() - 1 - i])
}

/// The numeral of `m`, or nothing where `m` is zero.
spec fn numeral_left(m: nat) -> Seq<char> {
    if m == 0 {
        Seq::empty()
    } else {
        decimal(m)
    }
}

/// Appends the decimal numeral of `n` to `out`.
pub fn push_decimal(out: &mut String, n: u64)
    ensures
        final(out)@ == old(out)@ + decimal(n as nat),
{
    let mut rev: Vec<char> = Vec::new();
    rev.push(digit_char(n % 10));
    let mut m: u64 = n / 10;
    assert(decimal(n as nat) =~= numeral_left(m as nat) + gathered(rev@));
    while m > 0
        invariant
            rev@.len() > 0,
            decimal(n as nat) == numeral_left(m as nat) + gathered(rev@),
        decreases m,
    {
        let ghost before = rev@;
        rev.push(digit_char(m % 10));
        proof {
            assert(numeral_left(m as nat) + gathered(before) =~= numeral_left((m / 10) as nat)
                + gathered(rev@));
        }
        m = m / 10;
    }
    let mut i: usize = rev.len();
    while i > 0
        invariant
            i <= rev@.len(),
            out@ == old(out)@ + gathered(rev@).take(rev@.len() - i),
        decreases i,
    {
        i -= 1;
        push_char(out, rev[i]);
        proof {
            assert(gathered(rev@).take(rev@.len() - i) =~= gathered(rev@).take(
                rev@.len() - i - 1,
            ).push(rev@[i as int]));
            assert(out@ =~= old(out)@ + gathered(rev@).take(rev@.len() - i));
        }
    }
    proof {
        assert(gathered(rev@).take(rev@.len() as int) =~= gathered(rev@));
        assert(numeral_left(0) + gathered(rev@) =~= gathered(rev@));
    }
}

/// A fixed-point quantity written with one decimal place.
pub fn value_formatted(v: i64) -> (text: String)
    ensures
        text@ == value_text(v),
{
    let mut out = String::new();
    let magnitude: u64 = if v < 0 {
        push_char(&mut out, '-');
        (-(v as i128)) as u64
    } else {
        v as u64
    };
    let rounded: u64 = (magnitude + 5_000) / 10_000;
    assert(rounded == tenths(v as int));
    push_decimal(&mut out, rounded / 10);
    push_char(&mut out, '.');
    push_char(&mut out, digit_char(rounded % 10));
    proof {
        assert(out@ =~= value_text(v));
    }
    out
}

/// Appends spaces to `out` until it has `width` characters. `len` is the
/// number of characters that `out` has.
fn pad_to(out: &mut String, len: usize, width: usize)
    requires
        len == old(out)@.len(),
    ensures
        final(out)@ == padded(old(out)@, width as nat),
{
    let mut have: usize = len;
    while have < width
        invariant
            len <= have,
            have <= width || have == len,
            out@ == old(out)@ + spaces((have - len) as nat),
        decreases width - have,
    {
        push_char(out, ' ');
        have += 1;
        proof {
            assert(out@ =~= old(out)@ + spaces((have - len) as nat));
        }
    }
    proof {
        assert(old(out)@ + spaces(0) =~= old(out)@);
    }
}

/// One slot of a cell's block in the board dump: the symbol of the move and
/// its value estimate with one decimal place, in a field of seven
/// characters; a row of underscores where the estimate is missing; ten
/// spaces where the move is missing.
pub fn action_formatted(x: Option<&Action>, weight: Option<&i64>) -> (text: String)
    ensures
        text@ == action_text(
            match x {
                Some(a) => Some(*a),
                None => None,
            },
            match weight {
                Some(w) => Some(*w),
                None => None,
            },
        ),
{
    if let Some(action) = x {
        let action_text = match action {
            Action::Up => "\u{2191}",
            Action::Right => "\u{2192}",
            Action::Down => "\u{2193}",
            Action::Left => "\u{2190}",
        };
        let mut weight_format = if let Some(w) = weight {
            value_formatted(*w)
        } else {
            String::from_str("_______")
        };
        let len = weight_format.as_str().unicode_len();
        pad_to(&mut weight_format, len, 7);
        let mut out = String::from_str(action_text);
        out.append(": ");
        out.append(weight_format.as_str());
        out
    } else {
        String::from_str("          ")
    }
}

impl State {
    /// The one-line dump of the cell state: the symbols of its moves and
    /// their value estimates.
    pub fn to_text(&self) -> (text: String)
        ensures
            text@ == self@.text(),
    {
        let mut acts = String::new();
        let mut i: usize = 0;
        while i < self.actions.len()
            invariant
                i <= self.actions@.len(),
                acts@ == symbols(self.actions@.take(i as int)),
            decreases self.actions@.len() - i,
        {
            let arrow = match self.actions[i] {
                Action::Up => "\u{2191}",
                Action::Right => "\u{2192}",
                Action::Down => "\u{2193}",
                Action::Left => "\u{2190}",
            };
            acts.append(arrow);
            proof {
                assert(self.actions@.take(i + 1).drop_last() =~= self.actions@.take(i as int));
            }
            i += 1;
        }
        let mut vals = String::new();
        let mut k: usize = 0;
        while k < self.action_values.len()
            invariant
                k <= self.action_values@.len(),
                vals@ == joined(self.action_values@.take(k as int)),
            decreases self.action_values@.len() - k,
        {
            if k > 0 {
                vals.append(" ");
            }
            let one = value_formatted(self.action_values[k]);
            vals.append(one.as_str());
            proof {
                let upto = self.action_values@.take(k + 1);
                assert(upto.drop_last() =~= self.action_values@.take(k as int));
                assert(upto.last() == self.action_values@[k as int]);
                if k == 0 {
                    assert(upto[0] == self.action_values@[0]);
                    assert(vals@ =~= value_text(self.action_values@[0]));
                }
            }
            k += 1;
        }
        proof {
            assert(self.actions@.take(i as int) =~= self.actions@);
            assert(self.action_values@.take(k as int) =~= self.action_values@);
        }
        let mut out = String::from_str("[<");
        out.append(acts.as_str());
        out.append("> | <");
        out.append(vals.as_str());
        out.append(">]");
        out
    }
}

impl Board {
    /// The horizontal rule of the dump: one dash, thirteen more for every
    /// column, and a line break.
    fn rule_text(&self) -> (text: String)
        ensures
            text@ == self@.rule(),
    {
        let cols = self.columns();
        let mut out = String::from_str("-");
        let mut n: usize = 0;
        while n < cols
            invariant
                cols == self@.maze.cols,
                n <= cols,
                out@ == "-"@ + dashes(n as nat),
            decreases self@.maze.cols - n,
        {
            out.append("-------------");
            n += 1;
            proof {
                assert(out@ =~= "-"@ + dashes(n as nat));
            }
        }
        out.append("\n");
        out
    }

    /// Line `i` of row `m` of the dump.
    fn line_text(&self, m: usize, i: usize) -> (text: String)
        requires
            self@.wf(),
            m < self@.maze.rows,
        ensures
            text@ == self@.line(m as int, i as int),
    {
        let start = self.start();
        let finish = self.finish();
        let cols = self.columns();
        let mut out = String::from_str("|");
        let mut n: usize = 0;
        while n < cols
            invariant
                self@.wf(),
                m < self@.maze.rows,
                cols == self@.maze.cols,
                n <= cols,
                at(start) == self@.start,
                at(finish) == self@.finish,
                out@ == self@.line_prefix(m as int, i as int, n as nat),
            decreases self@.maze.cols - n,
        {
            let col = self.state(m, n);
            let action = if i < col.actions.len() {
                Some(&col.actions[i])
            } else {
                None
            };
            let weight = if i < col.action_values.len() {
                Some(&col.action_values[i])
            } else {
                None
            };
            let formatted = action_formatted(action, weight);
            out.append(" ");
            out.append(formatted.as_str());
            if m == start.0 && n == start.1 {
                out.append("S|");
            } else if m == finish.0 && n == finish.1 {
                out.append("F|");
            } else {
                out.append(" |");
            }
            n += 1;
            proof {
                assert(out@ =~= self@.line_prefix(m as int, i as int, n as nat));
            }
        }
        out.append("\n");
        out
    }

    /// The dump of the whole board: for every cell a block of four slots,
    /// one for each move that the cell may have, with the move's symbol and
    /// value estimate; the start cell is marked `S` and the goal cell `F`.
    pub fn to_text(&self) -> (text: String)
        requires
            self@.wf(),
        ensures
            text@ == self@.text(),
    {
        let rule = self.rule_text();
        let mut out = String::new();
        out.append(rule.as_str());
        let rows = self.rows();
        let mut m: usize = 0;
        while m < rows
            invariant
                self@.wf(),
                rows == self@.maze.rows,
                m <= rows,
                rule@ == self@.rule(),
                out@ == self@.rule() + self@.blocks(m as nat),
            decreases self@.maze.rows - m,
        {
            let ghost before = out@;
            let mut i: usize = 0;
            while i < 4
                invariant
                    self@.wf(),
                    m < self@.maze.rows,
                    i <= 4,
                    out@ == before + self@.lines(m as int, i as nat),
                decreases 4 - i,
            {
                let line = self.line_text(m, i);
                out.append(line.as_str());
                i += 1;
                proof {
                    assert(out@ =~= before + self@.lines(m as int, i as nat));
                }
            }
            out.append(rule.as_str());
            m += 1;
            proof {
                assert(out@ =~= self@.rule() + self@.blocks(m as nat));
            }
        }
        out
    }
}

} // verus!
