use vstd::prelude::*;
use vstd::string::StringExecFns;
use crate::SIZE;
use crate::bits::{bit, member};
use crate::matrix::{related, CompatibilityMatrix};
use crate::weights::WEIGHT_UNIT;

verus! {

/// The text of one decimal digit.
pub open spec fn digit(d: int) -> Seq<char> {
    if d == 0 {
        "0"@
    } else if d == 1 {
        "1"@
    } else if d == 2 {
        "2"@
    } else if d == 3 {
        "3"@
    } else if d == 4 {
        "4"@
    } else if d == 5 {
        "5"@
    } else if d == 6 {
        "6"@
    } else if d == 7 {
        "7"@
    } else if d == 8 {
        "8"@
    } else {
        "9"@
    }
}

/// The text of a number in decimal digits, without leading zeros.
pub open spec fn decimal(n: int) -> Seq<char>
    decreases n,
{
    if n < 10 {
        digit(n)
    } else {
        decimal(n / 10) + digit(n % 10)
    }
}

/// The text of a weight: its wholes, a point, and four decimal places.
pub open spec fn fixed(weight: int) -> Seq<char> {
    decimal(weight / WEIGHT_UNIT as int) + "."@ + digit(weight / 1000 % 10) + digit(weight / 100 % 10) + digit(
        weight / 10 % 10,
    ) + digit(weight % 10)
}

/// The column titles of the first `n` items.
pub open spec fn titles_below(n: int) -> Seq<char>
    decreases n,
{
    if n <= 0 {
        Seq::empty()
    } else {
        titles_below(n - 1) + ",TH"@ + decimal(n)
    }
}

/// One mark for each of the first `n` items: `1` for a member of `mask`, `0`
/// for another, each followed by a comma.
pub open spec fn marks_below(mask: u64, n: int) -> Seq<char>
    decreases n,
{
    if n <= 0 {
        Seq::empty()
    } else {
        marks_below(mask, n - 1) + if bit(mask, n - 1) {
            "1,"@
        } else {
            "0,"@
        }
    }
}

/// The row of the answer at position `index`.
pub open spec fn row(index: int, answer: (u64, u64)) -> Seq<char> {
    "GH"@ + decimal(index + 1) + ","@ + marks_below(answer.0, SIZE as int) + fixed(answer.1 as int)
        + "\n"@
}

/// The rows of the first `n` answers.
pub open spec fn rows_below(answers: Seq<(u64, u64)>, n: int) -> Seq<char>
    decreases n,
{
    if n <= 0 {
        Seq::empty()
    } else {
        rows_below(answers, n - 1) + row(n - 1, answers[n - 1])
    }
}

/// The table of the answers: a line of titles, then one row per answer.
pub open spec fn report(answers: Seq<(u64, u64)>) -> Seq<char> {
    titles_below(SIZE as int) + ",sum(w)\n"@ + rows_below(answers, answers.len() as int)
}

/// The cells of the first `n` columns of row `i`, each followed by a blank.
pub open spec fn cells_below(relation: Seq<Seq<bool>>, i: int, n: int) -> Seq<char>
    decreases n,
{
    if n <= 0 {
        Seq::empty()
    } else {
        cells_below(relation, i, n - 1) + if related(relation, i, n - 1) {
            "1 "@
        } else {
            "0 "@
        }
    }
}

/// The first `n` rows of a relation, one line each.
pub open spec fn lines_below(relation: Seq<Seq<bool>>, n: int) -> Seq<char>
    decreases n,
{
    if n <= 0 {
        Seq::empty()
    } else {
        lines_below(relation, n - 1) + cells_below(relation, n - 1, SIZE as int) + "\n"@
    }
}

/// The text of one decimal digit.
fn digit_text(d: u64) -> (r: &'static str)
    requires
        d < 10,
    ensures
        r@ == digit(d as int),
{
    if d == 0 {
        "0"
    } else if d == 1 {
        "1"
    } else if d == 2 {
        "2"
    } else if d == 3 {
        "3"
    } else if d == 4 {
        "4"
    } else if d == 5 {
        "5"
    } else if d == 6 {
        "6"
    } else if d == 7 {
        "7"
    } else if d == 8 {
        "8"
    } else {
        "9"
    }
}

/// Appends a number in decimal digits.
fn push_decimal(out: &mut String, n: u64)
    ensures
        final(out)@ == old(out)@ + decimal(n as int),
    decreases n,
{
    if n < 10 {
        out.append(digit_text(n));
    } else {
        push_decimal(out, n / 10);
        out.append(digit_text(n % 10));
        proof {
            assert(out@ =~= old(out)@ + (decimal(n as int / 10) + digit(n as int % 10)));
        }
    }
}

/// Appends a weight with four decimal places.
fn push_fixed(out: &mut String, weight: u64)
    ensures
        final(out)@ == old(out)@ + fixed(weight as int),
{
    push_decimal(out, weight / WEIGHT_UNIT);
    out.append(".");
    out.append(digit_text(weight / 1000 % 10));
    out.append(digit_text(weight / 100 % 10));
    out.append(digit_text(weight / 10 % 10));
    out.append(digit_text(weight % 10));
    proof {
        assert(out@ =~= old(out)@ + fixed(weight as int));
    }
}

/// Writes the answers as a table with a line of titles and one row per
/// answer: the position, a mark per item, and the weight.
pub fn format_answers(answers: &Vec<(u64, u64)>) -> (r: String)
    ensures
        r@ == report(answers@),
{
    let mut out = String::new();
    let mut th: usize = 0;
    while th < SIZE
        invariant
            th <= SIZE,
            out@ == titles_below(th as int),
        decreases SIZE - th,
    {
        let ghost before = out@;
        out.append(",TH");
        push_decimal(&mut out, (th + 1) as u64);
        proof {
            assert(out@ =~= before + ",TH"@ + decimal(th + 1));
        }
        th += 1;
    }
    out.append(",sum(w)\n");
    let ghost head = out@;
    let mut i: usize = 0;
    while i < answers.len()
        invariant
            i <= answers@.len(),
            head == titles_below(SIZE as int) + ",sum(w)\n"@,
            out@ == head + rows_below(answers@, i as int),
        decreases answers@.len() - i,
    {
        let answer = answers[i];
        let ghost before = out@;
        out.append("GH");
        push_decimal(&mut out, (i + 1) as u64);
        out.append(",");
        let ghost lead = out@;
        let mut th: usize = 0;
        while th < SIZE
            invariant
                th <= SIZE,
                out@ == lead + marks_below(answer.0, th as int),
            decreases SIZE - th,
        {
            if member(answer.0, th) {
                out.append("1,");
            } else {
                out.append("0,");
            }
            proof {
                assert(out@ =~= lead + marks_below(answer.0, th + 1));
            }
            th += 1;
        }
        push_fixed(&mut out, answer.1);
        out.append("\n");
        proof {
            assert(out@ =~= before + row(i as int, answer));
            assert(out@ =~= head + rows_below(answers@, i + 1));
        }
        i += 1;
    }
    out
}

impl CompatibilityMatrix {
    /// The text of the relation.
    pub open spec fn text(&self) -> Seq<char> {
        lines_below(self@, SIZE as int)
    }

    /// Writes the relation as text: one line per item, and in it `1` or `0`
    /// per item, each followed by a blank.
    pub fn to_text(&self) -> (r: String)
        ensures
            r@ == self.text(),
    {
        let mut out = String::new();
        let mut i: usize = 0;
        while i < SIZE
            invariant
                i <= SIZE,
                out@ == lines_below(self@, i as int),
            decreases SIZE - i,
        {
            let ghost before = out@;
            let mut j: usize = 0;
            while j < SIZE
                invariant
                    i < SIZE,
                    j <= SIZE,
                    out@ == before + cells_below(self@, i as int, j as int),
                decreases SIZE - j,
            {
                if self.get(i, j) {
                    out.append("1 ");
                } else {
                    out.append("0 ");
                }
                proof {
                    assert(out@ =~= before + cells_below(self@, i as int, j + 1));
                }
                j += 1;
            }
            out.append("\n");
            proof {
                assert(out@ =~= lines_below(self@, i + 1));
            }
            i += 1;
        }
        out
    }
}

} // verus!
