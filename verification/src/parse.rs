use vstd::prelude::*;
use vstd::string::StringSliceAdditionalSpecFns;
use crate::SIZE;
use crate::matrix::CompatibilityMatrix;

verus! {

/// The byte that ends a line.
pub const NEWLINE: u8 = 10;

/// The byte that may stand before the end of a line and is not part of it.
pub const CARRIAGE_RETURN: u8 = 13;

/// The byte that parts the fields of a line.
pub const COMMA: u8 = 44;

/// The field of an incompatible pair.
pub const ZERO: u8 = 48;

/// The field of a compatible pair.
pub const ONE: u8 = 49;

/// Why a text was refused.
#[derive(Clone, Copy, Debug, PartialEq, Eq)]
pub enum ParseError {
    /// The text holds no line.
    Empty,
    /// Among the first rows, a field right of the diagonal is neither `0` nor
    /// `1`, or lies beyond the last column.
    BadCell { line: usize, field: usize },
}

/// The first position from `from` on and before `to` that holds `byte`; `to`
/// where there is none.
pub open spec fn first_of(s: Seq<u8>, byte: u8, from: int, to: int) -> int
    decreases to - from,
{
    if from >= to {
        to
    } else if s[from] == byte {
        from
    } else {
        first_of(s, byte, from + 1, to)
    }
}

/// Where line `k` begins: behind the newline that ends the line before.
pub open spec fn line_start(s: Seq<u8>, k: int) -> int
    decreases k,
{
    if k <= 0 {
        0
    } else {
        first_of(s, NEWLINE, line_start(s, k - 1), s.len() as int) + 1
    }
}

/// Whether the text holds a line `k`. What follows the last newline is a line
/// only where it is not empty.
pub open spec fn has_line(s: Seq<u8>, k: int) -> bool {
    0 <= k && line_start(s, k) < s.len()
}

/// Whether line `k` is the last line of the text.
pub open spec fn last_line(s: Seq<u8>, k: int) -> bool {
    has_line(s, k) && !has_line(s, k + 1)
}

/// Where line `k` stops: before its newline, and before a carriage return
/// that stands directly in front of that newline.
pub open spec fn line_stop(s: Seq<u8>, k: int) -> int {
    let start = line_start(s, k);
    let end = first_of(s, NEWLINE, start, s.len() as int);
    if start < end < s.len() && s[end - 1] == CARRIAGE_RETURN {
        end - 1
    } else {
        end
    }
}

/// Where field `j` of line `k` begins: behind the comma that ends the field
/// before.
pub open spec fn field_start(s: Seq<u8>, k: int, j: int) -> int
    decreases j,
{
    if j <= 0 {
        line_start(s, k)
    } else {
        first_of(s, COMMA, field_start(s, k, j - 1), line_stop(s, k)) + 1
    }
}

/// Where field `j` of line `k` stops.
pub open spec fn field_stop(s: Seq<u8>, k: int, j: int) -> int {
    first_of(s, COMMA, field_start(s, k, j), line_stop(s, k))
}

/// Whether line `k` holds a field `j`. A line holds one field more than it
/// holds commas.
pub open spec fn has_field(s: Seq<u8>, k: int, j: int) -> bool {
    has_line(s, k) && 0 <= j && field_start(s, k, j) <= line_stop(s, k)
}

/// Whether field `j` of line `k` is the single byte `byte`.
pub open spec fn field_is(s: Seq<u8>, k: int, j: int, byte: u8) -> bool {
    has_field(s, k, j) && field_stop(s, k, j) == field_start(s, k, j) + 1 && s[field_start(
        s,
        k,
        j,
    )] == byte
}

/// Whether field `j` of line `k` stands right of the diagonal in one of the
/// rows of the relation and cannot be read as a cell of it.
pub open spec fn offending(s: Seq<u8>, k: int, j: int) -> bool {
    0 <= k < SIZE && k < j && has_field(s, k, j) && (j >= SIZE || !(field_is(s, k, j, ZERO)
        || field_is(s, k, j, ONE)))
}

/// Whether `spans` holds the bounds of the fields of line `k`, in order.
pub open spec fn spans_of(s: Seq<u8>, k: int, spans: Seq<(usize, usize)>) -> bool {
    &&& spans.len() >= 1
    &&& !has_field(s, k, spans.len() as int)
    &&& forall|t: int|
        0 <= t < spans.len() ==> has_field(s, k, t) && (#[trigger] spans[t]).0 == field_start(
            s,
            k,
            t,
        ) && spans[t].1 == field_stop(s, k, t)
}

/// What reading the text `s` gives. An empty text is refused; so is a text
/// with a field that cannot be read, and the error names the first such
/// field. Otherwise two items are compatible where the row of the lower one
/// holds `1` in the column of the higher one, and the spans are those of the
/// fields of the last line.
pub open spec fn parsed(
    s: Seq<u8>,
    r: Result<(CompatibilityMatrix, Vec<(usize, usize)>), ParseError>,
) -> bool {
    match r {
        Err(ParseError::Empty) => s.len() == 0,
        Err(ParseError::BadCell { line, field }) => {
            &&& offending(s, line as int, field as int)
            &&& forall|k: int, j: int|
                k < line || (k == line && j < field) ==> !#[trigger] offending(s, k, j)
        },
        Ok((matrix, spans)) => {
            &&& s.len() > 0
            &&& forall|k: int, j: int| !#[trigger] offending(s, k, j)
            &&& matrix.wf()
            &&& forall|a: int, b: int|
                0 <= a < b < SIZE ==> #[trigger] matrix.compatible(a, b) == field_is(s, a, b, ONE)
            &&& exists|k: int| last_line(s, k) && spans_of(s, k, spans@)
        },
    }
}

/// Behind the last field of a line there is no further field.
pub proof fn lemma_no_more_fields(s: Seq<u8>, k: int, j: int, later: int)
    requires
        0 <= j <= later,
        field_start(s, k, j) > line_stop(s, k),
    ensures
        field_start(s, k, later) > line_stop(s, k),
    decreases later,
{
    if later > j {
        lemma_no_more_fields(s, k, j, later - 1);
    }
}

/// Behind the last line of a text there is no further line.
pub proof fn lemma_no_more_lines(s: Seq<u8>, k: int, later: int)
    requires
        0 <= k <= later,
        !has_line(s, k),
    ensures
        !has_line(s, later),
    decreases later,
{
    if later > k {
        lemma_no_more_lines(s, k, later - 1);
    }
}

/// A text has one last line at most.
pub proof fn lemma_last_line_unique(s: Seq<u8>, a: int, b: int)
    requires
        last_line(s, a),
        last_line(s, b),
    ensures
        a == b,
{
    if a < b {
        lemma_no_more_lines(s, a + 1, b);
    } else if b < a {
        lemma_no_more_lines(s, b + 1, a);
    }
}

/// Finds the first `byte` between two positions.
fn find(bytes: &[u8], byte: u8, from: usize, to: usize) -> (r: usize)
    requires
        from <= to <= bytes@.len(),
    ensures
        r == first_of(bytes@, byte, from as int, to as int),
        from <= r <= to,
{
    let mut i = from;
    while i < to && bytes[i] != byte
        invariant
            from <= i <= to <= bytes@.len(),
            first_of(bytes@, byte, from as int, to as int) == first_of(
                bytes@,
                byte,
                i as int,
                to as int,
            ),
        decreases to - i,
    {
        i += 1;
    }
    i
}

/// Reads the fields of row `line` that stand right of the diagonal into the
/// relation, and reports the first that cannot be read.
fn parse_row(
    bytes: &[u8],
    matrix: &mut CompatibilityMatrix,
    line: usize,
    start: usize,
    stop: usize,
) -> (r: Option<usize>)
    requires
        line < SIZE,
        has_line(bytes@, line as int),
        start == line_start(bytes@, line as int),
        stop == line_stop(bytes@, line as int),
        start <= stop <= bytes@.len(),
        old(matrix).wf(),
        forall|b: int| line < b < SIZE ==> !#[trigger] old(matrix).compatible(line as int, b),
    ensures
        match r {
            Some(j) => {
                &&& offending(bytes@, line as int, j as int)
                &&& forall|e: int| e < j ==> !#[trigger] offending(bytes@, line as int, e)
            },
            None => {
                &&& forall|e: int| !#[trigger] offending(bytes@, line as int, e)
                &&& final(matrix).wf()
                &&& forall|a: int, b: int|
                    0 <= a < b < SIZE ==> #[trigger] final(matrix).compatible(a, b) == (if a
                        == line {
                        field_is(bytes@, a, b, ONE)
                    } else {
                        old(matrix).compatible(a, b)
                    })
            },
        },
{
    let ghost s = bytes@;
    let ghost k = line as int;
    let mut j: usize = 0;
    let mut from: usize = start;
    let mut more = true;
    while more
        invariant
            line < SIZE,
            s == bytes@,
            k == line as int,
            has_line(s, k),
            start == line_start(s, k),
            stop == line_stop(s, k),
            start <= stop <= s.len(),
            start + j <= from,
            from <= stop + 1,
            more ==> from <= stop,
            from == field_start(s, k, j as int),
            matrix.wf(),
            forall|e: int|
                e < j || (!more && e == j) ==> !#[trigger] offending(s, k, e),
            !more ==> field_stop(s, k, j as int) >= stop,
            forall|a: int, b: int|
                0 <= a < b < SIZE ==> #[trigger] matrix.compatible(a, b) == (if a == line {
                    (b < j || (!more && b == j)) && field_is(s, a, b, ONE)
                } else {
                    old(matrix).compatible(a, b)
                }),
        decreases stop + 1 - from + (if more { 1int } else { 0int }),
    {
        let to = find(bytes, COMMA, from, stop);
        if j > line {
            let one = to - from == 1 && bytes[from] == ONE;
            let zero = to - from == 1 && bytes[from] == ZERO;
            if j >= SIZE || !(one || zero) {
                return Some(j);
            }
            let ghost before = *matrix;
            matrix.set(line, j, one);
            proof {
                assert forall|a: int, b: int| 0 <= a < b < SIZE implies #[trigger] matrix.compatible(
                    a,
                    b,
                ) == (if a == line {
                    b <= j && field_is(s, a, b, ONE)
                } else {
                    old(matrix).compatible(a, b)
                }) by {
                    assert(before.compatible(a, b) == (if a == line {
                        b < j && field_is(s, a, b, ONE)
                    } else {
                        old(matrix).compatible(a, b)
                    }));
                }
            }
        } else {
            proof {
                assert forall|a: int, b: int| 0 <= a < b < SIZE implies #[trigger] matrix.compatible(
                    a,
                    b,
                ) == (if a == line {
                    b <= j && field_is(s, a, b, ONE)
                } else {
                    old(matrix).compatible(a, b)
                }) by {
                }
            }
        }
        if to < stop {
            from = to + 1;
            j += 1;
        } else {
            more = false;
        }
    }
    proof {
        assert forall|e: int| !#[trigger] offending(s, k, e) by {
            if e > j {
                lemma_no_more_fields(s, k, j + 1, e);
            }
        }
        assert forall|a: int, b: int| 0 <= a < b < SIZE implies #[trigger] matrix.compatible(a, b)
            == (if a == line {
            field_is(s, a, b, ONE)
        } else {
            old(matrix).compatible(a, b)
        }) by {
            if a == line && b > j {
                lemma_no_more_fields(s, k, j + 1, b);
            }
        }
    }
    None
}

/// Lists the bounds of the fields of a line.
fn split_fields(bytes: &[u8], line: usize, start: usize, stop: usize) -> (r: Vec<(usize, usize)>)
    requires
        has_line(bytes@, line as int),
        start == line_start(bytes@, line as int),
        stop == line_stop(bytes@, line as int),
        start <= stop <= bytes@.len(),
    ensures
        spans_of(bytes@, line as int, r@),
{
    let ghost s = bytes@;
    let ghost k = line as int;
    let mut spans: Vec<(usize, usize)> = Vec::new();
    let mut from: usize = start;
    let mut more = true;
    while more
        invariant
            s == bytes@,
            k == line as int,
            has_line(s, k),
            start == line_start(s, k),
            stop == line_stop(s, k),
            start <= stop <= s.len(),
            from <= stop + 1,
            more ==> from <= stop,
            more ==> from == field_start(s, k, spans@.len() as int),
            !more ==> spans@.len() >= 1 && field_start(s, k, spans@.len() as int) > stop,
            forall|t: int|
                0 <= t < spans@.len() ==> (#[trigger] spans@[t]).0 == field_start(s, k, t)
                    && spans@[t].1 == field_stop(s, k, t) && spans@[t].0 <= stop,
        decreases stop + 1 - from + (if more { 1int } else { 0int }),
    {
        let to = find(bytes, COMMA, from, stop);
        let ghost prev = spans@;
        spans.push((from, to));
        proof {
            assert forall|t: int| 0 <= t < spans@.len() implies (#[trigger] spans@[t]).0
                == field_start(s, k, t) && spans@[t].1 == field_stop(s, k, t) && spans@[t].0
                <= stop by {
                if t < prev.len() {
                    assert(spans@[t] == prev[t]);
                }
            }
        }
        if to < stop {
            from = to + 1;
        } else {
            more = false;
        }
    }
    proof {
        assert forall|t: int| 0 <= t < spans@.len() implies has_field(s, k, t) by {
            assert(spans@[t].0 <= stop);
        }
    }
    spans
}

/// Reads a relation and the fields of the weights from the bytes of a text.
/// The first rows of the text hold the relation, one line per item, fields
/// parted by commas; only the fields right of the diagonal are read. The last
/// line holds the weights, and the bounds of its fields are handed back.
pub fn parse_bytes(bytes: &[u8]) -> (r: Result<(CompatibilityMatrix, Vec<(usize, usize)>), ParseError>)
    ensures
        parsed(bytes@, r),
{
    let ghost s = bytes@;
    let n = bytes.len();
    if n == 0 {
        return Err(ParseError::Empty);
    }
    let mut matrix = CompatibilityMatrix::new();
    let mut line: usize = 0;
    let mut start: usize = 0;
    let mut stop: usize = 0;
    let mut more = true;
    while more
        invariant
            s == bytes@,
            n == s.len(),
            line <= start < n,
            start == line_start(s, line as int),
            !more ==> stop == line_stop(s, line as int) && start <= stop <= n && !has_line(
                s,
                line + 1,
            ),
            matrix.wf(),
            forall|k: int, j: int|
                k < line || (!more && k == line) ==> !#[trigger] offending(s, k, j),
            forall|a: int, b: int|
                0 <= a < b < SIZE ==> #[trigger] matrix.compatible(a, b) == ((a < line || (!more
                    && a == line)) && field_is(s, a, b, ONE)),
        decreases n - start + (if more { 1int } else { 0int }),
    {
        let end = find(bytes, NEWLINE, start, n);
        stop = if start < end && end < n && bytes[end - 1] == CARRIAGE_RETURN {
            end - 1
        } else {
            end
        };
        if line < SIZE {
            match parse_row(bytes, &mut matrix, line, start, stop) {
                Some(field) => {
                    return Err(ParseError::BadCell { line, field });
                },
                None => {},
            }
        }
        if end < n - 1 {
            start = end + 1;
            line += 1;
        } else {
            more = false;
        }
    }
    let spans = split_fields(bytes, line, start, stop);
    proof {
        assert forall|k: int, j: int| !#[trigger] offending(s, k, j) by {
            if k > line {
                lemma_no_more_lines(s, line + 1, k);
            }
        }
        assert forall|a: int, b: int| 0 <= a < b < SIZE implies #[trigger] matrix.compatible(a, b)
            == field_is(s, a, b, ONE) by {
            if a > line {
                lemma_no_more_lines(s, line + 1, a);
            }
        }
        assert(last_line(s, line as int) && spans_of(s, line as int, spans@));
    }
    Ok((matrix, spans))
}

/// Reads a relation and the fields of the weights from a text; see
/// `parse_bytes`.
pub fn parse_input(input: &str) -> (r: Result<(CompatibilityMatrix, Vec<(usize, usize)>), ParseError>)
    ensures
        parsed(input.spec_bytes(), r),
{
    parse_bytes(input.as_bytes())
}

} // verus!
