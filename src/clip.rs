//! Parsing of the `start..end` range notation used to clip records.

use vstd::prelude::*;

verus! {

/// Why a range could not be read.
#[derive(Clone, Copy, Debug, PartialEq, Eq, Structural)]
pub enum RangeError {
    /// A bound is not a decimal number that fits in `usize`.
    InvalidNumber,
    /// The text holds no `..` between its bounds.
    MissingSeparator,
}

pub open spec fn is_digit(c: char) -> bool {
    '0' <= c && c <= '9'
}

pub open spec fn all_digits(s: Seq<char>) -> bool {
    forall|i: int| 0 <= i < s.len() ==> is_digit(#[trigger] s[i])
}

/// The value of a string of decimal digits.
pub open spec fn digits_value(s: Seq<char>) -> nat
    decreases s.len(),
{
    if s.len() == 0 {
        0
    } else {
        digits_value(s.drop_last()) * 10 + (s.last() as nat - '0' as nat) as nat
    }
}

/// The `usize` that text denotes as an unsigned decimal: an optional `+`,
/// then one or more digits, of a value that fits.
pub open spec fn decimal(s: Seq<char>) -> Option<usize> {
    let d = if s.len() > 0 && s[0] == '+' {
        s.drop_first()
    } else {
        s
    };
    if d.len() > 0 && all_digits(d) && digits_value(d) <= usize::MAX {
        Some(digits_value(d) as usize)
    } else {
        None
    }
}

/// `s` holds `..` at index `i`.
pub open spec fn separator_at(s: Seq<char>, i: int) -> bool {
    0 <= i && i + 1 < s.len() && s[i] == '.' && s[i + 1] == '.'
}

/// The first index at or after `from` where `s` holds `..`.
pub open spec fn first_separator(s: Seq<char>, from: int) -> Option<int>
    decreases s.len() - from,
{
    if from < 0 || from + 1 >= s.len() {
        None
    } else if separator_at(s, from) {
        Some(from)
    } else {
        first_separator(s, from + 1)
    }
}

/// The text up to the first `..`, or all of it.
pub open spec fn first_piece(s: Seq<char>) -> Seq<char> {
    match first_separator(s, 0) {
        Some(i) => s.subrange(0, i),
        None => s,
    }
}

/// The bounds that range text denotes: `..end`, `start..`, or
/// `start..end`, where `end` reaches to the next `..` if there is one.
pub open spec fn range_of(s: Seq<char>) -> Result<(Option<usize>, Option<usize>), RangeError> {
    let n = s.len() as int;
    if separator_at(s, 0) {
        match decimal(s.subrange(2, n)) {
            Some(end) => Ok((None, Some(end))),
            None => Err(RangeError::InvalidNumber),
        }
    } else if separator_at(s, n - 2) {
        match decimal(s.subrange(0, n - 2)) {
            Some(start) => Ok((Some(start), None)),
            None => Err(RangeError::InvalidNumber),
        }
    } else {
        match first_separator(s, 0) {
            None => Err(RangeError::MissingSeparator),
            Some(i) => match (decimal(s.subrange(0, i)), decimal(first_piece(s.subrange(i + 2, n)))) {
                (Some(start), Some(end)) => Ok((Some(start), Some(end))),
                _ => Err(RangeError::InvalidNumber),
            },
        }
    }
}

proof fn lemma_digits_value_grows(s: Seq<char>, k: int, m: int)
    requires
        0 <= k <= m <= s.len(),
        all_digits(s),
    ensures
        digits_value(s.subrange(0, k)) <= digits_value(s.subrange(0, m)),
    decreases m - k,
{
    if k < m {
        lemma_digits_value_grows(s, k, m - 1);
        assert(s.subrange(0, m).drop_last() =~= s.subrange(0, m - 1));
    }
}

/// The characters of `s`.
fn chars_of(s: &str) -> (r: Vec<char>)
    ensures
        r@ == s@,
{
    let n = s.unicode_len();
    let mut r: Vec<char> = Vec::new();
    let mut i: usize = 0;
    while i < n
        invariant
            n == s@.len(),
            i <= n,
            r@ == s@.subrange(0, i as int),
        decreases n - i,
    {
        r.push(s.get_char(i));
        proof {
            assert(s@.subrange(0, i + 1) =~= s@.subrange(0, i as int).push(s@[i as int]));
        }
        i = i + 1;
    }
    proof {
        assert(s@.subrange(0, n as int) =~= s@);
    }
    r
}

/// Reads `s[from..to]` as an unsigned decimal.
fn parse_decimal(s: &Vec<char>, from: usize, to: usize) -> (r: Option<usize>)
    requires
        from <= to <= s@.len(),
    ensures
        r == decimal(s@.subrange(from as int, to as int)),
{
    let ghost t = s@.subrange(from as int, to as int);
    let start = if from < to && s[from] == '+' {
        from + 1
    } else {
        from
    };
    let ghost d = s@.subrange(start as int, to as int);
    proof {
        if from < to && s@[from as int] == '+' {
            assert(d =~= t.drop_first());
        } else {
            assert(d =~= t);
        }
        assert(decimal(t) == if d.len() > 0 && all_digits(d) && digits_value(d) <= usize::MAX {
            Some(digits_value(d) as usize)
        } else {
            None
        });
    }
    if start == to {
        return None;
    }
    let mut value: usize = 0;
    let mut i: usize = start;
    while i < to
        invariant
            start <= i <= to <= s@.len(),
            start < to,
            d == s@.subrange(start as int, to as int),
            decimal(s@.subrange(from as int, to as int)) == if all_digits(d) && digits_value(d)
                <= usize::MAX {
                Some(digits_value(d) as usize)
            } else {
                None
            },
            all_digits(d.subrange(0, i - start)),
            value as nat == digits_value(d.subrange(0, i - start)),
        decreases to - i,
    {
        let c = s[i];
        if !('0' <= c && c <= '9') {
            assert(!is_digit(d[i - start]));
            return None;
        }
        let digit = (c as u32 - '0' as u32) as usize;
        proof {
            assert(d.subrange(0, i - start + 1).drop_last() =~= d.subrange(0, i - start));
            assert(d.subrange(0, i - start + 1).last() == c);
        }
        if value > (usize::MAX - digit) / 10 {
            proof {
                assert(digits_value(d.subrange(0, i - start + 1)) > usize::MAX) by (nonlinear_arith)
                    requires
                        digits_value(d.subrange(0, i - start + 1)) == value * 10 + digit,
                        value > (usize::MAX - digit) / 10,
                        digit <= 9,
                ;
                if all_digits(d) {
                    lemma_digits_value_grows(d, i - start + 1, d.len() as int);
                    assert(d.subrange(0, d.len() as int) =~= d);
                }
            }
            return None;
        }
        value = value * 10 + digit;
        i = i + 1;
    }
    proof {
        assert(d.subrange(0, d.len() as int) =~= d);
    }
    Some(value)
}

/// The first index at or after `from` where `s` holds `..`.
fn find_separator(s: &Vec<char>, from: usize) -> (r: Option<usize>)
    requires
        from <= s@.len(),
    ensures
        r matches Some(i) ==> first_separator(s@, from as int) == Some(i as int) && from <= i && i
            + 2 <= s@.len(),
        r is None ==> first_separator(s@, from as int) is None,
    decreases s@.len() - from,
{
    if s.len() - from < 2 {
        None
    } else if s[from] == '.' && s[from + 1] == '.' {
        Some(from)
    } else {
        find_separator(s, from + 1)
    }
}

/// Reads range text: `..end` gives only an end, `start..` only a start,
/// `start..end` both.
pub fn parse_range(range: String) -> (r: Result<(Option<usize>, Option<usize>), RangeError>)
    ensures
        r == range_of(range@),
{
    let s = chars_of(range.as_str());
    let n = s.len();
    if n >= 2 && s[0] == '.' && s[1] == '.' {
        match parse_decimal(&s, 2, n) {
            Some(end) => Ok((None, Some(end))),
            None => Err(RangeError::InvalidNumber),
        }
    } else if n >= 2 && s[n - 2] == '.' && s[n - 1] == '.' {
        match parse_decimal(&s, 0, n - 2) {
            Some(start) => Ok((Some(start), None)),
            None => Err(RangeError::InvalidNumber),
        }
    } else {
        match find_separator(&s, 0) {
            None => Err(RangeError::MissingSeparator),
            Some(i) => {
                let end_to = match find_separator(&s, i + 2) {
                    Some(j) => j,
                    None => n,
                };
                proof {
                    let rest = s@.subrange(i + 2, n as int);
                    lemma_first_separator_shift(s@, i + 2, 0);
                    if end_to < n {
                        assert(first_piece(rest) =~= s@.subrange(i + 2, end_to as int));
                    } else {
                        assert(first_piece(rest) =~= s@.subrange(i + 2, n as int));
                    }
                }
                match (parse_decimal(&s, 0, i), parse_decimal(&s, i + 2, end_to)) {
                    (Some(start), Some(end)) => Ok((Some(start), Some(end))),
                    _ => Err(RangeError::InvalidNumber),
                }
            },
        }
    }
}

/// Searching a suffix of `s` finds the separators of `s`, shifted.
proof fn lemma_first_separator_shift(s: Seq<char>, off: int, from: int)
    requires
        0 <= off <= s.len(),
        0 <= from,
    ensures
        first_separator(s.subrange(off, s.len() as int), from) == match first_separator(
            s,
            off + from,
        ) {
            Some(i) => Some(i - off),
            None => None::<int>,
        },
    decreases s.len() - off - from,
{
    let t = s.subrange(off, s.len() as int);
    if from + 1 < t.len() {
        assert(t[from] == s[off + from] && t[from + 1] == s[off + from + 1]);
        lemma_first_separator_shift(s, off, from + 1);
    }
}

} // verus!
