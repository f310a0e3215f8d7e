//! The interactive player's data, and the parsing of a console move
//! entry. Collecting the line itself is blocking input handled outside
//! the library; the game only ever sees the completed move value.

use vstd::prelude::*;

use crate::game::Move;

verus! {

/// An interactive player; the moves themselves are supplied from an
/// external input source.
pub struct HumanPlayer {}

impl HumanPlayer {
    pub fn new() -> (r: Self) {
        HumanPlayer {  }
    }
}

/// A decimal digit.
pub open spec fn is_digit(c: char) -> bool {
    48 <= c as u32 && c as u32 <= 57
}

/// The value of a decimal digit.
pub open spec fn digit_value(c: char) -> int {
    c as u32 - 48
}

/// Every character of the string is a decimal digit.
pub open spec fn all_digits(s: Seq<char>) -> bool {
    forall|i: int| 0 <= i < s.len() ==> is_digit(s[i])
}

/// The number a digit string denotes, most significant digit first.
pub open spec fn digits_value(s: Seq<char>) -> int
    decreases s.len(),
{
    if s.len() == 0 {
        0
    } else {
        digits_value(s.drop_last()) * 10 + digit_value(s.last())
    }
}

/// The number a string denotes: it must be nonempty, all digits, and
/// fit the machine's word.
pub open spec fn spec_parse_number(s: Seq<char>) -> Option<int> {
    if s.len() > 0 && all_digits(s) && digits_value(s) <= usize::MAX {
        Some(digits_value(s))
    } else {
        None
    }
}

/// The index of the first comma at or after `i`, or the length when
/// there is none.
pub open spec fn first_comma(s: Seq<char>, i: int) -> int
    decreases s.len() - i,
{
    if i < 0 || i >= s.len() {
        s.len() as int
    } else if s[i] == ',' {
        i
    } else {
        first_comma(s, i + 1)
    }
}

/// The move a console line denotes: a one-based "row,column" pair,
/// anything after a second comma ignored. `None` when there is no
/// comma, a side of it is not a number, or a coordinate is zero.
pub open spec fn spec_parse_move(s: Seq<char>) -> Option<(int, int)> {
    let i = first_comma(s, 0);
    if i == s.len() {
        None
    } else {
        let rest = s.subrange(i + 1, s.len() as int);
        let j = first_comma(rest, 0);
        match (spec_parse_number(s.subrange(0, i)), spec_parse_number(rest.subrange(0, j))) {
            (Some(x), Some(y)) => if x >= 1 && y >= 1 {
                Some((x - 1, y - 1))
            } else {
                None
            },
            _ => None,
        }
    }
}

/// A digit string denotes a nonnegative number.
proof fn lemma_digits_value_nonneg(s: Seq<char>)
    requires
        all_digits(s),
    ensures
        digits_value(s) >= 0,
    decreases s.len(),
{
    if s.len() > 0 {
        lemma_digits_value_nonneg(s.drop_last());
    }
}

/// A prefix of a digit string denotes no more than the whole string.
proof fn lemma_digits_prefix_le(s: Seq<char>, m: int)
    requires
        all_digits(s),
        0 <= m <= s.len(),
    ensures
        digits_value(s.subrange(0, m)) <= digits_value(s),
    decreases s.len() - m,
{
    if m < s.len() {
        let a = s.subrange(0, m);
        let b = s.subrange(0, m + 1);
        assert(b.drop_last() =~= a);
        assert(all_digits(a));
        lemma_digits_value_nonneg(a);
        lemma_digits_prefix_le(s, m + 1);
    } else {
        assert(s.subrange(0, m) =~= s);
    }
}

/// Parses the characters between `from` and `to` as a number.
fn parse_number_range(s: &str, from: usize, to: usize) -> (r: Option<usize>)
    requires
        from <= to <= s@.len(),
    ensures
        match r {
            Some(v) => spec_parse_number(s@.subrange(from as int, to as int)) == Some(v as int),
            None => spec_parse_number(s@.subrange(from as int, to as int)) is None,
        },
{
    let ghost t = s@.subrange(from as int, to as int);
    if from == to {
        return None;
    }
    let mut acc: u128 = 0;
    let mut i: usize = from;
    while i < to
        invariant
            from <= i <= to <= s@.len(),
            t == s@.subrange(from as int, to as int),
            all_digits(t.subrange(0, i - from)),
            acc as int == digits_value(t.subrange(0, i - from)),
            acc <= usize::MAX,
        decreases to - i,
    {
        let c = s.get_char(i);
        let u = c as u32;
        if u < 48 || u > 57 {
            assert(!is_digit(t[i - from]));
            return None;
        }
        let d = (u - 48) as u128;
        let ghost prev = t.subrange(0, i - from);
        let ghost cur = t.subrange(0, i - from + 1);
        proof {
            assert(cur.drop_last() =~= prev);
            assert(cur.last() == t[i - from]);
        }
        acc = acc * 10 + d;
        i = i + 1;
        if acc > usize::MAX as u128 {
            proof {
                assert(all_digits(cur));
                assert(digits_value(cur) > usize::MAX);
                assert(t.subrange(0, i - from) =~= cur);
                if all_digits(t) {
                    lemma_digits_prefix_le(t, i - from);
                }
            }
            return None;
        }
    }
    proof {
        assert(t.subrange(0, i - from) =~= t);
    }
    Some(acc as usize)
}

/// Parses one console line into a zero-based move: a one-based
/// "row,column" pair, with anything after a second comma ignored.
/// `None` when the line does not denote a move.
pub fn parse_move(s: &str) -> (r: Option<Move>)
    ensures
        match r {
            Some(m) => spec_parse_move(s@) == Some((m.0 as int, m.1 as int)),
            None => spec_parse_move(s@) is None,
        },
{
    let n = s.unicode_len();
    let mut i: usize = 0;
    while i < n && s.get_char(i) != ','
        invariant
            i <= n,
            n == s@.len(),
            first_comma(s@, 0) == first_comma(s@, i as int),
        decreases n - i,
    {
        i = i + 1;
    }
    if i == n {
        return None;
    }
    assert(first_comma(s@, 0) == i);
    let ghost rest = s@.subrange(i + 1, n as int);
    let mut k: usize = i + 1;
    while k < n && s.get_char(k) != ','
        invariant
            i + 1 <= k <= n,
            n == s@.len(),
            rest == s@.subrange(i + 1, n as int),
            first_comma(rest, 0) == first_comma(rest, k - i - 1),
        decreases n - k,
    {
        proof {
            assert(rest[k - i - 1] == s@[k as int]);
        }
        k = k + 1;
    }
    proof {
        if k < n {
            assert(rest[k - i - 1] == s@[k as int]);
        }
        assert(first_comma(rest, 0) == k - i - 1);
    }
    let x = match parse_number_range(s, 0, i) {
        Some(x) => x,
        None => {
            return None;
        },
    };
    let y = match parse_number_range(s, i + 1, k) {
        Some(y) => y,
        None => {
            proof {
                assert(rest.subrange(0, k - i - 1) =~= s@.subrange(i + 1, k as int));
            }
            return None;
        },
    };
    proof {
        assert(rest.subrange(0, k - i - 1) =~= s@.subrange(i + 1, k as int));
    }
    if x == 0 || y == 0 {
        return None;
    }
    Some((x - 1, y - 1))
}

} // verus!
