use vstd::prelude::*;
use crate::parse::{all_digits, digits_value, is_digit, lemma_digits_prefix};

verus! {

/// Why a count of rows or columns was refused.
#[derive(Clone, Copy, Debug, PartialEq, Eq, Structural)]
pub enum CountError {
    /// The text is no integer that a `usize` holds.
    NotInteger,
    /// The integer is zero.
    NotPositive,
}

/// The digits of a count: the text without one leading `+`.
pub open spec fn count_digits(s: Seq<char>) -> Seq<char> {
    if s.len() > 0 && s[0] == '+' {
        s.drop_first()
    } else {
        s
    }
}

/// The integer that the text writes, where it is one: an optional `+`, then
/// one digit or more.
pub open spec fn count_value(s: Seq<char>) -> Option<int> {
    let t = count_digits(s);
    if t.len() > 0 && all_digits(t) {
        Some(digits_value(t))
    } else {
        None
    }
}

/// Reads a count of rows or columns: a positive integer.
pub fn parse_positive_integer(s: &str) -> (r: Result<usize, CountError>)
    ensures
        r matches Ok(n) ==> count_value(s@) == Some(n as int) && n > 0,
        r is Ok <==> (count_value(s@) matches Some(v) && 0 < v <= usize::MAX),
        r == Err::<usize, CountError>(CountError::NotPositive) <==> count_value(s@) == Some(0int),
{
    let n = s.unicode_len();
    let ghost v = s@;
    let mut i: usize = 0;
    if n > 0 && s.get_char(0) == '+' {
        i = 1;
    }
    let start = i;
    let ghost t = count_digits(v);
    assert(t =~= v.subrange(start as int, n as int));
    if i == n {
        return Err(CountError::NotInteger);
    }
    let mut value: usize = 0;
    while i < n
        invariant
            v == s@,
            n == v.len(),
            start <= i <= n,
            t == v.subrange(start as int, n as int),
            t == count_digits(v),
            t.len() > 0,
            forall|k: int| 0 <= k < i - start ==> is_digit(#[trigger] t[k]),
            value == digits_value(t.take(i - start)),
        decreases n - i,
    {
        let c = s.get_char(i);
        assert(t[i - start] == c);
        if !('0' <= c && c <= '9') {
            assert(!is_digit(t[i - start]));
            assert(!all_digits(t));
            return Err(CountError::NotInteger);
        }
        assert(t.take(i - start + 1).drop_last() =~= t.take(i - start));
        let d = (c as u32 - '0' as u32) as usize;
        let next = match value.checked_mul(10) {
            Some(x) => x.checked_add(d),
            None => None,
        };
        match next {
            Some(x) => {
                value = x;
            },
            None => {
                proof {
                    if all_digits(t) {
                        lemma_digits_prefix(t, i - start + 1);
                    }
                }
                return Err(CountError::NotInteger);
            },
        }
        i = i + 1;
    }
    assert(t.take(i - start) =~= t);
    if value == 0 {
        return Err(CountError::NotPositive);
    }
    Ok(value)
}

} // verus!
