use vstd::prelude::*;
use crate::matrix::{lemma_total_mono, total, Matrix, Probabilities, MAX_CELL, MAX_SCALE, P_LIMIT};
use crate::number::{lemma_pow10_add, lemma_pow10_le, lemma_pow10_mono, lemma_pow10_pos, pow10, pow10_exec};

verus! {

/// Why a text input was refused.
#[derive(Clone, Copy, Debug, PartialEq, Eq, Structural)]
pub enum ParseError {
    /// A payoff is not a number or lies beyond the machine limits of a cell,
    /// or the matrix is empty or not rectangular.
    InvalidMatrix,
    /// A probability is not a number in `[0, 1]` within the machine limits of
    /// a cell.
    InvalidProbabilities,
    /// The probabilities do not add up to exactly one.
    ProbabilitySumError,
    /// Machine limit: the payoffs, at the scale of the probabilities, are too
    /// large for the 128-bit arithmetic of the variances.
    OutOfRange,
}

impl ParseError {
    /// A short message for the user.
    pub fn message(&self) -> (r: &'static str)
        ensures
            *self == ParseError::InvalidMatrix ==> r@ == "Matrix is invalid."@,
            *self == ParseError::InvalidProbabilities ==> r@ == "P is invalid."@,
            *self == ParseError::ProbabilitySumError ==> r@ == "Sum of p doesn`t equal 1."@,
            *self == ParseError::OutOfRange ==> r@ == "Numbers are out of range."@,
    {
        match self {
            ParseError::InvalidMatrix => "Matrix is invalid.",
            ParseError::InvalidProbabilities => "P is invalid.",
            ParseError::ProbabilitySumError => "Sum of p doesn`t equal 1.",
            ParseError::OutOfRange => "Numbers are out of range.",
        }
    }
}

pub open spec fn is_digit(c: char) -> bool {
    '0' <= c <= '9'
}

pub open spec fn all_digits(s: Seq<char>) -> bool {
    forall|i: int| 0 <= i < s.len() ==> is_digit(#[trigger] s[i])
}

/// The number that a string of decimal digits writes.
pub open spec fn digits_value(s: Seq<char>) -> int
    decreases s.len(),
{
    if s.len() == 0 {
        0
    } else {
        10 * digits_value(s.drop_last()) + (s.last() as int - '0' as int)
    }
}

/// The length of the run of digits that starts `t`.
pub open spec fn digit_run(t: Seq<char>) -> int
    decreases t.len(),
{
    if t.len() > 0 && is_digit(t[0]) {
        1 + digit_run(t.drop_first())
    } else {
        0
    }
}

/// The length of a leading `-` or `+`.
pub open spec fn sign_len(s: Seq<char>) -> int {
    if s.len() > 0 && (s[0] == '-' || s[0] == '+') {
        1
    } else {
        0
    }
}

/// The signed integer that an exponent writes: an optional sign, then one
/// digit or more.
pub open spec fn exponent_value(u: Seq<char>) -> Option<int> {
    let d = u.subrange(sign_len(u), u.len() as int);
    if d.len() > 0 && all_digits(d) {
        Some(if sign_len(u) == 1 && u[0] == '-' { -digits_value(d) } else { digits_value(d) })
    } else {
        None
    }
}

/// What follows the digits before the point, less the point if it is one.
pub open spec fn after_point(rest: Seq<char>) -> Seq<char> {
    if rest.len() > 0 && rest[0] == '.' {
        rest.drop_first()
    } else {
        rest
    }
}

/// The exponent that closes a numeral: none at all, or `e` or `E` and an
/// exponent.
pub open spec fn tail_exponent(tail: Seq<char>) -> Option<int> {
    if tail.len() == 0 {
        Some(0int)
    } else if tail[0] == 'e' || tail[0] == 'E' {
        exponent_value(tail.drop_first())
    } else {
        None
    }
}

/// A decimal numeral: an optional sign, digits, optionally a point followed by
/// digits, with at least one digit before the exponent, and optionally `e` or
/// `E` with an exponent. Gives the numeral's digits read as one integer, with
/// its sign, and the power of ten that multiplies it.
#[verifier::opaque]
pub open spec fn numeral(s: Seq<char>) -> Option<(int, int)> {
    let t = s.subrange(sign_len(s), s.len() as int);
    let k = digit_run(t);
    let ad = after_point(t.subrange(k, t.len() as int));
    let f = digit_run(ad);
    let exp = tail_exponent(ad.subrange(f, ad.len() as int));
    if exp is Some && k + f > 0 {
        let mag = digits_value(t.subrange(0, k) + ad.subrange(0, f));
        Some((if sign_len(s) == 1 && s[0] == '-' { -mag } else { mag }, exp->0 - f))
    } else {
        None
    }
}

/// The definition of `numeral`.
pub proof fn lemma_numeral(s: Seq<char>)
    ensures
        numeral(s) == ({
            let t = s.subrange(sign_len(s), s.len() as int);
            let k = digit_run(t);
            let ad = after_point(t.subrange(k, t.len() as int));
            let f = digit_run(ad);
            let exp = tail_exponent(ad.subrange(f, ad.len() as int));
            if exp is Some && k + f > 0 {
                let mag = digits_value(t.subrange(0, k) + ad.subrange(0, f));
                Some((if sign_len(s) == 1 && s[0] == '-' { -mag } else { mag }, exp->0 - f))
            } else {
                None
            }
        }),
{
    reveal(numeral);
}

/// A numeral that a cell may hold, as an integer and a count of digits after
/// the point. Machine limits: the integer is within `MAX_CELL`, the count at
/// most `MAX_SCALE`.
pub open spec fn cell_number(s: Seq<char>) -> Option<(int, nat)> {
    match numeral(s) {
        Some(x) => cell_of(x),
        None => None,
    }
}

proof fn lemma_digit_run(t: Seq<char>)
    ensures
        0 <= digit_run(t) <= t.len(),
        forall|i: int| 0 <= i < digit_run(t) ==> is_digit(#[trigger] t[i]),
        digit_run(t) < t.len() ==> !is_digit(t[digit_run(t)]),
    decreases t.len(),
{
    if t.len() > 0 && is_digit(t[0]) {
        lemma_digit_run(t.drop_first());
        assert forall|i: int| 0 <= i < digit_run(t) implies is_digit(#[trigger] t[i]) by {
            if i > 0 {
                assert(t[i] == t.drop_first()[i - 1]);
            }
        }
    }
}

pub(crate) proof fn lemma_digit_run_at(t: Seq<char>, k: int)
    requires
        0 <= k <= t.len(),
        forall|i: int| 0 <= i < k ==> is_digit(#[trigger] t[i]),
        k == t.len() || !is_digit(t[k]),
    ensures
        digit_run(t) == k,
    decreases t.len(),
{
    if k > 0 {
        assert forall|i: int| 0 <= i < k - 1 implies is_digit(#[trigger] t.drop_first()[i]) by {
            assert(t.drop_first()[i] == t[i + 1]);
        }
        if k < t.len() {
            assert(t.drop_first()[k - 1] == t[k]);
        }
        lemma_digit_run_at(t.drop_first(), k - 1);
    }
}

pub(crate) proof fn lemma_digits_value_nonneg(s: Seq<char>)
    requires
        all_digits(s),
    ensures
        digits_value(s) >= 0,
    decreases s.len(),
{
    if s.len() > 0 {
        assert(all_digits(s.drop_last())) by {
            assert forall|i: int| 0 <= i < s.drop_last().len() implies is_digit(
                #[trigger] s.drop_last()[i],
            ) by {
                assert(s.drop_last()[i] == s[i]);
            }
        }
        lemma_digits_value_nonneg(s.drop_last());
        assert(is_digit(s[s.len() - 1]));
    }
}

/// More digits never make a smaller number.
pub(crate) proof fn lemma_digits_prefix(s: Seq<char>, n: int)
    requires
        all_digits(s),
        0 <= n <= s.len(),
    ensures
        digits_value(s.take(n)) <= digits_value(s),
    decreases s.len(),
{
    if n < s.len() {
        let p = s.drop_last();
        assert(all_digits(p)) by {
            assert forall|i: int| 0 <= i < p.len() implies is_digit(#[trigger] p[i]) by {
                assert(p[i] == s[i]);
            }
        }
        lemma_digits_prefix(p, n);
        assert(p.take(n) =~= s.take(n));
        lemma_digits_value_nonneg(p);
        assert(is_digit(s[s.len() - 1]));
    } else {
        assert(s.take(n) =~= s);
    }
}

proof fn lemma_pow10_19()
    ensures
        pow10(19) == 10_000_000_000_000_000_000,
{
    reveal_with_fuel(pow10, 20);
}

/// A non-zero integer times a power of ten above `MAX_CELL` leaves the
/// bounds of a cell.
proof fn lemma_big_product(m: int, f: int)
    requires
        m != 0,
        f >= 10_000_000_000_000_000_000,
    ensures
        !(-MAX_CELL <= m * f <= MAX_CELL),
{
    if m > 0 {
        assert(m * f >= f) by (nonlinear_arith)
            requires
                m >= 1,
                f >= 0,
        ;
    } else {
        assert(m * f <= -f) by (nonlinear_arith)
            requires
                m <= -1,
                f >= 0,
        ;
    }
}

/// Where the digits of a numeral start with digits worth more than
/// `MAX_CELL`, no cell holds it.
proof fn lemma_cell_big(v: Seq<char>, pre: Seq<char>)
    requires
        pre.len() <= numeral_digits(v).len(),
        numeral_digits(v).take(pre.len() as int) == pre,
        digits_value(pre) > MAX_CELL,
    ensures
        cell_number(v) is None,
{
    lemma_numeral_digits(v);
    if numeral(v) is Some {
        lemma_digits_prefix(numeral_digits(v), pre.len() as int);
        let x = numeral(v)->0;
        if x.1 >= 0 {
            lemma_pow10_pos(x.1 as nat);
            let m = x.0;
            let f = pow10(x.1 as nat) as int;
            if m > 0 {
                assert(m * f >= m) by (nonlinear_arith)
                    requires
                        m >= 1,
                        f >= 1,
                ;
            } else {
                assert(m * f <= m) by (nonlinear_arith)
                    requires
                        m <= 0,
                        f >= 1,
                ;
            }
        }
    }
}

/// The digits of a numeral: those before the point and those after it.
pub open spec fn numeral_digits(v: Seq<char>) -> Seq<char> {
    let t = v.subrange(sign_len(v), v.len() as int);
    let k = digit_run(t);
    let after_dot = after_point(t.subrange(k, t.len() as int));
    t.subrange(0, k) + after_dot.subrange(0, digit_run(after_dot))
}

proof fn lemma_numeral_digits(v: Seq<char>)
    ensures
        all_digits(numeral_digits(v)),
        numeral(v) matches Some(x) ==> x.0 == digits_value(numeral_digits(v)) || x.0
            == -digits_value(numeral_digits(v)),
{
    lemma_numeral(v);
    let t = v.subrange(sign_len(v), v.len() as int);
    let k = digit_run(t);
    let rest = t.subrange(k, t.len() as int);
    let ad = if rest.len() > 0 && rest[0] == '.' {
        rest.drop_first()
    } else {
        rest
    };
    lemma_digit_run(t);
    lemma_digit_run(ad);
    let ip = t.subrange(0, k);
    let fr = ad.subrange(0, digit_run(ad));
    assert forall|x: int| 0 <= x < (ip + fr).len() implies is_digit(#[trigger] (ip + fr)[x]) by {
        if x < ip.len() {
            assert((ip + fr)[x] == t[x]);
        } else {
            assert((ip + fr)[x] == ad[x - ip.len()]);
        }
    }
}

/// Where the first `q` digits before the point are worth more than
/// `MAX_CELL`, no cell holds the numeral.
proof fn lemma_int_big(v: Seq<char>, q: int)
    requires
        ({
            let t = v.subrange(sign_len(v), v.len() as int);
            &&& 0 <= q <= digit_run(t)
            &&& digits_value(t.take(q)) > MAX_CELL
        }),
    ensures
        cell_number(v) is None,
{
    let t = v.subrange(sign_len(v), v.len() as int);
    lemma_digit_run(t);
    lemma_numeral_digits(v);
    assert(numeral_digits(v).take(q) =~= t.take(q));
    lemma_cell_big(v, t.take(q));
}

/// Where the digits before the point and the first `c` after it are worth
/// more than `MAX_CELL`, no cell holds the numeral.
proof fn lemma_frac_big(v: Seq<char>, c: int)
    requires
        ({
            let t = v.subrange(sign_len(v), v.len() as int);
            let k = digit_run(t);
            let rest = t.subrange(k, t.len() as int);
            let ad = if rest.len() > 0 && rest[0] == '.' {
                rest.drop_first()
            } else {
                rest
            };
            &&& 0 <= c <= digit_run(ad)
            &&& digits_value(t.subrange(0, k) + ad.take(c)) > MAX_CELL
        }),
    ensures
        cell_number(v) is None,
{
    let t = v.subrange(sign_len(v), v.len() as int);
    let k = digit_run(t);
    let rest = t.subrange(k, t.len() as int);
    let ad = if rest.len() > 0 && rest[0] == '.' {
        rest.drop_first()
    } else {
        rest
    };
    lemma_digit_run(t);
    lemma_digit_run(ad);
    lemma_numeral_digits(v);
    assert(numeral_digits(v).take(k + c) =~= t.subrange(0, k) + ad.take(c));
    lemma_cell_big(v, t.subrange(0, k) + ad.take(c));
}

/// Every element of `s` is a digit, so is every element of its prefixes.
proof fn lemma_all_digits_take(s: Seq<char>, n: int)
    requires
        0 <= n <= s.len(),
        forall|i: int| 0 <= i < n ==> is_digit(#[trigger] s[i]),
    ensures
        all_digits(s.take(n)),
{
    assert forall|i: int| 0 <= i < s.take(n).len() implies is_digit(#[trigger] s.take(n)[i]) by {
        assert(s.take(n)[i] == s[i]);
    }
}

/// The digit run of `t` reaches at least `c` where its first `c` elements are
/// digits.
proof fn lemma_digit_run_ge(t: Seq<char>, c: int)
    requires
        0 <= c <= t.len(),
        forall|i: int| 0 <= i < c ==> is_digit(#[trigger] t[i]),
    ensures
        digit_run(t) >= c,
{
    lemma_digit_run(t);
    if digit_run(t) < c {
        assert(is_digit(t[digit_run(t)]));
    }
}

/// Reads the sign and the digits before and after the point of a numeral.
/// `None` where no cell can hold the numeral: its digits exceed `MAX_CELL`, or
/// it has no digit.
#[verifier::rlimit(50)]
fn read_digits(s: &str) -> (r: Option<(bool, i128, usize, usize, usize)>)
    ensures
        r is None ==> cell_number(s@) is None,
        r matches Some((neg, mag, kd, f, e)) ==> {
            let v = s@;
            let t = v.subrange(sign_len(v), v.len() as int);
            let ad = after_point(t.subrange(kd as int, t.len() as int));
            &&& kd == digit_run(t)
            &&& f == digit_run(ad)
            &&& kd + f > 0
            &&& e <= v.len()
            &&& ad.subrange(f as int, ad.len() as int) == v.subrange(e as int, v.len() as int)
            &&& mag == digits_value(t.subrange(0, kd as int) + ad.subrange(0, f as int))
            &&& 0 <= mag <= MAX_CELL
            &&& (neg <==> (sign_len(v) == 1 && v[0] == '-'))
        },
{
    let n = s.unicode_len();
    let ghost v = s@;
    let mut i: usize = 0;
    let mut neg = false;
    if n > 0 {
        let c = s.get_char(0);
        if c == '-' || c == '+' {
            neg = c == '-';
            i = 1;
        }
    }
    let start = i;
    let ghost t = v.subrange(start as int, n as int);
    assert(start as int == sign_len(v));
    assert(neg <==> (sign_len(v) == 1 && v[0] == '-'));
    let mut mag: i128 = 0;
    // the digits before the point
    while i < n && '0' <= s.get_char(i) && s.get_char(i) <= '9'
        invariant
            v == s@,
            n == v.len(),
            start <= i <= n,
            start as int == sign_len(v),
            t == v.subrange(start as int, n as int),
            forall|k: int| 0 <= k < i - start ==> is_digit(#[trigger] t[k]),
            mag == digits_value(t.take(i - start)),
            0 <= mag <= MAX_CELL,
        decreases n - i,
    {
        let c = s.get_char(i);
        assert(t[i - start] == c);
        assert(t.take(i - start + 1).drop_last() =~= t.take(i - start));
        mag = mag * 10 + (c as u32 - '0' as u32) as i128;
        i = i + 1;
        if mag > MAX_CELL {
            proof {
                lemma_digit_run_ge(t, i - start);
                lemma_int_big(v, i - start);
            }
            return None;
        }
    }
    let int_digits = i - start;
    proof {
        lemma_digit_run_at(t, int_digits as int);
    }
    let ghost int_part = t.subrange(0, int_digits as int);
    let ghost rest = t.subrange(int_digits as int, t.len() as int);
    let ghost ad = if rest.len() > 0 && rest[0] == '.' {
        rest.drop_first()
    } else {
        rest
    };
    assert(int_part =~= t.take(int_digits as int));
    if i < n && s.get_char(i) == '.' {
        assert(rest[0] == t[int_digits as int]);
        i = i + 1;
    }
    let ad_start = i;
    assert(ad =~= v.subrange(ad_start as int, n as int));
    let mut frac: usize = 0;
    // the digits after the point
    while i < n && '0' <= s.get_char(i) && s.get_char(i) <= '9'
        invariant
            v == s@,
            n == v.len(),
            ad_start + frac == i <= n,
            start as int == sign_len(v),
            t == v.subrange(start as int, n as int),
            digit_run(t) == int_digits,
            int_part == t.subrange(0, int_digits as int),
            rest == t.subrange(int_digits as int, t.len() as int),
            ad == (if rest.len() > 0 && rest[0] == '.' {
                rest.drop_first()
            } else {
                rest
            }),
            ad == v.subrange(ad_start as int, n as int),
            forall|k: int| 0 <= k < int_digits ==> is_digit(#[trigger] t[k]),
            forall|k: int| 0 <= k < frac ==> is_digit(#[trigger] ad[k]),
            mag == digits_value(int_part + ad.take(frac as int)),
            0 <= mag <= MAX_CELL,
        decreases n - i,
    {
        let c = s.get_char(i);
        assert(ad[frac as int] == c);
        assert((int_part + ad.take(frac + 1)).drop_last() =~= int_part + ad.take(frac as int));
        mag = mag * 10 + (c as u32 - '0' as u32) as i128;
        frac = frac + 1;
        i = i + 1;
        if mag > MAX_CELL {
            proof {
                lemma_digit_run_ge(ad, frac as int);
                lemma_frac_big(v, frac as int);
            }
            return None;
        }
    }
    proof {
        lemma_digit_run_at(ad, frac as int);
        lemma_numeral(v);
        assert(ad == after_point(t.subrange(int_digits as int, t.len() as int)));
    }
    let ghost frac_part = ad.subrange(0, frac as int);
    let ghost tail = ad.subrange(frac as int, ad.len() as int);
    assert(frac_part =~= ad.take(frac as int));
    assert(tail =~= v.subrange(i as int, n as int));
    assert(int_part + frac_part =~= int_part + ad.take(frac as int));
    if int_digits == 0 && frac == 0 {
        proof {
            lemma_numeral(v);
        }
        return None;
    }
    Some((neg, mag, int_digits, frac, i))
}

/// Reads one cell as a numeral within the bounds of `cell_number`.
pub fn parse_cell(s: &str) -> (r: Option<(i128, u32)>)
    ensures
        r is Some <==> cell_number(s@) is Some,
        r is Some ==> ({
            let (m, k) = r->0;
            let x = cell_number(s@)->0;
            m as int == x.0 && k as nat == x.1
        }),
{
    let (neg, mag, int_digits, frac, i) = match read_digits(s) {
        None => {
            return None;
        },
        Some(x) => x,
    };
    let n = s.unicode_len();
    let ghost v = s@;
    let ghost t = v.subrange(sign_len(v), v.len() as int);
    let ghost ad = after_point(t.subrange(int_digits as int, t.len() as int));
    let ghost tail = ad.subrange(frac as int, ad.len() as int);
    proof {
        lemma_numeral(v);
    }
    let ghost mut ex: int = 0;
    let mut e_val: u128 = 0;
    let mut e_neg = false;
    let mut e_sat = false;
    if i < n {
        let c = s.get_char(i);
        if c != 'e' && c != 'E' {
            assert(tail[0] == c);
            return None;
        }
        assert(tail.drop_first() =~= v.subrange(i + 1, n as int));
        match parse_exponent(s, i + 1, frac) {
            None => {
                return None;
            },
            Some((en, ev, es)) => {
                e_neg = en;
                e_val = ev;
                e_sat = es;
                proof {
                    ex = exponent_value(tail.drop_first())->0;
                }
            },
        }
    } else {
        assert(tail.len() == 0);
    }
    assert(numeral(v) == Some((if neg { -mag as int } else { mag as int }, ex - frac)));
    finish_cell(neg, mag, frac, e_neg, e_val, e_sat, Ghost(ex))
}

/// Reads the exponent that starts at character `i` of `s`: its sign, and its
/// digits' value where it is at most `frac + 40`; the last flag tells that it
/// is larger.
fn parse_exponent(s: &str, i: usize, frac: usize) -> (r: Option<(bool, u128, bool)>)
    requires
        i <= s@.len(),
    ensures
        r is None <==> exponent_value(s@.subrange(i as int, s@.len() as int)) is None,
        r matches Some((en, ev, es)) ==> {
            let x = exponent_value(s@.subrange(i as int, s@.len() as int))->0;
            &&& !es ==> ev <= frac + 40 && x == (if en {
                -ev
            } else {
                ev as int
            })
            &&& es && en ==> x < -(frac + 40)
            &&& es && !en ==> x > frac + 40
        },
{
    let n = s.unicode_len();
    let ghost v = s@;
    let ghost u = v.subrange(i as int, n as int);
    let mut pos = i;
    let mut e_neg = false;
    if pos < n {
        let c2 = s.get_char(pos);
        if c2 == '-' || c2 == '+' {
            e_neg = c2 == '-';
            pos = pos + 1;
        }
    }
    let e_start = pos;
    let ghost digits_e = u.subrange(sign_len(u), u.len() as int);
    assert(digits_e =~= v.subrange(e_start as int, n as int));
    assert(e_neg <==> (sign_len(u) == 1 && u[0] == '-'));
    if pos == n {
        assert(digits_e.len() == 0);
        return None;
    }
    let cap: u128 = frac as u128 + 40;
    let mut e_val: u128 = 0;
    let mut e_sat = false;
    while pos < n
        invariant
            v == s@,
            n == v.len(),
            e_start <= pos <= n,
            e_start < n,
            digits_e == v.subrange(e_start as int, n as int),
            u == v.subrange(i as int, n as int),
            digits_e == u.subrange(sign_len(u), u.len() as int),
            cap == frac + 40,
            forall|k: int| 0 <= k < pos - e_start ==> is_digit(#[trigger] digits_e[k]),
            !e_sat ==> e_val == digits_value(digits_e.take(pos - e_start)) && e_val <= cap,
            e_sat ==> digits_value(digits_e.take(pos - e_start)) > cap,
        decreases n - pos,
    {
        let c = s.get_char(pos);
        assert(digits_e[pos - e_start] == c);
        if !('0' <= c && c <= '9') {
            assert(!all_digits(digits_e));
            return None;
        }
        let ghost pre = digits_e.take(pos - e_start);
        assert(digits_e.take(pos - e_start + 1).drop_last() =~= pre);
        proof {
            lemma_all_digits_take(digits_e, pos - e_start);
            lemma_digits_value_nonneg(pre);
        }
        if !e_sat {
            e_val = e_val * 10 + (c as u32 - '0' as u32) as u128;
            if e_val > cap {
                e_sat = true;
            }
        }
        pos = pos + 1;
    }
    assert(digits_e.take(pos - e_start) =~= digits_e);
    assert(all_digits(digits_e));
    Some((e_neg, e_val, e_sat))
}

/// What `cell_number` makes of a numeral's value `x.0 * 10^x.1`.
pub open spec fn cell_of(x: (int, int)) -> Option<(int, nat)> {
    let m = if x.1 >= 0 {
        x.0 * pow10(x.1 as nat)
    } else {
        x.0
    };
    let k = if x.1 >= 0 {
        0
    } else {
        -x.1
    };
    if -MAX_CELL <= m <= MAX_CELL && k <= MAX_SCALE {
        Some((m, k as nat))
    } else {
        None
    }
}

/// Brings the digits' value `mag`, with its sign, and the exponent `ex`, less
/// the `frac` digits after the point, within the bounds of a cell.
fn finish_cell(
    neg: bool,
    mag: i128,
    frac: usize,
    e_neg: bool,
    e_val: u128,
    e_sat: bool,
    Ghost(ex): Ghost<int>,
) -> (r: Option<(i128, u32)>)
    requires
        0 <= mag <= MAX_CELL,
        !e_sat ==> e_val <= frac + 40 && ex == (if e_neg {
            -e_val
        } else {
            e_val as int
        }),
        e_sat && e_neg ==> ex < -(frac + 40),
        e_sat && !e_neg ==> ex > frac + 40,
    ensures
        ({
            let c = cell_of((if neg { -mag as int } else { mag as int }, ex - frac));
            &&& r is Some <==> c is Some
            &&& r is Some ==> ({
                let (m, k) = r->0;
                let (cm, ck) = c->0;
                m as int == cm && k as nat == ck
            })
        }),
{
    let ghost sm: int = if neg {
        -mag as int
    } else {
        mag as int
    };
    if e_sat {
        if e_neg {
            return None;
        }
        if mag == 0 {
            assert(sm * pow10((ex - frac) as nat) == 0);
            return Some((0, 0));
        }
        proof {
            lemma_pow10_mono(19, (ex - frac) as nat);
            lemma_pow10_19();
            lemma_big_product(sm, pow10((ex - frac) as nat) as int);
        }
        return None;
    }
    let xe: i128 = if e_neg {
        -(e_val as i128)
    } else {
        e_val as i128
    };
    let x: i128 = xe - frac as i128;
    if x >= 0 {
        if mag == 0 {
            assert(sm * pow10(x as nat) == 0);
            return Some((0, 0));
        }
        if x > 18 {
            proof {
                lemma_pow10_mono(19, x as nat);
                lemma_pow10_19();
                lemma_big_product(sm, pow10(x as nat) as int);
            }
            return None;
        }
        let f = pow10_exec(x as u32) as i128;
        proof {
            lemma_pow10_mono(x as nat, 18);
            lemma_pow10_19();
            assert(pow10(19) == 10 * pow10(18));
            lemma_pow10_pos(x as nat);
            assert(mag * f <= MAX_CELL * 1_000_000_000_000_000_000) by (nonlinear_arith)
                requires
                    0 <= mag <= MAX_CELL,
                    1 <= f <= 1_000_000_000_000_000_000,
            ;
            assert(sm * f == (if neg { -(mag * f) } else { mag * f })) by (nonlinear_arith)
                requires
                    sm == (if neg { -mag as int } else { mag as int }),
            ;
        }
        let mm = mag * f;
        if mm > MAX_CELL {
            return None;
        }
        let m = if neg {
            -mm
        } else {
            mm
        };
        Some((m, 0))
    } else {
        if -x > MAX_SCALE as i128 {
            return None;
        }
        let m = if neg {
            -mag
        } else {
            mag
        };
        Some((m, (-x) as u32))
    }
}

/// The count of digits after the point of a cell that `cell_number` reads,
/// else `0`.
pub open spec fn scale_of(s: Seq<char>) -> nat {
    match cell_number(s) {
        Some(x) => x.1,
        None => 0,
    }
}

/// The cell's number in units of `10^-scale`.
pub open spec fn scaled(s: Seq<char>, scale: nat) -> int {
    match cell_number(s) {
        Some(x) => x.0 * pow10((scale - x.1) as nat),
        None => 0,
    }
}

/// The most digits after the point among the first `n` cells of `r`.
pub open spec fn row_scale(r: Seq<String>, n: int) -> nat
    decreases n,
{
    if n <= 0 {
        0
    } else {
        let s = row_scale(r, n - 1);
        let k = scale_of(r[n - 1]@);
        if k > s {
            k
        } else {
            s
        }
    }
}

/// The most digits after the point among the cells of the first `m` rows.
pub open spec fn matrix_scale(a: Seq<Vec<String>>, m: int) -> nat
    decreases m,
{
    if m <= 0 {
        0
    } else {
        let s = matrix_scale(a, m - 1);
        let k = row_scale(a[m - 1]@, a[m - 1]@.len() as int);
        if k > s {
            k
        } else {
            s
        }
    }
}

/// The cells of the matrix, all at its common scale.
pub open spec fn scaled_matrix(a: Seq<Vec<String>>) -> Seq<Seq<int>> {
    a.map_values(
        |r: Vec<String>|
            r@.map_values(|c: String| scaled(c@, matrix_scale(a, a.len() as int))),
    )
}

/// Text that `parse_data` accepts: at least one row and one column, rows of
/// equal length, every cell a number, and every number within `MAX_CELL`
/// units of the common scale.
pub open spec fn matrix_text_ok(a: Seq<Vec<String>>) -> bool {
    &&& a.len() >= 1
    &&& a[0]@.len() >= 1
    &&& forall|i: int| 0 <= i < a.len() ==> #[trigger] a[i]@.len() == a[0]@.len()
    &&& forall|i: int, j: int|
        0 <= i < a.len() && 0 <= j < a[i]@.len() ==> (#[trigger] cell_number(a[i]@[j]@)) is Some
    &&& forall|i: int, j: int|
        0 <= i < a.len() && 0 <= j < a[i]@.len() ==> -MAX_CELL <= #[trigger] scaled_matrix(
            a,
        )[i][j] <= MAX_CELL
}

proof fn lemma_row_scale(r: Seq<String>, n: int, j: int)
    requires
        0 <= j < n <= r.len(),
    ensures
        scale_of(r[j]@) <= row_scale(r, n),
    decreases n,
{
    if j < n - 1 {
        lemma_row_scale(r, n - 1, j);
    }
}

proof fn lemma_matrix_scale(a: Seq<Vec<String>>, m: int, i: int)
    requires
        0 <= i < m <= a.len(),
    ensures
        row_scale(a[i]@, a[i]@.len() as int) <= matrix_scale(a, m),
    decreases m,
{
    if i < m - 1 {
        lemma_matrix_scale(a, m - 1, i);
    }
}

/// Reads the cells of `row`: their numerals and their counts of digits after
/// the point. `Err` carries the index of the first cell that is no number.
fn parse_row(row: &Vec<String>) -> (r: Result<(Vec<i128>, Vec<u32>, u32), usize>)
    ensures
        r matches Ok((m, k, s)) ==> {
            &&& m@.len() == row@.len() && k@.len() == row@.len()
            &&& s == row_scale(row@, row@.len() as int)
            &&& s <= MAX_SCALE
            &&& forall|j: int|
                0 <= j < row@.len() ==> cell_number(#[trigger] row@[j]@) == Some(
                    (m@[j] as int, k@[j] as nat),
                )
        },
        r matches Err(j) ==> j < row@.len() && cell_number(row@[j as int]@) is None,
{
    let mut m: Vec<i128> = Vec::new();
    let mut k: Vec<u32> = Vec::new();
    let mut s: u32 = 0;
    let mut j: usize = 0;
    while j < row.len()
        invariant
            j <= row@.len(),
            m@.len() == j && k@.len() == j,
            s == row_scale(row@, j as int),
            s <= MAX_SCALE,
            forall|x: int|
                0 <= x < j ==> cell_number(#[trigger] row@[x]@) == Some(
                    (m@[x] as int, k@[x] as nat),
                ),
        decreases row@.len() - j,
    {
        match parse_cell(row[j].as_str()) {
            Some((v, f)) => {
                m.push(v);
                k.push(f);
                if f > s {
                    s = f;
                }
            },
            None => {
                return Err(j);
            },
        }
        j = j + 1;
    }
    Ok((m, k, s))
}

/// Reads a payoff matrix from its cells' text. Each cell holds a numeral that
/// `cell_number` reads; all cells are brought to the largest count of digits
/// after the point among them.
pub fn parse_data(a: &Vec<Vec<String>>) -> (r: Result<Matrix, ParseError>)
    ensures
        r is Ok <==> matrix_text_ok(a@),
        r matches Err(e) ==> e == ParseError::InvalidMatrix,
        r matches Ok(m) ==> {
            &&& m.wf()
            &&& m.scale == matrix_scale(a@, a@.len() as int)
            &&& m.n_rows() == a@.len()
            &&& forall|i: int| 0 <= i < a@.len() ==> #[trigger] m.cells()[i].len() == a@[i]@.len()
            &&& forall|i: int, j: int|
                0 <= i < a@.len() && 0 <= j < a@[i]@.len() ==> m.cells()[i][j]
                    == #[trigger] scaled_matrix(a@)[i][j]
        },
{
    if a.len() == 0 || a[0].len() == 0 {
        return Err(ParseError::InvalidMatrix);
    }
    let rows = a.len();
    let cols = a[0].len();
    let mut mans: Vec<Vec<i128>> = Vec::new();
    let mut scs: Vec<Vec<u32>> = Vec::new();
    let mut scale: u32 = 0;
    let mut i: usize = 0;
    while i < rows
        invariant
            rows == a@.len(),
            cols == a@[0]@.len(),
            i <= rows,
            mans@.len() == i && scs@.len() == i,
            scale == matrix_scale(a@, i as int),
            scale <= MAX_SCALE,
            forall|x: int| 0 <= x < i ==> #[trigger] a@[x]@.len() == cols,
            forall|x: int| 0 <= x < i ==> #[trigger] mans@[x]@.len() == cols,
            forall|x: int| 0 <= x < i ==> #[trigger] scs@[x]@.len() == cols,
            forall|x: int, y: int|
                0 <= x < i && 0 <= y < cols ==> cell_number(#[trigger] a@[x]@[y]@) == Some(
                    (mans@[x]@[y] as int, scs@[x]@[y] as nat),
                ),
        decreases rows - i,
    {
        if a[i].len() != cols {
            return Err(ParseError::InvalidMatrix);
        }
        match parse_row(&a[i]) {
            Ok((m, k, s)) => {
                mans.push(m);
                scs.push(k);
                if s > scale {
                    scale = s;
                }
            },
            Err(j) => {
                return Err(ParseError::InvalidMatrix);
            },
        }
        i = i + 1;
    }
    let ghost big_s = matrix_scale(a@, a@.len() as int);
    let ghost sm = scaled_matrix(a@);
    let mut out: Vec<Vec<i128>> = Vec::new();
    i = 0;
    while i < rows
        invariant
            rows == a@.len(),
            cols == a@[0]@.len(),
            cols >= 1,
            i <= rows,
            mans@.len() == rows && scs@.len() == rows,
            scale == big_s,
            big_s == matrix_scale(a@, a@.len() as int),
            sm == scaled_matrix(a@),
            scale <= MAX_SCALE,
            forall|x: int| 0 <= x < rows ==> #[trigger] a@[x]@.len() == cols,
            forall|x: int| 0 <= x < rows ==> #[trigger] mans@[x]@.len() == cols,
            forall|x: int| 0 <= x < rows ==> #[trigger] scs@[x]@.len() == cols,
            forall|x: int, y: int|
                0 <= x < rows && 0 <= y < cols ==> cell_number(#[trigger] a@[x]@[y]@) == Some(
                    (mans@[x]@[y] as int, scs@[x]@[y] as nat),
                ),
            out@.len() == i,
            forall|x: int| 0 <= x < i ==> #[trigger] out@[x]@.len() == cols,
            forall|x: int, y: int|
                0 <= x < i && 0 <= y < cols ==> (#[trigger] out@[x]@[y]) as int == sm[x][y],
            forall|x: int, y: int|
                0 <= x < i && 0 <= y < cols ==> -MAX_CELL <= #[trigger] sm[x][y] <= MAX_CELL,
        decreases rows - i,
    {
        let mut row: Vec<i128> = Vec::new();
        let mut j: usize = 0;
        while j < cols
            invariant
                rows == a@.len(),
                cols == a@[0]@.len(),
                i < rows,
                mans@.len() == rows && scs@.len() == rows,
                scale == big_s,
                big_s == matrix_scale(a@, a@.len() as int),
                sm == scaled_matrix(a@),
                scale <= MAX_SCALE,
                forall|x: int| 0 <= x < rows ==> #[trigger] a@[x]@.len() == cols,
                forall|x: int| 0 <= x < rows ==> #[trigger] mans@[x]@.len() == cols,
                forall|x: int| 0 <= x < rows ==> #[trigger] scs@[x]@.len() == cols,
                forall|x: int, y: int|
                    0 <= x < rows && 0 <= y < cols ==> cell_number(#[trigger] a@[x]@[y]@)
                        == Some((mans@[x]@[y] as int, scs@[x]@[y] as nat)),
                j <= cols,
                row@.len() == j,
                forall|y: int| 0 <= y < j ==> (#[trigger] row@[y]) as int == sm[i as int][y],
                forall|y: int|
                    0 <= y < j ==> -MAX_CELL <= #[trigger] sm[i as int][y] <= MAX_CELL,
            decreases cols - j,
        {
            let m = mans[i][j];
            let k = scs[i][j];
            proof {
                let c = a@[i as int]@[j as int]@;
                assert(cell_number(c) == Some((m as int, k as nat)));
                assert(scale_of(c) == k);
                lemma_row_scale(a@[i as int]@, a@[i as int]@.len() as int, j as int);
                lemma_matrix_scale(a@, a@.len() as int, i as int);
                lemma_pow10_le((scale - k) as nat);
                lemma_pow10_pos((scale - k) as nat);
                assert(sm[i as int][j as int] == scaled(c, big_s));
            }
            let f = pow10_exec(scale - k) as i128;
            proof {
                assert(-MAX_CELL * P_LIMIT <= m * f <= MAX_CELL * P_LIMIT)
                    by (nonlinear_arith)
                    requires
                        -MAX_CELL <= m <= MAX_CELL,
                        1 <= f <= P_LIMIT,
                ;
            }
            let v = m * f;
            if v < -MAX_CELL || v > MAX_CELL {
                return Err(ParseError::InvalidMatrix);
            }
            row.push(v);
            j = j + 1;
        }
        out.push(row);
        i = i + 1;
    }
    let r = Matrix { rows: out, scale };
    proof {
        assert forall|x: int, y: int|
            0 <= x < r.n_rows() && 0 <= y < r.cells()[x].len() implies -MAX_CELL
            <= #[trigger] r.cells()[x][y] <= MAX_CELL by {
            assert(r.cells()[x] == out@[x]@);
        }
        assert forall|x: int| 0 <= x < r.n_rows() implies #[trigger] r.cells()[x].len()
            == r.cells()[0].len() by {
            assert(r.cells()[x] == out@[x]@);
            assert(r.cells()[0] == out@[0]@);
        }
        assert forall|x: int, y: int|
            0 <= x < a@.len() && 0 <= y < a@[x]@.len() implies r.cells()[x][y]
            == #[trigger] scaled_matrix(a@)[x][y] by {
            assert(r.cells()[x] == out@[x]@);
        }
    }
    Ok(r)
}


/// A probability: a number in `[0, 1]`.
pub open spec fn probability_ok(s: Seq<char>) -> bool {
    match cell_number(s) {
        Some(x) => 0 <= x.0 <= pow10(x.1),
        None => false,
    }
}

/// The sum of the first `n` probabilities, in units of `10^-scale`.
pub open spec fn scaled_total(p: Seq<String>, scale: nat, n: int) -> int
    decreases n,
{
    if n <= 0 {
        0
    } else {
        scaled_total(p, scale, n - 1) + scaled(p[n - 1]@, scale)
    }
}

/// Every cell holds a probability.
pub open spec fn probabilities_text_ok(p: Seq<String>) -> bool {
    forall|j: int| 0 <= j < p.len() ==> probability_ok(#[trigger] p[j]@)
}

/// The probabilities add up to exactly one.
pub open spec fn probabilities_sum_ok(p: Seq<String>) -> bool {
    scaled_total(p, row_scale(p, p.len() as int), p.len() as int) == pow10(
        row_scale(p, p.len() as int),
    )
}

/// Reads a probability vector from its cells' text: every cell a number in
/// `[0, 1]`, and the numbers adding up to exactly one.
pub fn parse_p(p: &Vec<String>) -> (r: Result<Probabilities, ParseError>)
    ensures
        r matches Err(e) ==> e == ParseError::InvalidProbabilities || e
            == ParseError::ProbabilitySumError,
        r == Err::<Probabilities, ParseError>(ParseError::InvalidProbabilities)
            <==> !probabilities_text_ok(p@),
        r == Err::<Probabilities, ParseError>(ParseError::ProbabilitySumError) <==> (
        probabilities_text_ok(p@) && !probabilities_sum_ok(p@)),
        r matches Ok(q) ==> {
            &&& q.wf()
            &&& q.scale == row_scale(p@, p@.len() as int)
            &&& q.weights@.len() == p@.len()
            &&& forall|j: int|
                0 <= j < p@.len() ==> q.weights@[j] == scaled(#[trigger] p@[j]@, q.scale as nat)
        },
{
    let (m, k, scale) = match parse_row(p) {
        Ok(x) => x,
        Err(j) => {
            return Err(ParseError::InvalidProbabilities);
        },
    };
    let n = p.len();
    let mut j: usize = 0;
    while j < n
        invariant
            n == p@.len(),
            m@.len() == n && k@.len() == n,
            j <= n,
            forall|x: int|
                0 <= x < n ==> cell_number(#[trigger] p@[x]@) == Some(
                    (m@[x] as int, k@[x] as nat),
                ),
            forall|x: int| 0 <= x < j ==> probability_ok(#[trigger] p@[x]@),
        decreases n - j,
    {
        let f = pow10_exec(k[j]);
        proof {
            assert(cell_number(p@[j as int]@) == Some((m@[j as int] as int, k@[j as int] as nat)));
        }
        if m[j] < 0 || m[j] > f as i128 {
            return Err(ParseError::InvalidProbabilities);
        }
        j = j + 1;
    }
    let ghost big_s = row_scale(p@, p@.len() as int);
    let big = pow10_exec(scale);
    proof {
        lemma_pow10_le(scale as nat);
    }
    let mut w: Vec<u64> = Vec::new();
    j = 0;
    while j < n
        invariant
            n == p@.len(),
            m@.len() == n && k@.len() == n,
            scale == big_s,
            big_s == row_scale(p@, p@.len() as int),
            scale <= MAX_SCALE,
            big == pow10(scale as nat),
            1 <= big <= P_LIMIT,
            j <= n,
            forall|x: int|
                0 <= x < n ==> cell_number(#[trigger] p@[x]@) == Some(
                    (m@[x] as int, k@[x] as nat),
                ),
            forall|x: int| 0 <= x < n ==> probability_ok(#[trigger] p@[x]@),
            w@.len() == j,
            forall|x: int| 0 <= x < j ==> #[trigger] w@[x] as int == scaled(p@[x]@, big_s),
            forall|x: int| 0 <= x < j ==> #[trigger] w@[x] <= big,
        decreases n - j,
    {
        let mj = m[j];
        let kj = k[j];
        proof {
            let c = p@[j as int]@;
            assert(cell_number(c) == Some((mj as int, kj as nat)));
            assert(probability_ok(c));
            assert(scale_of(c) == kj);
            lemma_row_scale(p@, p@.len() as int, j as int);
            lemma_pow10_le((scale - kj) as nat);
            lemma_pow10_add(kj as nat, (scale - kj) as nat);
            assert(0 <= mj * pow10((scale - kj) as nat) <= pow10(kj as nat) * pow10(
                (scale - kj) as nat,
            )) by (nonlinear_arith)
                requires
                    0 <= mj <= pow10(kj as nat),
                    pow10((scale - kj) as nat) >= 0,
            ;
        }
        let f = pow10_exec(scale - kj);
        w.push((mj as u64) * f);
        j = j + 1;
    }
    let mut acc: u64 = 0;
    j = 0;
    while j < n
        invariant
            n == p@.len() == w@.len(),
            big <= P_LIMIT,
            j <= n,
            acc == total(w@, j as int),
            acc <= big,
            forall|x: int| 0 <= x < n ==> #[trigger] w@[x] <= big,
            forall|x: int| 0 <= x < n ==> #[trigger] w@[x] as int == scaled(p@[x]@, big_s),
            forall|x: int| 0 <= x < n ==> probability_ok(#[trigger] p@[x]@),
            big == pow10(big_s),
            big_s == row_scale(p@, p@.len() as int),
        decreases n - j,
    {
        acc = acc + w[j];
        j = j + 1;
        assert(acc == total(w@, j as int));
        if acc > big {
            proof {
                lemma_total_mono(w@, j as int, n as int);
                lemma_weights_total(p@, w@, big_s, n as int);
            }
            return Err(ParseError::ProbabilitySumError);
        }
    }
    proof {
        lemma_weights_total(p@, w@, big_s, n as int);
    }
    if acc != big {
        return Err(ParseError::ProbabilitySumError);
    }
    Ok(Probabilities { weights: w, scale })
}

proof fn lemma_weights_total(p: Seq<String>, w: Seq<u64>, scale: nat, n: int)
    requires
        0 <= n <= p.len() <= w.len(),
        forall|x: int| 0 <= x < n ==> #[trigger] w[x] as int == scaled(p[x]@, scale),
    ensures
        total(w, n) == scaled_total(p, scale, n),
    decreases n,
{
    if n > 0 {
        lemma_weights_total(p, w, scale, n - 1);
    }
}

} // verus!
