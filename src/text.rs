use vstd::prelude::*;
use vstd::arithmetic::div_mod::{lemma_fundamental_div_mod, lemma_mod_bound, lemma_small_mod};
use crate::matrix::{Matrix, MAX_CELL, MAX_SCALE};
use crate::number::{lemma_pow10_pos, pow10, pow10_wide, Decimal};
use crate::parse::{
    all_digits, cell_number, digit_run, digits_value, is_digit, lemma_digit_run_at, matrix_scale,
    matrix_text_ok, lemma_numeral, numeral, row_scale, scale_of, scaled, scaled_matrix, sign_len,
};

verus! {

/// The character of the digit `d`.
pub open spec fn digit_char(d: nat) -> char {
    ((48 + d) as u8) as char
}

/// The last `w` decimal digits of `n`, leading zeros included.
pub open spec fn padded(n: nat, w: nat) -> Seq<char>
    decreases w,
{
    if w == 0 {
        Seq::empty()
    } else {
        padded(n / 10, (w - 1) as nat).push(digit_char(n % 10))
    }
}

/// The count of decimal digits of `n`; one for zero.
pub open spec fn num_width(n: nat) -> nat
    decreases n,
{
    if n < 10 {
        1
    } else {
        1 + num_width(n / 10)
    }
}

/// How `m / 10^s` is written: a `-` where it is negative, the integer digits
/// without leading zeros, and, where `s > 0`, a point and `s` digits.
pub open spec fn decimal_text(m: int, s: nat) -> Seq<char> {
    let mag = (if m < 0 {
        -m
    } else {
        m
    }) as nat;
    let q = mag / pow10(s);
    let r = mag % pow10(s);
    let sign = if m < 0 {
        seq!['-']
    } else {
        Seq::<char>::empty()
    };
    let int_part = padded(q, num_width(q));
    if s == 0 {
        sign + int_part
    } else {
        sign + int_part + seq!['.'] + padded(r, s)
    }
}

/// Relies on `String::push`: appends one character.
#[verifier::external_body]
fn push_char(s: &mut String, c: char)
    ensures
        final(s)@ == old(s)@.push(c),
{
    s.push(c)
}

proof fn lemma_padded(n: nat, w: nat)
    ensures
        padded(n, w).len() == w,
        all_digits(padded(n, w)),
        digits_value(padded(n, w)) == n % pow10(w),
    decreases w,
{
    if w > 0 {
        let w1 = (w - 1) as nat;
        lemma_padded(n / 10, w1);
        let p = padded(n / 10, w1);
        let c = digit_char(n % 10);
        lemma_mod_bound(n as int, 10);
        assert(c as int == 48 + n % 10);
        assert(all_digits(p.push(c))) by {
            assert forall|i: int| 0 <= i < p.push(c).len() implies is_digit(
                #[trigger] p.push(c)[i],
            ) by {
                if i < p.len() {
                    assert(p.push(c)[i] == p[i]);
                }
            }
        }
        assert(p.push(c).drop_last() =~= p);
        lemma_pow10_pos(w1);
        vstd::arithmetic::div_mod::lemma_mod_breakdown(n as int, 10, pow10(w1) as int);
        assert(pow10(w) == 10 * pow10(w1));
    }
}

proof fn lemma_num_width(n: nat)
    ensures
        n < pow10(num_width(n)),
        num_width(n) >= 1,
    decreases n,
{
    if n >= 10 {
        lemma_num_width(n / 10);
        lemma_fundamental_div_mod(n as int, 10);
        lemma_mod_bound(n as int, 10);
        assert(pow10(num_width(n)) == 10 * pow10(num_width(n / 10)));
    } else {
        assert(pow10(1) == 10) by {
            reveal_with_fuel(pow10, 2);
        }
    }
}

proof fn lemma_digits_concat(x: Seq<char>, y: Seq<char>)
    ensures
        digits_value(x + y) == digits_value(x) * pow10(y.len()) + digits_value(y),
    decreases y.len(),
{
    if y.len() > 0 {
        let y1 = y.drop_last();
        lemma_digits_concat(x, y1);
        assert((x + y).drop_last() =~= x + y1);
        assert(pow10(y.len()) == 10 * pow10(y1.len()));
        assert(digits_value(x) * (10 * pow10(y1.len())) == 10 * (digits_value(x) * pow10(y1.len())))
            by (nonlinear_arith);
        assert((x + y).last() == y.last());
        assert(digits_value(x + y) == 10 * digits_value(x + y1) + ((x + y).last() as int - '0' as int));
        assert(digits_value(y) == 10 * digits_value(y1) + (y.last() as int - '0' as int));
    } else {
        assert(x + y =~= x);
        assert(pow10(0) == 1);
    }
}

proof fn lemma_width_bound(n: nat, k: nat)
    requires
        n < pow10(k),
        k >= 1,
    ensures
        num_width(n) <= k,
    decreases n,
{
    if n >= 10 {
        if k == 1 {
            assert(pow10(1) == 10) by {
                reveal_with_fuel(pow10, 2);
            }
        } else {
            assert(pow10(k) == 10 * pow10((k - 1) as nat));
            lemma_width_bound(n / 10, (k - 1) as nat);
        }
    }
}

/// Appends the last `w` digits of `n`.
fn push_padded(out: &mut String, n: u128, w: u32)
    ensures
        final(out)@ == old(out)@ + padded(n as nat, w as nat),
    decreases w,
{
    if w == 0 {
        assert(old(out)@ + padded(n as nat, 0) =~= old(out)@);
        return;
    }
    push_padded(out, n / 10, w - 1);
    let d = (n % 10) as u8;
    push_char(out, (48u8 + d) as char);
    assert(old(out)@ + padded(n as nat, w as nat) =~= old(out)@ + padded(
        (n / 10) as nat,
        (w - 1) as nat,
    ) + seq![digit_char((n % 10) as nat)]);
}

/// The count of decimal digits of `n`.
fn width(n: u128) -> (r: u32)
    ensures
        r == num_width(n as nat),
        r <= 39,
    decreases n,
{
    if n < 10 {
        1
    } else {
        let r = width(n / 10);
        proof {
            reveal_with_fuel(pow10, 40);
            assert(pow10(39) == 1000000000000000000000000000000000000000);
            lemma_width_bound(n as nat, 39);
        }
        1 + r
    }
}

impl Decimal {
    /// The decimal numeral of this number, with exactly `scale` digits after
    /// the point.
    pub fn to_text(&self) -> (r: String)
        requires
            self.mantissa > i128::MIN,
            self.scale <= 38,
        ensures
            r@ == decimal_text(self.mantissa as int, self.scale as nat),
    {
        let m = self.mantissa;
        let s = self.scale;
        let mag: u128 = if m < 0 {
            (-m) as u128
        } else {
            m as u128
        };
        let f = pow10_wide(s);
        proof {
            lemma_pow10_pos(s as nat);
        }
        let q = mag / f;
        let rem = mag % f;
        let mut out = String::new();
        if m < 0 {
            push_char(&mut out, '-');
        }
        let ghost sign = out@;
        push_padded(&mut out, q, width(q));
        if s > 0 {
            push_char(&mut out, '.');
            push_padded(&mut out, rem, s);
        }
        proof {
            if m < 0 {
                assert(sign == seq!['-']);
            } else {
                assert(sign == Seq::<char>::empty());
            }
        }
        out
    }
}

/// Writing a cell's number with `to_text` and reading it back gives the same
/// number with the same count of digits after the point.
pub proof fn lemma_text_round_trip(d: Decimal)
    requires
        -MAX_CELL <= d.mantissa <= MAX_CELL,
        d.scale <= MAX_SCALE,
    ensures
        cell_number(decimal_text(d.mantissa as int, d.scale as nat)) == Some(
            (d.mantissa as int, d.scale as nat),
        ),
{
    let m = d.mantissa as int;
    let s = d.scale as nat;
    let mag = (if m < 0 {
        -m
    } else {
        m
    }) as nat;
    lemma_pow10_pos(s);
    let q = mag / pow10(s);
    let r = mag % pow10(s);
    let text = decimal_text(m, s);
    let ip = padded(q, num_width(q));
    let fp = padded(r, s);
    lemma_padded(q, num_width(q));
    lemma_padded(r, s);
    lemma_num_width(q);
    lemma_small_mod(q, pow10(num_width(q)));
    lemma_mod_bound(mag as int, pow10(s) as int);
    lemma_small_mod(r, pow10(s));
    lemma_fundamental_div_mod(mag as int, pow10(s) as int);
    let sign = if m < 0 {
        seq!['-']
    } else {
        Seq::<char>::empty()
    };
    // the part after the sign
    let t = if s == 0 {
        ip
    } else {
        ip + seq!['.'] + fp
    };
    assert(text =~= sign + t);
    assert(is_digit(ip[0]));
    assert(sign_len(text) == sign.len()) by {
        if m >= 0 {
            assert(text[0] == ip[0]);
        }
    }
    assert(text.subrange(sign_len(text), text.len() as int) =~= t);
    assert forall|i: int| 0 <= i < ip.len() implies is_digit(#[trigger] t[i]) by {
        assert(t[i] == ip[i]);
    }
    if s == 0 {
        lemma_digit_run_at(t, ip.len() as int);
        assert(t.subrange(0, ip.len() as int) =~= ip);
        assert(t.subrange(ip.len() as int, t.len() as int) =~= Seq::<char>::empty());
        assert(ip + Seq::<char>::empty() =~= ip);
        assert(digit_run(Seq::<char>::empty()) == 0);
        assert(Seq::<char>::empty().subrange(0, 0) =~= Seq::<char>::empty());
        assert(pow10(0) == 1);
        assert(digits_value(ip) == q);
        assert(mag == 1 * q + r);
        assert(r == 0);
        assert(q == mag);
    } else {
        assert(t[ip.len() as int] == '.');
        lemma_digit_run_at(t, ip.len() as int);
        assert(t.subrange(0, ip.len() as int) =~= ip);
        let rest = t.subrange(ip.len() as int, t.len() as int);
        assert(rest.drop_first() =~= fp);
        assert(rest[0] == '.');
        lemma_digit_run_at(fp, fp.len() as int);
        assert(fp.subrange(0, fp.len() as int) =~= fp);
        assert(fp.subrange(fp.len() as int, fp.len() as int) =~= Seq::<char>::empty());
        lemma_digits_concat(ip, fp);
        assert(digits_value(ip + fp) == q * pow10(s) + r);
        assert(q * pow10(s) == pow10(s) * q) by (nonlinear_arith);
        assert(digits_value(ip + fp) == mag);
    }
    assert(sign_len(text) == 1 ==> text[0] == '-' && m < 0);
    assert(m < 0 ==> sign_len(text) == 1 && text[0] == '-');
    lemma_numeral(text);
    assert(numeral(text) == Some((m, 0 - s)));
    assert(pow10(0) == 1);
}


proof fn lemma_row_scale_const(r: Seq<String>, n: int, k: nat)
    requires
        1 <= n <= r.len(),
        forall|j: int| 0 <= j < n ==> scale_of(#[trigger] r[j]@) == k,
    ensures
        row_scale(r, n) == k,
    decreases n,
{
    assert(scale_of(r[n - 1]@) == k);
    if n > 1 {
        lemma_row_scale_const(r, n - 1, k);
    } else {
        assert(row_scale(r, 0) == 0);
    }
}

proof fn lemma_matrix_scale_const(a: Seq<Vec<String>>, m: int, k: nat)
    requires
        1 <= m <= a.len(),
        forall|i: int| 0 <= i < m ==> row_scale(#[trigger] a[i]@, a[i]@.len() as int) == k,
    ensures
        matrix_scale(a, m) == k,
    decreases m,
{
    assert(row_scale(a[m - 1]@, a[m - 1]@.len() as int) == k);
    if m > 1 {
        lemma_matrix_scale_const(a, m - 1, k);
    } else {
        assert(matrix_scale(a, 0) == 0);
    }
}

/// Writing every payoff of a matrix with `to_text`, at the matrix's scale, and
/// reading the text back with `parse_data` gives the same matrix.
pub proof fn lemma_matrix_round_trip(a: Matrix, t: Seq<Vec<String>>)
    requires
        a.wf(),
        t.len() == a.n_rows(),
        forall|i: int| 0 <= i < t.len() ==> #[trigger] t[i]@.len() == a.cells()[i].len(),
        forall|i: int, j: int|
            0 <= i < t.len() && 0 <= j < t[i]@.len() ==> (#[trigger] t[i]@[j])@ == decimal_text(
                a.cells()[i][j] as int,
                a.scale as nat,
            ),
    ensures
        matrix_text_ok(t),
        matrix_scale(t, t.len() as int) == a.scale,
        forall|i: int, j: int|
            0 <= i < t.len() && 0 <= j < t[i]@.len() ==> #[trigger] scaled_matrix(t)[i][j]
                == a.cells()[i][j],
{
    let c = a.cells();
    let k = a.scale as nat;
    assert forall|i: int, j: int| 0 <= i < t.len() && 0 <= j < t[i]@.len() implies cell_number(
        #[trigger] t[i]@[j]@,
    ) == Some((c[i][j] as int, k)) by {
        lemma_text_round_trip(Decimal { mantissa: c[i][j], scale: a.scale });
    }
    assert forall|i: int| 0 <= i < t.len() implies row_scale(
        #[trigger] t[i]@,
        t[i]@.len() as int,
    ) == k by {
        assert(c[i].len() == c[0].len());
        assert forall|j: int| 0 <= j < t[i]@.len() implies scale_of(#[trigger] t[i]@[j]@) == k by {
            assert(cell_number(t[i]@[j]@) == Some((c[i][j] as int, k)));
        }
        lemma_row_scale_const(t[i]@, t[i]@.len() as int, k);
    }
    lemma_matrix_scale_const(t, t.len() as int, k);
    assert(pow10(0) == 1);
    assert forall|i: int, j: int| 0 <= i < t.len() && 0 <= j < t[i]@.len() implies #[trigger] scaled_matrix(
        t,
    )[i][j] == c[i][j] by {
        assert(cell_number(t[i]@[j]@) == Some((c[i][j] as int, k)));
        assert(scaled_matrix(t)[i][j] == scaled(t[i]@[j]@, k));
        assert(scaled(t[i]@[j]@, k) == c[i][j] * pow10(0));
    }
    assert forall|i: int| 0 <= i < t.len() implies #[trigger] t[i]@.len() == t[0]@.len() by {
        assert(c[i].len() == c[0].len());
    }
}

} // verus!
