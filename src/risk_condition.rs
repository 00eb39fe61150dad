use vstd::prelude::*;
use crate::criterion::{get_indeces, get_max, get_min, lemma_max_of, lemma_min_of, lemma_ties, max_of, min_of, ties};
use vstd::arithmetic::div_mod::{lemma_fundamental_div_mod, lemma_mod_bound};
use crate::matrix::{lemma_total_mono, total, Matrix, Probabilities, MAX_CELL, MAX_P_SCALE, P_LIMIT};
use crate::number::{lemma_pow10_le, pow10, pow10_exec, Decimal};
use crate::uncertainty::column;


verus! {

/// `x[0] * w[0] + ... + x[n - 1] * w[n - 1]`.
pub open spec fn dot(x: Seq<i128>, w: Seq<u64>, n: int) -> int
    decreases n,
{
    if n <= 0 {
        0
    } else {
        dot(x, w, n - 1) + x[n - 1] * w[n - 1]
    }
}

/// `x[0]^2 * w[0] + ... + x[n - 1]^2 * w[n - 1]`.
pub open spec fn dot_sq(x: Seq<i128>, w: Seq<u64>, n: int) -> int
    decreases n,
{
    if n <= 0 {
        0
    } else {
        dot_sq(x, w, n - 1) + x[n - 1] * x[n - 1] * w[n - 1]
    }
}

/// The weight of the first `n` states in which the payoff exceeds `b`.
pub open spec fn mass_above(x: Seq<i128>, w: Seq<u64>, b: i128, n: int) -> int
    decreases n,
{
    if n <= 0 {
        0
    } else {
        mass_above(x, w, b, n - 1) + if x[n - 1] > b {
            w[n - 1] as int
        } else {
            0
        }
    }
}

/// Expected payoff of each row, scaled by `10^scale` of the probabilities.
pub open spec fn expectations(a: Seq<Seq<i128>>, w: Seq<u64>) -> Seq<i128> {
    a.map_values(|r: Seq<i128>| dot(r, w, r.len() as int) as i128)
}

/// `total * E[X^2] - E[X]^2` of each row, over weights that add up to
/// `total`: the variance scaled by `total^2`.
pub open spec fn variances(a: Seq<Seq<i128>>, w: Seq<u64>, total: int) -> Seq<i128> {
    a.map_values(
        |r: Seq<i128>|
            (total * dot_sq(r, w, r.len() as int) - dot(r, w, r.len() as int) * dot(
                r,
                w,
                r.len() as int,
            )) as i128,
    )
}

/// The weight of the states in which each row's payoff exceeds `b`.
pub open spec fn masses_above(a: Seq<Seq<i128>>, w: Seq<u64>, b: i128) -> Seq<i128> {
    a.map_values(|r: Seq<i128>| mass_above(r, w, b, r.len() as int) as i128)
}

/// The weights as a sequence of `i128`.
pub open spec fn weight_values(w: Seq<u64>) -> Seq<i128> {
    w.map_values(|x: u64| x as i128)
}

/// The column that `modal` reads: the state of the largest probability.
pub open spec fn modal_column(w: Seq<u64>) -> int {
    ties(weight_values(w), max_of(weight_values(w)))[0] as int
}

/// The largest probability is held by one state alone.
pub open spec fn modal_defined(w: Seq<u64>) -> bool {
    ties(weight_values(w), max_of(weight_values(w))).len() == 1
}

/// The matrix and the probabilities fit together.
pub open spec fn risk_inputs(a: &Matrix, p: &Probabilities) -> bool {
    a.wf() && p.wf() && p.weights@.len() == a.n_cols()
}

pub proof fn lemma_dot_bound(x: Seq<i128>, w: Seq<u64>, n: int, m: int)
    requires
        0 <= n <= x.len(),
        n <= w.len(),
        m >= 0,
        forall|j: int| 0 <= j < n ==> -m <= #[trigger] x[j] <= m,
    ensures
        -m * total(w, n) <= dot(x, w, n) <= m * total(w, n),
        0 <= dot_sq(x, w, n) <= m * m * total(w, n),
    decreases n,
{
    if n > 0 {
        lemma_dot_bound(x, w, n - 1, m);
        let v = x[n - 1];
        let q = w[n - 1] as int;
        assert(-m * q <= v * q <= m * q) by (nonlinear_arith)
            requires
                -m <= v <= m,
                q >= 0,
        ;
        assert(0 <= v * v * q <= m * m * q) by (nonlinear_arith)
            requires
                -m <= v <= m,
                q >= 0,
        ;
        assert(m * total(w, n) == m * total(w, n - 1) + m * q) by (nonlinear_arith)
            requires
                total(w, n) == total(w, n - 1) + q,
        ;
        assert(-m * total(w, n) == -m * total(w, n - 1) + -m * q) by (nonlinear_arith)
            requires
                total(w, n) == total(w, n - 1) + q,
        ;
        assert(m * m * total(w, n) == m * m * total(w, n - 1) + m * m * q) by (nonlinear_arith)
            requires
                total(w, n) == total(w, n - 1) + q,
        ;
    }
}

/// `total * y^2 - 2 * dot * y + dot_sq`, that is the weighted sum of
/// `(y - x[j])^2`, is never negative.
proof fn lemma_spread_nonneg(x: Seq<i128>, w: Seq<u64>, n: int, y: int)
    requires
        0 <= n <= x.len(),
        n <= w.len(),
    ensures
        total(w, n) * y * y - 2 * dot(x, w, n) * y + dot_sq(x, w, n) >= 0,
    decreases n,
{
    if n > 0 {
        lemma_spread_nonneg(x, w, n - 1, y);
        let v = x[n - 1] as int;
        let q = w[n - 1] as int;
        let s0 = total(w, n - 1);
        let t0 = dot(x, w, n - 1);
        let u0 = dot_sq(x, w, n - 1);
        assert((s0 + q) * y * y - 2 * (t0 + v * q) * y + (u0 + v * v * q) == (s0 * y * y - 2 * t0
            * y + u0) + q * ((y - v) * (y - v))) by (nonlinear_arith);
        assert(q * ((y - v) * (y - v)) >= 0) by (nonlinear_arith)
            requires
                q >= 0,
        ;
    }
}

/// Cauchy-Schwarz over non-negative weights: `total * dot_sq >= dot^2`.
pub proof fn lemma_variance_nonneg(x: Seq<i128>, w: Seq<u64>, n: int)
    requires
        0 <= n <= x.len(),
        n <= w.len(),
    ensures
        total(w, n) * dot_sq(x, w, n) - dot(x, w, n) * dot(x, w, n) >= 0,
    decreases n,
{
    if n > 0 {
        lemma_variance_nonneg(x, w, n - 1);
        lemma_spread_nonneg(x, w, n - 1, x[n - 1] as int);
        let v = x[n - 1] as int;
        let q = w[n - 1] as int;
        let s0 = total(w, n - 1);
        let t0 = dot(x, w, n - 1);
        let u0 = dot_sq(x, w, n - 1);
        assert((s0 + q) * (u0 + v * v * q) == s0 * u0 + s0 * (v * v * q) + q * u0 + q * (v * v
            * q)) by (nonlinear_arith);
        assert((t0 + v * q) * (t0 + v * q) == t0 * t0 + 2 * (t0 * (v * q)) + (v * q) * (v * q))
            by (nonlinear_arith);
        assert(q * (v * v * q) == (v * q) * (v * q)) by (nonlinear_arith);
        assert(s0 * (v * v * q) == q * (s0 * v * v)) by (nonlinear_arith);
        assert(t0 * (v * q) == q * (t0 * v)) by (nonlinear_arith);
        assert(q * (s0 * v * v - 2 * t0 * v + u0) == q * (s0 * v * v) - 2 * (q * (t0 * v)) + q
            * u0) by (nonlinear_arith);
        assert(q * (s0 * v * v - 2 * t0 * v + u0) >= 0) by (nonlinear_arith)
            requires
                q >= 0,
                s0 * v * v - 2 * t0 * v + u0 >= 0,
        ;
    }
}

/// The largest `r` with `r * r <= v`.
fn isqrt(v: u128) -> (r: u128)
    requires
        v <= 100_000_000_000_000_000_000_000_000_000_000_000_000,
    ensures
        r * r <= v < (r + 1) * (r + 1),
        r <= 10_000_000_000_000_000_000,
{
    let mut lo: u128 = 0;
    let mut hi: u128 = 10_000_000_000_000_000_001;
    while lo + 1 < hi
        invariant
            lo < hi <= 10_000_000_000_000_000_001,
            lo * lo <= v < hi * hi,
        decreases hi - lo,
    {
        let mid = lo + (hi - lo) / 2;
        proof {
            assert(mid * mid <= 10_000_000_000_000_000_001 * 10_000_000_000_000_000_001)
                by (nonlinear_arith)
                requires
                    mid <= 10_000_000_000_000_000_001,
            ;
        }
        if mid * mid <= v {
            lo = mid;
        } else {
            hi = mid;
        }
    }
    lo
}

/// The largest `m` with `m * m <= v * 10^12`: the square root of `v` with six
/// more digits.
fn root_digits(v: u128) -> (m: u128)
    requires
        v <= 100_000_000_000_000_000_000_000_000_000_000_000_000,
    ensures
        m * m <= v * 1_000_000_000_000 < (m + 1) * (m + 1),
        m <= 10_000_000_000_000_000_001_000_000,
{
    let r0 = isqrt(v);
    proof {
        assert(r0 * r0 <= 100_000_000_000_000_000_000_000_000_000_000_000_000) by (nonlinear_arith)
            requires
                r0 <= 10_000_000_000_000_000_000,
        ;
        assert(v - r0 * r0 <= 2 * r0) by (nonlinear_arith)
            requires
                v < (r0 + 1) * (r0 + 1),
        ;
    }
    let e = v - r0 * r0;
    let ghost d: int = 1_000_000;
    let mut lo: u128 = 0;
    let mut hi: u128 = 1_000_000;
    proof {
        assert((r0 * d + 0) * (r0 * d + 0) == r0 * r0 * (d * d)) by (nonlinear_arith);
        assert(r0 * r0 * (d * d) <= v * (d * d)) by (nonlinear_arith)
            requires
                r0 * r0 <= v,
                d > 0,
        ;
        assert((r0 * d + d) * (r0 * d + d) == (r0 + 1) * (r0 + 1) * (d * d)) by (nonlinear_arith);
        assert(v * (d * d) < (r0 + 1) * (r0 + 1) * (d * d)) by (nonlinear_arith)
            requires
                v < (r0 + 1) * (r0 + 1),
                d > 0,
        ;
    }
    while lo + 1 < hi
        invariant
            d == 1_000_000,
            lo < hi <= 1_000_000,
            r0 <= 10_000_000_000_000_000_000,
            e == v - r0 * r0,
            e <= 2 * r0,
            (r0 * d + lo) * (r0 * d + lo) <= v * (d * d),
            v * (d * d) < (r0 * d + hi) * (r0 * d + hi),
        decreases hi - lo,
    {
        let mid = lo + (hi - lo) / 2;
        proof {
            assert(2 * r0 * mid * 1_000_000 <= 2 * 10_000_000_000_000_000_000 * 1_000_000 * 1_000_000)
                by (nonlinear_arith)
                requires
                    r0 <= 10_000_000_000_000_000_000,
                    mid <= 1_000_000,
            ;
            assert(mid * mid <= 1_000_000 * 1_000_000) by (nonlinear_arith)
                requires
                    mid <= 1_000_000,
            ;
            assert(e * 1_000_000_000_000 <= 2 * 10_000_000_000_000_000_000 * 1_000_000_000_000)
                by (nonlinear_arith)
                requires
                    e <= 2 * r0,
                    r0 <= 10_000_000_000_000_000_000,
            ;
            assert((r0 * d + mid) * (r0 * d + mid) <= v * (d * d) <==> 2 * r0 * mid * 1_000_000 + mid
                * mid <= e * 1_000_000_000_000) by (nonlinear_arith)
                requires
                    d == 1_000_000,
                    e == v - r0 * r0,
            ;
        }
        if 2 * r0 * mid * 1_000_000 + mid * mid <= e * 1_000_000_000_000 {
            lo = mid;
        } else {
            hi = mid;
        }
    }
    r0 * 1_000_000 + lo
}

/// Bayes' criterion: the rows of the largest expected payoff.
pub fn bayes(a: &Matrix, p: &Probabilities) -> (r: (Decimal, Vec<usize>))
    requires
        risk_inputs(a, p),
    ensures
        r.0 == (Decimal {
            mantissa: max_of(expectations(a.cells(), p.weights@)),
            scale: (a.scale + p.scale) as u32,
        }),
        r.1@ == ties(expectations(a.cells(), p.weights@), r.0.mantissa),
{
    let z = row_expectations(a, p);
    let answer = get_max(&z);
    (Decimal { mantissa: answer, scale: a.scale + p.scale }, get_indeces(&z, answer))
}

/// `sum_j x[j] * w[j]` over the whole row.
fn row_dot(x: &Vec<i128>, w: &Vec<u64>, p_scale: u32) -> (r: i128)
    requires
        x@.len() == w@.len(),
        p_scale <= MAX_P_SCALE,
        total(w@, w@.len() as int) == pow10(p_scale as nat),
        forall|j: int| 0 <= j < x@.len() ==> -MAX_CELL <= #[trigger] x@[j] <= MAX_CELL,
    ensures
        r == dot(x@, w@, x@.len() as int),
        -MAX_CELL * P_LIMIT <= r <= MAX_CELL * P_LIMIT,
{
    proof {
        lemma_pow10_le(p_scale as nat);
    }
    let mut acc: i128 = 0;
    let mut j: usize = 0;
    while j < x.len()
        invariant
            x@.len() == w@.len(),
            total(w@, w@.len() as int) <= P_LIMIT,
            forall|j: int| 0 <= j < x@.len() ==> -MAX_CELL <= #[trigger] x@[j] <= MAX_CELL,
            j <= x@.len(),
            acc == dot(x@, w@, j as int),
        decreases x@.len() - j,
    {
        proof {
            lemma_dot_bound(x@, w@, j + 1, MAX_CELL as int);
            lemma_total_mono(w@, j + 1, w@.len() as int);
            lemma_total_mono(w@, j as int, j + 1);
            assert(total(w@, j + 1) == total(w@, j as int) + w@[j as int]);
            assert(MAX_CELL * total(w@, j + 1) <= MAX_CELL * P_LIMIT) by (nonlinear_arith)
                requires
                    0 <= total(w@, j + 1) <= P_LIMIT,
            ;
            assert(-MAX_CELL * P_LIMIT <= x@[j as int] * w@[j as int] <= MAX_CELL * P_LIMIT)
                by (nonlinear_arith)
                requires
                    -MAX_CELL <= x@[j as int] <= MAX_CELL,
                    0 <= w@[j as int] <= P_LIMIT,
            ;
        }
        acc = acc + x[j] * (w[j] as i128);
        j = j + 1;
    }
    proof {
        lemma_dot_bound(x@, w@, x@.len() as int, MAX_CELL as int);
        assert(MAX_CELL * total(w@, x@.len() as int) <= MAX_CELL * P_LIMIT) by (nonlinear_arith)
            requires
                0 <= total(w@, x@.len() as int) <= P_LIMIT,
        ;
    }
    acc
}

/// `sum_j x[j]^2 * w[j]` over the whole row, for payoffs that stay within
/// `DISPERSION_LIMIT` once multiplied by the weights' total.
fn row_dot_sq(x: &Vec<i128>, w: &Vec<u64>, p_scale: u32) -> (r: i128)
    requires
        x@.len() == w@.len(),
        p_scale <= MAX_P_SCALE,
        total(w@, w@.len() as int) == pow10(p_scale as nat),
        forall|j: int|
            0 <= j < x@.len() ==> -DISPERSION_LIMIT <= #[trigger] x@[j] * pow10(p_scale as nat)
                <= DISPERSION_LIMIT,
    ensures
        r == dot_sq(x@, w@, x@.len() as int),
        0 <= r,
        pow10(p_scale as nat) * r <= DISPERSION_LIMIT * DISPERSION_LIMIT,
{
    let ghost big = pow10(p_scale as nat) as int;
    let ghost l = (DISPERSION_LIMIT as int) / big;
    proof {
        lemma_pow10_le(p_scale as nat);
        lemma_row_limit(x@, big);
        assert(l * l * big <= DISPERSION_LIMIT * DISPERSION_LIMIT) by (nonlinear_arith)
            requires
                0 <= l,
                l * big <= DISPERSION_LIMIT,
                big >= 1,
        ;
    }
    let mut acc: i128 = 0;
    let mut j: usize = 0;
    while j < x.len()
        invariant
            x@.len() == w@.len(),
            big == pow10(p_scale as nat),
            total(w@, w@.len() as int) == big,
            big >= 1,
            0 <= l,
            l * l * big <= DISPERSION_LIMIT * DISPERSION_LIMIT,
            forall|j: int| 0 <= j < x@.len() ==> -l <= #[trigger] x@[j] <= l,
            j <= x@.len(),
            acc == dot_sq(x@, w@, j as int),
        decreases x@.len() - j,
    {
        proof {
            lemma_dot_bound(x@, w@, j + 1, l);
            lemma_total_mono(w@, j + 1, w@.len() as int);
            lemma_total_mono(w@, j as int, j + 1);
            lemma_dot_bound(x@, w@, j as int, l);
            assert(l * l * total(w@, j + 1) <= l * l * big) by (nonlinear_arith)
                requires
                    0 <= total(w@, j + 1) <= big,
            ;
            let v = x@[j as int];
            assert(0 <= v * v <= l * l) by (nonlinear_arith)
                requires
                    -l <= v <= l,
            ;
            assert(l * l <= l * l * big) by (nonlinear_arith)
                requires
                    big >= 1,
            ;
            assert(total(w@, j + 1) == total(w@, j as int) + w@[j as int]);
            assert(0 <= v * v * w@[j as int] <= l * l * big) by (nonlinear_arith)
                requires
                    0 <= v * v <= l * l,
                    0 <= w@[j as int] <= big,
            ;
        }
        let v = x[j];
        acc = acc + v * v * (w[j] as i128);
        j = j + 1;
    }
    proof {
        lemma_dot_bound(x@, w@, x@.len() as int, l);
        assert(big * dot_sq(x@, w@, x@.len() as int) <= big * (l * l * big)) by (nonlinear_arith)
            requires
                big >= 1,
                dot_sq(x@, w@, x@.len() as int) <= l * l * big,
        ;
        assert(big * (l * l * big) <= DISPERSION_LIMIT * DISPERSION_LIMIT) by (nonlinear_arith)
            requires
                0 <= l,
                l * big <= DISPERSION_LIMIT,
                big >= 1,
        ;
    }
    acc
}

/// With `l = (DISPERSION_LIMIT as int) / big`, payoffs within `DISPERSION_LIMIT` once
/// multiplied by `big` lie within `l`.
pub(crate) proof fn lemma_row_limit(x: Seq<i128>, big: int)
    requires
        big >= 1,
        forall|j: int| 0 <= j < x.len() ==> -DISPERSION_LIMIT <= #[trigger] x[j] * big <= DISPERSION_LIMIT,
    ensures
        0 <= (DISPERSION_LIMIT as int) / big,
        ((DISPERSION_LIMIT as int) / big) * big <= DISPERSION_LIMIT,
        forall|j: int| 0 <= j < x.len() ==> -((DISPERSION_LIMIT as int) / big) <= #[trigger] x[j] <= (DISPERSION_LIMIT as int) / big,
{
    let q = (DISPERSION_LIMIT as int) / big;
    let r = (DISPERSION_LIMIT as int) % big;
    lemma_fundamental_div_mod(DISPERSION_LIMIT as int, big);
    lemma_mod_bound(DISPERSION_LIMIT as int, big);
    assert(q >= 0) by (nonlinear_arith)
        requires
            big * q + r == DISPERSION_LIMIT,
            0 <= r < big,
    ;
    assert(q * big <= DISPERSION_LIMIT) by (nonlinear_arith)
        requires
            big * q + r == DISPERSION_LIMIT,
            0 <= r,
    ;
    assert forall|j: int| 0 <= j < x.len() implies -q <= #[trigger] x[j] <= q by {
        let v = x[j] as int;
        assert(v * big <= DISPERSION_LIMIT && -DISPERSION_LIMIT <= v * big);
        assert(v <= q) by (nonlinear_arith)
            requires
                v * big <= big * q + r,
                0 <= r < big,
        ;
        assert(-q <= v) by (nonlinear_arith)
            requires
                -(big * q + r) <= v * big,
                0 <= r < big,
        ;
    }
}

/// The expected payoff of each row, scaled by `10^scale` of the probabilities.
fn row_expectations(a: &Matrix, p: &Probabilities) -> (z: Vec<i128>)
    requires
        risk_inputs(a, p),
    ensures
        z@ == expectations(a.cells(), p.weights@),
{
    let mut z: Vec<i128> = Vec::new();
    let mut i: usize = 0;
    while i < a.rows.len()
        invariant
            risk_inputs(a, p),
            i <= a.n_rows(),
            z@.len() == i,
            forall|k: int| 0 <= k < i ==> z@[k] == #[trigger] expectations(a.cells(), p.weights@)[k],
        decreases a.n_rows() - i,
    {
        proof {
            assert(a.cells()[i as int] == a.rows@[i as int]@);
            assert(a.cells()[i as int].len() == a.cells()[0].len());
            assert forall|j: int| 0 <= j < a.rows@[i as int]@.len() implies -MAX_CELL
                <= #[trigger] a.rows@[i as int]@[j] <= MAX_CELL by {
                assert(a.rows@[i as int]@[j] == a.cells()[i as int][j]);
            }
        }
        let e = row_dot(&a.rows[i], &p.weights, p.scale);
        z.push(e);
        i = i + 1;
    }
    assert(z@ =~= expectations(a.cells(), p.weights@));
    z
}

/// Bound on a payoff times the weights' total (`10^scale` of the
/// probabilities) under which the variances fit in 128 bits.
pub const DISPERSION_LIMIT: i128 = 10_000_000_000_000_000_000;

/// Every payoff, times the weights' total, lies within `DISPERSION_LIMIT`:
/// the machine limit of `dispersion_minimization`.
pub open spec fn dispersion_fits(a: &Matrix, p: &Probabilities) -> bool {
    forall|i: int, j: int|
        0 <= i < a.n_rows() && 0 <= j < a.cells()[i].len() ==> -DISPERSION_LIMIT <= #[trigger] a.cells()[i][j]
            * pow10(p.scale as nat) <= DISPERSION_LIMIT
}

/// Tells whether `dispersion_minimization` can take these inputs.
pub fn check_dispersion_fits(a: &Matrix, p: &Probabilities) -> (r: bool)
    requires
        risk_inputs(a, p),
    ensures
        r == dispersion_fits(a, p),
{
    let big = pow10_exec(p.scale) as i128;
    proof {
        lemma_pow10_le(p.scale as nat);
    }
    let mut i: usize = 0;
    while i < a.rows.len()
        invariant
            risk_inputs(a, p),
            big == pow10(p.scale as nat),
            1 <= big <= P_LIMIT,
            i <= a.n_rows(),
            forall|x: int, y: int|
                0 <= x < i && 0 <= y < a.cells()[x].len() ==> -DISPERSION_LIMIT
                    <= #[trigger] a.cells()[x][y] * pow10(p.scale as nat) <= DISPERSION_LIMIT,
        decreases a.n_rows() - i,
    {
        let row = &a.rows[i];
        proof {
            assert(a.cells()[i as int] == row@);
        }
        let mut j: usize = 0;
        while j < row.len()
            invariant
                risk_inputs(a, p),
                big == pow10(p.scale as nat),
                1 <= big <= P_LIMIT,
                i < a.n_rows(),
                row@ == a.cells()[i as int],
                j <= row@.len(),
                forall|y: int|
                    0 <= y < j ==> -DISPERSION_LIMIT <= #[trigger] a.cells()[i as int][y] * pow10(
                        p.scale as nat,
                    ) <= DISPERSION_LIMIT,
            decreases row@.len() - j,
        {
            let v = row[j];
            proof {
                assert(a.cells()[i as int].len() == a.cells()[0].len());
                assert(-MAX_CELL * P_LIMIT <= v * big <= MAX_CELL * P_LIMIT) by (nonlinear_arith)
                    requires
                        -MAX_CELL <= v <= MAX_CELL,
                        1 <= big <= P_LIMIT,
                ;
            }
            let prod = v * big;
            if prod < -DISPERSION_LIMIT || prod > DISPERSION_LIMIT {
                return false;
            }
            j = j + 1;
        }
        i = i + 1;
    }
    true
}

/// Dispersion minimization: the rows of the smallest variance. The score is
/// the standard deviation of those rows, rounded down to six more digits than
/// the scales of the matrix and the probabilities add up to.
pub fn dispersion_minimization(a: &Matrix, p: &Probabilities) -> (r: (Decimal, Vec<usize>))
    requires
        risk_inputs(a, p),
        dispersion_fits(a, p),
    ensures
        ({
            let v = variances(a.cells(), p.weights@, pow10(p.scale as nat) as int);
            &&& r.0.scale == a.scale + p.scale + 6
            &&& r.0.mantissa >= 0
            &&& r.0.mantissa * r.0.mantissa <= min_of(v) * 1_000_000_000_000 < (r.0.mantissa + 1) * (
            r.0.mantissa + 1)
            &&& r.1@ == ties(v, min_of(v))
        }),
{
    let ghost c = a.cells();
    let ghost total_w = pow10(p.scale as nat) as int;
    let ghost vs = variances(c, p.weights@, total_w);
    let big_p = pow10_exec(p.scale) as i128;
    proof {
        lemma_pow10_le(p.scale as nat);
    }
    let mut z_squared: Vec<i128> = Vec::new();
    let mut i: usize = 0;
    while i < a.rows.len()
        invariant
            risk_inputs(a, p),
            dispersion_fits(a, p),
            c == a.cells(),
            total_w == pow10(p.scale as nat),
            vs == variances(c, p.weights@, total_w),
            big_p == total_w,
            1 <= big_p <= P_LIMIT,
            i <= a.n_rows(),
            z_squared@.len() == i,
            forall|k: int| 0 <= k < i ==> z_squared@[k] == #[trigger] vs[k],
            forall|k: int|
                0 <= k < i ==> 0 <= #[trigger] z_squared@[k] <= DISPERSION_LIMIT * DISPERSION_LIMIT,
        decreases a.n_rows() - i,
    {
        let row = &a.rows[i];
        let ghost l = (DISPERSION_LIMIT as int) / total_w;
        proof {
            assert(c[i as int] == row@);
            assert(c[i as int].len() == c[0].len());
            assert forall|j: int| 0 <= j < row@.len() implies -MAX_CELL <= #[trigger] row@[j]
                <= MAX_CELL by {
                assert(row@[j] == c[i as int][j]);
            }
            assert forall|j: int| 0 <= j < row@.len() implies -DISPERSION_LIMIT <= #[trigger] row@[j]
                * pow10(p.scale as nat) <= DISPERSION_LIMIT by {
                assert(row@[j] == c[i as int][j]);
            }
            lemma_row_limit(row@, total_w);
        }
        let e = row_dot(row, &p.weights, p.scale);
        let e2 = row_dot_sq(row, &p.weights, p.scale);
        proof {
            lemma_dot_bound(row@, p.weights@, row@.len() as int, l);
            assert(-DISPERSION_LIMIT <= e <= DISPERSION_LIMIT) by (nonlinear_arith)
                requires
                    -l * total_w <= e <= l * total_w,
                    0 <= l,
                    l * total_w <= DISPERSION_LIMIT,
            ;
            assert(0 <= big_p * e2) by (nonlinear_arith)
                requires
                    1 <= big_p,
                    0 <= e2,
            ;
            assert(0 <= e * e <= DISPERSION_LIMIT * DISPERSION_LIMIT) by (nonlinear_arith)
                requires
                    -DISPERSION_LIMIT <= e <= DISPERSION_LIMIT,
            ;
            lemma_variance_nonneg(row@, p.weights@, row@.len() as int);
        }
        z_squared.push(big_p * e2 - e * e);
        i = i + 1;
    }
    assert(z_squared@ =~= vs);
    let answer_squared = get_min(&z_squared);
    proof {
        lemma_min_of(vs);
        let k = choose|k: int| 0 <= k < vs.len() && vs[k] == min_of(vs);
        assert(z_squared@[k] == vs[k]);
    }
    let root = root_digits(answer_squared as u128);
    (
        Decimal { mantissa: root as i128, scale: a.scale + p.scale + 6 },
        get_indeces(&z_squared, answer_squared),
    )
}

/// Probability maximization with threshold `b`, in units of the matrix: the
/// rows most likely to pay more than `b`. Nothing without a threshold.
pub fn probability_maximization(a: &Matrix, p: &Probabilities, b: Option<i128>) -> (r: Option<
    (Decimal, Vec<usize>),
>)
    requires
        risk_inputs(a, p),
    ensures
        b is None ==> r is None,
        b is Some ==> r is Some && ({
            let z = masses_above(a.cells(), p.weights@, b->0);
            let res = r->0;
            res.0 == (Decimal { mantissa: max_of(z), scale: p.scale }) && res.1@ == ties(
                z,
                res.0.mantissa,
            )
        }),
{
    if b.is_none() {
        return None;
    }
    let b = b.unwrap();
    let ghost c = a.cells();
    let mut z: Vec<i128> = Vec::new();
    let mut i: usize = 0;
    while i < a.rows.len()
        invariant
            risk_inputs(a, p),
            c == a.cells(),
            i <= a.n_rows(),
            z@.len() == i,
            forall|k: int| 0 <= k < i ==> z@[k] == #[trigger] masses_above(c, p.weights@, b)[k],
        decreases a.n_rows() - i,
    {
        let row = &a.rows[i];
        proof {
            assert(c[i as int] == row@);
            assert(c[i as int].len() == c[0].len());
            lemma_pow10_le(p.scale as nat);
        }
        let mut acc: i128 = 0;
        let mut j: usize = 0;
        while j < row.len()
            invariant
                row@.len() == p.weights@.len(),
                total(p.weights@, p.weights@.len() as int) <= P_LIMIT,
                j <= row@.len(),
                acc == mass_above(row@, p.weights@, b, j as int),
                0 <= acc <= total(p.weights@, j as int),
            decreases row@.len() - j,
        {
            proof {
                lemma_total_mono(p.weights@, j + 1, p.weights@.len() as int);
            }
            if row[j] > b {
                acc = acc + p.weights[j] as i128;
            }
            j = j + 1;
        }
        z.push(acc);
        i = i + 1;
    }
    assert(z@ =~= masses_above(c, p.weights@, b));
    let answer = get_max(&z);
    Some((Decimal { mantissa: answer, scale: p.scale }, get_indeces(&z, answer)))
}

/// The modal criterion: in the state of the largest probability, the rows of
/// the best payoff. Nothing where several states share that probability.
pub fn modal(a: &Matrix, p: &Probabilities) -> (r: Option<(Decimal, Vec<usize>)>)
    requires
        risk_inputs(a, p),
    ensures
        r is Some <==> modal_defined(p.weights@),
        r is Some ==> ({
            let z = column(a.cells(), modal_column(p.weights@));
            let res = r->0;
            res.0 == (Decimal { mantissa: max_of(z), scale: a.scale }) && res.1@ == ties(
                z,
                res.0.mantissa,
            )
        }),
{
    let mut w: Vec<i128> = Vec::new();
    let mut j: usize = 0;
    while j < p.weights.len()
        invariant
            j <= p.weights@.len(),
            w@ == weight_values(p.weights@).take(j as int),
        decreases p.weights@.len() - j,
    {
        w.push(p.weights[j] as i128);
        j = j + 1;
        assert(w@ =~= weight_values(p.weights@).take(j as int));
    }
    assert(w@ =~= weight_values(p.weights@));
    let max_probability = get_max(&w);
    let at_max = get_indeces(&w, max_probability);
    proof {
        lemma_max_of(w@);
        lemma_ties(w@, max_probability);
        let k = choose|k: int| 0 <= k < w@.len() && w@[k] == max_probability;
        assert(at_max@.contains(k as usize));
    }
    if at_max.len() > 1 {
        return None;
    }
    let col = at_max[0];
    let ghost c = a.cells();
    let mut z: Vec<i128> = Vec::new();
    let mut i: usize = 0;
    while i < a.rows.len()
        invariant
            a.wf(),
            c == a.cells(),
            col < a.n_cols(),
            i <= a.n_rows(),
            z@ == column(c, col as int).take(i as int),
        decreases a.n_rows() - i,
    {
        proof {
            assert(c[i as int] == a.rows@[i as int]@);
            assert(c[i as int].len() == c[0].len());
        }
        z.push(a.rows[i][col]);
        i = i + 1;
        assert(z@ =~= column(c, col as int).take(i as int));
    }
    assert(z@ =~= column(c, col as int));
    let answer = get_max(&z);
    Some((Decimal { mantissa: answer, scale: a.scale }, get_indeces(&z, answer)))
}

} // verus!
