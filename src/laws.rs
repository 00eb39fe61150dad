use vstd::prelude::*;
use crate::answer_block::{
    bayes_result, hurwitz_result, maximax_result, minimax_result, savage_result,
};
use crate::criterion::{
    lemma_max_of, lemma_max_of_unique, lemma_min_of, lemma_min_of_unique, max_of, min_of, ties,
};
use crate::matrix::{total, Matrix, Probabilities, MAX_CELL, P_LIMIT};
use crate::number::{lemma_pow10_le, pow10, Decimal};
use crate::profits_losses_radio::Choise;
use crate::risk_condition::{
    dispersion_fits, dot, dot_sq, expectations, lemma_dot_bound, lemma_row_limit,
    lemma_variance_nonneg, risk_inputs, variances, DISPERSION_LIMIT,
};
use crate::uncertainty::{column, hurwitz_values, regrets, row_maxima, row_minima};

verus! {

/// Multiplying every element by `k > 0` multiplies the maximum by `k` and
/// keeps the places where it is reached.
proof fn lemma_scaled_best(z: Seq<i128>, y: Seq<i128>, k: int)
    requires
        z.len() >= 1,
        y.len() == z.len(),
        k > 0,
        forall|i: int| 0 <= i < z.len() ==> #[trigger] y[i] == k * z[i],
    ensures
        max_of(y) == k * max_of(z),
        ties(y, max_of(y)) == ties(z, max_of(z)),
{
    lemma_max_of(z);
    let w = choose|i: int| 0 <= i < z.len() && z[i] == max_of(z);
    assert(y[w] == k * max_of(z));
    assert forall|i: int| 0 <= i < y.len() implies y[i] <= k * max_of(z) by {
        assert(z[i] <= max_of(z));
        assert(k * z[i] <= k * max_of(z)) by (nonlinear_arith)
            requires
                k > 0,
                z[i] <= max_of(z),
        ;
    }
    lemma_max_of_unique(y, (k * max_of(z)) as i128);
    lemma_scaled_ties(z, y, k, max_of(z));
}

proof fn lemma_scaled_ties(z: Seq<i128>, y: Seq<i128>, k: int, m: i128)
    requires
        y.len() == z.len(),
        k > 0,
        forall|i: int| 0 <= i < z.len() ==> #[trigger] y[i] == k * z[i],
        i128::MIN <= k * m <= i128::MAX,
    ensures
        ties(y, (k * m) as i128) == ties(z, m),
    decreases z.len(),
{
    if z.len() > 0 {
        lemma_scaled_ties(z.drop_last(), y.drop_last(), k, m);
        let a = z.last();
        assert(y.last() == k * a);
        assert((k * a == k * m) <==> a == m) by (nonlinear_arith)
            requires
                k > 0,
        ;
    }
}

/// Adding `c` to every element adds `c` to the maximum.
proof fn lemma_shifted_max(z: Seq<i128>, y: Seq<i128>, c: int)
    requires
        z.len() >= 1,
        y.len() == z.len(),
        forall|i: int| 0 <= i < z.len() ==> #[trigger] y[i] == z[i] + c,
    ensures
        max_of(y) == max_of(z) + c,
{
    lemma_max_of(z);
    let w = choose|i: int| 0 <= i < z.len() && z[i] == max_of(z);
    assert(y[w] == max_of(z) + c);
    assert forall|i: int| 0 <= i < y.len() implies y[i] <= max_of(z) + c by {
        assert(z[i] <= max_of(z));
    }
    lemma_max_of_unique(y, (max_of(z) + c) as i128);
}

/// With coefficient one, Hurwitz's criterion is the maximax criterion; with
/// coefficient zero, it is Wald's criterion for profits. And the optimistic
/// score is never below the pessimistic one.
pub proof fn lemma_hurwitz_extremes(a: Matrix)
    requires
        a.wf(),
    ensures
        hurwitz_result(a, (Decimal { mantissa: 1, scale: 0 })) == maximax_result(a),
        hurwitz_result(a, (Decimal { mantissa: 0, scale: 0 })) == minimax_result(a, Choise::Profits),
        maximax_result(a).0.mantissa >= minimax_result(a, Choise::Profits).0.mantissa,
{
    let c = a.cells();
    assert(pow10(0) == 1);
    assert(hurwitz_values(c, 1, 1) =~= row_maxima(c));
    assert(hurwitz_values(c, 0, 1) =~= row_minima(c));
    lemma_max_of(row_maxima(c));
    lemma_max_of(row_minima(c));
    let w = choose|i: int| 0 <= i < c.len() && row_minima(c)[i] == max_of(row_minima(c));
    assert(c[w].len() == c[0].len());
    lemma_min_of(c[w]);
    lemma_max_of(c[w]);
    let x = choose|j: int| 0 <= j < c[w].len() && c[w][j] == min_of(c[w]);
    assert(c[w][x] <= max_of(c[w]));
    assert(row_maxima(c)[w] <= max_of(row_maxima(c)));
}

/// Adding the same constant to every payoff changes neither the Savage score
/// nor its rows: regret is measured against the best payoff of each column.
pub proof fn lemma_savage_shift(a: Matrix, b: Matrix, c: int)
    requires
        a.wf(),
        b.wf(),
        b.scale == a.scale,
        b.n_rows() == a.n_rows(),
        forall|i: int| 0 <= i < a.n_rows() ==> #[trigger] b.cells()[i].len() == a.cells()[i].len(),
        forall|i: int, j: int|
            0 <= i < a.n_rows() && 0 <= j < a.cells()[i].len() ==> #[trigger] b.cells()[i][j]
                == a.cells()[i][j] + c,
    ensures
        savage_result(b) == savage_result(a),
{
    let ca = a.cells();
    let cb = b.cells();
    assert forall|j: int| 0 <= j < ca[0].len() implies max_of(#[trigger] column(cb, j)) == max_of(
        column(ca, j),
    ) + c by {
        assert forall|i: int| 0 <= i < ca.len() implies #[trigger] column(cb, j)[i] == column(
            ca,
            j,
        )[i] + c by {
            assert(ca[i].len() == ca[0].len());
        }
        lemma_shifted_max(column(ca, j), column(cb, j), c);
    }
    assert forall|i: int| 0 <= i < ca.len() implies #[trigger] regrets(cb)[i] =~= regrets(ca)[i] by {
        assert(ca[i].len() == ca[0].len());
        assert forall|j: int| 0 <= j < ca[i].len() implies #[trigger] regrets(cb)[i][j]
            == regrets(ca)[i][j] by {
            assert(cb[i][j] == ca[i][j] + c);
        }
    }
    assert(regrets(cb) =~= regrets(ca));
}

proof fn lemma_dot_scaled(x: Seq<i128>, y: Seq<i128>, w: Seq<u64>, k: int, n: int)
    requires
        0 <= n <= x.len(),
        y.len() == x.len(),
        forall|j: int| 0 <= j < x.len() ==> #[trigger] y[j] == k * x[j],
    ensures
        dot(y, w, n) == k * dot(x, w, n),
    decreases n,
{
    if n > 0 {
        lemma_dot_scaled(x, y, w, k, n - 1);
        assert(y[n - 1] * w[n - 1] == k * (x[n - 1] * w[n - 1])) by (nonlinear_arith)
            requires
                y[n - 1] == k * x[n - 1],
        ;
        assert(k * dot(x, w, n) == k * dot(x, w, n - 1) + k * (x[n - 1] * w[n - 1]))
            by (nonlinear_arith)
            requires
                dot(x, w, n) == dot(x, w, n - 1) + x[n - 1] * w[n - 1],
        ;
    }
}

/// Bayes' criterion is linear: multiplying every payoff by `k / 10^s`, with
/// `k > 0`, multiplies the score by the same factor and keeps the rows.
pub proof fn lemma_bayes_linear(a: Matrix, b: Matrix, p: Probabilities, k: int, s: u32)
    requires
        risk_inputs(&a, &p),
        risk_inputs(&b, &p),
        k > 0,
        b.scale == a.scale + s,
        b.n_rows() == a.n_rows(),
        forall|i: int| 0 <= i < a.n_rows() ==> #[trigger] b.cells()[i].len() == a.cells()[i].len(),
        forall|i: int, j: int|
            0 <= i < a.n_rows() && 0 <= j < a.cells()[i].len() ==> #[trigger] b.cells()[i][j] == k
                * a.cells()[i][j],
    ensures
        bayes_result(b, p).0.mantissa == k * bayes_result(a, p).0.mantissa,
        bayes_result(b, p).0.scale == bayes_result(a, p).0.scale + s,
        bayes_result(b, p).1 == bayes_result(a, p).1,
{
    let ca = a.cells();
    let cb = b.cells();
    let w = p.weights@;
    let za = expectations(ca, w);
    let zb = expectations(cb, w);
    assert forall|i: int| 0 <= i < za.len() implies #[trigger] zb[i] == k * za[i] by {
        assert(ca[i].len() == ca[0].len());
        lemma_dot_scaled(ca[i], cb[i], w, k, ca[i].len() as int);
        lemma_dot_bound(ca[i], w, ca[i].len() as int, MAX_CELL as int);
        lemma_dot_bound(cb[i], w, cb[i].len() as int, MAX_CELL as int);
        lemma_pow10_le(p.scale as nat);
        assert(MAX_CELL * total(w, ca[i].len() as int) <= MAX_CELL * P_LIMIT) by (nonlinear_arith)
            requires
                total(w, ca[i].len() as int) <= P_LIMIT,
        ;
    }
    lemma_scaled_best(za, zb, k);
}

/// Each row's variance, within the machine limit of the dispersion
/// criterion, is the exact value `P * E[X^2] - E[X]^2` and lies in
/// `[0, DISPERSION_LIMIT^2]`.
proof fn lemma_variance_row(a: Matrix, p: Probabilities, i: int)
    requires
        risk_inputs(&a, &p),
        dispersion_fits(&a, &p),
        0 <= i < a.n_rows(),
    ensures
        ({
            let r = a.cells()[i];
            let w = p.weights@;
            let n = r.len() as int;
            let big = pow10(p.scale as nat) as int;
            let exact = big * dot_sq(r, w, n) - dot(r, w, n) * dot(r, w, n);
            &&& 0 <= exact <= DISPERSION_LIMIT * DISPERSION_LIMIT
            &&& variances(a.cells(), w, big)[i] == exact
        }),
{
    let c = a.cells();
    let w = p.weights@;
    let big = pow10(p.scale as nat) as int;
    lemma_pow10_le(p.scale as nat);
    let l = (DISPERSION_LIMIT as int) / big;
    let r = c[i];
    let n = r.len() as int;
    assert(r.len() == c[0].len());
    assert forall|j: int| 0 <= j < r.len() implies -DISPERSION_LIMIT <= #[trigger] r[j] * big
        <= DISPERSION_LIMIT by {
        assert(r[j] == c[i][j]);
    }
    lemma_row_limit(r, big);
    lemma_variance_nonneg(r, w, n);
    lemma_dot_bound(r, w, n, l);
    let e = dot(r, w, n);
    let e2 = dot_sq(r, w, n);
    assert(-DISPERSION_LIMIT <= e <= DISPERSION_LIMIT) by (nonlinear_arith)
        requires
            -l * big <= e <= l * big,
            0 <= l,
            l * big <= DISPERSION_LIMIT,
    ;
    assert(big * e2 <= DISPERSION_LIMIT * DISPERSION_LIMIT) by (nonlinear_arith)
        requires
            0 <= e2 <= l * l * big,
            0 <= l,
            l * big <= DISPERSION_LIMIT,
            big >= 1,
    ;
    assert(0 <= e * e) by (nonlinear_arith);
}

/// Under risk, no row's variance is negative, so the dispersion score, a
/// square root of the least of them, is a non-negative number.
pub proof fn lemma_dispersion_nonneg(a: Matrix, p: Probabilities)
    requires
        risk_inputs(&a, &p),
        dispersion_fits(&a, &p),
    ensures
        forall|i: int|
            0 <= i < a.n_rows() ==> #[trigger] variances(
                a.cells(),
                p.weights@,
                pow10(p.scale as nat) as int,
            )[i] >= 0,
        min_of(variances(a.cells(), p.weights@, pow10(p.scale as nat) as int)) >= 0,
{
    let v = variances(a.cells(), p.weights@, pow10(p.scale as nat) as int);
    assert forall|i: int| 0 <= i < a.n_rows() implies #[trigger] v[i] >= 0 by {
        lemma_variance_row(a, p, i);
    }
    lemma_min_of(v);
}

proof fn lemma_dot_sq_scaled(x: Seq<i128>, y: Seq<i128>, w: Seq<u64>, k: int, n: int)
    requires
        0 <= n <= x.len(),
        y.len() == x.len(),
        forall|j: int| 0 <= j < x.len() ==> #[trigger] y[j] == k * x[j],
    ensures
        dot_sq(y, w, n) == k * k * dot_sq(x, w, n),
    decreases n,
{
    if n > 0 {
        lemma_dot_sq_scaled(x, y, w, k, n - 1);
        let a = x[n - 1] as int;
        let q = w[n - 1] as int;
        assert(y[n - 1] * y[n - 1] * q == k * k * (a * a * q)) by (nonlinear_arith)
            requires
                y[n - 1] == k * a,
        ;
        assert(k * k * dot_sq(x, w, n) == k * k * dot_sq(x, w, n - 1) + k * k * (a * a * q))
            by (nonlinear_arith)
            requires
                dot_sq(x, w, n) == dot_sq(x, w, n - 1) + a * a * q,
        ;
    }
}

/// Multiplying every element by `k > 0` multiplies the minimum by `k` and
/// keeps the places where it is reached.
proof fn lemma_scaled_least(z: Seq<i128>, y: Seq<i128>, k: int)
    requires
        z.len() >= 1,
        y.len() == z.len(),
        k > 0,
        forall|i: int| 0 <= i < z.len() ==> #[trigger] y[i] == k * z[i],
    ensures
        min_of(y) == k * min_of(z),
        ties(y, min_of(y)) == ties(z, min_of(z)),
{
    lemma_min_of(z);
    let w = choose|i: int| 0 <= i < z.len() && z[i] == min_of(z);
    assert(y[w] == k * min_of(z));
    assert forall|i: int| 0 <= i < y.len() implies k * min_of(z) <= y[i] by {
        assert(min_of(z) <= z[i]);
        assert(k * min_of(z) <= k * z[i]) by (nonlinear_arith)
            requires
                k > 0,
                min_of(z) <= z[i],
        ;
    }
    lemma_min_of_unique(y, (k * min_of(z)) as i128);
    lemma_scaled_ties(z, y, k, min_of(z));
}

/// Multiplying every payoff by `k != 0` multiplies every variance by `k^2`,
/// so the least variance too, and keeps the rows of the dispersion criterion.
/// The standard deviation is thus multiplied by `|k|`; the score is that root
/// rounded down to six more digits than the scales give.
pub proof fn lemma_dispersion_scaling(a: Matrix, b: Matrix, p: Probabilities, k: int)
    requires
        risk_inputs(&a, &p),
        risk_inputs(&b, &p),
        dispersion_fits(&a, &p),
        dispersion_fits(&b, &p),
        k != 0,
        b.n_rows() == a.n_rows(),
        forall|i: int| 0 <= i < a.n_rows() ==> #[trigger] b.cells()[i].len() == a.cells()[i].len(),
        forall|i: int, j: int|
            0 <= i < a.n_rows() && 0 <= j < a.cells()[i].len() ==> #[trigger] b.cells()[i][j] == k
                * a.cells()[i][j],
    ensures
        ({
            let big = pow10(p.scale as nat) as int;
            let va = variances(a.cells(), p.weights@, big);
            let vb = variances(b.cells(), p.weights@, big);
            &&& forall|i: int| 0 <= i < a.n_rows() ==> #[trigger] vb[i] == k * k * va[i]
            &&& min_of(vb) == k * k * min_of(va)
            &&& ties(vb, min_of(vb)) == ties(va, min_of(va))
        }),
{
    let big = pow10(p.scale as nat) as int;
    let w = p.weights@;
    let va = variances(a.cells(), w, big);
    let vb = variances(b.cells(), w, big);
    assert forall|i: int| 0 <= i < a.n_rows() implies #[trigger] vb[i] == k * k * va[i] by {
        let x = a.cells()[i];
        let y = b.cells()[i];
        let n = x.len() as int;
        lemma_variance_row(a, p, i);
        lemma_variance_row(b, p, i);
        lemma_dot_scaled(x, y, w, k, n);
        lemma_dot_sq_scaled(x, y, w, k, n);
        let e = dot(x, w, n);
        let e2 = dot_sq(x, w, n);
        assert(big * (k * k * e2) - (k * e) * (k * e) == k * k * (big * e2 - e * e))
            by (nonlinear_arith);
    }
    assert(k * k > 0) by (nonlinear_arith)
        requires
            k != 0,
    ;
    lemma_scaled_least(va, vb, k * k);
}

} // verus!
