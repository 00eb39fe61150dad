use vstd::prelude::*;
use crate::criterion::{get_indeces, get_max, get_min, lemma_max_of, lemma_min_of, max_of, min_of, ties};
use crate::matrix::{Matrix, MAX_CELL};
use crate::number::{pow10, pow10_exec, Decimal};
use crate::profits_losses_radio::Choise;

verus! {

/// Most fractional decimal digits of the Hurwitz coefficient.
pub const MAX_ALPHA_SCALE: u32 = 6;

/// The best payoff of each row.
pub open spec fn row_maxima(a: Seq<Seq<i128>>) -> Seq<i128> {
    a.map_values(|r: Seq<i128>| max_of(r))
}

/// The worst payoff of each row.
pub open spec fn row_minima(a: Seq<Seq<i128>>) -> Seq<i128> {
    a.map_values(|r: Seq<i128>| min_of(r))
}

/// Each row's `n * max + (d - n) * min`: the Hurwitz value with coefficient
/// `n / d`, scaled by `d`.
pub open spec fn hurwitz_values(a: Seq<Seq<i128>>, n: int, d: int) -> Seq<i128> {
    a.map_values(|r: Seq<i128>| (n * max_of(r) + (d - n) * min_of(r)) as i128)
}

/// Column `j` of `a`.
pub open spec fn column(a: Seq<Seq<i128>>, j: int) -> Seq<i128> {
    a.map_values(|r: Seq<i128>| r[j])
}

/// The regret matrix: the best payoff of each column less the payoff.
pub open spec fn regrets(a: Seq<Seq<i128>>) -> Seq<Seq<i128>> {
    a.map_values(
        |r: Seq<i128>| Seq::new(r.len(), |j: int| (max_of(column(a, j)) - r[j]) as i128),
    )
}

/// A row's payoffs lie within the bounds of the matrix, and so do its extremes.
proof fn lemma_row_bounds(a: &Matrix, i: int)
    requires
        a.wf(),
        0 <= i < a.n_rows(),
    ensures
        a.cells()[i].len() == a.n_cols(),
        -MAX_CELL <= max_of(a.cells()[i]) <= MAX_CELL,
        -MAX_CELL <= min_of(a.cells()[i]) <= MAX_CELL,
        min_of(a.cells()[i]) <= max_of(a.cells()[i]),
{
    let r = a.cells()[i];
    assert(r.len() == a.cells()[0].len());
    lemma_max_of(r);
    lemma_min_of(r);
    let k = choose|k: int| 0 <= k < r.len() && r[k] == max_of(r);
    let l = choose|k: int| 0 <= k < r.len() && r[k] == min_of(r);
    assert(r[k] == a.cells()[i][k]);
    assert(r[l] == a.cells()[i][l]);
}

/// The best payoff of each row, or the worst where `largest` is false.
fn row_extremes(a: &Matrix, largest: bool) -> (z: Vec<i128>)
    requires
        a.wf(),
    ensures
        z@ == (if largest {
            row_maxima(a.cells())
        } else {
            row_minima(a.cells())
        }),
{
    let mut z: Vec<i128> = Vec::new();
    let mut i: usize = 0;
    while i < a.rows.len()
        invariant
            a.wf(),
            i <= a.n_rows(),
            z@.len() == i,
            forall|k: int|
                0 <= k < i ==> z@[k] == (if largest {
                    max_of(#[trigger] a.cells()[k])
                } else {
                    min_of(a.cells()[k])
                }),
        decreases a.n_rows() - i,
    {
        proof {
            assert(a.cells()[i as int] == a.rows@[i as int]@);
            lemma_row_bounds(a, i as int);
        }
        let v = if largest {
            get_max(&a.rows[i])
        } else {
            get_min(&a.rows[i])
        };
        z.push(v);
        i = i + 1;
    }
    if largest {
        assert(z@ =~= row_maxima(a.cells()));
    } else {
        assert(z@ =~= row_minima(a.cells()));
    }
    z
}

/// The optimistic criterion: the best payoff of the matrix, and the rows that
/// reach it.
pub fn maximax(a: &Matrix) -> (r: (Decimal, Vec<usize>))
    requires
        a.wf(),
    ensures
        r.0 == (Decimal { mantissa: max_of(row_maxima(a.cells())), scale: a.scale }),
        r.1@ == ties(row_maxima(a.cells()), r.0.mantissa),
{
    let z = row_extremes(a, true);
    let answer = get_max(&z);
    (Decimal { mantissa: answer, scale: a.scale }, get_indeces(&z, answer))
}

/// Wald's criterion. For profits: the rows whose worst payoff is the largest.
/// For losses: the rows whose largest loss is the smallest.
pub fn minimax(a: &Matrix, profits_losses: Choise) -> (r: (Decimal, Vec<usize>))
    requires
        a.wf(),
    ensures
        profits_losses == Choise::Profits ==> r.0 == (Decimal {
            mantissa: max_of(row_minima(a.cells())),
            scale: a.scale,
        }) && r.1@ == ties(row_minima(a.cells()), r.0.mantissa),
        profits_losses == Choise::Losses ==> r.0 == (Decimal {
            mantissa: min_of(row_maxima(a.cells())),
            scale: a.scale,
        }) && r.1@ == ties(row_maxima(a.cells()), r.0.mantissa),
{
    if profits_losses == Choise::Profits {
        let z = row_extremes(a, false);
        let answer = get_max(&z);
        (Decimal { mantissa: answer, scale: a.scale }, get_indeces(&z, answer))
    } else {
        let z = row_extremes(a, true);
        let answer = get_min(&z);
        (Decimal { mantissa: answer, scale: a.scale }, get_indeces(&z, answer))
    }
}

/// Hurwitz's criterion with coefficient `alpha` in `[0, 1]`: each row is worth
/// `alpha * max + (1 - alpha) * min`; the best rows are reported.
pub fn hurwitz(a: &Matrix, alpha: Decimal) -> (r: (Decimal, Vec<usize>))
    requires
        a.wf(),
        alpha.scale <= MAX_ALPHA_SCALE,
        0 <= alpha.mantissa <= pow10(alpha.scale as nat),
    ensures
        r.0 == (Decimal {
            mantissa: max_of(
                hurwitz_values(a.cells(), alpha.mantissa as int, pow10(alpha.scale as nat) as int),
            ),
            scale: (a.scale + alpha.scale) as u32,
        }),
        r.1@ == ties(
            hurwitz_values(a.cells(), alpha.mantissa as int, pow10(alpha.scale as nat) as int),
            r.0.mantissa,
        ),
{
    let d = pow10_exec(alpha.scale) as i128;
    proof {
        crate::number::lemma_pow10_mono(alpha.scale as nat, 6);
        reveal_with_fuel(pow10, 7);
    }
    let n = alpha.mantissa;
    let ghost h = hurwitz_values(a.cells(), n as int, d as int);
    let mut z: Vec<i128> = Vec::new();
    let mut i: usize = 0;
    while i < a.rows.len()
        invariant
            a.wf(),
            0 <= n <= d <= 1_000_000,
            h == hurwitz_values(a.cells(), n as int, d as int),
            i <= a.n_rows(),
            z@.len() == i,
            forall|k: int| 0 <= k < i ==> z@[k] == #[trigger] h[k],
        decreases a.n_rows() - i,
    {
        proof {
            assert(a.cells()[i as int] == a.rows@[i as int]@);
            lemma_row_bounds(a, i as int);
        }
        let max_a = get_max(&a.rows[i]);
        let min_a = get_min(&a.rows[i]);
        proof {
            assert(-1_000_000_000_000_000_000_000_000 <= n * max_a <= 1_000_000_000_000_000_000_000_000)
                by (nonlinear_arith)
                requires
                    0 <= n <= 1_000_000,
                    -MAX_CELL <= max_a <= MAX_CELL,
            ;
            assert(-1_000_000_000_000_000_000_000_000 <= (d - n) * min_a <= 1_000_000_000_000_000_000_000_000)
                by (nonlinear_arith)
                requires
                    0 <= d - n <= 1_000_000,
                    -MAX_CELL <= min_a <= MAX_CELL,
            ;
        }
        z.push(n * max_a + (d - n) * min_a);
        i = i + 1;
    }
    assert(z@ =~= h);
    let answer = get_max(&z);
    (Decimal { mantissa: answer, scale: a.scale + alpha.scale }, get_indeces(&z, answer))
}

/// Savage's criterion: the rows whose largest regret is the smallest.
pub fn savage(a: &Matrix) -> (r: (Decimal, Vec<usize>))
    requires
        a.wf(),
    ensures
        r.0 == (Decimal { mantissa: min_of(row_maxima(regrets(a.cells()))), scale: a.scale }),
        r.1@ == ties(row_maxima(regrets(a.cells())), r.0.mantissa),
{
    let rows = a.rows.len();
    let cols = a.rows[0].len();
    let ghost c = a.cells();
    // the best payoff of each column
    let mut ys: Vec<i128> = Vec::new();
    let mut j: usize = 0;
    while j < cols
        invariant
            a.wf(),
            c == a.cells(),
            rows == a.n_rows(),
            cols == a.n_cols(),
            j <= cols,
            ys@.len() == j,
            forall|k: int| 0 <= k < j ==> ys@[k] == max_of(#[trigger] column(c, k)),
            forall|k: int| 0 <= k < j ==> -MAX_CELL <= #[trigger] ys@[k] <= MAX_CELL,
        decreases cols - j,
    {
        let mut y: Vec<i128> = Vec::new();
        let mut i: usize = 0;
        while i < rows
            invariant
                a.wf(),
                c == a.cells(),
                rows == a.n_rows(),
                cols == a.n_cols(),
                j < cols,
                i <= rows,
                y@ == column(c, j as int).take(i as int),
            decreases rows - i,
        {
            proof {
                assert(c[i as int] == a.rows@[i as int]@);
                assert(c[i as int].len() == c[0].len());
            }
            y.push(a.rows[i][j]);
            i = i + 1;
            assert(y@ =~= column(c, j as int).take(i as int));
        }
        assert(y@ =~= column(c, j as int));
        let m = get_max(&y);
        proof {
            lemma_max_of(column(c, j as int));
            let w = choose|w: int| 0 <= w < rows && column(c, j as int)[w] == m;
            assert(c[w].len() == c[0].len());
            assert(column(c, j as int)[w] == c[w][j as int]);
        }
        ys.push(m);
        j = j + 1;
    }
    let ghost g = regrets(c);
    // the largest regret of each row
    let mut z: Vec<i128> = Vec::new();
    let mut i: usize = 0;
    while i < rows
        invariant
            a.wf(),
            c == a.cells(),
            g == regrets(c),
            rows == a.n_rows(),
            cols == a.n_cols(),
            ys@.len() == cols,
            forall|k: int| 0 <= k < cols ==> ys@[k] == max_of(#[trigger] column(c, k)),
            forall|k: int| 0 <= k < cols ==> -MAX_CELL <= #[trigger] ys@[k] <= MAX_CELL,
            i <= rows,
            z@.len() == i,
            forall|k: int| 0 <= k < i ==> z@[k] == max_of(#[trigger] g[k]),
        decreases rows - i,
    {
        proof {
            assert(c[i as int] == a.rows@[i as int]@);
            assert(c[i as int].len() == c[0].len());
        }
        let row = &a.rows[i];
        let mut regret: Vec<i128> = Vec::new();
        let mut k: usize = 0;
        while k < cols
            invariant
                a.wf(),
                c == a.cells(),
                g == regrets(c),
                rows == a.n_rows(),
                cols == a.n_cols(),
                i < rows,
                row@ == c[i as int],
                row@.len() == cols,
                ys@.len() == cols,
                forall|k: int| 0 <= k < cols ==> ys@[k] == max_of(#[trigger] column(c, k)),
                forall|k: int| 0 <= k < cols ==> -MAX_CELL <= #[trigger] ys@[k] <= MAX_CELL,
                k <= cols,
                regret@ == g[i as int].take(k as int),
            decreases cols - k,
        {
            proof {
                assert(-MAX_CELL <= c[i as int][k as int] <= MAX_CELL);
            }
            regret.push(ys[k] - row[k]);
            k = k + 1;
            assert(regret@ =~= g[i as int].take(k as int));
        }
        assert(regret@ =~= g[i as int]);
        let m = get_max(&regret);
        z.push(m);
        i = i + 1;
    }
    assert(z@ =~= row_maxima(g));
    let answer = get_min(&z);
    (Decimal { mantissa: answer, scale: a.scale }, get_indeces(&z, answer))
}

} // verus!
