use vstd::prelude::*;

verus! {

/// Machine limit: the largest magnitude of a payoff, in units of the
/// matrix's scale, that the 128-bit arithmetic of the criteria holds.
pub const MAX_CELL: i128 = 1_000_000_000_000_000_000;

/// Machine limit: the most decimal digits after the point of a number, so
/// that scores and their scales stay within 128 bits.
pub const MAX_SCALE: u32 = 16;

/// Machine limit: the most decimal digits after the point of a probability.
pub const MAX_P_SCALE: u32 = 16;

/// `10^MAX_P_SCALE`: the largest total of the weights.
pub const P_LIMIT: i128 = 10_000_000_000_000_000;

/// A payoff matrix: rows are alternatives, columns are states of nature.
/// The payoff in row `i`, column `j` is `rows[i][j] / 10^scale`.
#[derive(Clone, Debug, PartialEq, Eq)]
pub struct Matrix {
    pub rows: Vec<Vec<i128>>,
    pub scale: u32,
}

impl Matrix {
    pub open spec fn cells(&self) -> Seq<Seq<i128>> {
        self.rows@.map_values(|r: Vec<i128>| r@)
    }

    pub open spec fn n_rows(&self) -> nat {
        self.rows@.len()
    }

    pub open spec fn n_cols(&self) -> nat {
        self.rows@[0]@.len()
    }

    /// Non-empty, rectangular, with bounded payoffs and scale.
    pub open spec fn wf(&self) -> bool {
        cells_wf(self.cells()) && self.scale <= MAX_SCALE
    }
}

/// Non-empty, rectangular, with every payoff within `MAX_CELL`.
pub open spec fn cells_wf(a: Seq<Seq<i128>>) -> bool {
    &&& a.len() >= 1
    &&& a[0].len() >= 1
    &&& forall|i: int| 0 <= i < a.len() ==> #[trigger] a[i].len() == a[0].len()
    &&& forall|i: int, j: int|
        0 <= i < a.len() && 0 <= j < a[i].len() ==> -MAX_CELL <= #[trigger] a[i][j] <= MAX_CELL
}

} // verus!

verus! {

/// A probability vector over the states of nature: probability `j` is
/// `weights[j] / 10^scale`, and the weights add up to `10^scale`.
#[derive(Clone, Debug, PartialEq, Eq)]
pub struct Probabilities {
    pub weights: Vec<u64>,
    pub scale: u32,
}

/// `w[0] + ... + w[n - 1]`.
pub open spec fn total(w: Seq<u64>, n: int) -> int
    decreases n,
{
    if n <= 0 {
        0
    } else {
        total(w, n - 1) + w[n - 1]
    }
}

impl Probabilities {
    pub open spec fn wf(&self) -> bool {
        &&& self.scale <= MAX_P_SCALE
        &&& self.weights@.len() >= 1
        &&& total(self.weights@, self.weights@.len() as int) == crate::number::pow10(
            self.scale as nat,
        )
    }
}

/// Prefix sums of weights grow with the prefix.
pub proof fn lemma_total_mono(w: Seq<u64>, m: int, n: int)
    requires
        0 <= m <= n,
    ensures
        0 <= total(w, m) <= total(w, n),
    decreases n,
{
    if m < n {
        lemma_total_mono(w, m, n - 1);
    } else if n > 0 {
        lemma_total_mono(w, n - 1, n - 1);
    }
}

} // verus!
