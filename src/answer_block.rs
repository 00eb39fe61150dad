use vstd::prelude::*;
use crate::criterion::{get_max, get_min, max_of, min_of, ties};
use crate::matrix::{Matrix, Probabilities};
use crate::number::{pow10, Decimal};
use crate::parse::{
    matrix_scale, matrix_text_ok, parse_data, parse_p, probabilities_sum_ok,
    probabilities_text_ok, row_scale, scaled, scaled_matrix, ParseError,
};
use crate::profits_losses_radio::{Choise, ProfitsLossesRadio};
use crate::risk_condition::{
    bayes, check_dispersion_fits, dispersion_fits, dispersion_minimization, DISPERSION_LIMIT, expectations, masses_above, modal, modal_column,
    modal_defined, probability_maximization, risk_inputs, variances,
};
use crate::uncertainty::{
    column, hurwitz, hurwitz_values, maximax, minimax, regrets, row_maxima, row_minima, savage,
    MAX_ALPHA_SCALE,
};

verus! {

/// A criterion's score and the rows that reach it.
pub open spec fn result_of(r: (Decimal, Vec<usize>)) -> (Decimal, Seq<usize>) {
    (r.0, r.1@)
}

/// The best of `z`, at `scale`, with the rows that reach it.
pub open spec fn best(z: Seq<i128>, scale: u32) -> (Decimal, Seq<usize>) {
    (Decimal { mantissa: max_of(z), scale }, ties(z, max_of(z)))
}

/// The least of `z`, at `scale`, with the rows that reach it.
pub open spec fn least(z: Seq<i128>, scale: u32) -> (Decimal, Seq<usize>) {
    (Decimal { mantissa: min_of(z), scale }, ties(z, min_of(z)))
}

pub open spec fn maximax_result(a: Matrix) -> (Decimal, Seq<usize>) {
    best(row_maxima(a.cells()), a.scale)
}

pub open spec fn minimax_result(a: Matrix, c: Choise) -> (Decimal, Seq<usize>) {
    match c {
        Choise::Profits => best(row_minima(a.cells()), a.scale),
        Choise::Losses => least(row_maxima(a.cells()), a.scale),
    }
}

pub open spec fn hurwitz_result(a: Matrix, alpha: Decimal) -> (Decimal, Seq<usize>) {
    best(
        hurwitz_values(a.cells(), alpha.mantissa as int, pow10(alpha.scale as nat) as int),
        (a.scale + alpha.scale) as u32,
    )
}

pub open spec fn savage_result(a: Matrix) -> (Decimal, Seq<usize>) {
    least(row_maxima(regrets(a.cells())), a.scale)
}

pub open spec fn bayes_result(a: Matrix, p: Probabilities) -> (Decimal, Seq<usize>) {
    best(expectations(a.cells(), p.weights@), (a.scale + p.scale) as u32)
}

/// What `probability_maximization` gives for a set threshold.
pub open spec fn probability_maximization_result(a: Matrix, p: Probabilities, b: i128) -> (
    Decimal,
    Seq<usize>,
) {
    best(masses_above(a.cells(), p.weights@, b), p.scale)
}

/// What `modal` gives where it is defined.
pub open spec fn modal_result(a: Matrix, p: Probabilities) -> (Decimal, Seq<usize>) {
    best(column(a.cells(), modal_column(p.weights@)), a.scale)
}

/// A Hurwitz coefficient: a number in `[0, 1]` with at most
/// `MAX_ALPHA_SCALE` digits after the point.
pub open spec fn alpha_ok(alpha: Decimal) -> bool {
    alpha.scale <= MAX_ALPHA_SCALE && 0 <= alpha.mantissa <= pow10(alpha.scale as nat)
}

/// The results of the criteria under uncertainty, for one matrix.
pub struct UncertaintyAnswerBlocks {
    pub a: Matrix,
    pub maximax_block: (Decimal, Vec<usize>),
    pub minimax_block: (Decimal, Vec<usize>),
    pub hurwitz_block: (Decimal, Vec<usize>),
    pub savage_block: (Decimal, Vec<usize>),
    pub hurwitz_alpha: Decimal,
    pub profits_losses_radio: ProfitsLossesRadio,
}

/// The coefficient that Hurwitz's criterion starts with: one half.
pub open spec fn default_hurwitz_alpha() -> Decimal {
    Decimal { mantissa: 5, scale: 1 }
}

impl UncertaintyAnswerBlocks {
    /// Every stored result is its criterion on the stored matrix and settings.
    pub open spec fn wf(&self) -> bool {
        &&& self.a.wf()
        &&& alpha_ok(self.hurwitz_alpha)
        &&& self.profits_losses_radio.selected() is Some
        &&& result_of(self.maximax_block) == maximax_result(self.a)
        &&& result_of(self.minimax_block) == minimax_result(
            self.a,
            self.profits_losses_radio.selected()->0,
        )
        &&& result_of(self.hurwitz_block) == hurwitz_result(self.a, self.hurwitz_alpha)
        &&& result_of(self.savage_block) == savage_result(self.a)
    }

    pub fn new(a: Matrix) -> (r: Self)
        requires
            a.wf(),
        ensures
            r.wf(),
            r.a == a,
            r.hurwitz_alpha == default_hurwitz_alpha(),
            r.profits_losses_radio.selected() == Some(Choise::Profits),
    {
        let maximax_block = maximax(&a);
        let minimax_block = minimax(&a, Choise::Profits);
        assert(pow10(1) == 10) by {
            reveal_with_fuel(pow10, 2);
        }
        let hurwitz_block = hurwitz(&a, Decimal { mantissa: 5, scale: 1 });
        let savage_block = savage(&a);
        UncertaintyAnswerBlocks {
            a,
            maximax_block,
            minimax_block,
            hurwitz_block,
            savage_block,
            hurwitz_alpha: Decimal { mantissa: 5, scale: 1 },
            profits_losses_radio: ProfitsLossesRadio::new(),
        }
    }

    /// Sets Hurwitz's coefficient and computes that criterion anew; the other
    /// results stay.
    pub fn update_hurwitz_block(&mut self, alpha: Decimal)
        requires
            old(self).wf(),
            alpha_ok(alpha),
        ensures
            final(self).wf(),
            final(self).hurwitz_alpha == alpha,
            final(self).a == old(self).a,
            final(self).maximax_block == old(self).maximax_block,
            final(self).minimax_block == old(self).minimax_block,
            final(self).savage_block == old(self).savage_block,
            final(self).profits_losses_radio == old(self).profits_losses_radio,
    {
        self.hurwitz_block = hurwitz(&self.a, alpha);
        self.hurwitz_alpha = alpha;
    }

    /// Takes the payoffs as profits or as losses, and computes the minimax
    /// criterion anew; the other results stay.
    pub fn update_minimax(&mut self, choise: Choise)
        requires
            old(self).wf(),
        ensures
            final(self).wf(),
            final(self).profits_losses_radio.selected() == Some(choise),
            final(self).a == old(self).a,
            final(self).hurwitz_alpha == old(self).hurwitz_alpha,
            final(self).maximax_block == old(self).maximax_block,
            final(self).hurwitz_block == old(self).hurwitz_block,
            final(self).savage_block == old(self).savage_block,
    {
        self.profits_losses_radio.update_selected_choise(choise);
        self.minimax_block = minimax(&self.a, choise);
    }
}

/// The smallest and the largest payoff of the matrix: the range over which
/// the probability-maximization threshold moves.
pub fn get_probability_maximization_slider_range(a: &Matrix) -> (r: (i128, i128))
    requires
        a.wf(),
    ensures
        r.0 == min_of(row_minima(a.cells())),
        r.1 == max_of(row_maxima(a.cells())),
{
    let mut mins: Vec<i128> = Vec::new();
    let mut maxs: Vec<i128> = Vec::new();
    let mut i: usize = 0;
    while i < a.rows.len()
        invariant
            a.wf(),
            i <= a.n_rows(),
            mins@ == row_minima(a.cells()).take(i as int),
            maxs@ == row_maxima(a.cells()).take(i as int),
        decreases a.n_rows() - i,
    {
        proof {
            assert(a.cells()[i as int] == a.rows@[i as int]@);
            assert(a.cells()[i as int].len() == a.cells()[0].len());
        }
        mins.push(get_min(&a.rows[i]));
        maxs.push(get_max(&a.rows[i]));
        i = i + 1;
        assert(mins@ =~= row_minima(a.cells()).take(i as int));
        assert(maxs@ =~= row_maxima(a.cells()).take(i as int));
    }
    assert(mins@ =~= row_minima(a.cells()));
    assert(maxs@ =~= row_maxima(a.cells()));
    (get_min(&mins), get_max(&maxs))
}

/// The results of the criteria under risk, for one matrix and one
/// probability vector.
pub struct RiskConditionAnswerBlocks {
    pub a: Matrix,
    pub p: Probabilities,
    pub bayes_block: (Decimal, Vec<usize>),
    pub dispersion_minimization_block: (Decimal, Vec<usize>),
    pub probability_maximization_block: Option<(Decimal, Vec<usize>)>,
    pub modal_block: Option<(Decimal, Vec<usize>)>,
    pub probability_threshold: Option<i128>,
}

impl RiskConditionAnswerBlocks {
    /// Every stored result is its criterion on the stored inputs and settings.
    pub open spec fn wf(&self) -> bool {
        &&& risk_inputs(&self.a, &self.p)
        &&& dispersion_fits(&self.a, &self.p)
        &&& result_of(self.bayes_block) == bayes_result(self.a, self.p)
        &&& ({
            let v = variances(self.a.cells(), self.p.weights@, pow10(self.p.scale as nat) as int);
            let d = self.dispersion_minimization_block;
            &&& d.0.scale == self.a.scale + self.p.scale + 6
            &&& d.0.mantissa >= 0
            &&& d.0.mantissa * d.0.mantissa <= min_of(v) * 1_000_000_000_000 < (d.0.mantissa + 1) * (
            d.0.mantissa + 1)
            &&& d.1@ == ties(v, min_of(v))
        })
        &&& match self.probability_threshold {
            Some(b) => self.probability_maximization_block is Some && result_of(
                self.probability_maximization_block->0,
            ) == probability_maximization_result(self.a, self.p, b),
            None => self.probability_maximization_block is None,
        }
        &&& (self.modal_block is Some <==> modal_defined(self.p.weights@))
        &&& self.modal_block is Some ==> result_of(self.modal_block->0) == modal_result(
            self.a,
            self.p,
        )
    }

    /// Evaluates every criterion under risk. The probability-maximization
    /// threshold starts at the largest payoff of the matrix.
    pub fn new(a: Matrix, p: Probabilities) -> (r: Self)
        requires
            risk_inputs(&a, &p),
            dispersion_fits(&a, &p),
        ensures
            r.wf(),
            r.a == a,
            r.p == p,
            r.probability_threshold == Some(max_of(row_maxima(a.cells()))),
    {
        let bayes_block = bayes(&a, &p);
        let dispersion_minimization_block = dispersion_minimization(&a, &p);
        let (_, top) = get_probability_maximization_slider_range(&a);
        let probability_maximization_block = probability_maximization(&a, &p, Some(top));
        let modal_block = modal(&a, &p);
        RiskConditionAnswerBlocks {
            a,
            p,
            bayes_block,
            dispersion_minimization_block,
            probability_maximization_block,
            modal_block,
            probability_threshold: Some(top),
        }
    }

    /// Sets the probability-maximization threshold, in units of the matrix,
    /// and computes that criterion anew; the other results stay.
    pub fn update_probability_maximization_block(&mut self, b: i128)
        requires
            old(self).wf(),
        ensures
            final(self).wf(),
            final(self).probability_threshold == Some(b),
            final(self).a == old(self).a,
            final(self).p == old(self).p,
            final(self).bayes_block == old(self).bayes_block,
            final(self).dispersion_minimization_block == old(self).dispersion_minimization_block,
            final(self).modal_block == old(self).modal_block,
    {
        self.probability_maximization_block = probability_maximization(&self.a, &self.p, Some(b));
        self.probability_threshold = Some(b);
    }
}

/// The answer to one press of the generate button.
pub enum AnswerBlocks {
    Uncertainty(UncertaintyAnswerBlocks),
    RiskCondition(RiskConditionAnswerBlocks),
}

/// `m` is the matrix that `parse_data` reads from `data`.
pub open spec fn read_from(m: Matrix, data: Seq<Vec<String>>) -> bool {
    &&& m.scale == matrix_scale(data, data.len() as int)
    &&& m.n_rows() == data.len()
    &&& forall|i: int| 0 <= i < data.len() ==> #[trigger] m.cells()[i].len() == data[i]@.len()
    &&& forall|i: int, j: int|
        0 <= i < data.len() && 0 <= j < data[i]@.len() ==> m.cells()[i][j]
            == #[trigger] scaled_matrix(data)[i][j]
}

/// `q` is the probability vector that `parse_p` reads from `p`.
pub open spec fn read_p_from(q: Probabilities, p: Seq<String>) -> bool {
    &&& q.scale == row_scale(p, p.len() as int)
    &&& q.weights@.len() == p.len()
    &&& forall|j: int| 0 <= j < p.len() ==> q.weights@[j] == scaled(#[trigger] p[j]@, q.scale as nat)
}

/// The payoffs read from `data`, times the total of the weights read from
/// `p`, stay within `DISPERSION_LIMIT`.
pub open spec fn text_fits(data: Seq<Vec<String>>, p: Seq<String>) -> bool {
    forall|i: int, j: int|
        0 <= i < data.len() && 0 <= j < data[i]@.len() ==> -DISPERSION_LIMIT
            <= #[trigger] scaled_matrix(data)[i][j] * pow10(row_scale(p, p.len() as int))
            <= DISPERSION_LIMIT
}

/// Reads the matrix, and under risk the probabilities, then evaluates every
/// criterion of the mode. Under risk, a probability vector whose length is not
/// the matrix's count of columns is refused as invalid, and payoffs too large
/// for the variances at the probabilities' scale are refused as out of range.
pub fn generate(data: &Vec<Vec<String>>, p: &Vec<String>, risk_condition: bool) -> (r: Result<
    AnswerBlocks,
    ParseError,
>)
    ensures
        !matrix_text_ok(data@) <==> r == Err::<AnswerBlocks, ParseError>(
            ParseError::InvalidMatrix,
        ),
        r matches Ok(AnswerBlocks::Uncertainty(u)) ==> {
            &&& !risk_condition
            &&& u.wf()
            &&& read_from(u.a, data@)
            &&& u.hurwitz_alpha == default_hurwitz_alpha()
            &&& u.profits_losses_radio.selected() == Some(Choise::Profits)
        },
        r matches Ok(AnswerBlocks::RiskCondition(k)) ==> {
            &&& risk_condition
            &&& k.wf()
            &&& read_from(k.a, data@)
            &&& read_p_from(k.p, p@)
            &&& k.probability_threshold == Some(max_of(row_maxima(k.a.cells())))
        },
        matrix_text_ok(data@) && !risk_condition ==> r is Ok,
        matrix_text_ok(data@) && risk_condition ==> (r == Err::<AnswerBlocks, ParseError>(
            ParseError::InvalidProbabilities) <==> !probabilities_text_ok(p@) || (
        probabilities_sum_ok(p@) && p@.len() != data@[0]@.len())),
        matrix_text_ok(data@) && risk_condition ==> (r == Err::<AnswerBlocks, ParseError>(
            ParseError::ProbabilitySumError) <==> probabilities_text_ok(p@)
            && !probabilities_sum_ok(p@)),
        matrix_text_ok(data@) && risk_condition && probabilities_text_ok(p@)
            && probabilities_sum_ok(p@) && p@.len() == data@[0]@.len() ==> (r is Ok <==> text_fits(
            data@,
            p@,
        )),
        r == Err::<AnswerBlocks, ParseError>(ParseError::OutOfRange) <==> (matrix_text_ok(data@)
            && risk_condition && probabilities_text_ok(p@) && probabilities_sum_ok(p@) && p@.len()
            == data@[0]@.len() && !text_fits(data@, p@)),
{
    let a = match parse_data(data) {
        Ok(a) => a,
        Err(e) => {
            return Err(e);
        },
    };
    if !risk_condition {
        return Ok(AnswerBlocks::Uncertainty(UncertaintyAnswerBlocks::new(a)));
    }
    let q = match parse_p(p) {
        Ok(q) => q,
        Err(e) => {
            return Err(e);
        },
    };
    if q.weights.len() != a.rows[0].len() {
        return Err(ParseError::InvalidProbabilities);
    }
    let fits = check_dispersion_fits(&a, &q);
    proof {
        assert(a.cells()[0].len() == data@[0]@.len());
        if fits {
            assert forall|i: int, j: int|
                0 <= i < data@.len() && 0 <= j < data@[i]@.len() implies -DISPERSION_LIMIT
                <= #[trigger] scaled_matrix(data@)[i][j] * pow10(row_scale(p@, p@.len() as int))
                <= DISPERSION_LIMIT by {
                assert(a.cells()[i][j] == scaled_matrix(data@)[i][j]);
            }
        } else {
            assert(!text_fits(data@, p@)) by {
                let (i, j) = choose|i: int, j: int|
                    0 <= i < a.n_rows() && 0 <= j < a.cells()[i].len() && !(-DISPERSION_LIMIT
                        <= #[trigger] a.cells()[i][j] * pow10(q.scale as nat) <= DISPERSION_LIMIT);
                assert(a.cells()[i][j] == scaled_matrix(data@)[i][j]);
            }
        }
    }
    if !fits {
        return Err(ParseError::OutOfRange);
    }
    Ok(AnswerBlocks::RiskCondition(RiskConditionAnswerBlocks::new(a, q)))
}

} // verus!
