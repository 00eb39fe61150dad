//! Decision-theory criteria over a payoff matrix, computed exactly over
//! decimal numbers held as scaled integers.
//!
//! Payoffs and probabilities are read from decimal numerals: an optional
//! sign, digits, an optional point and digits, and an optional exponent (`e`
//! or `E`, an optional sign, digits). Machine limits of the 128-bit
//! arithmetic: a number carries at most `MAX_SCALE` digits after the point
//! once its exponent is applied, and at most `MAX_CELL` in magnitude at the
//! matrix's common scale; the dispersion criterion also asks that every payoff
//! times the probabilities' denominator stay within `DISPERSION_LIMIT`.
//! Probabilities must add up to exactly one.
//!
//! Each criterion gives a score and the rows that reach it, under exact
//! equality. Scores are `Decimal`s; the dispersion score is the standard
//! deviation rounded down to six more digits than the scales of the payoffs
//! and the probabilities add up to.
pub mod number;
pub mod matrix;
pub mod criterion;
pub mod profits_losses_radio;
pub mod uncertainty;
pub mod risk_condition;
pub mod parse;
pub mod answer_block;
pub mod laws;
pub mod text;
pub mod input_panel;
