use criteria::answer_block::{
    generate, get_probability_maximization_slider_range, AnswerBlocks, RiskConditionAnswerBlocks,
    UncertaintyAnswerBlocks,
};
use criteria::input_panel::{parse_positive_integer, CountError};
use criteria::matrix::{Matrix, Probabilities};
use criteria::number::Decimal;
use criteria::parse::{parse_cell, parse_data, parse_p, ParseError};
use criteria::profits_losses_radio::{Choise, ProfitsLossesRadio};
use criteria::risk_condition::{bayes, dispersion_minimization, modal, probability_maximization};
use criteria::uncertainty::{hurwitz, maximax, minimax, savage};

fn value(d: Decimal) -> f64 {
    d.mantissa as f64 / 10f64.powi(d.scale as i32)
}

fn strings(rows: &[&[&str]]) -> Vec<Vec<String>> {
    rows.iter().map(|row| row.iter().map(|c| c.to_string()).collect()).collect()
}

fn cells(cells: &[&str]) -> Vec<String> {
    cells.iter().map(|c| c.to_string()).collect()
}

fn example_one() -> Matrix {
    Matrix { rows: vec![vec![45, 25, 50], vec![20, 60, 25]], scale: 0 }
}

fn example_two() -> (Matrix, Probabilities) {
    let a = Matrix {
        rows: vec![
            vec![100_000, -50_000, -50_000],
            vec![-50_000, -50_000, 100_000],
            vec![15_000, 15_000, 0],
            vec![0, 0, 0],
        ],
        scale: 0,
    };
    (a, Probabilities { weights: vec![5, 1, 4], scale: 1 })
}

#[test]
fn hurwitz_at_the_ends_is_maximax_and_wald() {
    let a = example_one();
    let one = hurwitz(&a, Decimal { mantissa: 1, scale: 0 });
    let zero = hurwitz(&a, Decimal { mantissa: 0, scale: 0 });
    assert_eq!(one, maximax(&a));
    assert_eq!(zero, minimax(&a, Choise::Profits));
    assert!(value(maximax(&a).0) >= value(minimax(&a, Choise::Profits).0));
}

#[test]
fn savage_ignores_a_common_shift() {
    let a = example_one();
    let shifted = Matrix { rows: vec![vec![52, 32, 57], vec![27, 67, 32]], scale: 0 };
    assert_eq!(savage(&a), savage(&shifted));
}

#[test]
fn bayes_scales_with_the_payoffs() {
    let (a, p) = example_two();
    let rows = a.rows.iter().map(|r| r.iter().map(|v| v * 3).collect()).collect();
    let tripled = Matrix { rows, scale: 0 };
    let base = bayes(&a, &p);
    let scaled = bayes(&tripled, &p);
    assert_eq!(scaled.0.mantissa, 3 * base.0.mantissa);
    assert_eq!(scaled.1, base.1);
}

#[test]
fn dispersion_is_a_standard_deviation() {
    let a = Matrix { rows: vec![vec![1, -1], vec![3, -1]], scale: 0 };
    let p = Probabilities { weights: vec![5, 5], scale: 1 };
    let r = dispersion_minimization(&a, &p);
    assert_eq!(value(r.0), 1.0);
    assert_eq!(r.1, vec![0]);
    let a = Matrix { rows: vec![vec![0, 1]], scale: 0 };
    let p = Probabilities { weights: vec![3, 7], scale: 1 };
    let r = dispersion_minimization(&a, &p);
    assert!(r.0.mantissa >= 0);
    assert_eq!(value(r.0), 0.4582575);
    let tenfold = Matrix { rows: vec![vec![0, 10]], scale: 0 };
    assert_eq!(value(dispersion_minimization(&tenfold, &p).0), 4.5825756);
}

#[test]
fn parsed_matrix_survives_printing() {
    let a = parse_data(&strings(&[&["-0.5", "12", "3.25"], &["0", ".5", "7."]])).unwrap();
    assert_eq!(a.scale, 2);
    let text: Vec<Vec<String>> = a
        .rows
        .iter()
        .map(|r| r.iter().map(|v| Decimal { mantissa: *v, scale: a.scale }.to_text()).collect())
        .collect();
    assert_eq!(text[0], vec!["-0.50", "12.00", "3.25"]);
    assert_eq!(parse_data(&text).unwrap(), a);
}

#[test]
fn decimal_text() {
    assert_eq!(Decimal { mantissa: -5, scale: 1 }.to_text(), "-0.5");
    assert_eq!(Decimal { mantissa: 325, scale: 1 }.to_text(), "32.5");
    assert_eq!(Decimal { mantissa: 0, scale: 0 }.to_text(), "0");
    assert_eq!(Decimal { mantissa: 7, scale: 3 }.to_text(), "0.007");
    assert_eq!(Decimal { mantissa: 120, scale: 0 }.to_text(), "120");
}

#[test]
fn uncertainty_example() {
    let a = example_one();
    let r = maximax(&a);
    assert_eq!((value(r.0), r.1), (60.0, vec![1]));
    let r = minimax(&a, Choise::Profits);
    assert_eq!((value(r.0), r.1), (25.0, vec![0]));
    let r = hurwitz(&a, Decimal { mantissa: 3, scale: 1 });
    assert_eq!((value(r.0), r.1), (32.5, vec![0]));
    let r = savage(&a);
    assert_eq!((value(r.0), r.1), (25.0, vec![1]));
}

#[test]
fn minimax_for_losses() {
    let r = minimax(&example_one(), Choise::Losses);
    assert_eq!((value(r.0), r.1), (50.0, vec![0]));
}

#[test]
fn risk_example() {
    let (a, p) = example_two();
    let r = bayes(&a, &p);
    assert_eq!((value(r.0), r.1), (25_000.0, vec![0]));
    let r = dispersion_minimization(&a, &p);
    assert_eq!((value(r.0), r.1), (0.0, vec![3]));
    let r = probability_maximization(&a, &p, Some(40_000)).unwrap();
    assert_eq!((value(r.0), r.1), (0.5, vec![0]));
    let r = probability_maximization(&a, &p, Some(10_000)).unwrap();
    assert_eq!((value(r.0), r.1), (0.6, vec![2]));
    assert!(probability_maximization(&a, &p, None).is_none());
    let r = modal(&a, &p).unwrap();
    assert_eq!((value(r.0), r.1), (100_000.0, vec![0]));
}

#[test]
fn modal_needs_a_single_most_likely_state() {
    let a = Matrix { rows: vec![vec![1, 2], vec![3, 4]], scale: 0 };
    let p = Probabilities { weights: vec![5, 5], scale: 1 };
    assert!(modal(&a, &p).is_none());
}

#[test]
fn probability_errors() {
    assert_eq!(parse_p(&cells(&["0.5", "0.6"])).unwrap_err(), ParseError::ProbabilitySumError);
    assert_eq!(parse_p(&cells(&["1.5", "-0.5"])).unwrap_err(), ParseError::InvalidProbabilities);
    assert_eq!(parse_p(&cells(&["-0.1", "1.1"])).unwrap_err(), ParseError::InvalidProbabilities);
    assert_eq!(parse_p(&cells(&["x", "1"])).unwrap_err(), ParseError::InvalidProbabilities);
    assert_eq!(parse_p(&cells(&[])).unwrap_err(), ParseError::ProbabilitySumError);
    assert_eq!(
        ParseError::ProbabilitySumError.message(),
        "Sum of p doesn`t equal 1."
    );
    let p = parse_p(&cells(&["0.1", "0.2", "0.7"])).unwrap();
    assert_eq!((p.weights, p.scale), (vec![1, 2, 7], 1));
    let p = parse_p(&cells(&["0.1111111", "0.8888889"])).unwrap();
    assert_eq!((p.weights, p.scale), (vec![1_111_111, 8_888_889], 7));
    let p = parse_p(&cells(&["5e-1", "0.5"])).unwrap();
    assert_eq!((p.weights, p.scale), (vec![5, 5], 1));
    assert_eq!(parse_p(&cells(&["1e1", "0"])).unwrap_err(), ParseError::InvalidProbabilities);
    let p = parse_p(&cells(&["0.25", "0.75", "0"])).unwrap();
    assert_eq!((p.weights, p.scale), (vec![25, 75, 0], 2));
}

#[test]
fn matrix_errors() {
    assert_eq!(parse_data(&strings(&[])).unwrap_err(), ParseError::InvalidMatrix);
    assert_eq!(parse_data(&strings(&[&[]])).unwrap_err(), ParseError::InvalidMatrix);
    assert_eq!(parse_data(&strings(&[&["1", "2"], &["3"]])).unwrap_err(), ParseError::InvalidMatrix);
    assert_eq!(parse_data(&strings(&[&["1e"]])).unwrap_err(), ParseError::InvalidMatrix);
    assert_eq!(parse_data(&strings(&[&["1e3"]])).unwrap().rows, vec![vec![1000]]);
    assert_eq!(parse_data(&strings(&[&["."]])).unwrap_err(), ParseError::InvalidMatrix);
    assert_eq!(parse_data(&strings(&[&["-"]])).unwrap_err(), ParseError::InvalidMatrix);
    assert_eq!(
        parse_data(&strings(&[&["0.12345678901234567"]])).unwrap_err(),
        ParseError::InvalidMatrix
    );
    assert_eq!(
        parse_data(&strings(&[&["1000000000000000001"]])).unwrap_err(),
        ParseError::InvalidMatrix
    );
    let wide = parse_data(&strings(&[&["0.000001", "2000000"]])).unwrap();
    assert_eq!((wide.rows, wide.scale), (vec![vec![1, 2_000_000_000_000]], 6));
}

#[test]
fn cells_as_numerals() {
    assert_eq!(parse_cell("+3"), Some((3, 0)));
    assert_eq!(parse_cell("-12.50"), Some((-1250, 2)));
    assert_eq!(parse_cell(".5"), Some((5, 1)));
    assert_eq!(parse_cell("7."), Some((7, 0)));
    assert_eq!(parse_cell("1.1."), None);
    assert_eq!(parse_cell(""), None);
    assert_eq!(parse_cell(" 1"), None);
    assert_eq!(parse_cell("1000000000000000000"), Some((1_000_000_000_000_000_000, 0)));
    assert_eq!(parse_cell("1000000000000000001"), None);
    assert_eq!(parse_cell("1e3"), Some((1000, 0)));
    assert_eq!(parse_cell("2.5E-3"), Some((25, 4)));
    assert_eq!(parse_cell("-1.5e+2"), Some((-150, 0)));
    assert_eq!(parse_cell("1.e1"), Some((10, 0)));
    assert_eq!(parse_cell("0e999"), Some((0, 0)));
    assert_eq!(parse_cell("1e18"), Some((1_000_000_000_000_000_000, 0)));
    assert_eq!(parse_cell("1e19"), None);
    assert_eq!(parse_cell("1e-16"), Some((1, 16)));
    assert_eq!(parse_cell("1e-17"), None);
    assert_eq!(parse_cell("1e"), None);
    assert_eq!(parse_cell("e5"), None);
    assert_eq!(parse_cell(".e5"), None);
    assert_eq!(parse_cell("1e5x"), None);
    assert_eq!(parse_cell("1x"), None);
}

#[test]
fn generate_by_mode() {
    let data = strings(&[&["45", "25", "50"], &["20", "60", "25"]]);
    match generate(&data, &cells(&[]), false) {
        Ok(AnswerBlocks::Uncertainty(u)) => {
            assert_eq!(u.a, Matrix { rows: vec![vec![45, 25, 50], vec![20, 60, 25]], scale: 0 });
            assert_eq!(value(u.maximax_block.0), 60.0);
            assert_eq!(value(u.hurwitz_block.0), 40.0);
        }
        _ => panic!("uncertainty expected"),
    }
    match generate(&data, &cells(&["0.5", "0.25", "0.25"]), true) {
        Ok(AnswerBlocks::RiskCondition(r)) => {
            assert_eq!(value(r.bayes_block.0), 41.25);
            assert_eq!(r.probability_threshold, Some(60));
            assert_eq!(r.a, Matrix { rows: vec![vec![45, 25, 50], vec![20, 60, 25]], scale: 0 });
            assert_eq!((r.p.weights, r.p.scale), (vec![50, 25, 25], 2));
        }
        _ => panic!("risk expected"),
    }
    assert_eq!(
        generate(&data, &cells(&["0.5", "0.5"]), true).err(),
        Some(ParseError::InvalidProbabilities)
    );
    assert_eq!(
        generate(&strings(&[&["1.1."]]), &cells(&[]), false).err(),
        Some(ParseError::InvalidMatrix)
    );
    assert_eq!(
        generate(&strings(&[&["1e18", "0"]]), &cells(&["0.25", "0.75"]), true).err(),
        Some(ParseError::OutOfRange)
    );
    assert_eq!(ParseError::OutOfRange.message(), "Numbers are out of range.");
    assert!(generate(&strings(&[&["1e18", "0"]]), &cells(&["0.5", "0.5"]), true).is_ok());
}

#[test]
fn sessions_recompute_one_block() {
    let mut u = UncertaintyAnswerBlocks::new(example_one());
    let before = (u.maximax_block.clone(), u.savage_block.clone(), u.minimax_block.clone());
    u.update_hurwitz_block(Decimal { mantissa: 3, scale: 1 });
    assert_eq!(value(u.hurwitz_block.0), 32.5);
    assert_eq!(before, (u.maximax_block.clone(), u.savage_block.clone(), u.minimax_block.clone()));
    u.update_minimax(Choise::Losses);
    assert_eq!(value(u.minimax_block.0), 50.0);
    assert_eq!(u.profits_losses_radio.get_selected_choise(), Choise::Losses);

    let (a, p) = example_two();
    let mut r = RiskConditionAnswerBlocks::new(a, p);
    assert_eq!(r.probability_threshold, Some(100_000));
    assert_eq!(value(r.probability_maximization_block.clone().unwrap().0), 0.0);
    r.update_probability_maximization_block(10_000);
    assert_eq!(value(r.probability_maximization_block.clone().unwrap().0), 0.6);
    assert_eq!(value(r.bayes_block.0), 25_000.0);
}

#[test]
fn slider_range_spans_the_payoffs() {
    assert_eq!(get_probability_maximization_slider_range(&example_one()), (20, 60));
}

#[test]
fn profits_are_the_default_choice() {
    let mut radio = ProfitsLossesRadio::new();
    assert_eq!(radio.get_selected_choise(), Choise::Profits);
    radio.update_selected_choise(Choise::Losses);
    assert_eq!(radio.get_selected_choise(), Choise::Losses);
}

#[test]
fn counts_of_rows_and_columns() {
    assert_eq!(parse_positive_integer("3"), Ok(3));
    assert_eq!(parse_positive_integer("+4"), Ok(4));
    assert_eq!(parse_positive_integer("0"), Err(CountError::NotPositive));
    assert_eq!(parse_positive_integer("a"), Err(CountError::NotInteger));
    assert_eq!(parse_positive_integer(""), Err(CountError::NotInteger));
    assert_eq!(parse_positive_integer("-1"), Err(CountError::NotInteger));
    assert_eq!(
        parse_positive_integer("99999999999999999999999"),
        Err(CountError::NotInteger)
    );
}
