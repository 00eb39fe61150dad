use criteria::matrix::{Matrix, Probabilities};
use criteria::number::Decimal;
use criteria::profits_losses_radio::Choise;
use criteria::risk_condition::{bayes, dispersion_minimization, modal, probability_maximization};
use criteria::uncertainty::{hurwitz, maximax, minimax, savage};

fn value(d: Decimal) -> f64 {
    d.mantissa as f64 / 10f64.powi(d.scale as i32)
}

fn generate_test_data() -> Matrix {
    Matrix { rows: vec![vec![45, 25, 50], vec![20, 60, 25]], scale: 0 }
}

fn generate_risk_data() -> (Matrix, Probabilities) {
    let a = Matrix {
        rows: vec![
            vec![100_000, -50_000, -50_000],
            vec![-50_000, -50_000, 100_000],
            vec![15_000, 15_000, 0],
            vec![0, 0, 0],
        ],
        scale: 0,
    };
    let p = Probabilities { weights: vec![5, 1, 4], scale: 1 };
    (a, p)
}

#[test]
fn test_maximax() {
    let a = generate_test_data();
    assert_eq!(value(maximax(&a).0), 60.0, "Maximax gives incorrect result.");
}

#[test]
fn test_minimax() {
    let a = generate_test_data();
    assert_eq!(value(minimax(&a, Choise::Profits).0), 25.0, "Maximax gives incorrect result.");
}

#[test]
fn test_hurwitz() {
    let a = generate_test_data();
    let alpha = Decimal { mantissa: 3, scale: 1 };
    assert_eq!(value(hurwitz(&a, alpha).0), 32.5, "Hurwitz gives incorrect result for alpha = 0.3");
}

#[test]
fn test_savage() {
    let a = generate_test_data();
    assert_eq!(value(savage(&a).0), 25.0, "Savage gives incorrect result.");
}

#[test]
fn test_bayes() {
    let (a, p) = generate_risk_data();
    assert_eq!(value(bayes(&a, &p).0), 25_000.0, "Bayes gives incorrect result.");
}

#[test]
fn test_dispersion_minimization() {
    let (a, p) = generate_risk_data();
    assert_eq!(
        value(dispersion_minimization(&a, &p).0),
        0.0,
        "Dispersion minimization gives incorrect result."
    );
}

#[test]
fn test_probability_maximization() {
    let (a, p) = generate_risk_data();
    assert_eq!(
        value(probability_maximization(&a, &p, Some(40_000)).unwrap().0),
        0.5,
        "Probability maximization gives incorrect result for a = 40_000."
    );
    assert_eq!(
        value(probability_maximization(&a, &p, Some(10_000)).unwrap().0),
        0.6,
        "Probability maximization gives incorrect result for a = 10_000."
    );
}

#[test]
fn test_modal() {
    let (a, p) = generate_risk_data();
    assert_eq!(value(modal(&a, &p).unwrap().0), 100_000.0, "Modal gives incorrect result.");
}
