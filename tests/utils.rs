use criteria::parse::{parse_data, ParseError};

fn strings(rows: &[&[&str]]) -> Vec<Vec<String>> {
    rows.iter().map(|row| row.iter().map(|c| c.to_string()).collect()).collect()
}

#[test]
fn test_parse_data() {
    let a = strings(&[&["1", "2.3", "3.4"], &["-1.0", "2", "0"]]);
    let parsed_a: Vec<Vec<f64>> = vec![vec![1.0, 2.3, 3.4], vec![-1.0, 2.0, 0.0]];
    let m = parse_data(&a).expect("Data parsed incorrectly.");
    let values: Vec<Vec<f64>> = m
        .rows
        .iter()
        .map(|row| row.iter().map(|v| *v as f64 / 10f64.powi(m.scale as i32)).collect())
        .collect();
    assert_eq!(values, parsed_a, "Data parsed incorrectly.");
}

#[test]
fn test_parse_data_invalid_f32() {
    let a = strings(&[&["1.1.", "2.3", "3.4"], &["-1.0", "2", "0"]]);
    let e = parse_data(&a).unwrap_err();
    assert_eq!(e, ParseError::InvalidMatrix, "First value in matrix is invalid float.");
    assert_eq!(e.message(), "Matrix is invalid.", "First value in matrix is invalid float.");
}

#[test]
fn test_parse_data_letters() {
    let a = strings(&[&["a", "2.3", "3.4"], &["-1.0", "a", ""]]);
    let e = parse_data(&a).unwrap_err();
    assert_eq!(e, ParseError::InvalidMatrix, "First value in matrix is letter.");
    assert_eq!(e.message(), "Matrix is invalid.", "First value in matrix is letter.");
}

#[test]
fn test_parse_data_empty_space() {
    let a = strings(&[&["", "2.3", "3.4"], &["-1.0", "a", ""]]);
    let e = parse_data(&a).unwrap_err();
    assert_eq!(e, ParseError::InvalidMatrix, "First value in matrix is empty space.");
    assert_eq!(e.message(), "Matrix is invalid.", "First value in matrix is empty space.");
}
