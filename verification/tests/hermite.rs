use hamiltonian_generator::errors::HamiltonianError;
use hamiltonian_generator::hermite::{factorial, hermite_coefficient, hermite_coefficients};

#[test]
fn factorial_small_values() {
    assert_eq!(factorial(0), Ok(1));
    assert_eq!(factorial(1), Ok(1));
    assert_eq!(factorial(5), Ok(120));
    assert_eq!(factorial(20), Ok(2432902008176640000));
}

#[test]
fn factorial_overflow_is_reported() {
    assert_eq!(factorial(21), Err(HamiltonianError::NumericPrecisionLimit));
    assert_eq!(factorial(100), Err(HamiltonianError::NumericPrecisionLimit));
}

#[test]
fn hermite_rows_low_orders() {
    assert_eq!(hermite_coefficients(0), Ok(vec![1]));
    assert_eq!(hermite_coefficients(1), Ok(vec![0, 2]));
    assert_eq!(hermite_coefficients(2), Ok(vec![-2, 0, 4]));
    assert_eq!(hermite_coefficients(3), Ok(vec![0, -12, 0, 8]));
    assert_eq!(hermite_coefficients(4), Ok(vec![12, 0, -48, 0, 16]));
}

#[test]
fn hermite_single_coefficients() {
    assert_eq!(hermite_coefficient(0, 0), Ok(1));
    assert_eq!(hermite_coefficient(1, 1), Ok(2));
    assert_eq!(hermite_coefficient(2, 0), Ok(-2));
    assert_eq!(hermite_coefficient(3, 1), Ok(-12));
    // zero beyond the degree
    assert_eq!(hermite_coefficient(2, 5), Ok(0));
}

#[test]
fn hermite_leading_coefficient_is_power_of_two() {
    let row = hermite_coefficients(20).unwrap();
    assert_eq!(row.len(), 21);
    assert_eq!(row[20], 1 << 20);
}

#[test]
fn hermite_overflow_is_reported() {
    assert_eq!(
        hermite_coefficients(40),
        Err(HamiltonianError::NumericPrecisionLimit)
    );
    assert_eq!(
        hermite_coefficients(200),
        Err(HamiltonianError::NumericPrecisionLimit)
    );
}

fn eval_row(row: &[i64], x: f64) -> f64 {
    let mut acc = 0.0;
    let mut xp = 1.0;
    for &c in row {
        acc += (c as f64) * xp;
        xp *= x;
    }
    acc
}

#[test]
fn hermite_values_match_closed_forms() {
    // H_0(x) = 1, H_1(x) = 2x, H_2(x) = 4x^2 - 2 at a few sample points
    for &x in &[-2.5, -1.0, 0.0, 0.5, 3.0] {
        assert_eq!(eval_row(&hermite_coefficients(0).unwrap(), x), 1.0);
        assert_eq!(eval_row(&hermite_coefficients(1).unwrap(), x), 2.0 * x);
        assert_eq!(
            eval_row(&hermite_coefficients(2).unwrap(), x),
            4.0 * x * x - 2.0
        );
    }
}
