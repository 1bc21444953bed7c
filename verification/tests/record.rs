use polyfit::fit::{fit_polynomial, FitError};
use polyfit::polynomial::evaluate_polynomial;
use polyfit::record::{fit_and_evaluate, try_fit_and_evaluate};
use polyfit::solver::SolveError;

fn singles(values: &[f32]) -> Vec<u32> {
    values.iter().map(|v| v.to_bits()).collect()
}

#[test]
fn record_holds_fit_point_and_value() {
    let samples = singles(&[0.1, 0.4, 0.2, -0.3, 0.0, 0.25, 0.5, -0.5]);
    let x = 10.0f64.to_bits();
    let record = fit_and_evaluate(&samples, 5, x).unwrap();
    let coeffs = fit_polynomial(&samples, 5).unwrap();
    assert_eq!(record.coeffs, coeffs);
    assert_eq!(record.coeffs.len(), 6);
    assert_eq!(record.x, x);
    assert_eq!(record.y, evaluate_polynomial(&coeffs, x));
}

#[test]
fn record_of_a_line_at_an_unscaled_point() {
    // Samples on the line from 1 to 3 over the scaled positions 0 to 1.
    let samples = singles(&[1.0, 1.5, 2.0, 2.5, 3.0]);
    let record = fit_and_evaluate(&samples, 1, 10.0f64.to_bits()).unwrap();
    let c0 = f64::from_bits(record.coeffs[0]);
    let c1 = f64::from_bits(record.coeffs[1]);
    assert!((c0 - 1.0).abs() < 1e-5, "{}", c0);
    assert!((c1 - 2.0).abs() < 1e-5, "{}", c1);
    // The point 10 is used as it is: the value is near 1 + 2 * 10.
    let y = f64::from_bits(record.y);
    assert!((y - 21.0).abs() < 1e-4, "{}", y);
    assert_eq!(y, -0.0 + c0 * 1.0 + c1 * 10.0);
}

#[test]
fn record_of_no_samples_is_an_error() {
    assert!(matches!(
        fit_and_evaluate(&[], 5, 10.0f64.to_bits()),
        Err(FitError::EmptyInput)
    ));
}

#[test]
fn a_fit_too_large_for_memory_is_not_tried() {
    let samples = singles(&[0.5, 0.25]);
    assert!(try_fit_and_evaluate(&samples, usize::MAX, 0).is_none());
    assert!(try_fit_and_evaluate(&samples, usize::MAX / 2, 0).is_none());
    assert!(try_fit_and_evaluate(&samples, (isize::MAX as usize) / 16, 0).is_none());
    let tried = try_fit_and_evaluate(&samples, 1, 10.0f64.to_bits()).unwrap().unwrap();
    let plain = fit_and_evaluate(&samples, 1, 10.0f64.to_bits()).unwrap();
    assert_eq!(tried.coeffs, plain.coeffs);
    assert_eq!(tried.y, plain.y);
    assert!(matches!(
        try_fit_and_evaluate(&[], 5, 0),
        Some(Err(FitError::EmptyInput))
    ));
}

#[test]
fn errors_say_what_went_wrong() {
    assert_eq!(
        SolveError::SingularMatrix.message(),
        "Matrix is singular and cannot be solved."
    );
    assert_eq!(
        FitError::SingularMatrix.message(),
        "Matrix is singular and cannot be solved."
    );
    assert_eq!(FitError::EmptyInput.message(), "No samples to fit a polynomial to.");
}
