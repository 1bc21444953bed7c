use polyfit::fit::{
    design_matrix, fit_polynomial, normal_equations, normalized_abscissas, FitError, RIDGE,
};
use polyfit::polynomial::{evaluate_polynomial, powi};

fn words(values: &[f64]) -> Vec<u64> {
    values.iter().map(|v| v.to_bits()).collect()
}

fn numbers(bits: &[u64]) -> Vec<f64> {
    bits.iter().map(|b| f64::from_bits(*b)).collect()
}

/// The binary32 words of samples that binary32 holds exactly.
fn singles(values: &[f64]) -> Vec<u32> {
    values
        .iter()
        .map(|v| {
            let s = *v as f32;
            assert!(s as f64 == *v || v.is_nan());
            s.to_bits()
        })
        .collect()
}

fn fit(samples: &[f64], degree: usize) -> Vec<f64> {
    numbers(&fit_polynomial(&singles(samples), degree).unwrap())
}

/// Powering by squaring with the machine's own multiplication. The
/// machine's `powi` promises no particular rounding, so it is compared
/// only loosely.
fn squared_power(x: f64, exponent: usize) -> f64 {
    let mut acc = 1.0f64;
    let mut base = x;
    let mut left = exponent;
    loop {
        if left % 2 == 1 {
            acc = acc * base;
        }
        left /= 2;
        if left == 0 {
            return acc;
        }
        base = base * base;
    }
}

fn wave(n: usize) -> Vec<f64> {
    (0..n)
        .map(|i| {
            let t = i as f64 / 17.0;
            ((t.sin() * 0.7 + (3.1 * t).cos() * 0.2) as f32) as f64
        })
        .collect()
}

#[test]
fn ridge_is_one_millionth() {
    assert_eq!(RIDGE, 1e-6f64.to_bits());
}

#[test]
fn coefficient_count_is_degree_plus_one() {
    let samples = wave(40);
    for degree in 0..9 {
        assert_eq!(fit(&samples, degree).len(), degree + 1);
    }
    assert_eq!(fit(&[0.25], 0).len(), 1);
    assert_eq!(fit(&[0.25], 3).len(), 4);
    assert_eq!(fit(&[0.25, 0.5], 5).len(), 6);
}

#[test]
fn no_samples_is_an_error() {
    assert_eq!(fit_polynomial(&[], 5), Err(FitError::EmptyInput));
    assert_eq!(fit_polynomial(&[], 0), Err(FitError::EmptyInput));
}

#[test]
fn positions_run_from_zero_to_one() {
    for n in [2usize, 3, 10, 1000, 44100] {
        let xs = numbers(&normalized_abscissas(n));
        assert_eq!(xs.len(), n);
        assert_eq!(xs[0].to_bits(), 0.0f64.to_bits());
        assert_eq!(xs[n - 1], 1.0);
        for i in 0..n {
            assert_eq!(xs[i], (i as f64 - 0.0) / ((n - 1) as f64 - 0.0));
            assert!(0.0 <= xs[i] && xs[i] <= 1.0);
        }
    }
}

#[test]
fn a_single_position_has_no_scale() {
    let xs = numbers(&normalized_abscissas(1));
    assert_eq!(xs.len(), 1);
    assert!(xs[0].is_nan());
    assert_eq!(normalized_abscissas(0).len(), 0);
}

#[test]
fn design_matrix_holds_the_powers() {
    let xs = words(&[0.0, 0.5, 1.0, -2.0]);
    let v = design_matrix(&xs, 3);
    assert_eq!(v.rows(), 4);
    assert_eq!(v.columns(), 4);
    let expected: [[f64; 4]; 4] = [
        [1.0, 0.0, 0.0, 0.0],
        [1.0, 0.5, 0.25, 0.125],
        [1.0, 1.0, 1.0, 1.0],
        [1.0, -2.0, 4.0, -8.0],
    ];
    for i in 0..4 {
        for j in 0..4 {
            assert_eq!(v.get(i, j), Some(expected[i][j].to_bits()));
        }
    }
}

#[test]
fn zero_to_the_zero_is_one() {
    assert_eq!(powi(0.0f64.to_bits(), 0), 1.0f64.to_bits());
    assert_eq!(powi((-0.0f64).to_bits(), 0), 1.0f64.to_bits());
    assert_eq!(powi(f64::NAN.to_bits(), 0), 1.0f64.to_bits());
    assert_eq!(powi(f64::INFINITY.to_bits(), 0), 1.0f64.to_bits());
}

#[test]
fn powers_match_the_machine() {
    let mut state = 99u64;
    for _ in 0..2000 {
        state = state
            .wrapping_mul(6364136223846793005)
            .wrapping_add(1442695040888963407);
        let x = ((state >> 11) as f64 / (1u64 << 53) as f64) * 4.0 - 2.0;
        for j in 0..12usize {
            let ours = powi(x.to_bits(), j);
            assert_eq!(ours, squared_power(x, j).to_bits(), "{} ^ {}", x, j);
            let theirs = x.powi(j as i32);
            assert!((f64::from_bits(ours) - theirs).abs() <= theirs.abs() * 1e-14);
        }
    }
}

#[test]
fn normal_equations_of_two_points() {
    let v = design_matrix(&words(&[0.0, 1.0]), 1);
    let (a, b) = normal_equations(&v, &words(&[3.0, 5.0]));
    assert_eq!(a.rows(), 2);
    assert_eq!(a.columns(), 2);
    assert_eq!(a.get(0, 0), Some((2.0f64 + 1e-6).to_bits()));
    assert_eq!(a.get(0, 1), Some(1.0f64.to_bits()));
    assert_eq!(a.get(1, 0), Some(1.0f64.to_bits()));
    assert_eq!(a.get(1, 1), Some((1.0f64 + 1e-6).to_bits()));
    assert_eq!(b.to_vec(), words(&[8.0, 5.0]));
}

#[test]
fn normal_matrix_is_symmetric() {
    let xs = normalized_abscissas(25);
    let v = design_matrix(&xs, 4);
    let (a, _) = normal_equations(&v, &words(&wave(25)));
    for j in 0..5 {
        for k in 0..5 {
            assert_eq!(a.get(j, k), a.get(k, j));
        }
    }
}

#[test]
fn degree_zero_gives_nearly_the_mean() {
    for n in [10usize, 11, 100, 5000] {
        let samples = wave(n);
        let mean = samples.iter().sum::<f64>() / n as f64;
        let c = fit(&samples, 0);
        assert_eq!(c.len(), 1);
        assert!((c[0] - mean).abs() < 1e-4, "{} {}", c[0], mean);
        // Exactly: the sum of the samples over the count plus the ridge.
        let mut total = 0.0;
        let mut count = 0.0;
        for s in &samples {
            total += 1.0 * s;
            count += 1.0 * 1.0;
        }
        assert_eq!(c[0], total / (count + 1e-6));
    }
}

#[test]
fn an_exact_polynomial_is_recovered() {
    let n = 2000usize;
    let truth = [0.5, -0.25, 0.125];
    let samples: Vec<f64> = (0..n)
        .map(|i| {
            let x = i as f64 / (n - 1) as f64;
            ((truth[0] + truth[1] * x + truth[2] * x * x) as f32) as f64
        })
        .collect();
    let c = fit(&samples, 2);
    assert_eq!(c.len(), 3);
    for i in 0..3 {
        assert!((c[i] - truth[i]).abs() < 1e-6, "{:?}", c);
    }
}

#[test]
fn a_straight_line_is_recovered() {
    let n = 500usize;
    let samples: Vec<f64> = (0..n)
        .map(|i| ((-0.3 + 0.9 * (i as f64 / (n - 1) as f64)) as f32) as f64)
        .collect();
    let c = fit(&samples, 1);
    assert!((c[0] + 0.3).abs() < 1e-6, "{:?}", c);
    assert!((c[1] - 0.9).abs() < 1e-6, "{:?}", c);
}

/// The whole fit written with the machine's own arithmetic.
fn reference_fit(samples: &[f64], degree: usize) -> Vec<f64> {
    let n = samples.len();
    let k = degree + 1;
    let lo = 0.0f64;
    let hi = (n - 1) as f64;
    let xs: Vec<f64> = (0..n).map(|i| (i as f64 - lo) / (hi - lo)).collect();
    let v: Vec<Vec<f64>> = xs
        .iter()
        .map(|x| (0..k).map(|j| squared_power(*x, j)).collect())
        .collect();
    let mut a = vec![vec![0.0f64; k]; k];
    let mut b = vec![0.0f64; k];
    for j in 0..k {
        for c in 0..k {
            let mut total = 0.0;
            for i in 0..n {
                total = total + v[i][j] * v[i][c];
            }
            a[j][c] = total + if j == c { 1e-6 } else { 0.0 };
        }
        let mut total = 0.0;
        for i in 0..n {
            total = total + v[i][j] * samples[i];
        }
        b[j] = total;
    }
    for i in 0..k {
        let mut p = i;
        for r in (i + 1)..k {
            if a[r][i].abs() > a[p][i].abs() {
                p = r;
            }
        }
        assert!(a[p][i] != 0.0);
        a.swap(i, p);
        b.swap(i, p);
        for r in (i + 1)..k {
            let factor = a[r][i] / a[i][i];
            for j in i..k {
                a[r][j] = a[r][j] - factor * a[i][j];
            }
            b[r] = b[r] - factor * b[i];
        }
    }
    let mut x = vec![0.0; k];
    for i in (0..k).rev() {
        let mut left = b[i];
        for j in (i + 1)..k {
            left = left - a[i][j] * x[j];
        }
        x[i] = left / a[i][i];
    }
    x
}

#[test]
fn fits_match_the_machine_arithmetic() {
    for (n, degree) in [(1usize, 0usize), (2, 1), (7, 3), (64, 5), (300, 5), (50, 8)] {
        let samples = wave(n);
        let ours = fit_polynomial(&singles(&samples), degree).unwrap();
        let theirs = reference_fit(&samples, degree);
        for i in 0..=degree {
            let expected = theirs[i];
            if expected.is_nan() {
                assert!(f64::from_bits(ours[i]).is_nan());
            } else {
                assert_eq!(ours[i], expected.to_bits(), "n {} degree {} at {}", n, degree, i);
            }
        }
    }
}

#[test]
fn constant_polynomial_is_one_everywhere() {
    let coeffs = words(&[1.0, 0.0, 0.0]);
    for x in [0.0, -0.0, 1.0, 7.0, 10.0, -3.5, 1e-300, 1e150, -1e150, 0.1] {
        assert_eq!(evaluate_polynomial(&coeffs, f64::to_bits(x)), 1.0f64.to_bits(), "{}", x);
    }
}

#[test]
fn constant_polynomial_where_the_square_overflows() {
    let coeffs = words(&[1.0, 0.0, 0.0]);
    assert!(f64::from_bits(evaluate_polynomial(&coeffs, 1e200f64.to_bits())).is_nan());
    assert!(f64::from_bits(evaluate_polynomial(&coeffs, f64::INFINITY.to_bits())).is_nan());
}

#[test]
fn identity_polynomial_everywhere() {
    let coeffs = words(&[0.0, 1.0]);
    for x in [7.0, -7.0, 0.0, 1e300, -1e-300, f64::INFINITY, f64::NEG_INFINITY, 0.1] {
        assert_eq!(evaluate_polynomial(&coeffs, f64::to_bits(x)), f64::to_bits(x), "{}", x);
    }
    assert_eq!(evaluate_polynomial(&coeffs, (-0.0f64).to_bits()), 0.0f64.to_bits());
}

#[test]
fn identity_polynomial_at_seven() {
    assert_eq!(evaluate_polynomial(&words(&[0.0, 1.0]), 7.0f64.to_bits()), 7.0f64.to_bits());
}

#[test]
fn evaluation_adds_power_terms() {
    // 2 - 3x + 0.5x^2 at x = 4 is 2 - 12 + 8.
    let y = evaluate_polynomial(&words(&[2.0, -3.0, 0.5]), 4.0f64.to_bits());
    assert_eq!(y, (-2.0f64).to_bits());
}

#[test]
fn evaluation_matches_the_machine() {
    let coeffs = [0.3, -1.7, 2.9, 0.011, -4.0, 1.0];
    for x in [10.0, 0.37, -2.25, 1e10, -1e-10, 0.0] {
        let expected: f64 = coeffs
            .iter()
            .enumerate()
            .map(|(i, &c)| c * squared_power(x, i))
            .sum();
        assert_eq!(evaluate_polynomial(&words(&coeffs), f64::to_bits(x)), expected.to_bits());
    }
    let none: [f64; 0] = [];
    let expected: f64 = none.iter().sum();
    assert_eq!(evaluate_polynomial(&[], 3.0f64.to_bits()), expected.to_bits());
}

#[test]
fn the_fitted_curve_is_evaluated_at_the_raw_query() {
    let samples = wave(64);
    let c = fit_polynomial(&singles(&samples), 5).unwrap();
    let y = f64::from_bits(evaluate_polynomial(&c, 10.0f64.to_bits()));
    let mut expected = -0.0f64;
    for (i, b) in c.iter().enumerate() {
        expected += f64::from_bits(*b) * squared_power(10.0, i);
    }
    assert_eq!(y.to_bits(), expected.to_bits());
}
