use polyfit::grid::{Matrix, Vector};
use polyfit::solver::{find_pivot, solve_linear_system, SolveError};

fn words(values: &[f64]) -> Vec<u64> {
    values.iter().map(|v| v.to_bits()).collect()
}

fn matrix(rows: &[Vec<f64>]) -> Matrix {
    let cells: Vec<Vec<u64>> = rows.iter().map(|r| words(r)).collect();
    Matrix::from_rows(&cells).unwrap()
}

fn vector(items: &[f64]) -> Vector {
    Vector::from_items(&words(items)).unwrap()
}

fn numbers(v: &Vector) -> Vec<f64> {
    v.to_vec().iter().map(|b| f64::from_bits(*b)).collect()
}

/// The same elimination written with the machine's own arithmetic.
fn reference(mut a: Vec<Vec<f64>>, mut b: Vec<f64>) -> Option<Vec<f64>> {
    let n = a.len();
    for i in 0..n {
        let mut p = i;
        for k in (i + 1)..n {
            if a[k][i].abs() > a[p][i].abs() {
                p = k;
            }
        }
        if a[p][i] == 0.0 {
            return None;
        }
        a.swap(i, p);
        b.swap(i, p);
        for k in (i + 1)..n {
            let factor = a[k][i] / a[i][i];
            for j in i..n {
                a[k][j] = a[k][j] - factor * a[i][j];
            }
            b[k] = b[k] - factor * b[i];
        }
    }
    let mut x = vec![0.0; n];
    for i in (0..n).rev() {
        let mut left = b[i];
        for j in (i + 1)..n {
            left = left - a[i][j] * x[j];
        }
        x[i] = left / a[i][i];
    }
    Some(x)
}

struct Stream {
    state: u64,
}

impl Stream {
    fn next(&mut self) -> u64 {
        self.state = self
            .state
            .wrapping_mul(6364136223846793005)
            .wrapping_add(1442695040888963407);
        let mut x = self.state;
        x ^= x >> 33;
        x = x.wrapping_mul(0xff51afd7ed558ccd);
        x ^= x >> 29;
        x
    }

    fn number(&mut self) -> f64 {
        let r = self.next();
        let scaled = (r >> 11) as f64 / (1u64 << 53) as f64;
        (scaled - 0.5) * 20.0
    }
}

#[test]
fn solves_two_by_two() {
    let a = matrix(&[vec![2.0, 1.0], vec![1.0, 3.0]]);
    let b = vector(&[5.0, 10.0]);
    let x = numbers(&solve_linear_system(a, b).unwrap());
    assert_eq!(x.len(), 2);
    assert!((x[0] - 1.0).abs() < 1e-12, "{:?}", x);
    assert!((x[1] - 3.0).abs() < 1e-12, "{:?}", x);
}

#[test]
fn dependent_rows_are_singular() {
    let a = matrix(&[vec![1.0, 2.0], vec![2.0, 4.0]]);
    let b = vector(&[3.0, 6.0]);
    assert!(matches!(solve_linear_system(a, b), Err(SolveError::SingularMatrix)));
}

#[test]
fn zero_matrix_is_singular() {
    let a = matrix(&[vec![0.0, -0.0], vec![-0.0, 0.0]]);
    let b = vector(&[1.0, 1.0]);
    assert!(matches!(solve_linear_system(a, b), Err(SolveError::SingularMatrix)));
}

#[test]
fn zero_first_column_is_singular() {
    let a = matrix(&[
        vec![0.0, 1.0, 2.0],
        vec![-0.0, 3.0, 4.0],
        vec![0.0, 5.0, 7.0],
    ]);
    let b = vector(&[1.0, 2.0, 3.0]);
    assert!(matches!(solve_linear_system(a, b), Err(SolveError::SingularMatrix)));
}

#[test]
fn empty_system_has_empty_solution() {
    let a = Matrix::from_rows(&Vec::new()).unwrap();
    let b = vector(&[]);
    let x = solve_linear_system(a, b).unwrap();
    assert_eq!(x.len(), 0);
}

#[test]
fn one_by_one_divides() {
    let a = matrix(&[vec![4.0]]);
    let b = vector(&[10.0]);
    let x = numbers(&solve_linear_system(a, b).unwrap());
    assert_eq!(x, vec![2.5]);
}

#[test]
fn a_needed_row_exchange_is_made() {
    // The first pivot is zero, so the rows must change places.
    let a = matrix(&[vec![0.0, 1.0], vec![1.0, 0.0]]);
    let b = vector(&[7.0, 9.0]);
    let x = numbers(&solve_linear_system(a, b).unwrap());
    assert_eq!(x, vec![9.0, 7.0]);
}

#[test]
fn right_hand_side_survives_when_no_exchange_is_needed() {
    let a = matrix(&[vec![4.0, 0.0], vec![0.0, 2.0]]);
    let b = vector(&[8.0, 6.0]);
    let x = numbers(&solve_linear_system(a, b).unwrap());
    assert_eq!(x, vec![2.0, 3.0]);
}

#[test]
fn pivot_is_the_first_of_equal_magnitudes() {
    let a = matrix(&[
        vec![1.0, 0.0, 0.0],
        vec![-3.0, 1.0, 0.0],
        vec![3.0, 0.0, 1.0],
    ]);
    assert_eq!(find_pivot(&a, 0), 1);
    let a = matrix(&[
        vec![2.0, 0.0, 0.0],
        vec![0.0, -5.0, 0.0],
        vec![0.0, 5.0, 1.0],
    ]);
    assert_eq!(find_pivot(&a, 1), 1);
    assert_eq!(find_pivot(&a, 2), 2);
}

#[test]
fn pivot_scan_never_moves_past_a_nan() {
    let a = matrix(&[vec![f64::NAN, 0.0], vec![5.0, 1.0]]);
    assert_eq!(find_pivot(&a, 0), 0);
    let a = matrix(&[vec![1.0, 0.0], vec![f64::NAN, 1.0]]);
    assert_eq!(find_pivot(&a, 0), 0);
}

#[test]
fn tiny_pivots_are_not_singular() {
    let a = matrix(&[vec![5e-324, 0.0], vec![0.0, 5e-324]]);
    let b = vector(&[5e-324, 1e-323]);
    let x = numbers(&solve_linear_system(a, b).unwrap());
    assert_eq!(x, vec![1.0, 2.0]);
}

#[test]
fn solutions_match_the_machine_arithmetic() {
    let mut s = Stream { state: 11 };
    for size in 1..7usize {
        for _ in 0..60 {
            let rows: Vec<Vec<f64>> = (0..size)
                .map(|_| (0..size).map(|_| s.number()).collect())
                .collect();
            let rhs: Vec<f64> = (0..size).map(|_| s.number()).collect();
            let expected = reference(rows.clone(), rhs.clone());
            let got = solve_linear_system(matrix(&rows), vector(&rhs));
            match expected {
                None => assert!(got.is_err()),
                Some(x) => {
                    let ours = got.unwrap().to_vec();
                    assert_eq!(ours, words(&x));
                }
            }
        }
    }
}

#[test]
fn solutions_satisfy_their_systems() {
    let mut s = Stream { state: 12 };
    for _ in 0..50 {
        let rows: Vec<Vec<f64>> = (0..4)
            .map(|i| {
                (0..4)
                    .map(|j| if i == j { 10.0 + s.number().abs() } else { s.number() / 10.0 })
                    .collect()
            })
            .collect();
        let rhs: Vec<f64> = (0..4).map(|_| s.number()).collect();
        let x = numbers(&solve_linear_system(matrix(&rows), vector(&rhs)).unwrap());
        for i in 0..4 {
            let mut total = 0.0;
            for j in 0..4 {
                total += rows[i][j] * x[j];
            }
            assert!((total - rhs[i]).abs() < 1e-9);
        }
    }
}

#[test]
fn ragged_rows_make_no_matrix() {
    let cells = vec![vec![1u64, 2], vec![3]];
    assert!(Matrix::from_rows(&cells).is_none());
}

#[test]
fn cells_are_read_back() {
    let a = matrix(&[vec![1.0, 2.0, 3.0], vec![4.0, 5.0, 6.0]]);
    assert_eq!(a.rows(), 2);
    assert_eq!(a.columns(), 3);
    assert_eq!(a.get(1, 2), Some(6.0f64.to_bits()));
    assert_eq!(a.get(0, 1), Some(2.0f64.to_bits()));
    assert_eq!(a.get(2, 0), None);
    assert_eq!(a.get(0, 3), None);
    let v = vector(&[7.0, 8.0]);
    assert_eq!(v.len(), 2);
    assert_eq!(v.get(1), Some(8.0f64.to_bits()));
    assert_eq!(v.get(2), None);
}
