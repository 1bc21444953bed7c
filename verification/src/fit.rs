//! Least-squares fitting of a polynomial to samples taken at equal steps:
//! the sample positions are scaled to the interval from 0 to 1, the powers
//! of the positions form the design matrix, and the ridge-regularised normal
//! equations are solved for the coefficients.

use crate::arith::{
    difference, from_count, minus, of_nat, over, plus, product, quotient, sum, times,
};
use crate::format::{
    is_finite, is_negative, is_zero, lemma_units_of_pattern, units, HIDDEN, ONE, ZERO,
};
use crate::identities::{
    is_nonnegative, lemma_difference_with_zero, lemma_of_nat, lemma_of_nat_monotone,
    lemma_product_by_one, lemma_product_commutes, lemma_quotient_within_one, lemma_sum_of_nonnegatives,
    lemma_sum_of_unit_multiple, lemma_units_one,
};
use crate::rounding::{lemma_pow2_below, lemma_rounded_from_floor, rounded};
use vstd::arithmetic::power2::{lemma_pow2_adds, lemma_pow2_pos, pow2};
use crate::grid::{
    cell, column_count, fits, is_rectangle, list_to_vec, row_count, set_cell, set_item,
    zero_grid, zero_list, Matrix, Vector,
};
use crate::polynomial::{lemma_low_powers, power, powi};
use crate::single::{all_widened, widen_samples};
use crate::solver::{
    lemma_single_equation, lemma_solution_len, solution, solve_linear_system, SolveError,
};
use vstd::prelude::*;

verus! {

/// The ridge weight: the number nearest to one millionth.
pub const RIDGE: u64 = 0x3EB0_C6F7_A0B5_ED8D;

/// Why a fit was not made.
#[derive(Clone, Copy, Debug, PartialEq, Eq, Structural)]
pub enum FitError {
    /// There were no samples.
    EmptyInput,
    /// The normal equations had a pivot that was exactly zero.
    SingularMatrix,
}

impl FitError {
    /// What went wrong, in words.
    pub fn message(&self) -> (r: &'static str)
        ensures
            r@ == match *self {
                FitError::EmptyInput => "No samples to fit a polynomial to."@,
                FitError::SingularMatrix => "Matrix is singular and cannot be solved."@,
            },
    {
        match self {
            FitError::EmptyInput => "No samples to fit a polynomial to.",
            FitError::SingularMatrix => SolveError::SingularMatrix.message(),
        }
    }
}

/// The position of sample `i` of `n`, scaled so that the least position, 0,
/// goes to 0 and the greatest, `n - 1`, to 1.
pub open spec fn abscissa(i: nat, n: nat) -> u64 {
    quotient(
        difference(of_nat(i), of_nat(0)),
        difference(of_nat((n - 1) as nat), of_nat(0)),
    )
}

/// The scaled positions of `n` samples.
pub open spec fn abscissas(n: nat) -> Seq<u64> {
    Seq::new(n, |i: int| abscissa(i as nat, n))
}

/// The design matrix: row `i` holds the powers 0 to `degree` of `xs[i]`.
pub open spec fn design(xs: Seq<u64>, degree: nat) -> Seq<Seq<u64>> {
    Seq::new(xs.len(), |i: int| Seq::new(degree + 1, |j: int| power(xs[i], j as nat)))
}

/// The products of columns `j` and `k` over the rows below `upto`, added
/// row after row to +0.
pub open spec fn gram_sum(v: Seq<Seq<u64>>, j: int, k: int, upto: int) -> u64
    decreases upto,
{
    if upto <= 0 {
        ZERO
    } else {
        sum(gram_sum(v, j, k, upto - 1), product(v[upto - 1][j], v[upto - 1][k]))
    }
}

/// The products of column `j` and the targets over the rows below `upto`,
/// added row after row to +0.
pub open spec fn moment_sum(v: Seq<Seq<u64>>, y: Seq<u64>, j: int, upto: int) -> u64
    decreases upto,
{
    if upto <= 0 {
        ZERO
    } else {
        sum(moment_sum(v, y, j, upto - 1), product(v[upto - 1][j], y[upto - 1]))
    }
}

/// What the ridge adds to cell `(j, k)`: its weight on the diagonal, +0
/// elsewhere.
pub open spec fn ridge_term(j: int, k: int) -> u64 {
    if j == k {
        RIDGE
    } else {
        ZERO
    }
}

/// The matrix of the normal equations: the Gram matrix of the design matrix
/// plus the ridge.
pub open spec fn normal_matrix(v: Seq<Seq<u64>>, width: nat) -> Seq<Seq<u64>> {
    Seq::new(
        width,
        |j: int|
            Seq::new(width, |k: int| sum(gram_sum(v, j, k, v.len() as int), ridge_term(j, k))),
    )
}

/// The right-hand side of the normal equations.
pub open spec fn normal_rhs(v: Seq<Seq<u64>>, y: Seq<u64>, width: nat) -> Seq<u64> {
    Seq::new(width, |j: int| moment_sum(v, y, j, v.len() as int))
}

/// The coefficients fitted to the samples, lowest power first, or `None`
/// where the solver meets a zero pivot.
pub open spec fn fitted(samples: Seq<u32>, degree: nat) -> Option<Seq<u64>> {
    let v = design(abscissas(samples.len()), degree);
    solution(normal_matrix(v, degree + 1), normal_rhs(v, all_widened(samples), degree + 1))
}

/// Of the positions `0..n` as numbers, the first is the least and the last
/// the greatest: these are the two ends that the scaling uses.
pub proof fn lemma_extreme_positions(i: nat, n: nat)
    requires
        i < n,
        n - 1 <= u64::MAX,
    ensures
        of_nat(0) <= of_nat(i) <= of_nat((n - 1) as nat),
        !is_negative(of_nat(i)),
        is_finite(of_nat(i)),
{
    lemma_of_nat(i);
    lemma_of_nat_monotone(0, i);
    lemma_of_nat_monotone(i, (n - 1) as nat);
}

/// The scaled positions of two or more samples begin at +0, end at 1 and lie
/// between the two. (Words of numbers that are not negative compare as the
/// numbers do.)
pub proof fn lemma_abscissas_fill_unit_interval(n: nat)
    requires
        2 <= n,
        n - 1 <= u64::MAX,
    ensures
        abscissa(0, n) == ZERO,
        abscissa((n - 1) as nat, n) == ONE,
        forall|i: nat| i < n ==> ZERO <= #[trigger] abscissa(i, n) <= ONE,
{
    let last = (n - 1) as nat;
    lemma_of_nat(0);
    lemma_of_nat(last);
    lemma_difference_with_zero(of_nat(last));
    assert forall|i: nat| i < n implies ZERO <= #[trigger] abscissa(i, n) <= ONE && (i == 0
        ==> abscissa(i, n) == ZERO) && (i == last ==> abscissa(i, n) == ONE) by {
        lemma_of_nat(i);
        lemma_of_nat_monotone(i, last);
        lemma_difference_with_zero(of_nat(i));
        lemma_quotient_within_one(of_nat(i), of_nat(last));
    }
    assert(abscissa(0, n) == ZERO);
    assert(abscissa(last, n) == ONE);
}

/// The sum of the products of two columns does not depend on which of the
/// two comes first.
pub proof fn lemma_gram_sum_symmetric(v: Seq<Seq<u64>>, j: int, k: int, upto: int)
    ensures
        gram_sum(v, j, k, upto) == gram_sum(v, k, j, upto),
    decreases upto,
{
    if upto > 0 {
        lemma_gram_sum_symmetric(v, j, k, upto - 1);
        lemma_product_commutes(v[upto - 1][j], v[upto - 1][k]);
    }
}

/// The matrix of the normal equations is square and symmetric.
pub proof fn lemma_normal_matrix_symmetric(v: Seq<Seq<u64>>, width: nat)
    ensures
        normal_matrix(v, width).len() == width,
        is_rectangle(normal_matrix(v, width), width),
        forall|j: int, k: int|
            0 <= j < width && 0 <= k < width ==> #[trigger] normal_matrix(v, width)[j][k]
                == normal_matrix(v, width)[k][j],
{
    assert forall|j: int, k: int| 0 <= j < width && 0 <= k < width implies #[trigger] normal_matrix(
        v,
        width,
    )[j][k] == normal_matrix(v, width)[k][j] by {
        lemma_gram_sum_symmetric(v, j, k, v.len() as int);
    }
}

/// The ridge weight is one millionth, rounded to nearest.
pub proof fn lemma_ridge_is_one_millionth()
    ensures
        RIDGE == rounded(pow2(1074), 1_000_000),
{
    let sig: nat = 0x10_C6F7_A0B5_ED8D;
    let p = pow2(1002);
    let den: nat = 1_000_000;
    let num = pow2(1074);
    lemma_pow2_pos(1002);
    lemma_pow2_below(0, 0);
    lemma_pow2_adds(64, 8);
    lemma_pow2_adds(72, 1002);
    vstd::arithmetic::power2::lemma2_to64();
    assert(num == 0x1_00_0000_0000_0000_0000 * p);
    lemma_units_of_pattern(1002, sig);
    lemma_units_of_pattern(1002, sig + 1);
    assert(1002 * (HIDDEN as nat) + sig == RIDGE);
    let low = units(RIDGE as nat);
    let high = units((RIDGE + 1) as nat);
    assert(low * den <= num < high * den) by (nonlinear_arith)
        requires
            low == sig * p,
            high == (sig + 1) * p,
            num == 0x1_00_0000_0000_0000_0000 * p,
            sig == 0x10_C6F7_A0B5_ED8D,
            den == 1_000_000,
            p > 0,
    ;
    lemma_rounded_from_floor(RIDGE as nat, num, den);
    assert(2 * num < (low + high) * den) by (nonlinear_arith)
        requires
            low == sig * p,
            high == (sig + 1) * p,
            num == 0x1_00_0000_0000_0000_0000 * p,
            sig == 0x10_C6F7_A0B5_ED8D,
            den == 1_000_000,
            p > 0,
    ;
}

/// The words below `upto`, added one after the other to +0.
pub open spec fn running_sum(items: Seq<u64>, upto: int) -> u64
    decreases upto,
{
    if upto <= 0 {
        ZERO
    } else {
        sum(running_sum(items, upto - 1), items[upto - 1])
    }
}

/// The number 1 added `n` times to +0.
pub open spec fn tally(n: int) -> u64
    decreases n,
{
    if n <= 0 {
        ZERO
    } else {
        sum(tally(n - 1), ONE)
    }
}

/// A tally is a number that is not negative, or +infinity.
pub proof fn lemma_tally(n: int)
    ensures
        is_nonnegative(tally(n)),
    decreases n,
{
    if n > 0 {
        lemma_tally(n - 1);
        lemma_sum_of_nonnegatives(tally(n - 1), ONE);
    }
}

/// In a design matrix of degree 0 every cell is 1, so the sums of the normal
/// equations are a tally and the running sum of the targets.
pub proof fn lemma_sums_of_degree_zero(xs: Seq<u64>, y: Seq<u64>, upto: int)
    requires
        0 <= upto <= xs.len(),
        xs.len() == y.len(),
    ensures
        gram_sum(design(xs, 0), 0, 0, upto) == tally(upto),
        moment_sum(design(xs, 0), y, 0, upto) == running_sum(y, upto),
    decreases upto,
{
    if upto > 0 {
        lemma_sums_of_degree_zero(xs, y, upto - 1);
        lemma_low_powers(xs[upto - 1]);
        lemma_units_one();
        lemma_product_by_one(ONE);
        lemma_sum_of_unit_multiple(running_sum(y, upto - 1), y[upto - 1]);
    }
}

/// A fit of degree 0 never fails, and its one coefficient is the sum of the
/// samples divided by their count plus the ridge weight, the sum and the
/// count both taken by rounded additions.
pub proof fn lemma_constant_fit(samples: Seq<u32>)
    requires
        samples.len() > 0,
    ensures
        fitted(samples, 0) == Some(
            seq![
                quotient(
                    running_sum(all_widened(samples), samples.len() as int),
                    sum(tally(samples.len() as int), RIDGE),
                ),
            ],
        ),
{
    let n = samples.len() as int;
    let v = design(abscissas(samples.len()), 0);
    let a = normal_matrix(v, 1);
    let b = normal_rhs(v, all_widened(samples), 1);
    lemma_sums_of_degree_zero(abscissas(samples.len()), all_widened(samples), n);
    lemma_tally(n);
    lemma_sum_of_nonnegatives(tally(n), RIDGE);
    assert(a[0][0] == sum(tally(n), RIDGE));
    assert(b[0] == running_sum(all_widened(samples), n));
    assert(!is_zero(a[0][0]));
    lemma_single_equation(a, b);
}

/// Scales the positions `0..n` to the interval from 0 to 1.
pub fn normalized_abscissas(n: usize) -> (xs: Vec<u64>)
    ensures
        xs@ == abscissas(n as nat),
{
    let mut xs: Vec<u64> = Vec::new();
    if n == 0 {
        assert(xs@ =~= abscissas(0));
        return xs;
    }
    let least = from_count(0);
    let greatest = from_count((n - 1) as u64);
    let span = minus(greatest, least);
    let mut i: usize = 0;
    while i < n
        invariant
            0 <= i <= n,
            n > 0,
            least == of_nat(0),
            span == difference(of_nat((n - 1) as nat), of_nat(0)),
            xs@.len() == i,
            forall|k: int| 0 <= k < i ==> xs@[k] == abscissa(k as nat, n as nat),
        decreases n - i,
    {
        xs.push(over(minus(from_count(i as u64), least), span));
        i = i + 1;
    }
    assert(xs@ =~= abscissas(n as nat));
    xs
}

/// Builds the design matrix of the positions `xs` for a polynomial of the
/// given degree.
pub fn design_matrix(xs: &Vec<u64>, degree: usize) -> (v: Matrix)
    requires
        fits(xs@.len(), (degree + 1) as nat),
    ensures
        v@ == design(xs@, degree as nat),
        v.width() == degree + 1,
{
    let n = xs.len();
    let cols = degree + 1;
    let mut v = zero_grid(n, cols);
    let mut i: usize = 0;
    while i < n
        invariant
            0 <= i <= n,
            n == xs@.len(),
            cols == degree + 1,
            v@.len() == n,
            v.width() == cols,
            is_rectangle(v@, cols as nat),
            forall|r: int| 0 <= r < i ==> v@[r] == design(xs@, degree as nat)[r],
        decreases n - i,
    {
        let x = xs[i];
        let mut j: usize = 0;
        while j < cols
            invariant
                0 <= j <= cols,
                0 <= i < n,
                n == xs@.len(),
                x == xs@[i as int],
                cols == degree + 1,
                v@.len() == n,
                v.width() == cols,
                is_rectangle(v@, cols as nat),
                forall|r: int| 0 <= r < i ==> v@[r] == design(xs@, degree as nat)[r],
                forall|c: int| 0 <= c < j ==> v@[i as int][c] == power(x, c as nat),
            decreases cols - j,
        {
            set_cell(&mut v, i, j, powi(x, j));
            j = j + 1;
        }
        assert(v@[i as int] =~= design(xs@, degree as nat)[i as int]);
        i = i + 1;
    }
    assert(v@ =~= design(xs@, degree as nat));
    v
}

/// Forms the ridge-regularised normal equations of a design matrix and its
/// targets.
pub fn normal_equations(v: &Matrix, y: &[u64]) -> (r: (Matrix, Vector))
    requires
        y@.len() == v@.len(),
        fits(v.width(), v.width()),
    ensures
        r.0@ == normal_matrix(v@, v.width()),
        r.0.width() == v.width(),
        r.1@ == normal_rhs(v@, y@, v.width()),
{
    let n = row_count(v);
    let k = column_count(v);
    let mut a = zero_grid(k, k);
    proof {
        assert(k * 8 <= k * k * 8) by (nonlinear_arith)
            requires
                k >= 0,
        ;
    }
    let mut b = zero_list(k);
    let mut j: usize = 0;
    while j < k
        invariant
            0 <= j <= k,
            n == v@.len(),
            y@.len() == n,
            k == v.width(),
            is_rectangle(v@, k as nat),
            a@.len() == k,
            a.width() == k,
            is_rectangle(a@, k as nat),
            b@.len() == k,
            forall|r: int| 0 <= r < j ==> a@[r] == normal_matrix(v@, k as nat)[r],
            forall|r: int| 0 <= r < j ==> b@[r] == normal_rhs(v@, y@, k as nat)[r],
        decreases k - j,
    {
        let mut c: usize = 0;
        while c < k
            invariant
                0 <= c <= k,
                0 <= j < k,
                n == v@.len(),
                y@.len() == n,
                k == v.width(),
                is_rectangle(v@, k as nat),
                a@.len() == k,
                a.width() == k,
                is_rectangle(a@, k as nat),
                b@.len() == k,
                forall|r: int| 0 <= r < j ==> a@[r] == normal_matrix(v@, k as nat)[r],
                forall|r: int| 0 <= r < j ==> b@[r] == normal_rhs(v@, y@, k as nat)[r],
                forall|d: int|
                    0 <= d < c ==> a@[j as int][d] == sum(
                        gram_sum(v@, j as int, d, n as int),
                        ridge_term(j as int, d),
                    ),
            decreases k - c,
        {
            let mut total: u64 = ZERO;
            let mut i: usize = 0;
            while i < n
                invariant
                    0 <= i <= n,
                    0 <= j < k,
                    0 <= c < k,
                    n == v@.len(),
                    k == v.width(),
                    is_rectangle(v@, k as nat),
                    total == gram_sum(v@, j as int, c as int, i as int),
                decreases n - i,
            {
                total = plus(total, times(cell(v, i, j), cell(v, i, c)));
                i = i + 1;
            }
            let ridge = if j == c {
                RIDGE
            } else {
                ZERO
            };
            set_cell(&mut a, j, c, plus(total, ridge));
            c = c + 1;
        }
        let mut total: u64 = ZERO;
        let mut i: usize = 0;
        while i < n
            invariant
                0 <= i <= n,
                0 <= j < k,
                n == v@.len(),
                y@.len() == n,
                k == v.width(),
                is_rectangle(v@, k as nat),
                total == moment_sum(v@, y@, j as int, i as int),
            decreases n - i,
        {
            total = plus(total, times(cell(v, i, j), y[i]));
            i = i + 1;
        }
        set_item(&mut b, j, total);
        assert(a@[j as int] =~= normal_matrix(v@, k as nat)[j as int]);
        j = j + 1;
    }
    assert(a@ =~= normal_matrix(v@, k as nat));
    assert(b@ =~= normal_rhs(v@, y@, k as nat));
    (a, b)
}

/// Fits a polynomial of the given degree to samples taken at equal steps.
///
/// The samples are binary32 words; the coefficients are binary64 words,
/// lowest power first, and belong to positions scaled to the interval from
/// 0 to 1. There must be at least one sample.
pub fn fit_polynomial(samples: &[u32], degree: usize) -> (r: Result<Vec<u64>, FitError>)
    requires
        fits(samples@.len(), (degree + 1) as nat),
        fits((degree + 1) as nat, (degree + 1) as nat),
    ensures
        samples@.len() == 0 ==> r == Err::<Vec<u64>, FitError>(FitError::EmptyInput),
        samples@.len() > 0 ==> match fitted(samples@, degree as nat) {
            Some(c) => r is Ok && r->Ok_0@ == c,
            None => r == Err::<Vec<u64>, FitError>(FitError::SingularMatrix),
        },
        r is Ok ==> r->Ok_0@.len() == degree + 1,
{
    if samples.len() == 0 {
        return Err(FitError::EmptyInput);
    }
    let xs = normalized_abscissas(samples.len());
    let v = design_matrix(&xs, degree);
    let y = widen_samples(samples);
    let (a, b) = normal_equations(&v, y.as_slice());
    proof {
        lemma_solution_len(a@, b@);
    }
    match solve_linear_system(a, b) {
        Ok(c) => Ok(list_to_vec(&c)),
        Err(_) => Err(FitError::SingularMatrix),
    }
}

} // verus!
