//! Dense linear systems, solved by Gaussian elimination with partial
//! pivoting and back-substitution.
//!
//! Rounded arithmetic has no algebra to reason with, so the result is stated
//! as what it is: the outcome of these steps, each operation rounded, in this
//! order.

use crate::arith::{
    difference, equals_zero, is_larger, minus, outweighs, over, product, quotient, times,
};
use crate::format::{is_nan, is_zero};
use crate::grid::{
    cell, column_count, is_rectangle, item, set_cell, set_item, swap_items, swap_rows,
    Matrix, Vector,
};
use vstd::prelude::*;

verus! {

/// Why a system was not solved.
#[derive(Clone, Copy, Debug, PartialEq, Eq, Structural)]
pub enum SolveError {
    /// In some column every candidate pivot was exactly zero.
    SingularMatrix,
}

impl SolveError {
    /// What went wrong, in words.
    pub fn message(&self) -> (r: &'static str)
        ensures
            r@ == "Matrix is singular and cannot be solved."@,
    {
        "Matrix is singular and cannot be solved."
    }
}

/// The row that the scan for a pivot in column `col` holds once it has
/// looked at the rows `col..upto`. The scan starts at the diagonal and moves
/// on only to a strictly larger magnitude, so of equal magnitudes the first
/// stays.
pub open spec fn pivot_after(a: Seq<Seq<u64>>, col: int, upto: int) -> int
    decreases upto - col,
{
    if upto <= col + 1 {
        col
    } else {
        let held = pivot_after(a, col, upto - 1);
        if outweighs(a[upto - 1][col], a[held][col]) {
            upto - 1
        } else {
            held
        }
    }
}

/// The pivot row for column `col`.
pub open spec fn pivot_row(a: Seq<Seq<u64>>, col: int) -> int {
    pivot_after(a, col, a.len() as int)
}

/// The sequence with the items at `i` and `j` exchanged.
pub open spec fn exchanged<T>(s: Seq<T>, i: int, j: int) -> Seq<T> {
    s.update(i, s[j]).update(j, s[i])
}

/// `row` after `factor` times the pivot row was subtracted from it, from
/// column `col` on, where `factor` is the quotient of the two rows' cells in
/// column `col`. The cells left of `col` stay as they are.
pub open spec fn reduced_row(row: Seq<u64>, pivot: Seq<u64>, col: int) -> Seq<u64> {
    let factor = quotient(row[col], pivot[col]);
    Seq::new(
        row.len(),
        |j: int|
            if j < col {
                row[j]
            } else {
                difference(row[j], product(factor, pivot[j]))
            },
    )
}

/// The right-hand side item of a row after the same subtraction.
pub open spec fn reduced_item(row: Seq<u64>, pivot: Seq<u64>, col: int, b_row: u64, b_pivot: u64)
    -> u64 {
    difference(b_row, product(quotient(row[col], pivot[col]), b_pivot))
}

/// The matrix after every row below `col` was reduced by row `col`.
pub open spec fn eliminated(a: Seq<Seq<u64>>, col: int) -> Seq<Seq<u64>> {
    Seq::new(
        a.len(),
        |k: int|
            if k <= col {
                a[k]
            } else {
                reduced_row(a[k], a[col], col)
            },
    )
}

/// The right-hand side after the same reductions.
pub open spec fn eliminated_rhs(a: Seq<Seq<u64>>, b: Seq<u64>, col: int) -> Seq<u64> {
    Seq::new(
        b.len(),
        |k: int|
            if k <= col {
                b[k]
            } else {
                reduced_item(a[k], a[col], col, b[k], b[col])
            },
    )
}

/// One step of forward elimination, on column `col`: choose the pivot, give
/// up if it is zero, bring it to the diagonal, reduce the rows below.
pub open spec fn step(a: Seq<Seq<u64>>, b: Seq<u64>, col: int) -> Option<(Seq<Seq<u64>>, Seq<u64>)> {
    let p = pivot_row(a, col);
    if is_zero(a[p][col]) {
        None
    } else {
        let a2 = exchanged(a, col, p);
        let b2 = exchanged(b, col, p);
        Some((eliminated(a2, col), eliminated_rhs(a2, b2, col)))
    }
}

/// The system after the steps on the columns `0..cols`, or `None` if one of
/// them met a zero pivot.
pub open spec fn forward(a: Seq<Seq<u64>>, b: Seq<u64>, cols: int) -> Option<
    (Seq<Seq<u64>>, Seq<u64>),
>
    decreases cols,
{
    if cols <= 0 {
        Some((a, b))
    } else {
        match forward(a, b, cols - 1) {
            None => None,
            Some((a1, b1)) => step(a1, b1, cols - 1),
        }
    }
}

/// `start` less the products `row[j] * x[j]` for `j` in `from..upto`, taken
/// away one after the other in that order.
pub open spec fn remainder(row: Seq<u64>, start: u64, x: Seq<u64>, from: int, upto: int) -> u64
    decreases upto - from,
{
    if upto <= from {
        start
    } else {
        difference(remainder(row, start, x, from, upto - 1), product(row[upto - 1], x[upto - 1]))
    }
}

/// The unknowns `from..n` of a triangular system, found from the last row
/// upwards; the items before `from` are the word 0.
pub open spec fn back_substituted(a: Seq<Seq<u64>>, b: Seq<u64>, from: int) -> Seq<u64>
    decreases a.len() - from,
{
    if from >= a.len() {
        Seq::new(a.len(), |j: int| 0u64)
    } else {
        let x = back_substituted(a, b, from + 1);
        x.update(
            from,
            quotient(remainder(a[from], b[from], x, from + 1, a.len() as int), a[from][from]),
        )
    }
}

/// The solution of `a x = b` as Gaussian elimination with partial pivoting
/// computes it, or `None` where a pivot is exactly zero.
pub open spec fn solution(a: Seq<Seq<u64>>, b: Seq<u64>) -> Option<Seq<u64>> {
    match forward(a, b, a.len() as int) {
        None => None,
        Some((u, c)) => Some(back_substituted(u, c, 0)),
    }
}

/// A square system of `n` rows.
pub open spec fn is_system(a: Seq<Seq<u64>>, b: Seq<u64>, n: nat) -> bool {
    a.len() == n && b.len() == n && is_rectangle(a, n)
}

/// A step keeps the shape of the system.
pub proof fn lemma_step_shape(a: Seq<Seq<u64>>, b: Seq<u64>, col: int)
    requires
        is_system(a, b, a.len()),
        0 <= col < a.len(),
    ensures
        step(a, b, col) matches Some(s) ==> is_system(s.0, s.1, a.len()),
        col <= pivot_row(a, col) < a.len(),
{
    lemma_pivot_in_range(a, col, a.len() as int);
}

/// The scan holds a row that it has looked at.
pub proof fn lemma_pivot_in_range(a: Seq<Seq<u64>>, col: int, upto: int)
    requires
        col < upto,
    ensures
        col <= pivot_after(a, col, upto) < upto,
    decreases upto - col,
{
    if upto > col + 1 {
        lemma_pivot_in_range(a, col, upto - 1);
    }
}

/// Where the column holds numbers only, the scan ends on the first row of
/// the largest magnitude: no row outweighs it, and it outweighs every row
/// before it.
pub proof fn lemma_pivot_is_first_largest(a: Seq<Seq<u64>>, col: int, upto: int)
    requires
        0 <= col < upto <= a.len(),
        forall|k: int| col <= k < upto ==> !is_nan(#[trigger] a[k][col]),
    ensures
        forall|k: int|
            col <= k < upto ==> !outweighs(#[trigger] a[k][col], a[pivot_after(a, col, upto)][col]),
        forall|k: int|
            col <= k < pivot_after(a, col, upto) ==> outweighs(
                a[pivot_after(a, col, upto)][col],
                #[trigger] a[k][col],
            ),
    decreases upto - col,
{
    lemma_pivot_in_range(a, col, upto);
    if upto > col + 1 {
        lemma_pivot_is_first_largest(a, col, upto - 1);
        lemma_pivot_in_range(a, col, upto - 1);
    }
}

/// A system whose first column holds zeros only has no solution: whichever
/// row the scan ends on, its pivot is zero.
pub proof fn lemma_zero_first_column(a: Seq<Seq<u64>>, b: Seq<u64>)
    requires
        a.len() > 0,
        is_system(a, b, a.len()),
        forall|k: int| 0 <= k < a.len() ==> is_zero(#[trigger] a[k][0]),
    ensures
        solution(a, b) is None,
{
    lemma_pivot_in_range(a, 0, a.len() as int);
    assert(is_zero(a[pivot_row(a, 0)][0]));
    lemma_forward_next(a, b, 0);
    assert(forward(a, b, 0) == Some((a, b)));
    lemma_forward_stays_failed(a, b, 1, a.len() as int);
}

/// A system of one equation is solved by one division, unless its one
/// coefficient is zero.
pub proof fn lemma_single_equation(a: Seq<Seq<u64>>, b: Seq<u64>)
    requires
        is_system(a, b, 1),
    ensures
        solution(a, b) == if is_zero(a[0][0]) {
            None
        } else {
            Some(seq![quotient(b[0], a[0][0])])
        },
{
    assert(forward(a, b, 0) == Some((a, b)));
    lemma_forward_next(a, b, 0);
    assert(pivot_row(a, 0) == 0);
    if !is_zero(a[0][0]) {
        assert(exchanged(a, 0, 0) =~= a);
        assert(exchanged(b, 0, 0) =~= b);
        assert(eliminated(a, 0) =~= a);
        assert(eliminated_rhs(a, b, 0) =~= b);
        assert(step(a, b, 0) == Some((a, b)));
        let x = back_substituted(a, b, 1);
        assert(remainder(a[0], b[0], x, 1, 1) == b[0]);
        assert(back_substituted(a, b, 0) =~= seq![quotient(b[0], a[0][0])]);
    }
}

/// Forward elimination keeps the shape of the system.
pub proof fn lemma_forward_shape(a: Seq<Seq<u64>>, b: Seq<u64>, cols: int)
    requires
        is_system(a, b, a.len()),
        0 <= cols <= a.len(),
    ensures
        forward(a, b, cols) matches Some(s) ==> is_system(s.0, s.1, a.len()),
    decreases cols,
{
    if cols > 0 {
        lemma_forward_shape(a, b, cols - 1);
        match forward(a, b, cols - 1) {
            None => {},
            Some((a1, b1)) => {
                lemma_step_shape(a1, b1, cols - 1);
            },
        }
    }
}

/// Forward elimination over one more column is one more step.
pub proof fn lemma_forward_next(a: Seq<Seq<u64>>, b: Seq<u64>, cols: int)
    requires
        0 <= cols,
    ensures
        forward(a, b, cols + 1) == match forward(a, b, cols) {
            None => None,
            Some((a1, b1)) => step(a1, b1, cols),
        },
{
}

/// Once a pivot was zero, the later columns change nothing.
pub proof fn lemma_forward_stays_failed(a: Seq<Seq<u64>>, b: Seq<u64>, failed: int, cols: int)
    requires
        0 <= failed <= cols,
        forward(a, b, failed) is None,
    ensures
        forward(a, b, cols) is None,
    decreases cols,
{
    if failed < cols {
        lemma_forward_stays_failed(a, b, failed, cols - 1);
    }
}

/// Back-substitution gives one item for each row, and computing the unknown
/// `from` leaves the later ones alone.
pub proof fn lemma_back_substituted(a: Seq<Seq<u64>>, b: Seq<u64>, from: int)
    requires
        0 <= from <= a.len(),
    ensures
        back_substituted(a, b, from).len() == a.len(),
        forall|j: int|
            from < j < a.len() ==> #[trigger] back_substituted(a, b, from)[j] == back_substituted(
                a,
                b,
                from + 1,
            )[j],
    decreases a.len() - from,
{
    if from < a.len() {
        lemma_back_substituted(a, b, from + 1);
    }
}

/// A solution has one item for each row of its system.
pub proof fn lemma_solution_len(a: Seq<Seq<u64>>, b: Seq<u64>)
    requires
        a.len() == b.len(),
        is_rectangle(a, a.len()),
    ensures
        solution(a, b) matches Some(x) ==> x.len() == a.len(),
{
    lemma_forward_shape(a, b, a.len() as int);
    match forward(a, b, a.len() as int) {
        None => {},
        Some((u, c)) => {
            lemma_back_substituted(u, c, 0);
        },
    }
}

/// Scans column `col` from the diagonal down for the pivot row.
pub fn find_pivot(a: &Matrix, col: usize) -> (p: usize)
    requires
        a.is_square(),
        col < a@.len(),
    ensures
        p == pivot_row(a@, col as int),
        col <= p < a@.len(),
{
    let n = column_count(a);
    let mut held: usize = col;
    let mut k: usize = col + 1;
    while k < n
        invariant
            col < k <= n,
            n == a@.len(),
            a.width() == n,
            col <= held < k,
            held == pivot_after(a@, col as int, k as int),
        decreases n - k,
    {
        if is_larger(cell(a, k, col), cell(a, held, col)) {
            held = k;
        }
        k = k + 1;
    }
    held
}

/// Subtracts from row `row` the multiple of row `pivot` that clears its cell
/// in column `pivot`, and does the same on the right-hand side.
pub fn reduce_row(a: &mut Matrix, b: &mut Vector, pivot: usize, row: usize)
    requires
        old(a).is_square(),
        old(b)@.len() == old(a)@.len(),
        pivot < row < old(a)@.len(),
    ensures
        final(a).width() == old(a).width(),
        final(a)@ == old(a)@.update(
            row as int,
            reduced_row(old(a)@[row as int], old(a)@[pivot as int], pivot as int),
        ),
        final(b)@ == old(b)@.update(
            row as int,
            reduced_item(
                old(a)@[row as int],
                old(a)@[pivot as int],
                pivot as int,
                old(b)@[row as int],
                old(b)@[pivot as int],
            ),
        ),
{
    let n = column_count(a);
    let factor = over(cell(a, row, pivot), cell(a, pivot, pivot));
    let mut j: usize = pivot;
    while j < n
        invariant
            pivot <= j <= n,
            pivot < row < n,
            n == old(a)@.len(),
            a@.len() == n,
            a.width() == n,
            old(a).width() == n,
            is_rectangle(old(a)@, n as nat),
            is_rectangle(a@, n as nat),
            factor == quotient(old(a)@[row as int][pivot as int], old(a)@[pivot as int][pivot as int]),
            forall|r: int| 0 <= r < n && r != row ==> a@[r] == old(a)@[r],
            forall|c: int|
                0 <= c < n ==> a@[row as int][c] == if pivot <= c < j {
                    difference(old(a)@[row as int][c], product(factor, old(a)@[pivot as int][c]))
                } else {
                    old(a)@[row as int][c]
                },
        decreases n - j,
    {
        let reduced = minus(cell(a, row, j), times(factor, cell(a, pivot, j)));
        set_cell(a, row, j, reduced);
        j = j + 1;
    }
    let reduced = minus(item(b, row), times(factor, item(b, pivot)));
    set_item(b, row, reduced);
    proof {
        let wanted = reduced_row(old(a)@[row as int], old(a)@[pivot as int], pivot as int);
        assert(a@[row as int] =~= wanted);
        assert(a@ =~= old(a)@.update(row as int, wanted));
    }
}

/// Reduces every row below `col` by row `col`.
pub fn reduce_below(a: &mut Matrix, b: &mut Vector, col: usize)
    requires
        old(a).is_square(),
        old(b)@.len() == old(a)@.len(),
        col < old(a)@.len(),
    ensures
        final(a).width() == old(a).width(),
        final(a)@ == eliminated(old(a)@, col as int),
        final(b)@ == eliminated_rhs(old(a)@, old(b)@, col as int),
{
    let n = column_count(a);
    let mut k: usize = col + 1;
    while k < n
        invariant
            col < k <= n,
            n == old(a)@.len(),
            old(b)@.len() == n,
            a@.len() == n,
            b@.len() == n,
            a.width() == n,
            old(a).width() == n,
            forall|r: int|
                0 <= r < n ==> #[trigger] a@[r] == if col < r < k {
                    reduced_row(old(a)@[r], old(a)@[col as int], col as int)
                } else {
                    old(a)@[r]
                },
            forall|r: int|
                0 <= r < n ==> #[trigger] b@[r] == if col < r < k {
                    reduced_item(
                        old(a)@[r],
                        old(a)@[col as int],
                        col as int,
                        old(b)@[r],
                        old(b)@[col as int],
                    )
                } else {
                    old(b)@[r]
                },
        decreases n - k,
    {
        reduce_row(a, b, col, k);
        k = k + 1;
    }
    proof {
        assert(a@ =~= eliminated(old(a)@, col as int));
        assert(b@ =~= eliminated_rhs(old(a)@, old(b)@, col as int));
    }
}

/// Solves a triangular system from the last row upwards; the unknowns take
/// the place of the right-hand side.
pub fn back_substitute(a: &Matrix, b: &mut Vector)
    requires
        a.is_square(),
        old(b)@.len() == a@.len(),
    ensures
        final(b)@ == back_substituted(a@, old(b)@, 0),
{
    let n = column_count(a);
    let mut i: usize = n;
    proof {
        lemma_back_substituted(a@, old(b)@, n as int);
    }
    while i > 0
        invariant
            0 <= i <= n,
            n == a@.len(),
            a.width() == n,
            is_rectangle(a@, n as nat),
            b@.len() == n,
            old(b)@.len() == n,
            forall|j: int| 0 <= j < i ==> b@[j] == old(b)@[j],
            forall|j: int| i <= j < n ==> b@[j] == back_substituted(a@, old(b)@, i as int)[j],
        decreases i,
    {
        i = i - 1;
        let ghost later = back_substituted(a@, old(b)@, i + 1);
        let mut left = item(b, i);
        let mut j: usize = i + 1;
        proof {
            lemma_back_substituted(a@, old(b)@, i as int);
            lemma_back_substituted(a@, old(b)@, i + 1);
        }
        while j < n
            invariant
                i < j <= n,
                n == a@.len(),
                a.width() == n,
                is_rectangle(a@, n as nat),
                b@.len() == n,
                later.len() == n,
                forall|c: int| i < c < n ==> b@[c] == later[c],
                left == remainder(a@[i as int], old(b)@[i as int], later, i + 1, j as int),
            decreases n - j,
        {
            left = minus(left, times(cell(a, i, j), item(b, j)));
            j = j + 1;
        }
        let unknown = over(left, cell(a, i, i));
        set_item(b, i, unknown);
    }
    proof {
        lemma_back_substituted(a@, old(b)@, 0);
        assert(b@ =~= back_substituted(a@, old(b)@, 0));
    }
}

/// Solves the square system `a x = b`.
///
/// Fails exactly where, in some column, the largest candidate pivot is zero.
pub fn solve_linear_system(a: Matrix, b: Vector) -> (r: Result<Vector, SolveError>)
    requires
        a.is_square(),
        b@.len() == a@.len(),
    ensures
        match solution(a@, b@) {
            Some(x) => r is Ok && r->Ok_0@ == x,
            None => r == Err::<Vector, SolveError>(SolveError::SingularMatrix),
        },
{
    let mut m = a;
    let mut v = b;
    let n = column_count(&m);
    let mut i: usize = 0;
    while i < n
        invariant
            0 <= i <= n,
            is_system(a@, b@, n as nat),
            m.width() == n,
            is_system(m@, v@, n as nat),
            forward(a@, b@, i as int) == Some((m@, v@)),
        decreases n - i,
    {
        let ghost before = (m@, v@);
        let p = find_pivot(&m, i);
        proof {
            lemma_forward_next(a@, b@, i as int);
            lemma_step_shape(before.0, before.1, i as int);
        }
        if equals_zero(cell(&m, p, i)) {
            proof {
                lemma_forward_stays_failed(a@, b@, i + 1, n as int);
            }
            return Err(SolveError::SingularMatrix);
        }
        swap_rows(&mut m, i, p);
        swap_items(&mut v, i, p);
        reduce_below(&mut m, &mut v, i);
        assert(step(before.0, before.1, i as int) == Some((m@, v@)));
        i = i + 1;
    }
    back_substitute(&m, &mut v);
    Ok(v)
}

} // verus!
