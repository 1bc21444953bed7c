//! Dense storage for matrices and vectors of binary64 words, kept in
//! `ndarray` arrays. What an array holds is named here; the functions below
//! are the only ones that touch the arrays themselves, and their contracts
//! are taken on trust from `ndarray`.

use vstd::prelude::*;

verus! {

/// A dense matrix of binary64 words.
#[verifier::external_body]
pub struct Matrix {
    cells: ndarray::Array2<u64>,
}

/// A dense vector of binary64 words.
#[verifier::external_body]
pub struct Vector {
    items: ndarray::Array1<u64>,
}

/// The rows of a matrix, first to last, each the sequence of its cells.
pub uninterp spec fn rows_of(a: Matrix) -> Seq<Seq<u64>>;

/// The number of columns of a matrix.
pub uninterp spec fn width_of(a: Matrix) -> nat;

/// The items of a vector, first to last.
pub uninterp spec fn items_of(a: Vector) -> Seq<u64>;

impl View for Matrix {
    type V = Seq<Seq<u64>>;

    /// The rows, first to last.
    open spec fn view(&self) -> Seq<Seq<u64>> {
        rows_of(*self)
    }
}

impl View for Vector {
    type V = Seq<u64>;

    /// The items, first to last.
    open spec fn view(&self) -> Seq<u64> {
        items_of(*self)
    }
}

impl Matrix {
    /// The number of columns.
    pub open spec fn width(&self) -> nat {
        width_of(*self)
    }

    /// As many columns as rows.
    pub open spec fn is_square(&self) -> bool {
        self.width() == self@.len()
    }
}

/// A matrix of `rows` rows and `cols` columns of the same word.
pub open spec fn uniform(rows: nat, cols: nat, word: u64) -> Seq<Seq<u64>> {
    Seq::new(rows, |i: int| Seq::new(cols, |j: int| word))
}

/// A matrix of this shape can be allocated: its cells, eight bytes each, fit
/// in the address space, and so does each side alone.
pub open spec fn fits(rows: nat, cols: nat) -> bool {
    rows <= isize::MAX && cols <= isize::MAX && rows * cols * 8 <= isize::MAX
}

/// Every row has `cols` cells.
pub open spec fn is_rectangle(cells: Seq<Seq<u64>>, cols: nat) -> bool {
    forall|i: int| 0 <= i < cells.len() ==> (#[trigger] cells[i]).len() == cols
}

/// `ndarray::ArrayBase::zeros` for a two-dimensional shape: a matrix of
/// the given shape with the word 0 in every cell. The call panics where the
/// shape does not fit in memory; `requires` leaves such shapes out.
#[verifier::external_body]
pub(crate) fn zero_grid(rows: usize, cols: usize) -> (a: Matrix)
    requires
        fits(rows as nat, cols as nat),
    ensures
        rows_of(a) == uniform(rows as nat, cols as nat, 0),
        width_of(a) == cols,
{
    Matrix { cells: ndarray::Array2::zeros((rows, cols)) }
}

/// `ndarray::ArrayBase::nrows`: the number of rows.
#[verifier::external_body]
pub(crate) fn row_count(a: &Matrix) -> (r: usize)
    ensures
        r == rows_of(*a).len(),
{
    a.cells.nrows()
}

/// `ndarray::ArrayBase::ncols`: the number of columns, which is the length
/// of every row.
#[verifier::external_body]
pub(crate) fn column_count(a: &Matrix) -> (r: usize)
    ensures
        r == width_of(*a),
        is_rectangle(rows_of(*a), r as nat),
{
    a.cells.ncols()
}

/// Indexing a two-dimensional `ndarray` array by `[[i, j]]`: the cell in row
/// `i` and column `j`. The index must lie inside the array.
#[verifier::external_body]
pub(crate) fn cell(a: &Matrix, i: usize, j: usize) -> (r: u64)
    requires
        i < rows_of(*a).len(),
        j < width_of(*a),
    ensures
        r == rows_of(*a)[i as int][j as int],
{
    a.cells[[i, j]]
}

/// Assigning through `[[i, j]]`: that one cell changes, the shape stays.
#[verifier::external_body]
pub(crate) fn set_cell(a: &mut Matrix, i: usize, j: usize, word: u64)
    requires
        i < rows_of(*old(a)).len(),
        j < width_of(*old(a)),
    ensures
        rows_of(*final(a)) == rows_of(*old(a)).update(
            i as int,
            rows_of(*old(a))[i as int].update(j as int, word),
        ),
        width_of(*final(a)) == width_of(*old(a)),
{
    a.cells[[i, j]] = word;
}

/// `ndarray::ArrayBase::zeros` for a one-dimensional shape: `n` items, each
/// the word 0. The call panics where `n` items do not fit in memory.
#[verifier::external_body]
pub(crate) fn zero_list(n: usize) -> (a: Vector)
    requires
        n * 8 <= isize::MAX,
    ensures
        items_of(a) == Seq::new(n as nat, |i: int| 0u64),
{
    Vector { items: ndarray::Array1::zeros(n) }
}

/// `ndarray::ArrayBase::len` of a vector: the number of its items.
#[verifier::external_body]
pub(crate) fn item_count(a: &Vector) -> (r: usize)
    ensures
        r == items_of(*a).len(),
{
    a.items.len()
}

/// Indexing a one-dimensional `ndarray` array by `[i]`.
#[verifier::external_body]
pub(crate) fn item(a: &Vector, i: usize) -> (r: u64)
    requires
        i < items_of(*a).len(),
    ensures
        r == items_of(*a)[i as int],
{
    a.items[i]
}

/// Assigning through `[i]`: that one item changes.
#[verifier::external_body]
pub(crate) fn set_item(a: &mut Vector, i: usize, word: u64)
    requires
        i < items_of(*old(a)).len(),
    ensures
        items_of(*final(a)) == items_of(*old(a)).update(i as int, word),
{
    a.items[i] = word;
}

/// `ndarray::ArrayBase::to_vec`: the items in order.
#[verifier::external_body]
pub(crate) fn list_to_vec(a: &Vector) -> (r: Vec<u64>)
    ensures
        r@ == items_of(*a),
{
    a.items.to_vec()
}

/// Swaps two rows of a matrix, cell by cell.
pub fn swap_rows(a: &mut Matrix, first: usize, second: usize)
    requires
        first < rows_of(*old(a)).len(),
        second < rows_of(*old(a)).len(),
    ensures
        width_of(*final(a)) == width_of(*old(a)),
        rows_of(*final(a)) == rows_of(*old(a)).update(
            first as int,
            rows_of(*old(a))[second as int],
        ).update(second as int, rows_of(*old(a))[first as int]),
{
    let cols = column_count(a);
    let mut j: usize = 0;
    while j < cols
        invariant
            j <= cols,
            cols == width_of(*a),
            width_of(*a) == width_of(*old(a)),
            is_rectangle(rows_of(*old(a)), cols as nat),
            first < rows_of(*old(a)).len(),
            second < rows_of(*old(a)).len(),
            rows_of(*a).len() == rows_of(*old(a)).len(),
            is_rectangle(rows_of(*a), cols as nat),
            forall|i: int|
                0 <= i < rows_of(*a).len() && i != first && i != second ==> rows_of(*a)[i]
                    == rows_of(*old(a))[i],
            forall|c: int|
                0 <= c < j ==> rows_of(*a)[first as int][c] == rows_of(*old(a))[second as int][c]
                    && rows_of(*a)[second as int][c] == rows_of(*old(a))[first as int][c],
            forall|c: int|
                j <= c < cols ==> rows_of(*a)[first as int][c] == rows_of(*old(a))[first as int][c]
                    && rows_of(*a)[second as int][c] == rows_of(*old(a))[second as int][c],
        decreases cols - j,
    {
        let upper = cell(a, first, j);
        let lower = cell(a, second, j);
        set_cell(a, first, j, lower);
        set_cell(a, second, j, upper);
        j = j + 1;
    }
    proof {
        let before = rows_of(*old(a));
        let after = rows_of(*a);
        let wanted = before.update(first as int, before[second as int]).update(
            second as int,
            before[first as int],
        );
        assert(after[first as int] =~= before[second as int]);
        assert(after[second as int] =~= before[first as int]);
        assert(after =~= wanted);
    }
}

/// Swaps two items of a vector.
pub fn swap_items(b: &mut Vector, first: usize, second: usize)
    requires
        first < old(b)@.len(),
        second < old(b)@.len(),
    ensures
        final(b)@ == old(b)@.update(first as int, old(b)@[second as int]).update(
            second as int,
            old(b)@[first as int],
        ),
{
    let upper = item(b, first);
    let lower = item(b, second);
    set_item(b, first, lower);
    set_item(b, second, upper);
}

/// The cells of rows given as vectors.
pub open spec fn cells_of(rows: Seq<Vec<u64>>) -> Seq<Seq<u64>> {
    Seq::new(rows.len(), |i: int| rows[i]@)
}

/// The length of the first row, or 0 where there is none.
pub open spec fn first_width(rows: Seq<Vec<u64>>) -> nat {
    if rows.len() == 0 {
        0
    } else {
        rows[0]@.len()
    }
}

/// Whether a matrix of this shape can be allocated.
pub fn shape_fits(rows: usize, cols: usize) -> (r: bool)
    ensures
        r == fits(rows as nat, cols as nat),
{
    let limit: usize = (isize::MAX as usize) / 8;
    if rows > isize::MAX as usize || cols > isize::MAX as usize {
        return false;
    }
    if cols == 0 || rows == 0 {
        assert(rows * cols * 8 == 0) by (nonlinear_arith)
            requires
                rows == 0 || cols == 0,
        ;
        return true;
    }
    let most = limit / cols;
    proof {
        let left = (limit % cols) as int;
        vstd::arithmetic::div_mod::lemma_fundamental_div_mod(limit as int, cols as int);
        if rows <= most {
            assert(rows * cols <= limit) by (nonlinear_arith)
                requires
                    rows <= most,
                    limit == cols * most + left,
                    left >= 0,
                    cols > 0,
            ;
        } else {
            assert(rows * cols > limit) by (nonlinear_arith)
                requires
                    rows >= most + 1,
                    limit == cols * most + left,
                    left < cols,
                    cols > 0,
            ;
        }
    }
    rows <= most
}

impl Matrix {
    /// The number of rows.
    pub fn rows(&self) -> (r: usize)
        ensures
            r == self@.len(),
    {
        row_count(self)
    }

    /// The number of columns.
    pub fn columns(&self) -> (r: usize)
        ensures
            r == self.width(),
            is_rectangle(self@, r as nat),
    {
        column_count(self)
    }

    /// The cell in row `i` and column `j`, if there is one.
    pub fn get(&self, i: usize, j: usize) -> (r: Option<u64>)
        ensures
            r == if i < self@.len() && j < self.width() {
                Some(self@[i as int][j as int])
            } else {
                None
            },
    {
        if i < row_count(self) && j < column_count(self) {
            Some(cell(self, i, j))
        } else {
            None
        }
    }

    /// The matrix with the given rows, which must all have the length of the
    /// first and fit in memory together.
    pub fn from_rows(rows: &Vec<Vec<u64>>) -> (r: Option<Matrix>)
        ensures
            match r {
                Some(m) => m@ == cells_of(rows@) && m.width() == first_width(rows@),
                None => !is_rectangle(cells_of(rows@), first_width(rows@)) || !fits(
                    rows@.len(),
                    first_width(rows@),
                ),
            },
    {
        let n = rows.len();
        let cols = if n == 0 {
            0
        } else {
            rows[0].len()
        };
        if !shape_fits(n, cols) {
            return None;
        }
        let mut m = zero_grid(n, cols);
        let mut i: usize = 0;
        while i < n
            invariant
                0 <= i <= n,
                n == rows@.len(),
                cols == first_width(rows@),
                m@.len() == n,
                m.width() == cols,
                is_rectangle(m@, cols as nat),
                forall|r: int| 0 <= r < i ==> m@[r] == rows@[r]@,
            decreases n - i,
        {
            if rows[i].len() != cols {
                assert(cells_of(rows@)[i as int].len() != cols);
                return None;
            }
            let mut j: usize = 0;
            while j < cols
                invariant
                    0 <= j <= cols,
                    0 <= i < n,
                    n == rows@.len(),
                    rows@[i as int]@.len() == cols,
                    m@.len() == n,
                    m.width() == cols,
                    is_rectangle(m@, cols as nat),
                    forall|r: int| 0 <= r < i ==> m@[r] == rows@[r]@,
                    forall|c: int| 0 <= c < j ==> m@[i as int][c] == rows@[i as int]@[c],
                decreases cols - j,
            {
                set_cell(&mut m, i, j, rows[i][j]);
                j = j + 1;
            }
            assert(m@[i as int] =~= rows@[i as int]@);
            i = i + 1;
        }
        assert(m@ =~= cells_of(rows@));
        Some(m)
    }
}

impl Vector {
    /// The number of items.
    pub fn len(&self) -> (r: usize)
        ensures
            r == self@.len(),
    {
        item_count(self)
    }

    /// The item at `i`, if there is one.
    pub fn get(&self, i: usize) -> (r: Option<u64>)
        ensures
            r == if i < self@.len() {
                Some(self@[i as int])
            } else {
                None
            },
    {
        if i < item_count(self) {
            Some(item(self, i))
        } else {
            None
        }
    }

    /// The items as a `Vec`.
    pub fn to_vec(&self) -> (r: Vec<u64>)
        ensures
            r@ == self@,
    {
        list_to_vec(self)
    }

    /// The vector with the given items, which must fit in memory.
    pub fn from_items(items: &[u64]) -> (r: Option<Vector>)
        ensures
            match r {
                Some(v) => v@ == items@,
                None => !fits(items@.len(), 1),
            },
    {
        let n = items.len();
        if !shape_fits(n, 1) {
            return None;
        }
        let mut v = zero_list(n);
        let mut i: usize = 0;
        while i < n
            invariant
                0 <= i <= n,
                n == items@.len(),
                v@.len() == n,
                forall|k: int| 0 <= k < i ==> v@[k] == items@[k],
            decreases n - i,
        {
            set_item(&mut v, i, items[i]);
            i = i + 1;
        }
        assert(v@ =~= items@);
        Some(v)
    }
}

} // verus!
