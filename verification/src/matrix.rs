use vstd::prelude::*;

use crate::Error;

verus! {

/// A dense two-dimensional grid of `i64` scalars with a fixed number of
/// rows and columns.
pub struct Matrix {
    data: Vec<Vec<i64>>,
    rows: usize,
    cols: usize,
}

impl View for Matrix {
    type V = Seq<Seq<i64>>;

    closed spec fn view(&self) -> Seq<Seq<i64>> {
        Seq::new(self.data@.len(), |i: int| self.data@[i]@)
    }
}

impl Matrix {
    /// The grid is rectangular and the cached dimensions agree with it.
    pub closed spec fn wf(&self) -> bool {
        &&& self.rows == self.data@.len()
        &&& forall|i: int|
            0 <= i < self.data@.len() ==> (#[trigger] self.data@[i])@.len() == self.cols
        &&& forall|i: int| 0 <= i < self@.len() ==> (#[trigger] self@[i]).len() == self.cols
    }

    pub closed spec fn spec_rows(&self) -> usize {
        self.rows
    }

    pub closed spec fn spec_cols(&self) -> usize {
        self.cols
    }

    /// `(i, j)` addresses a cell inside the declared dimensions.
    pub open spec fn in_bounds(&self, i: int, j: int) -> bool {
        0 <= i < self.spec_rows() && 0 <= j < self.spec_cols()
    }

    /// A well-formed matrix's view has its declared shape.
    pub proof fn lemma_wf_shape(&self)
        requires
            self.wf(),
        ensures
            self@.len() == self.spec_rows(),
            forall|i: int| 0 <= i < self@.len() ==> (#[trigger] self@[i]).len() == self.spec_cols(),
    {
    }

    /// Construct a matrix from a rectangular, nonempty grid of rows.
    pub fn new(data: Vec<Vec<i64>>) -> (r: Matrix)
        requires
            data@.len() > 0,
            forall|i: int| 0 <= i < data@.len() ==> (#[trigger] data@[i])@.len() == data@[0]@.len(),
        ensures
            r.wf(),
            r.spec_rows() == data@.len(),
            r.spec_cols() == data@[0]@.len(),
            forall|i: int| 0 <= i < data@.len() ==> r@[i] == (#[trigger] data@[i])@,
    {
        let rows = data.len();
        let cols = data[0].len();
        Matrix { data, rows, cols }
    }

    /// Construct an `n` by `m` matrix whose every cell holds zero.
    pub fn new_empty(n: usize, m: usize) -> (r: Matrix)
        ensures
            r.wf(),
            r.spec_rows() == n,
            r.spec_cols() == m,
            forall|i: int, j: int| r.in_bounds(i, j) ==> r@[i][j] == 0i64,
    {
        let mut data: Vec<Vec<i64>> = Vec::new();
        let mut i: usize = 0;
        while i < n
            invariant
                i <= n,
                data@.len() == i,
                forall|k: int| 0 <= k < i ==> (#[trigger] data@[k])@.len() == m,
                forall|k: int, l: int|
                    0 <= k < i && 0 <= l < m ==> #[trigger] data@[k]@[l] == 0i64,
            decreases n - i,
        {
            let mut row: Vec<i64> = Vec::new();
            let mut j: usize = 0;
            while j < m
                invariant
                    j <= m,
                    row@.len() == j,
                    forall|l: int| 0 <= l < j ==> row@[l] == 0i64,
                decreases m - j,
            {
                row.push(0i64);
                j += 1;
            }
            data.push(row);
            i += 1;
        }
        Matrix { data, rows: n, cols: m }
    }

    /// The number of rows.
    pub fn rows(&self) -> (r: usize)
        ensures
            r == self.spec_rows(),
    {
        self.rows
    }

    /// The number of columns.
    pub fn cols(&self) -> (r: usize)
        ensures
            r == self.spec_cols(),
    {
        self.cols
    }

    /// Read-only access to the underlying rows.
    pub fn data(&self) -> (r: &Vec<Vec<i64>>)
        ensures
            r@.len() == self@.len(),
            forall|i: int| 0 <= i < r@.len() ==> (#[trigger] r@[i])@ == self@[i],
    {
        &self.data
    }

    /// Bounds-checked read of one cell.
    pub fn get(&self, i: usize, j: usize) -> (r: Result<i64, Error>)
        requires
            self.wf(),
        ensures
            self.in_bounds(i as int, j as int) ==> r == Ok::<i64, Error>(self@[i as int][j as int]),
            !self.in_bounds(i as int, j as int) ==> r == Err::<i64, Error>(Error::IndexOutOfBounds),
    {
        if i < self.rows && j < self.cols {
            Ok(self.data[i][j])
        } else {
            Err(Error::IndexOutOfBounds)
        }
    }

    /// Bounds-checked write of one cell.
    pub fn set(&mut self, i: usize, j: usize, v: i64) -> (r: Result<(), Error>)
        requires
            old(self).wf(),
        ensures
            final(self).wf(),
            final(self).spec_rows() == old(self).spec_rows(),
            final(self).spec_cols() == old(self).spec_cols(),
            old(self).in_bounds(i as int, j as int) ==> r == Ok::<(), Error>(())
                && final(self)@ == old(self)@.update(
                i as int,
                old(self)@[i as int].update(j as int, v),
            ),
            !old(self).in_bounds(i as int, j as int) ==> r == Err::<(), Error>(
                Error::IndexOutOfBounds,
            ) && final(self)@ == old(self)@,
    {
        if i < self.rows && j < self.cols {
            self.data[i][j] = v;
            proof {
                assert(final(self)@ =~= old(self)@.update(
                    i as int,
                    old(self)@[i as int].update(j as int, v),
                ));
            }
            Ok(())
        } else {
            proof {
                assert(final(self)@ =~= old(self)@);
            }
            Err(Error::IndexOutOfBounds)
        }
    }

    /// Unchecked read used inside the library, where bounds are proved.
    pub(crate) fn at(&self, i: usize, j: usize) -> (r: i64)
        requires
            self.wf(),
            self.in_bounds(i as int, j as int),
        ensures
            r == self@[i as int][j as int],
    {
        self.data[i][j]
    }

    /// Unchecked write used inside the library, where bounds are proved.
    pub(crate) fn put(&mut self, i: usize, j: usize, v: i64)
        requires
            old(self).wf(),
            old(self).in_bounds(i as int, j as int),
        ensures
            final(self).wf(),
            final(self).spec_rows() == old(self).spec_rows(),
            final(self).spec_cols() == old(self).spec_cols(),
            final(self)@ == old(self)@.update(i as int, old(self)@[i as int].update(j as int, v)),
    {
        self.data[i][j] = v;
        proof {
            assert(final(self)@ =~= old(self)@.update(
                i as int,
                old(self)@[i as int].update(j as int, v),
            ));
        }
    }

    /// A new matrix with rows and columns exchanged.
    pub fn transpose(&self) -> (r: Matrix)
        requires
            self.wf(),
        ensures
            r.wf(),
            r.spec_rows() == self.spec_cols(),
            r.spec_cols() == self.spec_rows(),
            forall|i: int, j: int| self.in_bounds(i, j) ==> r@[j][i] == self@[i][j],
    {
        let mut data: Vec<Vec<i64>> = Vec::new();
        let mut j: usize = 0;
        while j < self.cols
            invariant
                self.wf(),
                j <= self.cols,
                data@.len() == j,
                forall|l: int| 0 <= l < j ==> (#[trigger] data@[l])@.len() == self.spec_rows(),
                forall|l: int, k: int|
                    0 <= l < j && 0 <= k < self.spec_rows() ==> #[trigger] data@[l]@[k]
                        == self@[k][l],
            decreases self.cols - j,
        {
            let mut row: Vec<i64> = Vec::new();
            let mut i: usize = 0;
            while i < self.rows
                invariant
                    self.wf(),
                    j < self.cols,
                    i <= self.rows,
                    row@.len() == i,
                    forall|k: int| 0 <= k < i ==> row@[k] == self@[k][j as int],
                decreases self.rows - i,
            {
                row.push(self.data[i][j]);
                i += 1;
            }
            data.push(row);
            j += 1;
        }
        Matrix { data, rows: self.cols, cols: self.rows }
    }

    /// The matrix has as many rows as columns.
    pub fn is_square(&self) -> (r: bool)
        ensures
            r == (self.spec_rows() == self.spec_cols()),
    {
        self.rows == self.cols
    }

    /// The matrix has no cells at all.
    pub fn is_empty(&self) -> (r: bool)
        ensures
            r == (self.spec_rows() == 0 || self.spec_cols() == 0),
    {
        self.rows == 0 || self.cols == 0
    }

    /// The least scalar over all cells, or `None` for a matrix without cells.
    pub fn min(&self) -> (r: Option<i64>)
        requires
            self.wf(),
        ensures
            r is None <==> (self.spec_rows() == 0 || self.spec_cols() == 0),
            r matches Some(v) ==> exists|i: int, j: int| self.in_bounds(i, j) && self@[i][j] == v,
            r matches Some(v) ==> forall|i: int, j: int| self.in_bounds(i, j) ==> self@[i][j] >= v,
    {
        if self.rows == 0 || self.cols == 0 {
            return None;
        }
        let mut best: i64 = self.data[0][0];
        proof {
            assert(self.in_bounds(0, 0) && self@[0][0] == best);
        }
        let mut i: usize = 0;
        while i < self.rows
            invariant
                self.wf(),
                self.spec_rows() > 0,
                self.spec_cols() > 0,
                i <= self.rows,
                exists|a: int, b: int| self.in_bounds(a, b) && self@[a][b] == best,
                forall|a: int, b: int|
                    0 <= a < i && 0 <= b < self.spec_cols() ==> self@[a][b] >= best,
            decreases self.rows - i,
        {
            let mut j: usize = 0;
            while j < self.cols
                invariant
                    self.wf(),
                    self.spec_rows() > 0,
                    self.spec_cols() > 0,
                    i < self.rows,
                    j <= self.cols,
                    exists|a: int, b: int| self.in_bounds(a, b) && self@[a][b] == best,
                    forall|a: int, b: int|
                        0 <= a < i && 0 <= b < self.spec_cols() ==> self@[a][b] >= best,
                    forall|b: int| 0 <= b < j ==> self@[i as int][b] >= best,
                decreases self.cols - j,
            {
                let v = self.data[i][j];
                if v < best {
                    best = v;
                    proof {
                        assert(self.in_bounds(i as int, j as int) && self@[i as int][j as int]
                            == best);
                    }
                }
                j += 1;
            }
            i += 1;
        }
        Some(best)
    }

    /// The first cell in row-major order that holds `value`, if any.
    pub fn index_of(&self, value: i64) -> (r: Option<(usize, usize)>)
        requires
            self.wf(),
        ensures
            r matches Some(p) ==> self.in_bounds(p.0 as int, p.1 as int)
                && self@[p.0 as int][p.1 as int] == value,
            r matches Some(p) ==> forall|a: int, b: int|
                self.in_bounds(a, b) && (a < p.0 as int || (a == p.0 as int && b < p.1 as int))
                    ==> self@[a][b] != value,
            r is None ==> forall|a: int, b: int| self.in_bounds(a, b) ==> self@[a][b] != value,
    {
        let mut i: usize = 0;
        while i < self.rows
            invariant
                self.wf(),
                i <= self.rows,
                forall|a: int, b: int|
                    0 <= a < i && 0 <= b < self.spec_cols() ==> self@[a][b] != value,
            decreases self.rows - i,
        {
            let mut j: usize = 0;
            while j < self.cols
                invariant
                    self.wf(),
                    i < self.rows,
                    j <= self.cols,
                    forall|a: int, b: int|
                        0 <= a < i && 0 <= b < self.spec_cols() ==> self@[a][b] != value,
                    forall|b: int| 0 <= b < j ==> self@[i as int][b] != value,
                decreases self.cols - j,
            {
                if self.data[i][j] == value {
                    return Some((i, j));
                }
                j += 1;
            }
            i += 1;
        }
        None
    }

    /// The rows of the matrix, as a borrowed list.
    pub fn iter_rows(&self) -> (r: &Vec<Vec<i64>>)
        ensures
            r@.len() == self@.len(),
            forall|i: int| 0 <= i < r@.len() ==> (#[trigger] r@[i])@ == self@[i],
    {
        &self.data
    }

    /// The columns of the matrix, each collected into its own list.
    pub fn iter_cols(&self) -> (r: Vec<Vec<i64>>)
        requires
            self.wf(),
        ensures
            r@.len() == self.spec_cols(),
            forall|j: int| 0 <= j < r@.len() ==> (#[trigger] r@[j])@.len() == self.spec_rows(),
            forall|i: int, j: int| self.in_bounds(i, j) ==> r@[j]@[i] == self@[i][j],
    {
        let t = self.transpose();
        let mut out: Vec<Vec<i64>> = Vec::new();
        let mut j: usize = 0;
        while j < t.rows
            invariant
                t.wf(),
                t.spec_rows() == self.spec_cols(),
                t.spec_cols() == self.spec_rows(),
                forall|i: int, l: int| self.in_bounds(i, l) ==> t@[l][i] == self@[i][l],
                j <= t.spec_rows(),
                out@.len() == j,
                forall|l: int| 0 <= l < j ==> (#[trigger] out@[l])@ == t@[l],
            decreases t.spec_rows() - j,
        {
            out.push(t.data[j].clone());
            j += 1;
        }
        out
    }
}

/// The sum of `row[t] * x[t]` over `0 <= t < k`.
pub open spec fn row_dot(row: Seq<i64>, x: Seq<i64>, k: int) -> int
    decreases k,
{
    if k <= 0 {
        0
    } else {
        row_dot(row, x, k - 1) + row[k - 1] * x[k - 1]
    }
}

/// Column `j` of the grid `m`, as a sequence.
pub open spec fn column(m: Seq<Seq<i64>>, j: int) -> Seq<i64> {
    Seq::new(m.len(), |k: int| m[k][j])
}

/// The product of two values in `i64` range stays well inside `i128` range.
pub proof fn lemma_mul_i64_fits(a: int, b: int)
    requires
        i64::MIN <= a <= i64::MAX,
        i64::MIN <= b <= i64::MAX,
    ensures
        (-0x40000000000000000000000000000000) <= a * b <= 0x40000000000000000000000000000000,
{
    assert((-0x40000000000000000000000000000000) <= a * b
        <= 0x40000000000000000000000000000000) by (nonlinear_arith)
        requires
            i64::MIN <= a <= i64::MAX,
            i64::MIN <= b <= i64::MAX,
    ;
}

/// A dot product with a row that is zero everywhere below `k` is zero.
pub proof fn lemma_row_dot_zero(row: Seq<i64>, x: Seq<i64>, k: int)
    requires
        forall|t: int| 0 <= t < k ==> row[t] == 0i64,
    ensures
        row_dot(row, x, k) == 0,
    decreases k,
{
    if k > 0 {
        lemma_row_dot_zero(row, x, k - 1);
    }
}

/// A dot product with a row whose only nonzero entries below `k` sit at
/// `p` and `q` reduces to those two terms.
pub proof fn lemma_row_dot_two(row: Seq<i64>, x: Seq<i64>, k: int, p: int, q: int)
    requires
        0 <= p < k,
        0 <= q < k,
        p != q,
        forall|t: int| 0 <= t < k && t != p && t != q ==> row[t] == 0i64,
    ensures
        row_dot(row, x, k) == row[p] * x[p] + row[q] * x[q],
    decreases k,
{
    if k - 1 == p {
        lemma_row_dot_one(row, x, k - 1, q);
    } else if k - 1 == q {
        lemma_row_dot_one(row, x, k - 1, p);
    } else {
        lemma_row_dot_two(row, x, k - 1, p, q);
    }
}

/// A dot product with a row whose only nonzero entry below `k` sits at `p`
/// reduces to that term.
pub proof fn lemma_row_dot_one(row: Seq<i64>, x: Seq<i64>, k: int, p: int)
    requires
        0 <= p < k,
        forall|t: int| 0 <= t < k && t != p ==> row[t] == 0i64,
    ensures
        row_dot(row, x, k) == row[p] * x[p],
    decreases k,
{
    if k - 1 == p {
        lemma_row_dot_zero(row, x, k - 1);
    } else {
        lemma_row_dot_one(row, x, k - 1, p);
    }
}

/// Truncating integer division, as the scalar type's division behaves:
/// the quotient is rounded toward zero.
pub open spec fn trunc_div(a: int, b: int) -> int {
    if b == 0 {
        0
    } else if a >= 0 && b > 0 {
        a / b
    } else if a < 0 && b > 0 {
        -((-a) / b)
    } else if a >= 0 && b < 0 {
        -(a / (-b))
    } else {
        (-a) / (-b)
    }
}

/// The row that partial pivoting picks: scanning rows from `k`, the last
/// row seen whose entry in column `j` strictly exceeds, in absolute value,
/// everything seen before it.
pub open spec fn pivot_scan(aug: Seq<Seq<i64>>, j: int, k: int, kmax: int, max: int) -> int
    decreases aug.len() - k,
{
    if k < 0 || k >= aug.len() {
        kmax
    } else {
        let v = aug[k][j] as int;
        if v > max {
            pivot_scan(aug, j, k + 1, k, v)
        } else if -v > max {
            pivot_scan(aug, j, k + 1, k, -v)
        } else {
            pivot_scan(aug, j, k + 1, kmax, max)
        }
    }
}

/// Row `k` of the augmented grid after one elimination step: from column
/// `l` on, subtract `factor` times the pivot row; a value that leaves the
/// scalar range stops the computation.
pub open spec fn elim_row(rowi: Seq<i64>, rowk: Seq<i64>, factor: int, l: int, end: int) -> Result<
    Seq<i64>,
    Error,
>
    decreases end - l,
{
    if l < 0 || l >= end {
        Ok(rowk)
    } else {
        let t = rowk[l] - rowi[l] * factor;
        if t < i64::MIN || t > i64::MAX {
            Err(Error::NumericOverflow)
        } else {
            elim_row(rowi, rowk.update(l, t as i64), factor, l + 1, end)
        }
    }
}

/// Eliminate column `j` from every row below `i`, starting at row `k`.
pub open spec fn elim_below(
    aug: Seq<Seq<i64>>,
    i: int,
    j: int,
    pivot: int,
    k: int,
    end: int,
) -> Result<Seq<Seq<i64>>, Error>
    decreases aug.len() - k,
{
    if k < 0 || k >= aug.len() {
        Ok(aug)
    } else {
        let f = trunc_div(aug[k][j] as int, pivot);
        if f < i64::MIN || f > i64::MAX {
            Err(Error::NumericOverflow)
        } else {
            match elim_row(aug[i], aug[k], f, j, end) {
                Err(e) => Err(e),
                Ok(rk) => elim_below(aug.update(k, rk), i, j, pivot, k + 1, end),
            }
        }
    }
}

/// Forward elimination from the cursor `(i, j)`: pick the pivot row,
/// swap it up, refuse a zero pivot, eliminate below, and move on.
pub open spec fn elim_all(aug: Seq<Seq<i64>>, i: int, j: int, rows: int, end: int) -> Result<
    Seq<Seq<i64>>,
    Error,
>
    decreases rows - i,
{
    if i < 0 || i >= rows || j >= end {
        Ok(aug)
    } else {
        let kmax = pivot_scan(aug, j, i + 1, i, 0);
        let aug1 = aug.update(i, aug[kmax]).update(kmax, aug[i]);
        let pivot = aug1[i][j] as int;
        if pivot == 0 {
            Err(Error::SingularMatrix)
        } else {
            match elim_below(aug1, i, j, pivot, i + 1, end) {
                Err(e) => Err(e),
                Ok(aug2) => elim_all(aug2, i + 1, j + 1, rows, end),
            }
        }
    }
}

/// Clear column `i` above the diagonal, subtracting multiples of the
/// freshly solved unknown `xi` from the right-hand sides of rows `jj < i`.
pub open spec fn backsub_clear(aug: Seq<Seq<i64>>, i: int, xi: i64, jj: int, cols: int) -> Result<
    Seq<Seq<i64>>,
    Error,
>
    decreases i - jj,
{
    if jj < 0 || jj >= i {
        Ok(aug)
    } else {
        let t = aug[jj][cols] - aug[jj][i] * xi;
        if t < i64::MIN || t > i64::MAX {
            Err(Error::NumericOverflow)
        } else {
            backsub_clear(aug.update(jj, aug[jj].update(cols, t as i64)), i, xi, jj + 1, cols)
        }
    }
}

/// Back-substitution for the unknowns below `i`, walking upward: a zero
/// diagonal entry is refused, and each solved unknown is cleared from the
/// rows above.
pub open spec fn backsub(aug: Seq<Seq<i64>>, sol: Seq<i64>, i: int, cols: int) -> Result<
    Seq<i64>,
    Error,
>
    decreases i,
{
    if i <= 0 {
        Ok(sol)
    } else {
        let i2 = i - 1;
        let denom = aug[i2][i2] as int;
        if denom == 0 {
            Err(Error::SingularMatrix)
        } else {
            let q = trunc_div(aug[i2][cols] as int, denom);
            if q < i64::MIN || q > i64::MAX {
                Err(Error::NumericOverflow)
            } else {
                match backsub_clear(aug, i2, q as i64, 0, cols) {
                    Err(e) => Err(e),
                    Ok(aug2) => backsub(aug2, sol.update(i2, q as i64), i2, cols),
                }
            }
        }
    }
}

/// Check the candidate row by row against the original system, summing
/// exactly in a double-width accumulator.
pub open spec fn residual_row(arow: Seq<i64>, x: Seq<i64>, acc: int, j: int, cols: int) -> Result<
    int,
    Error,
>
    decreases cols - j,
{
    if j < 0 || j >= cols {
        Ok(acc)
    } else {
        let t = acc + arow[j] * x[j];
        if t < i128::MIN || t > i128::MAX {
            Err(Error::NumericOverflow)
        } else {
            residual_row(arow, x, t, j + 1, cols)
        }
    }
}

/// The candidate solves every row of the original system exactly; a row
/// it misses, like a sum that leaves the accumulator, stops the check.
pub open spec fn residual_all(
    a: Seq<Seq<i64>>,
    b: Seq<i64>,
    x: Seq<i64>,
    i: int,
    rows: int,
    cols: int,
) -> Result<(), Error>
    decreases rows - i,
{
    if i < 0 || i >= rows {
        Ok(())
    } else {
        match residual_row(a[i], x, 0, 0, cols) {
            Err(e) => Err(e),
            Ok(acc) => if acc != b[i] {
                Err(Error::NumericOverflow)
            } else {
                residual_all(a, b, x, i + 1, rows, cols)
            },
        }
    }
}

/// The whole solver, mirrored over mathematical values: assemble the
/// augmented grid, eliminate, back-substitute, and hand out the candidate
/// only if it exactly solves the original system.
#[verifier::opaque]
pub open spec fn spec_solve(a: Seq<Seq<i64>>, b: Seq<i64>) -> Result<Seq<i64>, Error> {
    let rows = a.len() as int;
    if rows == 0 {
        Ok(Seq::empty())
    } else {
        let aug0 = Seq::new(a.len(), |i: int| a[i].push(b[i]));
        match elim_all(aug0, 0, 0, rows, rows + 1) {
            Err(e) => Err(e),
            Ok(aug) => match backsub(aug, Seq::new(a.len(), |i: int| 0i64), rows, rows) {
                Err(e) => Err(e),
                Ok(x) => match residual_all(a, b, x, 0, rows, rows) {
                    Err(e) => Err(e),
                    Ok(u) => Ok(x),
                },
            },
        }
    }
}

/// The mirrored solver, laid out stage by stage for the proofs below.
pub proof fn lemma_spec_solve_eval(a: Seq<Seq<i64>>, b: Seq<i64>)
    requires
        a.len() > 0,
    ensures
        spec_solve(a, b) == ({
            let rows = a.len() as int;
            let aug0 = Seq::new(a.len(), |i: int| a[i].push(b[i]));
            match elim_all(aug0, 0, 0, rows, rows + 1) {
                Err(e) => Err::<Seq<i64>, Error>(e),
                Ok(aug) => match backsub(aug, Seq::new(a.len(), |i: int| 0i64), rows, rows) {
                    Err(e) => Err::<Seq<i64>, Error>(e),
                    Ok(x) => match residual_all(a, b, x, 0, rows, rows) {
                        Err(e) => Err::<Seq<i64>, Error>(e),
                        Ok(u) => Ok::<Seq<i64>, Error>(x),
                    },
                },
            }
        }),
{
    reveal(spec_solve);
}

impl Matrix {
    /// The elementwise sum of two matrices of identical dimensions.
    pub fn add(&self, other: &Matrix) -> (r: Matrix)
        requires
            self.wf(),
            other.wf(),
            self.spec_rows() == other.spec_rows(),
            self.spec_cols() == other.spec_cols(),
            forall|i: int, j: int|
                self.in_bounds(i, j) ==> i64::MIN <= self@[i][j] + other@[i][j] <= i64::MAX,
        ensures
            r.wf(),
            r.spec_rows() == self.spec_rows(),
            r.spec_cols() == self.spec_cols(),
            forall|i: int, j: int| self.in_bounds(i, j) ==> r@[i][j] == self@[i][j] + other@[i][j],
    {
        let mut out = Matrix::new_empty(self.rows, self.cols);
        let mut i: usize = 0;
        while i < self.rows
            invariant
                self.wf(),
                other.wf(),
                out.wf(),
                self.spec_rows() == other.spec_rows(),
                self.spec_cols() == other.spec_cols(),
                out.spec_rows() == self.spec_rows(),
                out.spec_cols() == self.spec_cols(),
                forall|a: int, b: int|
                    self.in_bounds(a, b) ==> i64::MIN <= self@[a][b] + other@[a][b] <= i64::MAX,
                i <= self.spec_rows(),
                forall|a: int, b: int|
                    0 <= a < i && 0 <= b < self.spec_cols() ==> out@[a][b] == self@[a][b]
                        + other@[a][b],
            decreases self.spec_rows() - i,
        {
            let mut j: usize = 0;
            while j < self.cols
                invariant
                    self.wf(),
                    other.wf(),
                    out.wf(),
                    self.spec_rows() == other.spec_rows(),
                    self.spec_cols() == other.spec_cols(),
                    out.spec_rows() == self.spec_rows(),
                    out.spec_cols() == self.spec_cols(),
                    forall|a: int, b: int|
                        self.in_bounds(a, b) ==> i64::MIN <= self@[a][b] + other@[a][b]
                            <= i64::MAX,
                    i < self.spec_rows(),
                    j <= self.spec_cols(),
                    forall|a: int, b: int|
                        0 <= a < i && 0 <= b < self.spec_cols() ==> out@[a][b] == self@[a][b]
                            + other@[a][b],
                    forall|b: int|
                        0 <= b < j ==> out@[i as int][b] == self@[i as int][b] + other@[i as int][b],
                decreases self.spec_cols() - j,
            {
                proof {
                    assert(self.in_bounds(i as int, j as int));
                    assert(i64::MIN <= self@[i as int][j as int] + other@[i as int][j as int]
                        <= i64::MAX);
                }
                let s: i128 = self.at(i, j) as i128 + other.at(i, j) as i128;
                out.put(i, j, s as i64);
                j += 1;
            }
            i += 1;
        }
        out
    }

    /// The elementwise difference of two matrices of identical dimensions.
    pub fn sub(&self, other: &Matrix) -> (r: Matrix)
        requires
            self.wf(),
            other.wf(),
            self.spec_rows() == other.spec_rows(),
            self.spec_cols() == other.spec_cols(),
            forall|i: int, j: int|
                self.in_bounds(i, j) ==> i64::MIN <= self@[i][j] - other@[i][j] <= i64::MAX,
        ensures
            r.wf(),
            r.spec_rows() == self.spec_rows(),
            r.spec_cols() == self.spec_cols(),
            forall|i: int, j: int| self.in_bounds(i, j) ==> r@[i][j] == self@[i][j] - other@[i][j],
    {
        let mut out = Matrix::new_empty(self.rows, self.cols);
        let mut i: usize = 0;
        while i < self.rows
            invariant
                self.wf(),
                other.wf(),
                out.wf(),
                self.spec_rows() == other.spec_rows(),
                self.spec_cols() == other.spec_cols(),
                out.spec_rows() == self.spec_rows(),
                out.spec_cols() == self.spec_cols(),
                forall|a: int, b: int|
                    self.in_bounds(a, b) ==> i64::MIN <= self@[a][b] - other@[a][b] <= i64::MAX,
                i <= self.spec_rows(),
                forall|a: int, b: int|
                    0 <= a < i && 0 <= b < self.spec_cols() ==> out@[a][b] == self@[a][b]
                        - other@[a][b],
            decreases self.spec_rows() - i,
        {
            let mut j: usize = 0;
            while j < self.cols
                invariant
                    self.wf(),
                    other.wf(),
                    out.wf(),
                    self.spec_rows() == other.spec_rows(),
                    self.spec_cols() == other.spec_cols(),
                    out.spec_rows() == self.spec_rows(),
                    out.spec_cols() == self.spec_cols(),
                    forall|a: int, b: int|
                        self.in_bounds(a, b) ==> i64::MIN <= self@[a][b] - other@[a][b]
                            <= i64::MAX,
                    i < self.spec_rows(),
                    j <= self.spec_cols(),
                    forall|a: int, b: int|
                        0 <= a < i && 0 <= b < self.spec_cols() ==> out@[a][b] == self@[a][b]
                            - other@[a][b],
                    forall|b: int|
                        0 <= b < j ==> out@[i as int][b] == self@[i as int][b] - other@[i as int][b],
                decreases self.spec_cols() - j,
            {
                proof {
                    assert(self.in_bounds(i as int, j as int));
                    assert(i64::MIN <= self@[i as int][j as int] - other@[i as int][j as int]
                        <= i64::MAX);
                }
                let s: i128 = self.at(i, j) as i128 - other.at(i, j) as i128;
                out.put(i, j, s as i64);
                j += 1;
            }
            i += 1;
        }
        out
    }

    /// The matrix with every cell multiplied by `scalar`.
    pub fn scalar_mul(&self, scalar: i64) -> (r: Matrix)
        requires
            self.wf(),
            forall|i: int, j: int|
                self.in_bounds(i, j) ==> i64::MIN <= self@[i][j] * scalar <= i64::MAX,
        ensures
            r.wf(),
            r.spec_rows() == self.spec_rows(),
            r.spec_cols() == self.spec_cols(),
            forall|i: int, j: int| self.in_bounds(i, j) ==> r@[i][j] == self@[i][j] * scalar,
    {
        let mut out = Matrix::new_empty(self.rows, self.cols);
        let mut i: usize = 0;
        while i < self.rows
            invariant
                self.wf(),
                out.wf(),
                out.spec_rows() == self.spec_rows(),
                out.spec_cols() == self.spec_cols(),
                forall|a: int, b: int|
                    self.in_bounds(a, b) ==> i64::MIN <= self@[a][b] * scalar <= i64::MAX,
                i <= self.spec_rows(),
                forall|a: int, b: int|
                    0 <= a < i && 0 <= b < self.spec_cols() ==> out@[a][b] == self@[a][b] * scalar,
            decreases self.spec_rows() - i,
        {
            let mut j: usize = 0;
            while j < self.cols
                invariant
                    self.wf(),
                    out.wf(),
                    out.spec_rows() == self.spec_rows(),
                    out.spec_cols() == self.spec_cols(),
                    forall|a: int, b: int|
                        self.in_bounds(a, b) ==> i64::MIN <= self@[a][b] * scalar <= i64::MAX,
                    i < self.spec_rows(),
                    j <= self.spec_cols(),
                    forall|a: int, b: int|
                        0 <= a < i && 0 <= b < self.spec_cols() ==> out@[a][b] == self@[a][b]
                            * scalar,
                    forall|b: int| 0 <= b < j ==> out@[i as int][b] == self@[i as int][b] * scalar,
                decreases self.spec_cols() - j,
            {
                proof {
                    assert(self.in_bounds(i as int, j as int));
                    assert(i64::MIN <= self@[i as int][j as int] * scalar <= i64::MAX);
                    lemma_mul_i64_fits(self@[i as int][j as int] as int, scalar as int);
                }
                let s: i128 = self.at(i, j) as i128 * scalar as i128;
                out.put(i, j, s as i64);
                j += 1;
            }
            i += 1;
        }
        out
    }

    /// The matrix product, whose cell `(i, j)` is the dot product of row `i`
    /// of `self` with column `j` of `other`.
    pub fn mul(&self, other: &Matrix) -> (r: Matrix)
        requires
            self.wf(),
            other.wf(),
            self.spec_cols() == other.spec_rows(),
            forall|i: int, j: int, k: int|
                0 <= i < self.spec_rows() && 0 <= j < other.spec_cols() && 0 <= k
                    <= self.spec_cols() ==> i64::MIN <= #[trigger] row_dot(
                    self@[i],
                    column(other@, j),
                    k,
                ) <= i64::MAX,
        ensures
            r.wf(),
            r.spec_rows() == self.spec_rows(),
            r.spec_cols() == other.spec_cols(),
            forall|i: int, j: int|
                0 <= i < self.spec_rows() && 0 <= j < other.spec_cols() ==> r@[i][j] == row_dot(
                    self@[i],
                    column(other@, j),
                    self.spec_cols() as int,
                ),
    {
        let mut out = Matrix::new_empty(self.rows, other.cols);
        let mut i: usize = 0;
        while i < self.rows
            invariant
                self.wf(),
                other.wf(),
                out.wf(),
                self.spec_cols() == other.spec_rows(),
                out.spec_rows() == self.spec_rows(),
                out.spec_cols() == other.spec_cols(),
                forall|a: int, b: int, k: int|
                    0 <= a < self.spec_rows() && 0 <= b < other.spec_cols() && 0 <= k
                        <= self.spec_cols() ==> i64::MIN <= #[trigger] row_dot(
                        self@[a],
                        column(other@, b),
                        k,
                    ) <= i64::MAX,
                i <= self.spec_rows(),
                forall|a: int, b: int|
                    0 <= a < i && 0 <= b < other.spec_cols() ==> out@[a][b] == row_dot(
                        self@[a],
                        column(other@, b),
                        self.spec_cols() as int,
                    ),
            decreases self.spec_rows() - i,
        {
            let mut j: usize = 0;
            while j < other.cols
                invariant
                    self.wf(),
                    other.wf(),
                    out.wf(),
                    self.spec_cols() == other.spec_rows(),
                    out.spec_rows() == self.spec_rows(),
                    out.spec_cols() == other.spec_cols(),
                    forall|a: int, b: int, k: int|
                        0 <= a < self.spec_rows() && 0 <= b < other.spec_cols() && 0 <= k
                            <= self.spec_cols() ==> i64::MIN <= #[trigger] row_dot(
                            self@[a],
                            column(other@, b),
                            k,
                        ) <= i64::MAX,
                    i < self.spec_rows(),
                    j <= other.spec_cols(),
                    forall|a: int, b: int|
                        0 <= a < i && 0 <= b < other.spec_cols() ==> out@[a][b] == row_dot(
                            self@[a],
                            column(other@, b),
                            self.spec_cols() as int,
                        ),
                    forall|b: int|
                        0 <= b < j ==> out@[i as int][b] == row_dot(
                            self@[i as int],
                            column(other@, b),
                            self.spec_cols() as int,
                        ),
                decreases other.spec_cols() - j,
            {
                let mut acc: i64 = 0;
                let mut k: usize = 0;
                while k < self.cols
                    invariant
                        self.wf(),
                        other.wf(),
                        self.spec_cols() == other.spec_rows(),
                        forall|a: int, b: int, t: int|
                            0 <= a < self.spec_rows() && 0 <= b < other.spec_cols() && 0 <= t
                                <= self.spec_cols() ==> i64::MIN <= #[trigger] row_dot(
                                self@[a],
                                column(other@, b),
                                t,
                            ) <= i64::MAX,
                        i < self.spec_rows(),
                        j < other.spec_cols(),
                        k <= self.spec_cols(),
                        acc == row_dot(self@[i as int], column(other@, j as int), k as int),
                    decreases self.spec_cols() - k,
                {
                    let a = self.at(i, k);
                    let b = other.at(k, j);
                    proof {
                        lemma_mul_i64_fits(a as int, b as int);
                    }
                    let s: i128 = acc as i128 + a as i128 * b as i128;
                    proof {
                        assert(column(other@, j as int)[k as int] == other@[k as int][j as int]);
                        assert(row_dot(self@[i as int], column(other@, j as int), k as int + 1)
                            == row_dot(self@[i as int], column(other@, j as int), k as int)
                            + self@[i as int][k as int] * other@[k as int][j as int]);
                    }
                    acc = s as i64;
                    k += 1;
                }
                out.put(i, j, acc);
                j += 1;
            }
            i += 1;
        }
        out
    }

    /// Solve the square linear system `self · x == b` by Gaussian
    /// elimination with partial pivoting by largest absolute value,
    /// followed by back-substitution.  The result is pinned to the
    /// mirrored `spec_solve`, which fixes exactly when a solution, a
    /// singular matrix or an overflow is reported; every vector returned
    /// is checked against the original system, so success guarantees an
    /// exact solution.
    #[verifier::loop_isolation(false)]
    pub fn solve(&self, b: &Vec<i64>) -> (r: Result<Vec<i64>, Error>)
        requires
            self.wf(),
            self.spec_rows() == self.spec_cols(),
            b@.len() == self.spec_rows(),
            self.spec_rows() < usize::MAX,
        ensures
            r matches Ok(x) ==> spec_solve(self@, b@) == Ok::<Seq<i64>, Error>(x@),
            r matches Err(e) ==> spec_solve(self@, b@) == Err::<Seq<i64>, Error>(e),
            r matches Ok(x) ==> x@.len() == self.spec_cols() && forall|i: int|
                0 <= i < self.spec_rows() ==> row_dot(#[trigger] self@[i], x@, self.spec_cols() as int)
                    == b@[i],
            r matches Err(e) ==> e == Error::SingularMatrix || e == Error::NumericOverflow,
    {
        let rows = self.rows;
        let cols = self.cols;
        proof {
            self.lemma_wf_shape();
        }
        if rows == 0 {
            let empty: Vec<i64> = Vec::new();
            proof {
                reveal(spec_solve);
                assert(empty@ =~= Seq::<i64>::empty());
                assert(spec_solve(self@, b@) == Ok::<Seq<i64>, Error>(empty@));
            }
            return Ok(empty);
        }
        // Assemble the augmented grid [A | b].
        let ghost aug0 = Seq::new(self@.len(), |i: int| self@[i].push(b@[i]));
        let mut aug: Vec<Vec<i64>> = Vec::new();
        let mut i: usize = 0;
        while i < rows
            invariant
                self.wf(),
                rows == self.spec_rows(),
                cols == self.spec_cols(),
                self@.len() == rows,
                forall|k: int| 0 <= k < rows ==> (#[trigger] self@[k]).len() == cols,
                b@.len() == rows,
                aug0 == Seq::new(self@.len(), |i: int| self@[i].push(b@[i])),
                i <= rows,
                aug@.len() == i,
                forall|k: int| 0 <= k < i ==> (#[trigger] aug@[k])@ == aug0[k],
            decreases rows - i,
        {
            let mut row: Vec<i64> = Vec::new();
            let mut j: usize = 0;
            while j < cols
                invariant
                    self.wf(),
                    rows == self.spec_rows(),
                    cols == self.spec_cols(),
                    i < rows,
                    j <= cols,
                    row@.len() == j,
                    forall|l: int| 0 <= l < j ==> row@[l] == self@[i as int][l],
                decreases cols - j,
            {
                row.push(self.at(i, j));
                j += 1;
            }
            row.push(b[i]);
            proof {
                assert(row@ =~= self@[i as int].push(b@[i as int]));
            }
            aug.push(row);
            i += 1;
        }
        let ghost end = cols as int + 1;
        let ghost target = elim_all(aug0, 0, 0, rows as int, end);
        proof {
            assert(aug@.len() == aug0.len());
            assert forall|k: int| 0 <= k < rows implies #[trigger] aug@[k]@ == aug0[k] by {}
            assert(elim_all(view2(aug@), 0, 0, rows as int, end) == target) by {
                assert(view2(aug@) =~~= aug0);
            }
        }

        // Forward elimination, following the mirror step by step.
        let mut i: usize = 0;
        let mut j: usize = 0;
        while i < rows && j < cols + 1
            invariant
                rows == self.spec_rows(),
                cols == self.spec_cols(),
                rows == cols,
                rows < usize::MAX,
                end == cols as int + 1,
                aug@.len() == rows,
                forall|k: int| 0 <= k < rows ==> (#[trigger] aug@[k])@.len() == end,
                i <= rows,
                j == i,
                elim_all(view2(aug@), i as int, j as int, rows as int, end) == target,
            decreases rows - i,
        {
            let ghost aug_pre = view2(aug@);
            // Pick the row below whose entry in column j is largest in
            // absolute value.
            let mut max: i128 = 0;
            let mut kmax: usize = i;
            let mut k: usize = i + 1;
            proof {
                assert(i128::MIN < -0x8000000000000000i128);
            }
            while k < rows
                invariant
                    rows == self.spec_rows(),
                    cols == self.spec_cols(),
                    end == cols as int + 1,
                    aug@.len() == rows,
                    forall|t: int| 0 <= t < rows ==> (#[trigger] aug@[t])@.len() == end,
                    view2(aug@) == aug_pre,
                    i < rows,
                    j < cols + 1,
                    i <= kmax < rows,
                    i + 1 <= k <= rows,
                    pivot_scan(aug_pre, j as int, k as int, kmax as int, max as int) == pivot_scan(
                        aug_pre,
                        j as int,
                        i as int + 1,
                        i as int,
                        0,
                    ),
                decreases rows - k,
            {
                let v: i128 = aug[k][j] as i128;
                proof {
                    assert(aug_pre[k as int][j as int] == aug@[k as int]@[j as int]);
                }
                if v > max {
                    kmax = k;
                    max = v;
                } else if -v > max {
                    kmax = k;
                    max = -v;
                }
                k += 1;
            }
            proof {
                assert(pivot_scan(aug_pre, j as int, rows as int, kmax as int, max as int)
                    == kmax as int);
            }
            // Swap rows i and kmax, cell by cell.
            let ghost swapped = aug_pre.update(i as int, aug_pre[kmax as int]).update(
                kmax as int,
                aug_pre[i as int],
            );
            if kmax != i {
                let mut l: usize = 0;
                while l < cols + 1
                    invariant
                        rows == self.spec_rows(),
                        cols == self.spec_cols(),
                        cols < usize::MAX,
                        end == cols as int + 1,
                        aug@.len() == rows,
                        forall|t: int| 0 <= t < rows ==> (#[trigger] aug@[t])@.len() == end,
                        i < rows,
                        i <= kmax < rows,
                        kmax != i,
                        l <= cols + 1,
                        forall|t: int|
                            0 <= t < rows && t != i && t != kmax ==> (#[trigger] aug@[t])@
                                == aug_pre[t],
                        forall|c: int|
                            0 <= c < l ==> aug@[i as int]@[c] == aug_pre[kmax as int][c],
                        forall|c: int|
                            l <= c < end ==> aug@[i as int]@[c] == aug_pre[i as int][c],
                        forall|c: int|
                            0 <= c < l ==> aug@[kmax as int]@[c] == aug_pre[i as int][c],
                        forall|c: int|
                            l <= c < end ==> aug@[kmax as int]@[c] == aug_pre[kmax as int][c],
                    decreases cols + 1 - l,
                {
                    let t1 = aug[i][l];
                    let t2 = aug[kmax][l];
                    aug[i][l] = t2;
                    aug[kmax][l] = t1;
                    l += 1;
                }
                proof {
                    assert(view2(aug@) =~~= swapped);
                }
            } else {
                proof {
                    assert(view2(aug@) =~~= swapped);
                }
            }
            let pivot = aug[i][j];
            proof {
                assert(view2(aug@)[i as int][j as int] == aug@[i as int]@[j as int]);
            }
            if pivot == 0 {
                proof {
                    assert(pivot_scan(aug_pre, j as int, i as int + 1, i as int, 0)
                        == kmax as int);
                    assert(swapped[i as int][j as int] == pivot);
                    assert(elim_all(aug_pre, i as int, j as int, rows as int, end) == Err::<
                        Seq<Seq<i64>>,
                        Error,
                    >(Error::SingularMatrix));
                    assert(target == Err::<Seq<Seq<i64>>, Error>(Error::SingularMatrix));
                    lemma_spec_solve_eval(self@, b@);
                    assert(spec_solve(self@, b@) == Err::<Seq<i64>, Error>(Error::SingularMatrix));
                }
                return Err(Error::SingularMatrix);
            }
            // Eliminate column j from the rows below.
            let ghost below_target = elim_below(
                swapped,
                i as int,
                j as int,
                pivot as int,
                i as int + 1,
                end,
            );
            let mut k: usize = i + 1;
            while k < rows
                invariant
                    rows == self.spec_rows(),
                    cols == self.spec_cols(),
                    cols < usize::MAX,
                    end == cols as int + 1,
                    aug@.len() == rows,
                    forall|t: int| 0 <= t < rows ==> (#[trigger] aug@[t])@.len() == end,
                    i < rows,
                    j < cols + 1,
                    i + 1 <= k <= rows,
                    pivot != 0,
                    view2(aug@)[i as int] == swapped[i as int],
                    view2(aug@)[i as int][j as int] == pivot,
                    elim_below(view2(aug@), i as int, j as int, pivot as int, k as int, end)
                        == below_target,
                decreases rows - k,
            {
                let ghost aug_k = view2(aug@);
                let num: i128 = aug[k][j] as i128;
                let f: i128 = div_trunc(num, pivot as i128);
                proof {
                    assert(aug_k[k as int][j as int] == aug@[k as int]@[j as int]);
                    assert(f == trunc_div(aug_k[k as int][j as int] as int, pivot as int));
                }
                if f < i64::MIN as i128 || f > i64::MAX as i128 {
                    proof {
                        assert(elim_below(aug_k, i as int, j as int, pivot as int, k as int, end)
                            == Err::<Seq<Seq<i64>>, Error>(Error::NumericOverflow));
                        assert(below_target == Err::<Seq<Seq<i64>>, Error>(
                            Error::NumericOverflow,
                        ));
                        assert(elim_all(aug_pre, i as int, j as int, rows as int, end) == Err::<
                            Seq<Seq<i64>>,
                            Error,
                        >(Error::NumericOverflow)) by {
                            assert(pivot_scan(aug_pre, j as int, i as int + 1, i as int, 0)
                                == kmax as int);
                            assert(swapped[i as int][j as int] == pivot);
                        }
                        assert(target == Err::<Seq<Seq<i64>>, Error>(Error::NumericOverflow));
                        lemma_spec_solve_eval(self@, b@);
                        assert(spec_solve(self@, b@) == Err::<Seq<i64>, Error>(
                            Error::NumericOverflow,
                        ));
                    }
                    return Err(Error::NumericOverflow);
                }
                let factor = f as i64;
                let ghost row_target = elim_row(
                    aug_k[i as int],
                    aug_k[k as int],
                    factor as int,
                    j as int,
                    end,
                );
                let mut l: usize = j;
                while l < cols + 1
                    invariant
                        rows == self.spec_rows(),
                        cols == self.spec_cols(),
                        cols < usize::MAX,
                        end == cols as int + 1,
                        aug@.len() == rows,
                        forall|t: int| 0 <= t < rows ==> (#[trigger] aug@[t])@.len() == end,
                        i < rows,
                        i + 1 <= k < rows,
                        j <= l <= cols + 1,
                        forall|t: int|
                            0 <= t < rows && t != k ==> (#[trigger] aug@[t])@ == aug_k[t],
                        elim_row(
                            aug_k[i as int],
                            view2(aug@)[k as int],
                            factor as int,
                            l as int,
                            end,
                        ) == row_target,
                    decreases cols + 1 - l,
                {
                    proof {
                        lemma_mul_i64_fits(aug@[i as int]@[l as int] as int, factor as int);
                        assert(view2(aug@)[k as int][l as int] == aug@[k as int]@[l as int]);
                    }
                    let val: i128 = aug[i][l] as i128 * factor as i128;
                    let t: i128 = aug[k][l] as i128 - val;
                    if t < i64::MIN as i128 || t > i64::MAX as i128 {
                        proof {
                            assert(elim_row(
                                aug_k[i as int],
                                view2(aug@)[k as int],
                                factor as int,
                                l as int,
                                end,
                            ) == Err::<Seq<i64>, Error>(Error::NumericOverflow));
                            assert(row_target == Err::<Seq<i64>, Error>(Error::NumericOverflow));
                            assert(f == factor as int);
                            assert(elim_below(aug_k, i as int, j as int, pivot as int, k as int, end)
                                == Err::<Seq<Seq<i64>>, Error>(Error::NumericOverflow));
                            assert(below_target == Err::<Seq<Seq<i64>>, Error>(
                                Error::NumericOverflow,
                            ));
                            assert(elim_all(aug_pre, i as int, j as int, rows as int, end)
                                == Err::<Seq<Seq<i64>>, Error>(Error::NumericOverflow)) by {
                                assert(pivot_scan(aug_pre, j as int, i as int + 1, i as int, 0)
                                    == kmax as int);
                                assert(swapped[i as int][j as int] == pivot);
                            }
                            assert(target == Err::<Seq<Seq<i64>>, Error>(Error::NumericOverflow));
                            lemma_spec_solve_eval(self@, b@);
                            assert(spec_solve(self@, b@) == Err::<Seq<i64>, Error>(
                                Error::NumericOverflow,
                            ));
                        }
                        return Err(Error::NumericOverflow);
                    }
                    let ghost rowk_pre = view2(aug@)[k as int];
                    aug[k][l] = t as i64;
                    proof {
                        assert(view2(aug@)[k as int] =~= rowk_pre.update(l as int, t as i64));
                        assert forall|t2: int|
                            0 <= t2 < rows && t2 != k implies (#[trigger] aug@[t2])@ == aug_k[t2] by {}
                    }
                    l += 1;
                }
                proof {
                    assert(row_target == Ok::<Seq<i64>, Error>(view2(aug@)[k as int]));
                    assert(view2(aug@) =~~= aug_k.update(k as int, view2(aug@)[k as int]));
                    assert(elim_below(
                        view2(aug@),
                        i as int,
                        j as int,
                        pivot as int,
                        k as int + 1,
                        end,
                    ) == below_target);
                }
                k += 1;
            }
            proof {
                assert(elim_below(view2(aug@), i as int, j as int, pivot as int, rows as int, end)
                    == Ok::<Seq<Seq<i64>>, Error>(view2(aug@)));
                assert(below_target == Ok::<Seq<Seq<i64>>, Error>(view2(aug@)));
                assert(elim_all(aug_pre, i as int, j as int, rows as int, end) == elim_all(
                    view2(aug@),
                    i as int + 1,
                    j as int + 1,
                    rows as int,
                    end,
                )) by {
                    assert(pivot_scan(aug_pre, j as int, i as int + 1, i as int, 0)
                        == kmax as int);
                    assert(swapped[i as int][j as int] == pivot);
                }
                assert(elim_all(view2(aug@), i as int + 1, j as int + 1, rows as int, end)
                    == target);
            }
            i += 1;
            j += 1;
        }
        let ghost aug_elim = view2(aug@);
        proof {
            assert(elim_all(aug_elim, i as int, j as int, rows as int, end) == Ok::<
                Seq<Seq<i64>>,
                Error,
            >(aug_elim));
            assert(target == Ok::<Seq<Seq<i64>>, Error>(aug_elim));
        }

        // Back-substitution, following the mirror upward.
        let mut solution: Vec<i64> = Vec::new();
        let mut t: usize = 0;
        while t < cols
            invariant
                t <= cols,
                solution@.len() == t,
                forall|q: int| 0 <= q < t ==> solution@[q] == 0i64,
            decreases cols - t,
        {
            solution.push(0i64);
            t += 1;
        }
        let ghost bs_target = backsub(
            aug_elim,
            Seq::new(self@.len(), |i: int| 0i64),
            rows as int,
            cols as int,
        );
        proof {
            assert(solution@ =~= Seq::new(self@.len(), |i: int| 0i64));
        }
        let mut i: usize = cols;
        while i > 0
            invariant
                rows == self.spec_rows(),
                cols == self.spec_cols(),
                rows == cols,
                rows < usize::MAX,
                end == cols as int + 1,
                aug@.len() == rows,
                forall|k: int| 0 <= k < rows ==> (#[trigger] aug@[k])@.len() == end,
                i <= cols,
                solution@.len() == cols,
                backsub(view2(aug@), solution@, i as int, cols as int) == bs_target,
            decreases i,
        {
            i -= 1;
            let ghost aug_i = view2(aug@);
            let denom = aug[i][i];
            proof {
                assert(aug_i[i as int][i as int] == aug@[i as int]@[i as int]);
            }
            if denom == 0 {
                proof {
                    assert(backsub(aug_i, solution@, i as int + 1, cols as int) == Err::<
                        Seq<i64>,
                        Error,
                    >(Error::SingularMatrix));
                    assert(bs_target == Err::<Seq<i64>, Error>(Error::SingularMatrix));
                    lemma_spec_solve_eval(self@, b@);
                    assert(spec_solve(self@, b@) == Err::<Seq<i64>, Error>(Error::SingularMatrix));
                }
                return Err(Error::SingularMatrix);
            }
            let q: i128 = div_trunc(aug[i][cols] as i128, denom as i128);
            proof {
                assert(aug_i[i as int][cols as int] == aug@[i as int]@[cols as int]);
                assert(q == trunc_div(aug_i[i as int][cols as int] as int, denom as int));
            }
            if q < i64::MIN as i128 || q > i64::MAX as i128 {
                proof {
                    assert(backsub(aug_i, solution@, i as int + 1, cols as int) == Err::<
                        Seq<i64>,
                        Error,
                    >(Error::NumericOverflow));
                    assert(bs_target == Err::<Seq<i64>, Error>(Error::NumericOverflow));
                    lemma_spec_solve_eval(self@, b@);
                    assert(spec_solve(self@, b@) == Err::<Seq<i64>, Error>(Error::NumericOverflow));
                }
                return Err(Error::NumericOverflow);
            }
            let xi = q as i64;
            let ghost sol_top = solution@;
            let ghost clear_target = backsub_clear(aug_i, i as int, xi, 0, cols as int);
            solution[i] = xi;
            let mut jj: usize = 0;
            while jj < i
                invariant
                    rows == self.spec_rows(),
                    cols == self.spec_cols(),
                    rows == cols,
                    rows < usize::MAX,
                    end == cols as int + 1,
                    aug@.len() == rows,
                    forall|k: int| 0 <= k < rows ==> (#[trigger] aug@[k])@.len() == end,
                    i < cols,
                    jj <= i,
                    solution@.len() == cols,
                    sol_top.len() == cols,
                    solution@ == sol_top.update(i as int, xi),
                    backsub(aug_i, sol_top, i as int + 1, cols as int) == bs_target,
                    q == trunc_div(aug_i[i as int][cols as int] as int, aug_i[i as int][i as int] as int),
                    aug_i[i as int][i as int] != 0,
                    xi == q,
                    backsub_clear(view2(aug@), i as int, xi, jj as int, cols as int)
                        == clear_target,
                    clear_target == backsub_clear(aug_i, i as int, xi, 0, cols as int),
                decreases i - jj,
            {
                let ghost aug_jj = view2(aug@);
                proof {
                    lemma_mul_i64_fits(aug@[jj as int]@[i as int] as int, xi as int);
                    assert(aug_jj[jj as int][i as int] == aug@[jj as int]@[i as int]);
                    assert(aug_jj[jj as int][cols as int] == aug@[jj as int]@[cols as int]);
                }
                let val: i128 = aug[jj][i] as i128 * xi as i128;
                let t: i128 = aug[jj][cols] as i128 - val;
                if t < i64::MIN as i128 || t > i64::MAX as i128 {
                    proof {
                        assert(backsub_clear(aug_jj, i as int, xi, jj as int, cols as int) == Err::<
                            Seq<Seq<i64>>,
                            Error,
                        >(Error::NumericOverflow));
                        assert(clear_target == Err::<Seq<Seq<i64>>, Error>(
                            Error::NumericOverflow,
                        ));
                        assert(backsub(aug_i, sol_top, i as int + 1, cols as int) == Err::<
                            Seq<i64>,
                            Error,
                        >(Error::NumericOverflow));
                        assert(bs_target == Err::<Seq<i64>, Error>(Error::NumericOverflow));
                        lemma_spec_solve_eval(self@, b@);
                        assert(spec_solve(self@, b@) == Err::<Seq<i64>, Error>(
                            Error::NumericOverflow,
                        ));
                    }
                    return Err(Error::NumericOverflow);
                }
                let ghost rowjj_pre = view2(aug@)[jj as int];
                aug[jj][cols] = t as i64;
                proof {
                    assert(view2(aug@)[jj as int] =~= rowjj_pre.update(cols as int, t as i64));
                    assert(view2(aug@) =~~= aug_jj.update(jj as int, view2(aug@)[jj as int]));
                }
                jj += 1;
            }
            proof {
                assert(backsub_clear(view2(aug@), i as int, xi, i as int, cols as int) == Ok::<
                    Seq<Seq<i64>>,
                    Error,
                >(view2(aug@)));
                assert(clear_target == Ok::<Seq<Seq<i64>>, Error>(view2(aug@)));
                assert(solution@ =~= sol_top.update(i as int, xi));
                assert(backsub(aug_i, sol_top, i as int + 1, cols as int) == backsub(
                    view2(aug@),
                    solution@,
                    i as int,
                    cols as int,
                ));
            }
        }
        proof {
            assert(backsub(view2(aug@), solution@, 0, cols as int) == Ok::<Seq<i64>, Error>(
                solution@,
            ));
            assert(bs_target == Ok::<Seq<i64>, Error>(solution@));
        }

        // Check the candidate against the original system; only an exact
        // solution is handed out.
        let ghost res_target = residual_all(
            self@,
            b@,
            solution@,
            0,
            rows as int,
            cols as int,
        );
        let mut i: usize = 0;
        while i < rows
            invariant
                self.wf(),
                rows == self.spec_rows(),
                cols == self.spec_cols(),
                rows == cols,
                b@.len() == rows,
                solution@.len() == cols,
                i <= rows,
                forall|r_idx: int|
                    0 <= r_idx < i ==> row_dot(#[trigger] self@[r_idx], solution@, cols as int)
                        == b@[r_idx],
                residual_all(self@, b@, solution@, i as int, rows as int, cols as int)
                    == res_target,
            decreases rows - i,
        {
            let mut acc: i128 = 0;
            let mut j: usize = 0;
            while j < cols
                invariant
                    self.wf(),
                    rows == self.spec_rows(),
                    cols == self.spec_cols(),
                    solution@.len() == cols,
                    i < rows,
                    j <= cols,
                    acc == row_dot(self@[i as int], solution@, j as int),
                    residual_row(self@[i as int], solution@, acc as int, j as int, cols as int)
                        == residual_row(self@[i as int], solution@, 0, 0, cols as int),
                decreases cols - j,
            {
                proof {
                    lemma_mul_i64_fits(self@[i as int][j as int] as int, solution@[j as int] as int);
                }
                let prod: i128 = self.at(i, j) as i128 * solution[j] as i128;
                let next = acc.checked_add(prod);
                match next {
                    Some(v) => {
                        acc = v;
                    },
                    None => {
                        proof {
                            assert(residual_row(
                                self@[i as int],
                                solution@,
                                acc as int,
                                j as int,
                                cols as int,
                            ) == Err::<int, Error>(Error::NumericOverflow));
                            assert(residual_all(
                                self@,
                                b@,
                                solution@,
                                i as int,
                                rows as int,
                                cols as int,
                            ) == Err::<(), Error>(Error::NumericOverflow));
                            assert(res_target == Err::<(), Error>(Error::NumericOverflow));
                            lemma_spec_solve_eval(self@, b@);
                            assert(spec_solve(self@, b@) == Err::<Seq<i64>, Error>(
                                Error::NumericOverflow,
                            ));
                        }
                        return Err(Error::NumericOverflow);
                    },
                }
                j += 1;
            }
            proof {
                assert(residual_row(self@[i as int], solution@, acc as int, cols as int, cols as int)
                    == Ok::<int, Error>(acc as int));
            }
            if acc != b[i] as i128 {
                proof {
                    assert(residual_all(self@, b@, solution@, i as int, rows as int, cols as int)
                        == Err::<(), Error>(Error::NumericOverflow));
                    assert(res_target == Err::<(), Error>(Error::NumericOverflow));
                    lemma_spec_solve_eval(self@, b@);
                    assert(spec_solve(self@, b@) == Err::<Seq<i64>, Error>(Error::NumericOverflow));
                }
                return Err(Error::NumericOverflow);
            }
            i += 1;
        }
        proof {
            assert(residual_all(self@, b@, solution@, rows as int, rows as int, cols as int)
                == Ok::<(), Error>(()));
            assert(res_target == Ok::<(), Error>(()));
            lemma_spec_solve_eval(self@, b@);
            assert(spec_solve(self@, b@) == Ok::<Seq<i64>, Error>(solution@));
        }
        Ok(solution)
    }
}

/// Truncating division on double-width values, routed through
/// non-negative operands so that the quotient is pinned exactly.
fn div_trunc(a: i128, b: i128) -> (q: i128)
    requires
        b != 0,
        a != i128::MIN,
        b != i128::MIN,
    ensures
        q == trunc_div(a as int, b as int),
{
    let aa = if a < 0 {
        -a
    } else {
        a
    };
    let bb = if b < 0 {
        -b
    } else {
        b
    };
    let m = aa / bb;
    if (a < 0) != (b < 0) {
        -m
    } else {
        m
    }
}

/// The grid of rows, as a sequence of sequences.
pub open spec fn view2(rows: Seq<Vec<i64>>) -> Seq<Seq<i64>> {
    Seq::new(rows.len(), |i: int| rows[i]@)
}

} // verus!
