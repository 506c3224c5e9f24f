use vstd::prelude::*;

verus! {

/// A dense two-dimensional matrix of `u64` values, stored in an `ndarray::Array2`.
///
/// Its contents are known to the proofs only through `grid_cells` (the rows, each a
/// sequence of values) and `grid_cols` (the number of columns).
#[verifier::external_body]
pub struct Grid {
    cells: ndarray::Array2<u64>,
}

/// The rows of a grid, top to bottom, each listing its values left to right.
pub uninterp spec fn grid_cells(g: Grid) -> Seq<Seq<u64>>;

/// The number of columns of a grid, also when it has no rows.
pub uninterp spec fn grid_cols(g: Grid) -> nat;

/// `c` has `n` rows of `m` values each.
pub open spec fn is_shape(c: Seq<Seq<u64>>, n: int, m: int) -> bool {
    &&& c.len() == n
    &&& forall|i: int| 0 <= i < n ==> #[trigger] c[i].len() == m
}

/// The `n` by `m` matrix of zeros.
pub open spec fn zero_rows(n: nat, m: nat) -> Seq<Seq<u64>> {
    Seq::new(n, |i: int| Seq::new(m, |j: int| 0u64))
}

/// Relies on ndarray's `Array2::zeros`: a row-major `rows` by `cols` array of zeros.
/// It panics where a non-zero axis length, their product or the allocation size
/// overflows `isize`, which `requires` excludes.
#[verifier::external_body]
fn grid_zeros(rows: usize, cols: usize) -> (r: Grid)
    requires
        rows <= isize::MAX,
        cols <= isize::MAX,
        rows * cols * 8 <= isize::MAX,
    ensures
        grid_cells(r) == zero_rows(rows as nat, cols as nat),
        grid_cols(r) == cols,
{
    Grid { cells: ndarray::Array2::zeros((rows, cols)) }
}

/// Relies on ndarray's `nrows`: the length of the first axis.
#[verifier::external_body]
fn grid_nrows(g: &Grid) -> (r: usize)
    ensures
        r == grid_cells(*g).len(),
{
    g.cells.nrows()
}

/// Relies on ndarray's `ncols`: the length of the second axis, which every row has.
#[verifier::external_body]
fn grid_ncols(g: &Grid) -> (r: usize)
    ensures
        r == grid_cols(*g),
        is_shape(grid_cells(*g), grid_cells(*g).len() as int, r as int),
{
    g.cells.ncols()
}

/// Relies on ndarray's `Index<[usize; 2]>`: the element at row `i`, column `j`.
/// It panics out of bounds, which `requires` excludes.
#[verifier::external_body]
fn grid_get(g: &Grid, i: usize, j: usize) -> (r: u64)
    requires
        i < grid_cells(*g).len(),
        j < grid_cols(*g),
    ensures
        r == grid_cells(*g)[i as int][j as int],
{
    g.cells[[i, j]]
}

/// Relies on ndarray's `IndexMut<[usize; 2]>`: writes `v` at row `i`, column `j` and
/// leaves every other element and the shape as they were.
/// It panics out of bounds, which `requires` excludes.
#[verifier::external_body]
fn grid_set(g: &mut Grid, i: usize, j: usize, v: u64)
    requires
        i < grid_cells(*old(g)).len(),
        j < grid_cols(*old(g)),
    ensures
        grid_cells(*final(g)) == grid_cells(*old(g)).update(
            i as int,
            grid_cells(*old(g))[i as int].update(j as int, v),
        ),
        grid_cols(*final(g)) == grid_cols(*old(g)),
{
    g.cells[[i, j]] = v;
}

impl Grid {
    /// The rows of this grid.
    pub open spec fn rows_view(&self) -> Seq<Seq<u64>> {
        grid_cells(*self)
    }

    /// A grid of `rows` rows and `cols` columns, all zero.
    pub fn zeros(rows: usize, cols: usize) -> (r: Grid)
        requires
            rows <= isize::MAX,
            cols <= isize::MAX,
            rows * cols * 8 <= isize::MAX,
        ensures
            r.rows_view() == zero_rows(rows as nat, cols as nat),
            grid_cols(r) == cols,
    {
        grid_zeros(rows, cols)
    }

    /// A grid of `cols` columns holding the given rows.
    pub fn from_rows(rows: &Vec<Vec<u64>>, cols: usize) -> (r: Grid)
        requires
            rows@.len() <= isize::MAX,
            cols <= isize::MAX,
            rows@.len() * cols * 8 <= isize::MAX,
            forall|i: int| 0 <= i < rows@.len() ==> (#[trigger] rows@[i])@.len() == cols,
        ensures
            r.rows_view().len() == rows@.len(),
            forall|i: int| 0 <= i < rows@.len() ==> #[trigger] r.rows_view()[i] == rows@[i]@,
            grid_cols(r) == cols,
    {
        let n = rows.len();
        let mut g = Grid::zeros(n, cols);
        let mut i: usize = 0;
        while i < n
            invariant
                n == rows@.len(),
                i <= n,
                grid_cols(g) == cols,
                is_shape(g.rows_view(), n as int, cols as int),
                forall|k: int| 0 <= k < n ==> (#[trigger] rows@[k])@.len() == cols,
                forall|k: int| 0 <= k < i ==> #[trigger] g.rows_view()[k] == rows@[k]@,
                forall|k: int| i <= k < n ==> #[trigger] g.rows_view()[k] == Seq::new(
                    cols as nat,
                    |j: int| 0u64,
                ),
            decreases n - i,
        {
            let row = &rows[i];
            let mut j: usize = 0;
            while j < cols
                invariant
                    n == rows@.len(),
                    i < n,
                    j <= cols,
                    row@ == rows@[i as int]@,
                    row@.len() == cols,
                    grid_cols(g) == cols,
                    is_shape(g.rows_view(), n as int, cols as int),
                    forall|k: int| 0 <= k < n ==> (#[trigger] rows@[k])@.len() == cols,
                    forall|k: int| 0 <= k < i ==> #[trigger] g.rows_view()[k] == rows@[k]@,
                    forall|k: int| i < k < n ==> #[trigger] g.rows_view()[k] == Seq::new(
                        cols as nat,
                        |j: int| 0u64,
                    ),
                    forall|s: int|
                        0 <= s < cols ==> #[trigger] g.rows_view()[i as int][s] == if s < j {
                            row@[s]
                        } else {
                            0u64
                        },
                decreases cols - j,
            {
                g.set(i, j, row[j]);
                j = j + 1;
            }
            assert(g.rows_view()[i as int] =~= rows@[i as int]@);
            i = i + 1;
        }
        g
    }

    /// The number of rows.
    pub fn nrows(&self) -> (r: usize)
        ensures
            r == self.rows_view().len(),
    {
        grid_nrows(self)
    }

    /// The number of columns; every row has that many values.
    pub fn ncols(&self) -> (r: usize)
        ensures
            r == grid_cols(*self),
            is_shape(self.rows_view(), self.rows_view().len() as int, r as int),
    {
        grid_ncols(self)
    }

    /// The value at row `i`, column `j`.
    pub fn get(&self, i: usize, j: usize) -> (r: u64)
        requires
            i < self.rows_view().len(),
            j < grid_cols(*self),
        ensures
            r == self.rows_view()[i as int][j as int],
    {
        grid_get(self, i, j)
    }

    /// Writes `v` at row `i`, column `j`.
    pub fn set(&mut self, i: usize, j: usize, v: u64)
        requires
            i < old(self).rows_view().len(),
            j < grid_cols(*old(self)),
        ensures
            final(self).rows_view() == old(self).rows_view().update(
                i as int,
                old(self).rows_view()[i as int].update(j as int, v),
            ),
            grid_cols(*final(self)) == grid_cols(*old(self)),
    {
        grid_set(self, i, j, v)
    }
}

} // verus!
