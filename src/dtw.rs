use crate::grid::{grid_cols, is_shape, Grid};
use crate::path::{
    is_warping_path, lemma_path_to_shape, max_int, pairs_view, path_to, predecessor, warping_path,
};
use vstd::prelude::*;

verus! {

/// Why an alignment could not be computed.
#[derive(PartialEq, Eq, Structural, Clone, Copy, Debug)]
pub enum DtwError {
    /// One of the two sequences has no element.
    EmptyInput,
}

pub open spec fn abs_diff(a: int, b: int) -> int {
    if a >= b {
        a - b
    } else {
        b - a
    }
}

/// The cost matrix of `x` against `y`: `|x[i] - y[j]|` at row `i`, column `j`.
pub open spec fn cost_rows(x: Seq<i32>, y: Seq<i32>) -> Seq<Seq<u64>> {
    Seq::new(
        x.len(),
        |i: int| Seq::new(y.len(), |j: int| abs_diff(x[i] as int, y[j] as int) as u64),
    )
}

pub open spec fn min3(a: int, b: int, c: int) -> int {
    if a <= b && a <= c {
        a
    } else if b <= c {
        b
    } else {
        c
    }
}

/// The accumulated cost at `(i, j)` over the costs `c`: running sums along the first
/// row and column, elsewhere the cell's cost plus the least of its three neighbours
/// above, to the left and above-left.
pub open spec fn acc(c: Seq<Seq<u64>>, i: int, j: int) -> int
    decreases i + j,
    when i >= 0 && j >= 0
{
    if i == 0 && j == 0 {
        c[0][0] as int
    } else if i == 0 {
        acc(c, 0, j - 1) + c[0][j]
    } else if j == 0 {
        acc(c, i - 1, 0) + c[i][0]
    } else {
        c[i][j] + min3(acc(c, i - 1, j), acc(c, i, j - 1), acc(c, i - 1, j - 1))
    }
}

/// The accumulated-cost matrix of the `n` by `m` costs `c`.
pub open spec fn acc_rows(c: Seq<Seq<u64>>, n: nat, m: nat) -> Seq<Seq<u64>> {
    Seq::new(n, |i: int| Seq::new(m, |j: int| acc(c, i, j) as u64))
}

/// The warping path that aligns `x` with `y`.
pub open spec fn dtw_path_of(x: Seq<i32>, y: Seq<i32>) -> Seq<(int, int)> {
    path_to(acc_rows(cost_rows(x, y), x.len(), y.len()), x.len() - 1, y.len() - 1)
}

/// Every accumulated cost is at least zero.
pub proof fn lemma_acc_nonneg(c: Seq<Seq<u64>>, i: int, j: int)
    requires
        i >= 0,
        j >= 0,
    ensures
        acc(c, i, j) >= 0,
    decreases i + j,
{
    if i == 0 && j == 0 {
    } else if i == 0 {
        lemma_acc_nonneg(c, 0, j - 1);
    } else if j == 0 {
        lemma_acc_nonneg(c, i - 1, 0);
    } else {
        lemma_acc_nonneg(c, i - 1, j);
        lemma_acc_nonneg(c, i, j - 1);
        lemma_acc_nonneg(c, i - 1, j - 1);
    }
}

/// Along the first column the accumulated cost never decreases:
/// `acc(c, i0, 0) <= acc(c, i, 0)` whenever `i0 <= i`.
pub proof fn lemma_acc_first_column_monotone(c: Seq<Seq<u64>>, i0: int, i: int)
    requires
        0 <= i0 <= i,
    ensures
        acc(c, i0, 0) <= acc(c, i, 0),
    decreases i,
{
    if i0 < i {
        lemma_acc_first_column_monotone(c, i0, i - 1);
        assert(acc(c, i, 0) == acc(c, i - 1, 0) + c[i][0]);
    }
}

/// Along the first row the accumulated cost never decreases:
/// `acc(c, 0, j0) <= acc(c, 0, j)` whenever `j0 <= j`.
pub proof fn lemma_acc_first_row_monotone(c: Seq<Seq<u64>>, j0: int, j: int)
    requires
        0 <= j0 <= j,
    ensures
        acc(c, 0, j0) <= acc(c, 0, j),
    decreases j,
{
    if j0 < j {
        lemma_acc_first_row_monotone(c, j0, j - 1);
        assert(acc(c, 0, j) == acc(c, 0, j - 1) + c[0][j]);
    }
}

/// The accumulated cost at any cell is at least the one at the origin.
pub proof fn lemma_acc_at_least_origin(c: Seq<Seq<u64>>, i: int, j: int)
    requires
        i >= 0,
        j >= 0,
    ensures
        acc(c, 0, 0) <= acc(c, i, j),
    decreases i + j,
{
    if i == 0 && j == 0 {
    } else if i == 0 {
        lemma_acc_at_least_origin(c, 0, j - 1);
    } else if j == 0 {
        lemma_acc_at_least_origin(c, i - 1, 0);
    } else {
        lemma_acc_at_least_origin(c, i - 1, j);
        lemma_acc_at_least_origin(c, i, j - 1);
        lemma_acc_at_least_origin(c, i - 1, j - 1);
    }
}

/// Every accumulated cost of `c` fits in a `u64`.
pub open spec fn acc_fits(c: Seq<Seq<u64>>, n: int, m: int) -> bool {
    forall|i: int, j: int| 0 <= i < n && 0 <= j < m ==> #[trigger] acc(c, i, j) <= u64::MAX
}

/// The cell that the backtrace moves to from `(i, j)` has an accumulated cost no
/// greater than that of `(i, j)`.
pub proof fn lemma_predecessor_not_greater(c: Seq<Seq<u64>>, n: int, m: int, i: int, j: int)
    requires
        is_shape(c, n, m),
        acc_fits(c, n, m),
        0 <= i < n,
        0 <= j < m,
        i > 0 || j > 0,
    ensures
        ({
            let p = predecessor(acc_rows(c, n as nat, m as nat), i, j);
            acc(c, p.0, p.1) <= acc(c, i, j)
        }),
{
    let d = acc_rows(c, n as nat, m as nat);
    if i == 0 {
        assert(acc(c, 0, j) == acc(c, 0, j - 1) + c[0][j]);
    } else if j == 0 {
        assert(acc(c, i, 0) == acc(c, i - 1, 0) + c[i][0]);
    } else {
        lemma_acc_nonneg(c, i - 1, j);
        lemma_acc_nonneg(c, i, j - 1);
        lemma_acc_nonneg(c, i - 1, j - 1);
        assert(d[i - 1][j] as int == acc(c, i - 1, j));
        assert(d[i][j - 1] as int == acc(c, i, j - 1));
        assert(d[i - 1][j - 1] as int == acc(c, i - 1, j - 1));
    }
}

/// Along the backtrace path to `(i, j)` the accumulated cost never decreases.
pub proof fn lemma_path_to_nondecreasing(c: Seq<Seq<u64>>, n: int, m: int, i: int, j: int)
    requires
        is_shape(c, n, m),
        acc_fits(c, n, m),
        0 <= i < n,
        0 <= j < m,
    ensures
        ({
            let p = path_to(acc_rows(c, n as nat, m as nat), i, j);
            forall|k: int|
                0 <= k < p.len() - 1 ==> acc(c, (#[trigger] p[k]).0, p[k].1) <= acc(
                    c,
                    p[k + 1].0,
                    p[k + 1].1,
                )
        }),
    decreases i + j,
{
    let d = acc_rows(c, n as nat, m as nat);
    if i == 0 && j == 0 {
        assert(path_to(d, 0, 0) == seq![(0int, 0int)]);
    } else {
        let q = predecessor(d, i, j);
        lemma_path_to_nondecreasing(c, n, m, q.0, q.1);
        lemma_path_to_shape(d, q.0, q.1);
        lemma_predecessor_not_greater(c, n, m, i, j);
        let prev = path_to(d, q.0, q.1);
        let p = path_to(d, i, j);
        assert(p == prev.push((i, j)));
        assert forall|k: int| 0 <= k < p.len() - 1 implies acc(c, (#[trigger] p[k]).0, p[k].1)
            <= acc(c, p[k + 1].0, p[k + 1].1) by {
            if k < prev.len() - 1 {
                assert(p[k] == prev[k]);
                assert(p[k + 1] == prev[k + 1]);
            } else {
                assert(p[k] == prev[prev.len() - 1]);
            }
        }
    }
}

/// Along the warping path of an accumulated-cost matrix, the accumulated cost of
/// each pair is at least that of the pair before it.
pub proof fn lemma_acc_nondecreasing_along_path(c: Seq<Seq<u64>>, n: int, m: int)
    requires
        n >= 1,
        m >= 1,
        is_shape(c, n, m),
        acc_fits(c, n, m),
    ensures
        ({
            let d = acc_rows(c, n as nat, m as nat);
            let p = path_to(d, n - 1, m - 1);
            forall|k: int|
                0 <= k < p.len() - 1 ==> d[(#[trigger] p[k]).0][p[k].1] <= d[p[k + 1].0][p[k
                    + 1].1]
        }),
{
    let d = acc_rows(c, n as nat, m as nat);
    let p = path_to(d, n - 1, m - 1);
    lemma_path_to_nondecreasing(c, n, m, n - 1, m - 1);
    lemma_path_to_shape(d, n - 1, m - 1);
    assert forall|k: int| 0 <= k < p.len() - 1 implies d[(#[trigger] p[k]).0][p[k].1]
        <= d[p[k + 1].0][p[k + 1].1] by {
        let a = p[k];
        let b = p[k + 1];
        lemma_acc_nonneg(c, a.0, a.1);
        lemma_acc_nonneg(c, b.0, b.1);
        assert(acc(c, a.0, a.1) <= u64::MAX);
        assert(acc(c, b.0, b.1) <= u64::MAX);
    }
}

/// Alignment is deterministic: two paths that both meet the contract of `dtw_path`
/// for the same `x` and `y` are equal, pair for pair.
pub proof fn lemma_dtw_path_deterministic(
    x: Seq<i32>,
    y: Seq<i32>,
    path_a: Seq<(u32, u32)>,
    path_b: Seq<(u32, u32)>,
)
    requires
        pairs_view(path_a) == dtw_path_of(x, y),
        pairs_view(path_b) == dtw_path_of(x, y),
    ensures
        path_a == path_b,
{
    assert(path_a.len() == pairs_view(path_a).len());
    assert(path_b.len() == pairs_view(path_b).len());
    assert forall|k: int| 0 <= k < path_a.len() implies path_a[k] == path_b[k] by {
        assert(pairs_view(path_a)[k] == pairs_view(path_b)[k]);
    }
    assert(path_a =~= path_b);
}

/// Builds the matrix of distances `|x[i] - y[j]|` between every element of `x` and
/// every element of `y`.
pub fn cost_matrix(x: &Vec<i32>, y: &Vec<i32>) -> (r: Grid)
    requires
        x@.len() <= isize::MAX,
        y@.len() <= isize::MAX,
        x@.len() * y@.len() * 8 <= isize::MAX,
    ensures
        r.rows_view() == cost_rows(x@, y@),
        grid_cols(r) == y@.len(),
{
    let n = x.len();
    let m = y.len();
    let mut g = Grid::zeros(n, m);
    let mut i: usize = 0;
    while i < n
        invariant
            n == x@.len(),
            m == y@.len(),
            i <= n,
            grid_cols(g) == m,
            is_shape(g.rows_view(), n as int, m as int),
            forall|r: int, s: int|
                0 <= r < n && 0 <= s < m ==> #[trigger] g.rows_view()[r][s] == if r < i {
                    abs_diff(x@[r] as int, y@[s] as int) as u64
                } else {
                    0u64
                },
        decreases n - i,
    {
        let mut j: usize = 0;
        while j < m
            invariant
                n == x@.len(),
                m == y@.len(),
                i < n,
                j <= m,
                grid_cols(g) == m,
                is_shape(g.rows_view(), n as int, m as int),
                forall|r: int, s: int|
                    0 <= r < n && 0 <= s < m ==> #[trigger] g.rows_view()[r][s] == if r < i || (
                    r == i && s < j) {
                        abs_diff(x@[r] as int, y@[s] as int) as u64
                    } else {
                        0u64
                    },
            decreases m - j,
        {
            let a = x[i] as i64;
            let b = y[j] as i64;
            let v: u64 = if a >= b {
                (a - b) as u64
            } else {
                (b - a) as u64
            };
            g.set(i, j, v);
            j = j + 1;
        }
        i = i + 1;
    }
    assert(g.rows_view() =~~= cost_rows(x@, y@));
    g
}

/// The cells before `(i, j)` in row-major order hold their accumulated cost, the
/// others their cost.
pub open spec fn filled_to(
    c: Seq<Seq<u64>>,
    g: Seq<Seq<u64>>,
    n: int,
    m: int,
    i: int,
    j: int,
) -> bool {
    &&& is_shape(g, n, m)
    &&& forall|r: int, s: int|
        0 <= r < n && 0 <= s < m ==> #[trigger] g[r][s] == if r < i || (r == i && s < j) {
            acc(c, r, s) as u64
        } else {
            c[r][s]
        }
}

/// Turns the cost matrix `cost` into its accumulated-cost matrix: the first row and
/// column are running sums, every other cell its cost plus the least of its three
/// neighbours above, to the left and above-left.
#[verifier::rlimit(50)]
pub fn accumulated_cost_matrix(cost: Grid) -> (d: Grid)
    requires
        cost.rows_view().len() >= 1,
        grid_cols(cost) >= 1,
        acc_fits(cost.rows_view(), cost.rows_view().len() as int, grid_cols(cost) as int),
    ensures
        d.rows_view() == acc_rows(cost.rows_view(), cost.rows_view().len(), grid_cols(cost)),
        grid_cols(d) == grid_cols(cost),
{
    let ghost c = cost.rows_view();
    let mut d = cost;
    let n = d.nrows();
    let m = d.ncols();
    let mut i: usize = 0;
    while i < n
        invariant
            n == c.len(),
            m == grid_cols(d),
            is_shape(c, n as int, m as int),
            i <= n,
            filled_to(c, d.rows_view(), n as int, m as int, i as int, 0),
            forall|r: int, s: int|
                0 <= r < n && 0 <= s < m ==> #[trigger] acc(c, r, s) <= u64::MAX,
        decreases n - i,
    {
        let mut j: usize = 0;
        while j < m
            invariant
                n == c.len(),
                m == grid_cols(d),
                is_shape(c, n as int, m as int),
                i < n,
                j <= m,
                filled_to(c, d.rows_view(), n as int, m as int, i as int, j as int),
                forall|r: int, s: int|
                    0 <= r < n && 0 <= s < m ==> #[trigger] acc(c, r, s) <= u64::MAX,
            decreases m - j,
        {
            let ghost before = d.rows_view();
            proof {
                lemma_acc_nonneg(c, i as int, j as int);
                assert(acc(c, i as int, j as int) <= u64::MAX);
                if i > 0 {
                    lemma_acc_nonneg(c, i - 1, j as int);
                    assert(acc(c, i - 1, j as int) <= u64::MAX);
                }
                if j > 0 {
                    lemma_acc_nonneg(c, i as int, j - 1);
                    assert(acc(c, i as int, j - 1) <= u64::MAX);
                }
                if i > 0 && j > 0 {
                    lemma_acc_nonneg(c, i - 1, j - 1);
                    assert(acc(c, i - 1, j - 1) <= u64::MAX);
                }
            }
            let here = d.get(i, j);
            if i == 0 && j == 0 {
            } else if i == 0 {
                let left = d.get(0, j - 1);
                d.set(0, j, left + here);
            } else if j == 0 {
                let up = d.get(i - 1, 0);
                d.set(i, 0, up + here);
            } else {
                let up = d.get(i - 1, j);
                let left = d.get(i, j - 1);
                let diagonal = d.get(i - 1, j - 1);
                let mut least = if up < left {
                    up
                } else {
                    left
                };
                if diagonal < least {
                    least = diagonal;
                }
                d.set(i, j, least + here);
            }
            assert forall|r: int, s: int|
                0 <= r < n && 0 <= s < m implies #[trigger] d.rows_view()[r][s] == if r < i || (r
                == i && s < j + 1) {
                acc(c, r, s) as u64
            } else {
                c[r][s]
            } by {
                if r == i && s == j {
                } else {
                    assert(d.rows_view()[r][s] == before[r][s]);
                }
            }
            j = j + 1;
        }
        i = i + 1;
    }
    assert(d.rows_view() =~~= acc_rows(c, n as nat, m as nat));
    d
}

/// Where no cost exceeds `b`, the accumulated cost at `(i, j)` is at most
/// `(i + j + 1) * b`.
pub proof fn lemma_acc_bound(c: Seq<Seq<u64>>, b: int, i: int, j: int)
    requires
        i >= 0,
        j >= 0,
        b >= 0,
        forall|r: int, s: int| 0 <= r <= i && 0 <= s <= j ==> #[trigger] c[r][s] <= b,
    ensures
        acc(c, i, j) <= (i + j + 1) * b,
    decreases i + j,
{
    assert(c[i][j] <= b);
    if i == 0 && j == 0 {
        assert(acc(c, 0, 0) == c[0][0] as int);
    } else if i == 0 {
        lemma_acc_bound(c, b, 0, j - 1);
        assert(acc(c, 0, j) == acc(c, 0, j - 1) + c[0][j]);
        assert((j + 1) * b == j * b + b) by (nonlinear_arith);
    } else {
        lemma_acc_bound(c, b, i - 1, j);
        assert((i + j + 1) * b == (i + j) * b + b) by (nonlinear_arith);
        if j > 0 {
            assert(acc(c, i, j) <= c[i][j] + acc(c, i - 1, j));
        } else {
            assert(acc(c, i, 0) == acc(c, i - 1, 0) + c[i][0]);
        }
    }
}

/// Aligns `x` with `y`: the warping path that the backtrace reads out of the
/// accumulated costs, from `(0, 0)` to `(x.len() - 1, y.len() - 1)`, or
/// `EmptyInput` where either sequence is empty.
/// The bound on the two lengths keeps every index within `u32` and every
/// accumulated cost within `u64`; the other keeps the cost matrix within memory.
pub fn dtw_path(x: &Vec<i32>, y: &Vec<i32>) -> (r: Result<Vec<(u32, u32)>, DtwError>)
    requires
        x@.len() + y@.len() <= u32::MAX as int + 1,
        x@.len() * y@.len() * 8 <= isize::MAX,
    ensures
        r == Err::<Vec<(u32, u32)>, DtwError>(DtwError::EmptyInput) <==> (x@.len() == 0
            || y@.len() == 0),
        r is Ok ==> pairs_view(r->Ok_0@) == dtw_path_of(x@, y@),
        r is Ok ==> is_warping_path(pairs_view(r->Ok_0@), x@.len() as int, y@.len() as int),
        r is Ok ==> max_int(x@.len() as int, y@.len() as int) <= r->Ok_0@.len() <= x@.len()
            + y@.len() - 1,
{
    if x.len() == 0 || y.len() == 0 {
        return Err(DtwError::EmptyInput);
    }
    assert(x@.len() <= isize::MAX && y@.len() <= isize::MAX) by (nonlinear_arith)
        requires
            x@.len() >= 1,
            y@.len() >= 1,
            x@.len() * y@.len() * 8 <= isize::MAX,
    ;
    let cost = cost_matrix(x, y);
    let ghost c = cost.rows_view();
    let ghost n = x@.len() as int;
    let ghost m = y@.len() as int;
    proof {
        assert forall|i: int, j: int| 0 <= i < n && 0 <= j < m implies #[trigger] acc(
            c,
            i,
            j,
        ) <= u64::MAX by {
            assert forall|r: int, s: int| 0 <= r <= i && 0 <= s <= j implies #[trigger] c[r][s]
                <= u32::MAX as int by {
                assert(c[r][s] == abs_diff(x@[r] as int, y@[s] as int) as u64);
            }
            lemma_acc_bound(c, u32::MAX as int, i, j);
            assert((i + j + 1) * (u32::MAX as int) <= u64::MAX) by (nonlinear_arith)
                requires
                    0 <= i + j + 1 <= u32::MAX as int + 1,
            ;
        }
    }
    let d = accumulated_cost_matrix(cost);
    Ok(warping_path(&d))
}

} // verus!
