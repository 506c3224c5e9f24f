use crate::grid::{grid_cols, is_shape, Grid};
use vstd::prelude::*;

verus! {

/// One move of the backtrace, from a cell to the cell it was reached from.
#[derive(PartialEq, Eq, Structural, Clone, Copy, Debug)]
pub enum Step {
    /// One row back, same column.
    Up,
    /// Same row, one column back.
    Left,
    /// One row and one column back.
    Diagonal,
}

/// The tie-break: `up` is taken only when strictly below both others; between the
/// diagonal and `left`, the diagonal only when strictly below `left`.
pub open spec fn step_of(up: u64, diagonal: u64, left: u64) -> Step {
    if up < diagonal {
        if up < left {
            Step::Up
        } else {
            Step::Left
        }
    } else {
        if diagonal < left {
            Step::Diagonal
        } else {
            Step::Left
        }
    }
}

/// Picks the move out of an interior cell from the accumulated costs of the cell
/// above (`up`), above-left (`diagonal`) and to the left (`left`).
pub fn choose_step(up: u64, diagonal: u64, left: u64) -> (r: Step)
    ensures
        r == step_of(up, diagonal, left),
{
    if up < diagonal {
        if up < left {
            Step::Up
        } else {
            Step::Left
        }
    } else {
        if diagonal < left {
            Step::Diagonal
        } else {
            Step::Left
        }
    }
}

/// The cell that the backtrace moves to from `(i, j)` (not the origin).
pub open spec fn predecessor(d: Seq<Seq<u64>>, i: int, j: int) -> (int, int) {
    if i == 0 {
        (0, j - 1)
    } else if j == 0 {
        (i - 1, 0)
    } else {
        match step_of(d[i - 1][j], d[i - 1][j - 1], d[i][j - 1]) {
            Step::Up => (i - 1, j),
            Step::Left => (i, j - 1),
            Step::Diagonal => (i - 1, j - 1),
        }
    }
}

/// The warping path from the origin to `(i, j)`: the backtrace from `(i, j)`,
/// read from its end.
pub open spec fn path_to(d: Seq<Seq<u64>>, i: int, j: int) -> Seq<(int, int)>
    decreases i + j,
    when i >= 0 && j >= 0
{
    if i == 0 && j == 0 {
        seq![(0int, 0int)]
    } else {
        let p = predecessor(d, i, j);
        path_to(d, p.0, p.1).push((i, j))
    }
}

/// The pairs of a path, as integers.
pub open spec fn pairs_view(p: Seq<(u32, u32)>) -> Seq<(int, int)> {
    p.map_values(|q: (u32, u32)| (q.0 as int, q.1 as int))
}

/// `p` is a warping path of an `n` by `m` matrix: from `(0, 0)` to `(n - 1, m - 1)`,
/// each step one row, one column, or both further.
pub open spec fn is_warping_path(p: Seq<(int, int)>, n: int, m: int) -> bool {
    &&& p.len() >= 1
    &&& p[0] == (0int, 0int)
    &&& p[p.len() - 1] == (n - 1, m - 1)
    &&& forall|k: int| 0 <= k < p.len() ==> 0 <= #[trigger] p[k].0 < n && 0 <= p[k].1 < m
    &&& forall|k: int|
        0 <= k < p.len() - 1 ==> {
            let a = #[trigger] p[k];
            let b = p[k + 1];
            &&& 0 <= b.0 - a.0 <= 1
            &&& 0 <= b.1 - a.1 <= 1
            &&& b != a
        }
}

pub open spec fn max_int(a: int, b: int) -> int {
    if a >= b {
        a
    } else {
        b
    }
}

/// Every path that the backtrace yields from `(i, j)` is a warping path of the
/// `(i + 1)` by `(j + 1)` corner, of between `max(i, j) + 1` and `i + j + 1` pairs.
pub proof fn lemma_path_to_shape(d: Seq<Seq<u64>>, i: int, j: int)
    requires
        i >= 0,
        j >= 0,
    ensures
        is_warping_path(path_to(d, i, j), i + 1, j + 1),
        max_int(i, j) + 1 <= path_to(d, i, j).len() <= i + j + 1,
    decreases i + j,
{
    if i == 0 && j == 0 {
        assert(path_to(d, 0, 0) == seq![(0int, 0int)]);
    } else {
        let p = predecessor(d, i, j);
        lemma_path_to_shape(d, p.0, p.1);
        let prev = path_to(d, p.0, p.1);
        let cur = path_to(d, i, j);
        assert(cur == prev.push((i, j)));
        assert forall|k: int| 0 <= k < cur.len() - 1 implies {
            let a = #[trigger] cur[k];
            let b = cur[k + 1];
            &&& 0 <= b.0 - a.0 <= 1
            &&& 0 <= b.1 - a.1 <= 1
            &&& b != a
        } by {
            if k < prev.len() - 1 {
                assert(cur[k] == prev[k]);
                assert(cur[k + 1] == prev[k + 1]);
            }
        }
        assert forall|k: int| 0 <= k < cur.len() implies 0 <= #[trigger] cur[k].0 < i + 1
            && 0 <= cur[k].1 < j + 1 by {
            if k < prev.len() {
                assert(cur[k] == prev[k]);
            }
        }
    }
}

/// Backtraces the accumulated-cost matrix `d` from its last cell to its first and
/// returns the warping path read from the first cell, without unused capacity.
#[verifier::rlimit(50)]
pub fn warping_path(d: &Grid) -> (r: Vec<(u32, u32)>)
    requires
        1 <= d.rows_view().len() <= u32::MAX as int + 1,
        1 <= grid_cols(*d) <= u32::MAX as int + 1,
    ensures
        pairs_view(r@) == path_to(
            d.rows_view(),
            d.rows_view().len() - 1,
            grid_cols(*d) - 1,
        ),
        is_warping_path(pairs_view(r@), d.rows_view().len() as int, grid_cols(*d) as int),
        max_int(d.rows_view().len() as int, grid_cols(*d) as int) <= r@.len(),
        r@.len() <= d.rows_view().len() + grid_cols(*d) - 1,
{
    let n = d.nrows();
    let m = d.ncols();
    let ghost c = d.rows_view();
    let ghost full = path_to(c, n - 1, m - 1);
    proof {
        lemma_path_to_shape(c, n - 1, m - 1);
    }
    let mut i: usize = n - 1;
    let mut j: usize = m - 1;
    let mut trace: Vec<(u32, u32)> = Vec::new();
    trace.push((i as u32, j as u32));
    while i > 0 || j > 0
        invariant
            c == d.rows_view(),
            m == grid_cols(*d),
            is_shape(c, n as int, m as int),
            full == path_to(c, n - 1, m - 1),
            i < n <= u32::MAX as int + 1,
            j < m <= u32::MAX as int + 1,
            path_to(c, i as int, j as int).len() >= 1,
            full.len() == path_to(c, i as int, j as int).len() + trace@.len() - 1,
            forall|t: int|
                0 <= t < trace@.len() ==> (#[trigger] trace@[t].0 as int, trace@[t].1 as int)
                    == full[full.len() - 1 - t],
            forall|t: int|
                0 <= t < path_to(c, i as int, j as int).len() ==> #[trigger] path_to(
                    c,
                    i as int,
                    j as int,
                )[t] == full[t],
        decreases i + j,
    {
        let ghost pre = path_to(c, i as int, j as int);
        let ghost p = predecessor(c, i as int, j as int);
        let ghost cur = (i as int, j as int);
        if i > 0 {
            if j > 0 {
                let s = choose_step(d.get(i - 1, j), d.get(i - 1, j - 1), d.get(i, j - 1));
                match s {
                    Step::Up => {
                        i = i - 1;
                    },
                    Step::Left => {
                        j = j - 1;
                    },
                    Step::Diagonal => {
                        i = i - 1;
                        j = j - 1;
                    },
                }
            } else {
                i = i - 1;
            }
        } else {
            j = j - 1;
        }
        assert(p == (i as int, j as int));
        proof {
            lemma_path_to_shape(c, i as int, j as int);
        }
        assert(pre == path_to(c, i as int, j as int).push(cur));
        let ghost old_trace = trace@;
        trace.push((i as u32, j as u32));
        assert forall|t: int|
            0 <= t < trace@.len() implies (#[trigger] trace@[t].0 as int, trace@[t].1 as int)
            == full[full.len() - 1 - t] by {
            if t < old_trace.len() {
                assert(trace@[t] == old_trace[t]);
            } else {
                let q = path_to(c, i as int, j as int);
                assert(q[q.len() - 1] == pre[q.len() - 1]);
            }
        }
        assert forall|t: int|
            0 <= t < path_to(c, i as int, j as int).len() implies #[trigger] path_to(
            c,
            i as int,
            j as int,
        )[t] == full[t] by {
            assert(path_to(c, i as int, j as int)[t] == pre[t]);
        }
    }
    assert(path_to(c, 0, 0) == seq![(0int, 0int)]);
    let mut r: Vec<(u32, u32)> = Vec::new();
    let mut k: usize = trace.len();
    while k > 0
        invariant
            k <= trace@.len(),
            r@.len() + k == trace@.len(),
            trace@.len() == full.len(),
            forall|t: int|
                0 <= t < trace@.len() ==> (#[trigger] trace@[t].0 as int, trace@[t].1 as int)
                    == full[full.len() - 1 - t],
            forall|t: int|
                0 <= t < r@.len() ==> (#[trigger] r@[t].0 as int, r@[t].1 as int) == full[t],
        decreases k,
    {
        k = k - 1;
        let q = trace[k];
        assert((q.0 as int, q.1 as int) == full[full.len() - 1 - k]);
        r.push(q);
    }
    assert(pairs_view(r@) =~= full);
    r
}

} // verus!
