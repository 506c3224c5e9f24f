use rudtw::dtw::{accumulated_cost_matrix, cost_matrix, dtw_path, DtwError};
use rudtw::grid::Grid;
use rudtw::path::{choose_step, warping_path, Step};

fn check_warping_path(p: &[(u32, u32)], n: usize, m: usize) {
    assert!(!p.is_empty());
    assert_eq!(p[0], (0, 0));
    assert_eq!(p[p.len() - 1], ((n - 1) as u32, (m - 1) as u32));
    for w in p.windows(2) {
        let di = w[1].0 - w[0].0;
        let dj = w[1].1 - w[0].1;
        assert!(di <= 1 && dj <= 1);
        assert!(di + dj >= 1);
    }
    for q in p {
        assert!((q.0 as usize) < n && (q.1 as usize) < m);
    }
    assert!(p.len() >= n.max(m));
    assert!(p.len() <= n + m - 1);
}

#[test]
fn identical_sequences_align_on_the_diagonal() {
    let x = vec![1, 2, 3];
    let y = vec![1, 2, 3];
    let c = cost_matrix(&x, &y);
    for i in 0..3 {
        for j in 0..3 {
            if i == j {
                assert_eq!(c.get(i, j), 0);
            } else {
                assert!(c.get(i, j) > 0);
            }
        }
    }
    let p = dtw_path(&x, &y).unwrap();
    assert_eq!(p, vec![(0, 0), (1, 1), (2, 2)]);
}

#[test]
fn uniform_cost_follows_the_diagonal() {
    let x = vec![0, 0, 0];
    let y = vec![1, 1, 1];
    let c = cost_matrix(&x, &y);
    for i in 0..3 {
        for j in 0..3 {
            assert_eq!(c.get(i, j), 1);
        }
    }
    let d = accumulated_cost_matrix(c);
    for i in 0..3 {
        for j in 0..3 {
            assert_eq!(d.get(i, j), (i.max(j) + 1) as u64);
        }
    }
    let p = dtw_path(&x, &y).unwrap();
    assert_eq!(p.len(), 3);
    assert_eq!(p, vec![(0, 0), (1, 1), (2, 2)]);
}

#[test]
fn single_row_walks_along_the_columns() {
    let x = vec![4];
    let y = vec![1, 2, 3, 4, 5];
    let p = dtw_path(&x, &y).unwrap();
    assert_eq!(p.len(), 5);
    assert!(p.iter().all(|q| q.0 == 0));
    assert_eq!(p, vec![(0, 0), (0, 1), (0, 2), (0, 3), (0, 4)]);
}

#[test]
fn single_column_walks_along_the_rows() {
    let x = vec![7, -1, 0];
    let y = vec![2];
    let p = dtw_path(&x, &y).unwrap();
    assert_eq!(p, vec![(0, 0), (1, 0), (2, 0)]);
}

#[test]
fn empty_first_sequence_is_rejected() {
    let x: Vec<i32> = vec![];
    let y = vec![1, 2, 3];
    assert_eq!(dtw_path(&x, &y), Err(DtwError::EmptyInput));
}

#[test]
fn empty_second_sequence_is_rejected() {
    let x = vec![1, 2, 3];
    let y: Vec<i32> = vec![];
    assert_eq!(dtw_path(&x, &y), Err(DtwError::EmptyInput));
}

#[test]
fn both_empty_are_rejected() {
    let x: Vec<i32> = vec![];
    let y: Vec<i32> = vec![];
    assert_eq!(dtw_path(&x, &y), Err(DtwError::EmptyInput));
}

#[test]
fn cost_is_the_absolute_difference() {
    let x = vec![-3, 5, i32::MIN];
    let y = vec![4, -2, i32::MAX];
    let c = cost_matrix(&x, &y);
    assert_eq!(c.nrows(), 3);
    assert_eq!(c.ncols(), 3);
    assert_eq!(c.get(0, 0), 7);
    assert_eq!(c.get(0, 1), 1);
    assert_eq!(c.get(1, 0), 1);
    assert_eq!(c.get(1, 1), 7);
    assert_eq!(c.get(2, 2), u32::MAX as u64);
    assert_eq!(c.get(2, 1), 2147483646);
}

#[test]
fn accumulation_follows_the_recurrence() {
    let x = vec![1, 3, 4, 9];
    let y = vec![1, 6, 2];
    let d = accumulated_cost_matrix(cost_matrix(&x, &y));
    // costs: [0 5 1] [2 3 1] [3 2 2] [8 3 7]
    let expected: [[u64; 3]; 4] = [[0, 5, 6], [2, 3, 4], [5, 4, 5], [13, 7, 11]];
    for i in 0..4 {
        for j in 0..3 {
            assert_eq!(d.get(i, j), expected[i][j]);
        }
    }
}

#[test]
fn accumulation_first_row_and_column_are_running_sums() {
    let x = vec![0, 3, -2, 8];
    let y = vec![5, 1, 1, 0, 9];
    let c = cost_matrix(&x, &y);
    let d = accumulated_cost_matrix(cost_matrix(&x, &y));
    let mut sum = 0;
    for i in 0..4 {
        sum += c.get(i, 0);
        assert_eq!(d.get(i, 0), sum);
        if i > 0 {
            assert!(d.get(i, 0) >= d.get(i - 1, 0));
        }
    }
    let mut sum = 0;
    for j in 0..5 {
        sum += c.get(0, j);
        assert_eq!(d.get(0, j), sum);
    }
    for i in 0..4 {
        for j in 0..5 {
            assert!(d.get(i, j) >= d.get(0, 0));
        }
    }
}

#[test]
fn accumulation_can_drop_off_the_axes() {
    let x = vec![0, 100];
    let y = vec![0, 100];
    let d = accumulated_cost_matrix(cost_matrix(&x, &y));
    assert_eq!(d.get(0, 1), 100);
    assert_eq!(d.get(1, 1), 0);
}

#[test]
fn accumulated_cost_never_decreases_along_the_path() {
    let x = vec![3, 1, 4, 1, 5, 9, 2, 6];
    let y = vec![2, 7, 1, 8, 2, 8];
    let d = accumulated_cost_matrix(cost_matrix(&x, &y));
    let p = dtw_path(&x, &y).unwrap();
    for w in p.windows(2) {
        let a = d.get(w[0].0 as usize, w[0].1 as usize);
        let b = d.get(w[1].0 as usize, w[1].1 as usize);
        assert!(a <= b);
    }
}

#[test]
fn paths_are_warping_paths() {
    let cases: Vec<(Vec<i32>, Vec<i32>)> = vec![
        (vec![1, 2, 3, 4, 5], vec![5, 4, 3]),
        (vec![0, 10, 0, 10], vec![10, 0]),
        (vec![-5], vec![-5]),
        (vec![1, 1, 1, 1, 1, 1], vec![1, 1]),
        (vec![i32::MIN, i32::MAX], vec![i32::MAX, i32::MIN, 0]),
    ];
    for (x, y) in cases {
        let p = dtw_path(&x, &y).unwrap();
        check_warping_path(&p, x.len(), y.len());
    }
}

#[test]
fn one_by_one_path_is_the_origin() {
    let p = dtw_path(&vec![3], &vec![-8]).unwrap();
    assert_eq!(p, vec![(0, 0)]);
}

#[test]
fn repeated_calls_give_the_same_path() {
    let x = vec![2, 9, 4, 4, 0, 7];
    let y = vec![1, 5, 5, 8];
    let a = dtw_path(&x, &y).unwrap();
    let b = dtw_path(&x, &y).unwrap();
    assert_eq!(a, b);
}

#[test]
fn tie_break_prefers_up_only_when_strictly_least() {
    assert_eq!(choose_step(1, 2, 3), Step::Up);
    assert_eq!(choose_step(1, 2, 1), Step::Left);
    assert_eq!(choose_step(1, 2, 0), Step::Left);
}

#[test]
fn tie_break_between_diagonal_and_left() {
    assert_eq!(choose_step(2, 1, 3), Step::Diagonal);
    assert_eq!(choose_step(1, 1, 2), Step::Diagonal);
    assert_eq!(choose_step(1, 1, 1), Step::Left);
    assert_eq!(choose_step(5, 3, 3), Step::Left);
    assert_eq!(choose_step(5, 4, 3), Step::Left);
}

#[test]
fn backtrace_over_a_given_matrix() {
    // up is strictly least at (2, 2) and at (1, 2); then the first row is walked left
    let rows = vec![vec![0, 9, 4], vec![9, 5, 1], vec![9, 5, 9]];
    let d = Grid::from_rows(&rows, 3);
    let p = warping_path(&d);
    check_warping_path(&p, 3, 3);
    assert_eq!(p, vec![(0, 0), (0, 1), (0, 2), (1, 2), (2, 2)]);
}

#[test]
fn backtrace_resolves_a_three_way_tie_to_the_left() {
    let d = Grid::from_rows(&vec![vec![1, 1], vec![1, 9]], 2);
    assert_eq!(warping_path(&d), vec![(0, 0), (1, 0), (1, 1)]);
}

#[test]
fn backtrace_of_a_single_cell() {
    let d = Grid::from_rows(&vec![vec![42]], 1);
    assert_eq!(warping_path(&d), vec![(0, 0)]);
}

#[test]
fn grid_from_rows_keeps_values() {
    let rows = vec![vec![1, 2, 3], vec![4, 5, 6]];
    let mut g = Grid::from_rows(&rows, 3);
    assert_eq!(g.nrows(), 2);
    assert_eq!(g.ncols(), 3);
    assert_eq!(g.get(1, 2), 6);
    assert_eq!(g.get(0, 1), 2);
    g.set(0, 1, 20);
    assert_eq!(g.get(0, 1), 20);
    assert_eq!(g.get(1, 1), 5);
}

#[test]
fn grid_zeros_is_zero() {
    let g = Grid::zeros(2, 4);
    assert_eq!(g.nrows(), 2);
    assert_eq!(g.ncols(), 4);
    for i in 0..2 {
        for j in 0..4 {
            assert_eq!(g.get(i, j), 0);
        }
    }
}
