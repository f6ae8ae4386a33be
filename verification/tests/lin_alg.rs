use chemcat::lin_alg::{normalize_sol, row_mul_sub, row_reduce, simplify_sol, solve, Solution};
use chemcat::num::{abs_u32, div_exact, gcd, lcm_div};
use chemcat::ArithmeticOverflow;

fn dot(a: &[i32], b: &[i32]) -> i64 {
    a.iter().zip(b.iter()).map(|(x, y)| *x as i64 * *y as i64).sum()
}

fn reduced(mut mat: Vec<Vec<i32>>) -> (Vec<Vec<i32>>, usize) {
    let rank = row_reduce(&mut mat).unwrap();
    (mat, rank)
}

#[test]
fn gcd_is_the_greatest_common_divisor() {
    assert_eq!(gcd(12, 18), 6);
    assert_eq!(gcd(-12, 18), 6);
    assert_eq!(gcd(12, -18), 6);
    assert_eq!(gcd(0, 5), 5);
    assert_eq!(gcd(7, 0), 7);
    assert_eq!(gcd(0, 0), 0);
    assert_eq!(gcd(17, 5), 1);
    assert_eq!(gcd(i32::MIN, 0), 2147483648);
    assert_eq!(gcd(i32::MIN, i32::MIN), 2147483648);
    assert_eq!(gcd(2024, 748), 44);
}

#[test]
fn abs_u32_covers_the_least_integer() {
    assert_eq!(abs_u32(0), 0);
    assert_eq!(abs_u32(-5), 5);
    assert_eq!(abs_u32(5), 5);
    assert_eq!(abs_u32(i32::MIN), 2147483648);
}

#[test]
fn div_exact_keeps_the_sign() {
    assert_eq!(div_exact(12, 4), 3);
    assert_eq!(div_exact(-12, 4), -3);
    assert_eq!(div_exact(0, 4), 0);
    assert_eq!(div_exact(i32::MIN, 2147483648), -1);
    assert_eq!(div_exact(i32::MIN, 1), i32::MIN);
}

#[test]
fn lcm_div_gives_the_cross_multipliers() {
    assert_eq!(lcm_div(4, 6), (3, 2));
    assert_eq!(lcm_div(-4, 6), (3, -2));
    assert_eq!(lcm_div(4, -6), (-3, 2));
    assert_eq!(lcm_div(0, 5), (1, 0));
    assert_eq!(lcm_div(5, 0), (0, 1));
    assert_eq!(lcm_div(-5, 0), (0, -1));
    assert_eq!(lcm_div(7, 7), (1, 1));
}

#[test]
fn row_mul_sub_combines_two_rows() {
    assert_eq!(row_mul_sub(&vec![1, 2, 3], 2, &vec![4, 5, 6], 3), Ok(vec![-10, -11, -12]));
    assert_eq!(row_mul_sub(&vec![], 2, &vec![], 3), Ok(vec![]));
}

#[test]
fn row_mul_sub_fails_only_where_the_result_overflows() {
    assert_eq!(row_mul_sub(&vec![i32::MAX], 2, &vec![0], 1), Err(ArithmeticOverflow));
    // Both products leave the range, the difference does not.
    assert_eq!(row_mul_sub(&vec![i32::MAX], 2, &vec![i32::MAX], 2), Ok(vec![0]));
    assert_eq!(row_mul_sub(&vec![i32::MIN], 1, &vec![1], 1), Err(ArithmeticOverflow));
    assert_eq!(row_mul_sub(&vec![i32::MIN], 1, &vec![0], 1), Ok(vec![i32::MIN]));
}

#[test]
fn row_reduce_picks_the_least_pivot() {
    let (mat, rank) = reduced(vec![vec![4, 2], vec![2, 3], vec![-2, 1]]);
    assert_eq!(rank, 2);
    // Pivot 2 (row 1) is chosen before -2 (row 2) and 4 (row 0).
    assert_eq!(mat[0], vec![2, 3]);
    assert_eq!(mat[1][0], 0);
    assert_eq!(mat[2], vec![0, 0]);
    assert_eq!(mat, vec![vec![2, 3], vec![0, -4], vec![0, 0]]);
}

#[test]
fn row_reduce_eliminates_without_fractions() {
    let (mat, rank) = reduced(vec![vec![2, 0, -2], vec![0, 2, -1]]);
    assert_eq!(rank, 2);
    assert_eq!(mat, vec![vec![2, 0, -2], vec![0, 2, -1]]);
    let (mat, rank) = reduced(vec![vec![3, 1], vec![2, 1]]);
    assert_eq!(rank, 2);
    // Row [3, 1] times 2 minus row [2, 1] times 3.
    assert_eq!(mat, vec![vec![2, 1], vec![0, -1]]);
}

#[test]
fn row_reduce_skips_a_column_without_pivot() {
    let (mat, rank) = reduced(vec![vec![0, 0, 1], vec![0, 0, 2]]);
    assert_eq!(rank, 1);
    assert_eq!(mat, vec![vec![0, 0, 1], vec![0, 0, 0]]);
    let (mat, rank) = reduced(vec![vec![0, 0], vec![0, 0]]);
    assert_eq!(rank, 0);
    assert_eq!(mat, vec![vec![0, 0], vec![0, 0]]);
}

#[test]
fn row_reduce_accepts_a_matrix_without_columns() {
    let (mat, rank) = reduced(vec![vec![], vec![]]);
    assert_eq!(rank, 0);
    assert_eq!(mat, vec![Vec::<i32>::new(), vec![]]);
}

#[test]
fn rank_does_not_depend_on_the_order_of_rows() {
    let rows = vec![vec![1, 2, 3], vec![2, 4, 6], vec![0, 1, 1], vec![1, 3, 4]];
    let orders: [[usize; 4]; 6] =
        [[0, 1, 2, 3], [3, 2, 1, 0], [1, 0, 3, 2], [2, 3, 0, 1], [1, 2, 3, 0], [0, 2, 1, 3]];
    for order in orders {
        let permuted: Vec<Vec<i32>> = order.iter().map(|i| rows[*i].clone()).collect();
        assert_eq!(reduced(permuted).1, 2);
    }
}

#[test]
fn row_reduce_keeps_the_null_space() {
    let given = vec![vec![2, 0, -2], vec![0, 2, -1], vec![2, 2, -3]];
    let (mat, rank) = reduced(given.clone());
    assert_eq!(rank, 2);
    let x = [2, 1, 2];
    for row in given.iter().chain(mat.iter()) {
        assert_eq!(dot(row, &x), 0);
    }
}

#[test]
fn row_reduce_reports_overflow() {
    let mut mat = vec![vec![65536, 1], vec![65537, i32::MAX]];
    assert_eq!(row_reduce(&mut mat), Err(ArithmeticOverflow));
    assert_eq!(mat.len(), 2);
    assert_eq!(mat[0].len(), 2);
    assert_eq!(mat[1].len(), 2);
}

#[test]
fn solve_returns_no_vector_for_full_rank() {
    let (mat, rank) = reduced(vec![vec![1, 0], vec![0, 1]]);
    assert!(matches!(solve(mat, rank), Ok(Solution::NoSolution)));
}

#[test]
fn solve_handles_a_free_column_in_the_middle() {
    // The second column has no pivot.
    let given = vec![vec![2, 2, 0], vec![0, 0, -2]];
    let (mat, rank) = reduced(given.clone());
    assert_eq!(rank, 2);
    match solve(mat, rank) {
        Ok(Solution::Unique(v)) => {
            assert_eq!(v, vec![1, -1, 0]);
            for row in &given {
                assert_eq!(dot(row, &v), 0);
            }
        }
        other => panic!("expected a unique solution, got {:?}", other),
    }
}

#[test]
fn solve_handles_the_zero_matrix() {
    let (mat, rank) = reduced(vec![vec![0]]);
    assert_eq!(rank, 0);
    match solve(mat, rank) {
        Ok(Solution::Unique(v)) => assert_eq!(v, vec![1]),
        other => panic!("expected a unique solution, got {:?}", other),
    }
    let (mat, rank) = reduced(vec![vec![0, 0, 0]]);
    match solve(mat, rank) {
        Ok(Solution::Infinite(b)) => {
            assert_eq!(b, vec![vec![1, 0, 0], vec![0, 1, 0], vec![0, 0, 1]])
        }
        other => panic!("expected a basis, got {:?}", other),
    }
}

#[test]
fn unique_solution_is_minimal() {
    let (mat, rank) = reduced(vec![vec![6, -4]]);
    match solve(mat, rank) {
        Ok(Solution::Unique(v)) => {
            assert_eq!(v, vec![2, 3]);
            let g = v.iter().fold(0, |g, x| gcd(g as i32, *x));
            assert_eq!(g, 1);
        }
        other => panic!("expected a unique solution, got {:?}", other),
    }
}

#[test]
fn basis_has_one_vector_for_each_free_column() {
    let given = vec![vec![1, 1, 1, 1], vec![1, 2, 3, 4]];
    let (mat, rank) = reduced(given.clone());
    assert_eq!(rank, 2);
    match solve(mat, rank) {
        Ok(Solution::Infinite(basis)) => {
            assert_eq!(basis.len(), 2);
            for v in &basis {
                for row in &given {
                    assert_eq!(dot(row, v), 0);
                }
            }
            // The vectors are independent: they have rank 2 themselves.
            assert_eq!(reduced(basis.clone()).1, 2);
            assert_eq!(basis, vec![vec![1, -2, 1, 0], vec![2, -3, 0, 1]]);
        }
        other => panic!("expected a basis, got {:?}", other),
    }
}

#[test]
fn normalize_sol_flips_a_negative_majority() {
    let mut v = vec![-1, -2, 3];
    assert_eq!(normalize_sol(&mut v), Ok(()));
    assert_eq!(v, vec![1, 2, -3]);
    let mut v = vec![1, 2, -3];
    assert_eq!(normalize_sol(&mut v), Ok(()));
    assert_eq!(v, vec![1, 2, -3]);
}

#[test]
fn normalize_sol_breaks_a_tie_by_the_first_nonzero_entry() {
    let mut v = vec![0, -1, 1];
    assert_eq!(normalize_sol(&mut v), Ok(()));
    assert_eq!(v, vec![0, 1, -1]);
    let mut v = vec![0, 1, -1];
    assert_eq!(normalize_sol(&mut v), Ok(()));
    assert_eq!(v, vec![0, 1, -1]);
    let mut v = vec![0, 0];
    assert_eq!(normalize_sol(&mut v), Ok(()));
    assert_eq!(v, vec![0, 0]);
}

#[test]
fn normalize_sol_is_idempotent() {
    for start in [vec![-3, 6, -9], vec![2, -4], vec![0, -5, 5, 0], vec![7], vec![]] {
        let mut once = start.clone();
        assert_eq!(normalize_sol(&mut once), Ok(()));
        simplify_sol(&mut once);
        let mut twice = once.clone();
        assert_eq!(normalize_sol(&mut twice), Ok(()));
        simplify_sol(&mut twice);
        assert_eq!(once, twice);
    }
}

#[test]
fn normalize_sol_fails_where_an_entry_cannot_be_negated() {
    let mut v = vec![i32::MIN, 1, -1];
    assert_eq!(normalize_sol(&mut v), Err(ArithmeticOverflow));
    assert_eq!(v, vec![i32::MIN, 1, -1]);
    let mut v = vec![i32::MIN, 1, 1];
    assert_eq!(normalize_sol(&mut v), Ok(()));
    assert_eq!(v, vec![i32::MIN, 1, 1]);
}

#[test]
fn simplify_sol_divides_by_the_content() {
    let mut v = vec![4, -6, 10];
    simplify_sol(&mut v);
    assert_eq!(v, vec![2, -3, 5]);
    let mut v = vec![0, 0];
    simplify_sol(&mut v);
    assert_eq!(v, vec![0, 0]);
    let mut v = vec![3, 5];
    simplify_sol(&mut v);
    assert_eq!(v, vec![3, 5]);
    let mut v = vec![i32::MIN, 0];
    simplify_sol(&mut v);
    assert_eq!(v, vec![-1, 0]);
}

#[test]
fn solve_reports_overflow() {
    // Back substitution scales the free variable by 65537 * 65539.
    let mat = vec![vec![65537, 1, 0], vec![0, 65539, 1]];
    assert!(matches!(solve(mat, 2), Err(ArithmeticOverflow)));
}

fn sign_sum(v: &[i32]) -> i32 {
    v.iter().map(|x| x.signum()).sum()
}

#[test]
fn random_matrices_are_solved_consistently() {
    let mut state: u64 = 0x9E3779B97F4A7C15;
    let mut next = |m: u64| -> u64 {
        state ^= state << 13;
        state ^= state >> 7;
        state ^= state << 17;
        state % m
    };
    let mut kinds = [0usize; 3];
    for _ in 0..3000 {
        let rows = 1 + next(4) as usize;
        let cols = 1 + next(5) as usize;
        let mut given: Vec<Vec<i32>> = (0..rows)
            .map(|_| (0..cols).map(|_| next(7) as i32 - 3).collect())
            .collect();
        // Make dependent rows common.
        if rows > 1 && next(2) == 0 {
            let k = next(3) as i32 - 1;
            given[rows - 1] = given[0].iter().map(|x| x * k).collect();
        }
        let (mat, rank) = reduced(given.clone());
        assert!(rank <= rows && rank <= cols);
        assert!(chemcat::echelon::is_echelon(&mat, rank));

        // The rank does not depend on the order of the rows.
        let mut turned = given.clone();
        turned.rotate_left(1);
        assert_eq!(reduced(turned).1, rank);
        let mut flipped = given.clone();
        flipped.reverse();
        assert_eq!(reduced(flipped).1, rank);

        let solution = solve(mat, rank).unwrap();
        let vectors = match solution {
            Solution::NoSolution => {
                assert_eq!(cols, rank);
                kinds[0] += 1;
                vec![]
            }
            Solution::Unique(v) => {
                assert_eq!(cols, rank + 1);
                kinds[1] += 1;
                vec![v]
            }
            Solution::Infinite(b) => {
                assert!(cols > rank + 1);
                kinds[2] += 1;
                b
            }
        };
        assert_eq!(vectors.len(), cols - rank);
        for v in &vectors {
            assert_eq!(v.len(), cols);
            for row in &given {
                assert_eq!(dot(row, v), 0, "{:?} {:?}", given, v);
            }
            assert_eq!(v.iter().fold(0, |g, x| gcd(g as i32, *x)), 1);
            let s = sign_sum(v);
            let first = *v.iter().find(|x| **x != 0).unwrap();
            assert!(s > 0 || (s == 0 && first > 0), "{:?}", v);
            let mut again = v.clone();
            assert_eq!(normalize_sol(&mut again), Ok(()));
            simplify_sol(&mut again);
            assert_eq!(&again, v);
        }
        if !vectors.is_empty() {
            assert_eq!(reduced(vectors.clone()).1, vectors.len());
        }
    }
    assert!(kinds.iter().all(|k| *k > 100), "{:?}", kinds);
}
