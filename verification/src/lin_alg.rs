//! Bare bone linear algebra over exact integers.

use crate::back_substitution::{
    back_next, back_step, back_substitute, lemma_back_step, unique_solution, unique_state,
};
use crate::basis::{
    augmented, basis, basis_raw, first_nonzero, lemma_first_nonzero, lemma_upper_step,
    reduce_upper_from, upper_state,
};
use crate::echelon::{
    echelon, lemma_echelon_rank_bound, lemma_echelon_top, lemma_lead, lemma_lead_is,
};
use crate::elimination::{
    eliminate, eliminate_row, least_pivot, lemma_least_pivot, lemma_reduce_from,
    lemma_replace_null_space, lemma_swap_null_space, reduce, reduce_from,
};
use crate::error::ArithmeticOverflow;
use crate::matrix::{
    col, fits_i32, in_null, lemma_transpose_fits, mat_fits_i32, rect, rows, same_null_space, swap,
    swap_rows, transpose, unit_vec,
};
use crate::normal::{
    content, finish, finish_all, is_normal, leans_negative, lemma_vec_gcd_divides, negated,
    normalized, sign_sum, simplified, vec_gcd,
};
use crate::null_space::{lemma_solve_spans, lemma_solve_spec, solve_spec};
use crate::num::{abs_u32, div_exact, gcd_u32, in_i32, lcm_div, lemma_product_bound};
use crate::rank::{lemma_rank_rows, lemma_reduce_rank, most_independent_rows, row_rank_is};
use crate::span::{in_rational_span, independent};
use crate::vector::{dot, dot_upto, ints, lemma_dot_zero, row_comb, unit};
use vstd::prelude::*;

verus! {

/// Computes `dest * dest_m - src * src_m`, entry by entry.
///
/// Fails if an entry of the result does not fit in 32 bits. The two
/// products are computed exactly, so that only the result counts.
pub fn row_mul_sub(dest: &Vec<i32>, dest_m: i32, src: &Vec<i32>, src_m: i32) -> (res: Result<
    Vec<i32>,
    ArithmeticOverflow,
>)
    requires
        dest.len() == src.len(),
    ensures
        res is Ok <==> fits_i32(row_comb(ints(dest@), dest_m as int, ints(src@), src_m as int)),
        res is Ok ==> ints(res->Ok_0@) == row_comb(
            ints(dest@),
            dest_m as int,
            ints(src@),
            src_m as int,
        ),
{
    let ghost target = row_comb(ints(dest@), dest_m as int, ints(src@), src_m as int);
    let n = dest.len();
    let mut out: Vec<i32> = Vec::new();
    let mut j: usize = 0;
    while j < n
        invariant
            n == dest.len(),
            n == src.len(),
            j <= n,
            out.len() == j,
            target == row_comb(ints(dest@), dest_m as int, ints(src@), src_m as int),
            forall|k: int| 0 <= k < j ==> out[k] == #[trigger] target[k],
        decreases n - j,
    {
        proof {
            lemma_product_bound(dest[j as int] as int, dest_m as int);
            lemma_product_bound(src[j as int] as int, src_m as int);
        }
        let v: i64 = (dest[j] as i64) * (dest_m as i64) - (src[j] as i64) * (src_m as i64);
        assert(v == target[j as int]);
        if v < (i32::MIN as i64) || v > (i32::MAX as i64) {
            assert(!in_i32(target[j as int]));
            return Err(ArithmeticOverflow);
        }
        out.push(v as i32);
        j += 1;
    }
    assert(ints(out@) =~= target);
    Ok(out)
}

/// Locates the first row at or below `row_i` whose entry in column `col_i`
/// has the least nonzero absolute value.
fn find_pivot(mat: &Vec<Vec<i32>>, row_i: usize, col_i: usize) -> (res: Option<usize>)
    requires
        row_i <= mat.len(),
        rect(rows(mat@), mat[0].len() as nat),
        mat.len() > 0,
        col_i < mat[0].len(),
    ensures
        match res {
            Some(p) => least_pivot(rows(mat@), col_i as int, row_i as int, mat.len() as int)
                == Some(p as int) && row_i <= p < mat.len(),
            None => least_pivot(rows(mat@), col_i as int, row_i as int, mat.len() as int)
                is None,
        },
{
    let n = mat.len();
    let ghost m = rows(mat@);
    let mut best: Option<usize> = None;
    let mut k: usize = row_i;
    while k < n
        invariant
            n == mat.len(),
            n > 0,
            m == rows(mat@),
            rect(m, mat[0].len() as nat),
            col_i < mat[0].len(),
            row_i <= k <= n,
            match best {
                Some(p) => least_pivot(m, col_i as int, row_i as int, k as int) == Some(p as int)
                    && row_i <= p < k,
                None => least_pivot(m, col_i as int, row_i as int, k as int) is None,
            },
        decreases n - k,
    {
        assert(m[k as int].len() == mat[0].len());
        let x = mat[k][col_i];
        assert(x == m[k as int][col_i as int]);
        if x != 0 {
            match best {
                None => {
                    best = Some(k);
                },
                Some(p) => {
                    assert(m[p as int].len() == mat[0].len());
                    assert(mat[p as int][col_i as int] == m[p as int][col_i as int]);
                    if abs_u32(x) < abs_u32(mat[p][col_i]) {
                        best = Some(k);
                    }
                },
            }
        }
        k += 1;
    }
    best
}

/// Cancels the entry in column `col_i` of every row below the pivot row `row_i`.
fn eliminate_below(mat: &mut Vec<Vec<i32>>, row_i: usize, col_i: usize) -> (res: Result<
    (),
    ArithmeticOverflow,
>)
    requires
        row_i < old(mat).len(),
        rect(rows(old(mat)@), old(mat)[0].len() as nat),
        col_i < old(mat)[0].len(),
        old(mat)[row_i as int][col_i as int] != 0,
    ensures
        final(mat).len() == old(mat).len(),
        rect(rows(final(mat)@), old(mat)[0].len() as nat),
        res is Ok <==> mat_fits_i32(eliminate(rows(old(mat)@), row_i as int, col_i as int)),
        res is Ok ==> rows(final(mat)@) == eliminate(
            rows(old(mat)@),
            row_i as int,
            col_i as int,
        ),
        same_null_space(rows(old(mat)@), rows(final(mat)@)),
{
    let n = mat.len();
    let ghost cols = mat[0].len() as nat;
    let ghost m = rows(mat@);
    let ghost e = eliminate(m, row_i as int, col_i as int);
    let mut k: usize = row_i + 1;
    while k < n
        invariant
            n == mat.len(),
            n == m.len(),
            m == rows(old(mat)@),
            n == old(mat).len(),
            cols == old(mat)[0].len(),
            row_i < k <= n,
            rect(m, cols),
            rect(rows(mat@), cols),
            col_i < cols,
            m[row_i as int][col_i as int] != 0,
            e == eliminate(m, row_i as int, col_i as int),
            forall|i: int| 0 <= i < k ==> #[trigger] rows(mat@)[i] == e[i],
            forall|i: int| k <= i < n ==> #[trigger] rows(mat@)[i] == m[i],
            same_null_space(m, rows(mat@)),
        decreases n - k,
    {
        assert(rows(mat@)[k as int] == m[k as int]);
        assert(rows(mat@)[row_i as int] == m[row_i as int]);
        assert(rows(mat@)[k as int].len() == cols);
        assert(rows(mat@)[row_i as int].len() == cols);
        let cur = mat[k][col_i];
        assert(cur == m[k as int][col_i as int]);
        if cur != 0 {
            let pivot = mat[row_i][col_i];
            assert(pivot == m[row_i as int][col_i as int]);
            let (cur_m, pivot_m) = lcm_div(cur, pivot);
            match row_mul_sub(&mat[k], cur_m, &mat[row_i], pivot_m) {
                Ok(row) => {
                    let ghost before = rows(mat@);
                    mat[k] = row;
                    assert(rows(mat@)[k as int] == e[k as int]);
                    proof {
                        assert(e[row_i as int] == m[row_i as int]);
                        lemma_replace_null_space(
                            before,
                            cols,
                            row_i as int,
                            k as int,
                            col_i as int,
                        );
                        assert(rows(mat@) =~= before.update(
                            k as int,
                            eliminate_row(before[k as int], before[row_i as int], col_i as int),
                        ));
                        assert forall|x: Seq<int>| in_null(m, x) <==> in_null(rows(mat@), x) by {
                            assert(in_null(m, x) <==> in_null(before, x));
                        }
                    }
                    assert forall|i: int| 0 <= i < k + 1 implies #[trigger] rows(mat@)[i]
                        == e[i] by {
                        if i < k {
                            assert(rows(mat@)[i] == before[i]);
                        }
                    }
                    assert forall|i: int| k + 1 <= i < n implies #[trigger] rows(mat@)[i]
                        == m[i] by {
                        assert(rows(mat@)[i] == before[i]);
                    }
                    assert(rect(rows(mat@), cols)) by {
                        assert forall|i: int| 0 <= i < n implies (#[trigger] rows(
                            mat@,
                        )[i]).len() == cols by {
                            if i != k {
                                assert(rows(mat@)[i] == before[i]);
                            }
                        }
                    }
                },
                Err(err) => {
                    assert(!fits_i32(e[k as int]));
                    return Err(err);
                },
            }
        }
        k += 1;
    }
    proof {
        assert(rows(mat@) =~= e);
        assert forall|i: int| 0 <= i < e.len() implies fits_i32(#[trigger] e[i]) by {
            assert(rows(mat@)[i] == e[i]);
        }
    }
    Ok(())
}

/// Transforms a matrix into row echelon form by fraction-free Gaussian
/// elimination and returns its rank.
///
/// In each column the pivot is the first entry of least nonzero absolute
/// value at or below the current row; the rows below it are cancelled by
/// cross-multiplication with the factors of [`lcm_div`], without division.
///
/// The rank is the row rank of the matrix: the dimension of its row space
/// and the largest number of independent rows.
///
/// Fails if an entry leaves the range of 32 bits. The matrix is then left
/// partly reduced: it keeps its shape and its null space.
pub fn row_reduce(mat: &mut Vec<Vec<i32>>) -> (res: Result<usize, ArithmeticOverflow>)
    requires
        old(mat).len() > 0,
        rect(rows(old(mat)@), old(mat)[0].len() as nat),
    ensures
        final(mat).len() == old(mat).len(),
        rect(rows(final(mat)@), old(mat)[0].len() as nat),
        res is Ok <==> reduce(rows(old(mat)@)) is Some,
        res is Ok ==> reduce(rows(old(mat)@)) == Some((rows(final(mat)@), res->Ok_0 as nat)),
        res is Ok ==> echelon(
            rows(final(mat)@),
            old(mat)[0].len() as nat,
            res->Ok_0 as nat,
        ),
        same_null_space(rows(old(mat)@), rows(final(mat)@)),
        res is Ok ==> row_rank_is(rows(old(mat)@), old(mat)[0].len() as nat, res->Ok_0 as nat),
        res is Ok ==> most_independent_rows(
            rows(old(mat)@),
            old(mat)[0].len() as nat,
            res->Ok_0 as nat,
        ),
{
    let row_n = mat.len();
    let col_n = mat[0].len();
    let ghost cols = col_n as nat;
    let ghost start = rows(mat@);
    assert(start[0].len() == cols);

    let mut row_i: usize = 0;
    let mut col_i: usize = 0;

    while row_i < row_n && col_i < col_n
        invariant
            row_n == mat.len(),
            row_n == old(mat).len(),
            start == rows(old(mat)@),
            cols == old(mat)[0].len(),
            row_n > 0,
            col_n == cols,
            rect(rows(mat@), cols),
            row_i <= row_n,
            col_i <= col_n,
            reduce_from(start, cols, 0, 0) == reduce_from(rows(mat@), cols, row_i as nat, col_i as nat),
            same_null_space(start, rows(mat@)),
        decreases col_n - col_i,
    {
        assert(rows(mat@)[0].len() == cols);
        match find_pivot(mat, row_i, col_i) {
            None => {
                col_i += 1;
            },
            Some(prev_pivot_i) => {
                let ghost before = rows(mat@);
                swap(mat, row_i, prev_pivot_i);
                proof {
                    let sw = swap_rows(before, row_i as int, prev_pivot_i as int);
                    assert(rows(mat@) =~= sw);
                    lemma_least_pivot(before, col_i as int, row_i as int, row_n as int);
                    assert(before[prev_pivot_i as int].len() == cols);
                    assert(before[row_i as int].len() == cols);
                    assert(rect(sw, cols));
                    assert(sw[0].len() == cols);
                    lemma_swap_null_space(before, row_i as int, prev_pivot_i as int);
                }
                let ghost swapped = rows(mat@);
                let step = eliminate_below(mat, row_i, col_i);
                proof {
                    assert forall|x: Seq<int>| in_null(start, x) <==> in_null(rows(mat@), x) by {
                        assert(in_null(start, x) <==> in_null(before, x));
                        assert(in_null(before, x) <==> in_null(swapped, x));
                        assert(in_null(swapped, x) <==> in_null(rows(mat@), x));
                    }
                }
                match step {
                    Ok(()) => {},
                    Err(err) => {
                        return Err(err);
                    },
                }
                row_i += 1;
                col_i += 1;
            },
        }
    }
    proof {
        lemma_reduce_from(start, cols, 0, 0);
        lemma_reduce_rank(start);
        lemma_rank_rows(start, cols, row_i as nat);
    }
    Ok(row_i)
}

/// Normalizes a solution, so that the positive coefficients outnumber the
/// negative ones or, if there are as many of each, the first nonzero
/// coefficient is positive. A vector that cannot be negated in 32 bits is
/// left as it is.
pub fn normalize_sol(sol: &mut Vec<i32>) -> (res: Result<(), ArithmeticOverflow>)
    ensures
        res is Ok <==> fits_i32(normalized(ints(old(sol)@))),
        res is Ok ==> ints(final(sol)@) == normalized(ints(old(sol)@)),
        res is Err ==> final(sol)@ == old(sol)@,
{
    let n = sol.len();
    let ghost v = ints(sol@);
    let mut balance: i128 = 0;
    let mut first: i32 = 0;
    let mut has_min = false;
    let mut j: usize = 0;
    while j < n
        invariant
            n == sol.len(),
            sol@ == old(sol)@,
            v == ints(sol@),
            j <= n,
            balance == sign_sum(v, j as nat),
            -(j as int) <= balance <= j as int,
            first == 0 ==> forall|k: int| 0 <= k < j ==> v[k] == 0,
            first != 0 ==> exists|p: int|
                0 <= p < j && v[p] == first && forall|k: int| 0 <= k < p ==> v[k] == 0,
            has_min <==> exists|k: int| 0 <= k < j && v[k] == i32::MIN,
        decreases n - j,
    {
        let x = sol[j];
        assert(x == v[j as int]);
        if x > 0 {
            balance = balance + 1;
        } else if x < 0 {
            balance = balance - 1;
        }
        if first == 0 {
            first = x;
        }
        if x == i32::MIN {
            has_min = true;
        }
        j += 1;
    }
    proof {
        lemma_lead(v);
        if first != 0 {
            let p = choose|p: int|
                0 <= p < n && v[p] == first && forall|k: int| 0 <= k < p ==> v[k] == 0;
            lemma_lead_is(v, p);
        }
    }
    let flip = balance < 0 || (balance == 0 && first < 0);
    assert(flip == leans_negative(v));
    if !flip {
        assert(fits_i32(v));
        return Ok(());
    }
    if has_min {
        proof {
            let k = choose|k: int| 0 <= k < n && v[k] == i32::MIN;
            assert(!in_i32(negated(v)[k]));
        }
        return Err(ArithmeticOverflow);
    }
    let mut j: usize = 0;
    while j < n
        invariant
            n == sol.len(),
            n == v.len(),
            v == ints(old(sol)@),
            j <= n,
            forall|k: int| 0 <= k < n ==> v[k] != i32::MIN,
            forall|k: int| 0 <= k < j ==> sol[k] == -v[k],
            forall|k: int| j <= k < n ==> sol[k] == v[k],
        decreases n - j,
    {
        let x = sol[j];
        assert(x == v[j as int]);
        sol[j] = -x;
        j += 1;
    }
    assert(ints(sol@) =~= negated(v));
    Ok(())
}

/// Divides a solution by the greatest common divisor of its entries.
pub fn simplify_sol(sol: &mut Vec<i32>)
    ensures
        ints(final(sol)@) == simplified(ints(old(sol)@)),
{
    let n = sol.len();
    let ghost v = ints(sol@);
    let mut g: u32 = 0;
    let mut j: usize = 0;
    while j < n
        invariant
            n == sol.len(),
            sol@ == old(sol)@,
            v == ints(sol@),
            j <= n,
            g == vec_gcd(v, j as nat),
        decreases n - j,
    {
        g = gcd_u32(g, abs_u32(sol[j]));
        j += 1;
    }
    if g > 1 {
        let mut j: usize = 0;
        while j < n
            invariant
                n == sol.len(),
                n == v.len(),
                v == ints(old(sol)@),
                g == content(v),
                g > 1,
                j <= n,
                forall|k: int| 0 <= k < j ==> sol[k] == v[k] / (g as int),
                forall|k: int| j <= k < n ==> sol[k] == v[k],
            decreases n - j,
        {
            proof {
                lemma_vec_gcd_divides(v, n as nat, j as int);
            }
            let x = sol[j];
            sol[j] = div_exact(x, g);
            j += 1;
        }
        assert(ints(sol@) =~= simplified(v));
    } else {
        assert(v.len() == n);
        assert(g == content(v));
        assert(ints(sol@) =~= v);
        if g == 1 {
            assert(simplified(v) =~= v);
        }
    }
}

/// Sums `a[j] * b[j]` over `j >= from`, exactly.
fn dot_from(a: &Vec<i32>, b: &Vec<i32>, from: usize) -> (r: i128)
    requires
        a.len() == b.len(),
        from <= a.len(),
    ensures
        r == dot_upto(ints(a@), ints(b@), a.len() as nat) - dot_upto(
            ints(a@),
            ints(b@),
            from as nat,
        ),
{
    let n = a.len();
    let mut acc: i128 = 0;
    let mut j: usize = from;
    while j < n
        invariant
            n == a.len(),
            n == b.len(),
            from <= j <= n,
            acc == dot_upto(ints(a@), ints(b@), j as nat) - dot_upto(
                ints(a@),
                ints(b@),
                from as nat,
            ),
            -(j - from) * 0x4000_0000_0000_0000 <= acc <= (j - from) * 0x4000_0000_0000_0000,
        decreases n - j,
    {
        proof {
            lemma_product_bound(a[j as int] as int, b[j as int] as int);
        }
        let p: i128 = (a[j] as i128) * (b[j] as i128);
        acc = acc + p;
        j += 1;
    }
    acc
}

/// Solves a system whose null space has dimension 1 by back substitution.
fn solve_unique(mat: Vec<Vec<i32>>, rank: usize) -> (res: Result<Vec<i32>, ArithmeticOverflow>)
    requires
        mat.len() > 0,
        mat[0].len() == rank + 1,
        echelon(rows(mat@), (rank + 1) as nat, rank as nat),
    ensures
        res is Ok <==> unique_solution(rows(mat@), rank as nat) is Some,
        res is Ok ==> ints(res->Ok_0@) == unique_solution(rows(mat@), rank as nat)->Some_0,
{
    let ghost e = rows(mat@);
    let ghost cols = (rank + 1) as nat;
    let ghost start = unit(cols, rank as int);
    let mut sol = unit_vec(rank + 1, rank);
    assert(start[rank as int] == 1);
    assert(unique_state(e, rank as nat, start, rank as nat));

    let mut i: usize = rank;
    while i > 0
        invariant
            e == rows(mat@),
            cols == rank + 1,
            start == unit(cols, rank as int),
            echelon(e, cols, rank as nat),
            sol.len() == rank + 1,
            i <= rank,
            unique_state(e, rank as nat, ints(sol@), i as nat),
            back_substitute(e, start, rank as nat) == back_substitute(e, ints(sol@), i as nat),
        decreases i,
    {
        let t = i - 1;
        let ghost cur = ints(sol@);
        let ghost next = back_next(e, cur, t as int);
        proof {
            lemma_back_step(e, rank as nat, cur, i as nat);
            assert(e[t as int].len() == cols);
            lemma_dot_zero(e[t as int], cur, i as nat);
        }
        let sum = dot_from(&mat[t], &sol, i);
        assert(sum == dot(e[t as int], cur));
        if sum < (i32::MIN as i128) || sum > (i32::MAX as i128) {
            assert(back_step(e, cur, t as int) is None);
            return Err(ArithmeticOverflow);
        }
        let pivot = mat[t][t];
        assert(pivot == e[t as int][t as int]);
        let (m0, m1) = lcm_div(sum as i32, pivot);
        let sum_m: i64 = if m0 < 0 { -(m0 as i64) } else { m0 as i64 };
        let pivot_m: i64 = if m0 < 0 { m1 as i64 } else { -(m1 as i64) };
        assert(next[t as int] == pivot_m);
        if pivot_m > (i32::MAX as i64) {
            assert(!in_i32(next[t as int]));
            assert(back_step(e, cur, t as int) is None);
            return Err(ArithmeticOverflow);
        }
        let mut j: usize = i;
        while j <= rank
            invariant
                sol.len() == rank + 1,
                cur.len() == rank + 1,
                t + 1 == i,
                i <= j <= rank + 1,
                0 <= sum_m <= 0x8000_0000,
                next == back_next(e, cur, t as int),
                next.len() == rank + 1,
                forall|k: int| i <= k <= rank ==> next[k] == cur[k] * sum_m,
                forall|k: int| 0 <= k < i ==> sol[k] == cur[k],
                forall|k: int| i <= k < j ==> sol[k] == next[k],
                forall|k: int| j <= k <= rank ==> sol[k] == cur[k],
                e == rows(mat@),
                start == unit((rank + 1) as nat, rank as int),
                back_substitute(e, start, rank as nat) == back_substitute(e, cur, i as nat),
            decreases rank + 1 - j,
        {
            assert(-0x4000_0000_0000_0000 <= sol[j as int] * sum_m <= 0x4000_0000_0000_0000)
                by (nonlinear_arith)
                requires
                    -0x8000_0000 <= sol[j as int] <= 0x8000_0000,
                    0 <= sum_m <= 0x8000_0000,
            ;
            let v: i64 = (sol[j] as i64) * sum_m;
            assert(v == next[j as int]);
            if v < (i32::MIN as i64) || v > (i32::MAX as i64) {
                assert(!in_i32(next[j as int]));
                assert(back_step(e, cur, t as int) is None);
                return Err(ArithmeticOverflow);
            }
            sol[j] = v as i32;
            j += 1;
        }
        sol[t] = pivot_m as i32;
        proof {
            assert(ints(sol@) =~= next);
            assert(fits_i32(next));
            assert(back_step(e, cur, t as int) == Some(next));
        }
        i = t;
    }
    let ghost raw = ints(sol@);
    match normalize_sol(&mut sol) {
        Ok(()) => {},
        Err(err) => {
            return Err(err);
        },
    }
    simplify_sol(&mut sol);
    Ok(sol)
}

/// Replaces the rows below the first `rank` by the identity matrix, one
/// row for each column.
fn row_augment_identity(mat: &mut Vec<Vec<i32>>, rank: usize)
    requires
        old(mat).len() > 0,
        rank <= old(mat).len(),
    ensures
        rows(final(mat)@) == augmented(
            rows(old(mat)@),
            old(mat)[0].len() as nat,
            rank as nat,
        ),
{
    let col_n = mat[0].len();
    let ghost e = rows(mat@);
    mat.truncate(rank);
    let mut i: usize = 0;
    while i < col_n
        invariant
            i <= col_n,
            mat.len() == rank + i,
            e == rows(old(mat)@),
            col_n == old(mat)[0].len(),
            forall|k: int| 0 <= k < rank ==> #[trigger] rows(mat@)[k] == e[k],
            forall|k: int|
                rank <= k < rank + i ==> #[trigger] rows(mat@)[k] == unit(col_n as nat, k - rank),
        decreases col_n - i,
    {
        let ghost before = rows(mat@);
        let row = unit_vec(col_n, i);
        mat.push(row);
        proof {
            assert forall|k: int| 0 <= k < rank + i implies #[trigger] rows(mat@)[k]
                == before[k] by {}
        }
        i += 1;
    }
    assert(rows(mat@) =~= augmented(e, col_n as nat, rank as nat));
}

/// Exchanges columns `a` and `b` of a matrix.
fn col_swap(mat: &mut Vec<Vec<i32>>, a: usize, b: usize)
    requires
        old(mat).len() > 0,
        rect(rows(old(mat)@), old(mat)[0].len() as nat),
        a < old(mat)[0].len(),
        b < old(mat)[0].len(),
    ensures
        final(mat).len() == old(mat).len(),
        rect(rows(final(mat)@), old(mat)[0].len() as nat),
        transpose(rows(final(mat)@), old(mat)[0].len() as nat) == swap_rows(
            transpose(rows(old(mat)@), old(mat)[0].len() as nat),
            a as int,
            b as int,
        ),
{
    let n = mat.len();
    let ghost cols = mat[0].len() as nat;
    let ghost m = rows(mat@);
    if a != b {
        let mut k: usize = 0;
        while k < n
            invariant
                n == mat.len(),
                n == old(mat).len(),
                m == rows(old(mat)@),
                cols == old(mat)[0].len(),
                rect(m, cols),
                a < cols,
                b < cols,
                a != b,
                k <= n,
                forall|r: int|
                    0 <= r < k ==> #[trigger] rows(mat@)[r] == m[r].update(a as int, m[r][b as int])
                        .update(b as int, m[r][a as int]),
                forall|r: int| k <= r < n ==> #[trigger] rows(mat@)[r] == m[r],
            decreases n - k,
        {
            let ghost before = rows(mat@);
            assert(before[k as int] == m[k as int]);
            assert(m[k as int].len() == cols);
            let x = mat[k][a];
            let y = mat[k][b];
            mat[k][a] = y;
            mat[k][b] = x;
            proof {
                assert(rows(mat@)[k as int] =~= m[k as int].update(a as int, m[k as int][b as int])
                    .update(b as int, m[k as int][a as int]));
                assert forall|r: int| 0 <= r < n && r != k implies #[trigger] rows(mat@)[r]
                    == before[r] by {}
            }
            k += 1;
        }
    }
    proof {
        let t0 = transpose(m, cols);
        let t1 = transpose(rows(mat@), cols);
        assert forall|r: int| 0 <= r < n implies (#[trigger] rows(mat@)[r]).len() == cols by {
            assert(m[r].len() == cols);
        }
        assert(t1 =~~= swap_rows(t0, a as int, b as int)) by {
            assert forall|c: int, r: int| 0 <= c < cols && 0 <= r < n implies #[trigger] t1[c][r]
                == swap_rows(t0, a as int, b as int)[c][r] by {
                let _ = rows(mat@)[r];
                assert(m[r].len() == cols);
            }
        }
    }
}

/// Replaces column `dest_i` by itself times `dest_m` minus column `src_i`
/// times `src_m`.
fn col_mul_sub(
    mat: &mut Vec<Vec<i32>>,
    dest_i: usize,
    dest_m: i32,
    src_i: usize,
    src_m: i32,
) -> (res: Result<(), ArithmeticOverflow>)
    requires
        old(mat).len() > 0,
        rect(rows(old(mat)@), old(mat)[0].len() as nat),
        dest_i < old(mat)[0].len(),
        src_i < old(mat)[0].len(),
    ensures
        final(mat).len() == old(mat).len(),
        rect(rows(final(mat)@), old(mat)[0].len() as nat),
        res is Ok <==> fits_i32(
            row_comb(
                col(rows(old(mat)@), dest_i as int),
                dest_m as int,
                col(rows(old(mat)@), src_i as int),
                src_m as int,
            ),
        ),
        res is Ok ==> transpose(rows(final(mat)@), old(mat)[0].len() as nat) == transpose(
            rows(old(mat)@),
            old(mat)[0].len() as nat,
        ).update(
            dest_i as int,
            row_comb(
                col(rows(old(mat)@), dest_i as int),
                dest_m as int,
                col(rows(old(mat)@), src_i as int),
                src_m as int,
            ),
        ),
{
    let n = mat.len();
    let ghost cols = mat[0].len() as nat;
    let ghost m = rows(mat@);
    let ghost target = row_comb(col(m, dest_i as int), dest_m as int, col(m, src_i as int), src_m as int);
    let mut k: usize = 0;
    while k < n
        invariant
            n == mat.len(),
            n == old(mat).len(),
            m == rows(old(mat)@),
            cols == old(mat)[0].len(),
            rect(m, cols),
            rect(rows(mat@), cols),
            dest_i < cols,
            src_i < cols,
            k <= n,
            target == row_comb(col(m, dest_i as int), dest_m as int, col(m, src_i as int), src_m as int),
            forall|r: int|
                0 <= r < k ==> #[trigger] rows(mat@)[r] == m[r].update(dest_i as int, target[r]),
            forall|r: int| k <= r < n ==> #[trigger] rows(mat@)[r] == m[r],
        decreases n - k,
    {
        let ghost before = rows(mat@);
        assert(before[k as int] == m[k as int]);
        assert(m[k as int].len() == cols);
        let d = mat[k][dest_i];
        let s = mat[k][src_i];
        assert(d == m[k as int][dest_i as int]);
        assert(s == m[k as int][src_i as int]);
        proof {
            lemma_product_bound(d as int, dest_m as int);
            lemma_product_bound(s as int, src_m as int);
        }
        let v: i64 = (d as i64) * (dest_m as i64) - (s as i64) * (src_m as i64);
        assert(v == target[k as int]);
        if v < (i32::MIN as i64) || v > (i32::MAX as i64) {
            assert(!in_i32(target[k as int]));
            return Err(ArithmeticOverflow);
        }
        mat[k][dest_i] = v as i32;
        proof {
            assert(rows(mat@)[k as int] =~= m[k as int].update(dest_i as int, target[k as int]));
            assert forall|r: int| 0 <= r < n && r != k implies #[trigger] rows(mat@)[r]
                == before[r] by {}
            assert forall|r: int| 0 <= r < n implies (#[trigger] rows(mat@)[r]).len()
                == cols by {
                if r != k {
                    assert(before[r].len() == cols);
                }
            }
        }
        k += 1;
    }
    proof {
        let t0 = transpose(m, cols);
        let t1 = transpose(rows(mat@), cols);
        assert forall|r: int| 0 <= r < n implies in_i32(#[trigger] target[r]) by {
            let _ = rows(mat@)[r];
            assert(m[r].len() == cols);
            assert(rows(mat@)[r][dest_i as int] == target[r]);
        }
        assert(t1 =~~= t0.update(dest_i as int, target)) by {
            assert forall|c: int, r: int| 0 <= c < cols && 0 <= r < n implies #[trigger] t1[c][r]
                == t0.update(dest_i as int, target)[c][r] by {
                let _ = rows(mat@)[r];
                assert(m[r].len() == cols);
            }
        }
    }
    Ok(())
}

/// Cancels, by column operations, the entries right of the diagonal in the
/// first `upper_rank` rows of a matrix whose first `upper_rank` rows are in
/// echelon form.
fn col_reduce_upper(mat: &mut Vec<Vec<i32>>, upper_rank: usize) -> (res: Result<
    (),
    ArithmeticOverflow,
>)
    requires
        old(mat).len() > 0,
        upper_rank <= old(mat).len(),
        rect(rows(old(mat)@), old(mat)[0].len() as nat),
        echelon(
            rows(old(mat)@).subrange(0, upper_rank as int),
            old(mat)[0].len() as nat,
            upper_rank as nat,
        ),
    ensures
        final(mat).len() == old(mat).len(),
        rect(rows(final(mat)@), old(mat)[0].len() as nat),
        res is Ok <==> reduce_upper_from(
            transpose(rows(old(mat)@), old(mat)[0].len() as nat),
            0,
            upper_rank as nat,
        ) is Some,
        res is Ok ==> transpose(rows(final(mat)@), old(mat)[0].len() as nat) == reduce_upper_from(
            transpose(rows(old(mat)@), old(mat)[0].len() as nat),
            0,
            upper_rank as nat,
        )->Some_0,
{
    let col_n = mat[0].len();
    let ghost cols = col_n as nat;
    let ghost rank = upper_rank as nat;
    let ghost total = mat.len() as nat;
    let ghost e = rows(mat@).subrange(0, upper_rank as int);
    let ghost start = transpose(rows(mat@), cols);
    proof {
        assert forall|c: int| 0 <= c < start.len() implies (#[trigger] start[c]).len()
            == total by {}
        assert forall|c: int, k: int| 0 <= k < rank && 0 <= c < cols implies (#[trigger] start[c][k]
            != 0 <==> e[k][c] != 0) by {
            assert(e[k] == rows(mat@)[k]);
        }
        assert(upper_state(start, e, cols, rank, total, 0));
    }

    let mut i: usize = 0;
    while i < upper_rank
        invariant
            i <= upper_rank,
            rank == upper_rank,
            mat.len() == old(mat).len(),
            total == mat.len(),
            col_n == old(mat)[0].len(),
            cols == col_n,
            total > 0,
            rect(rows(mat@), cols),
            start == transpose(rows(old(mat)@), cols),
            upper_state(transpose(rows(mat@), cols), e, cols, rank, total, i as nat),
            reduce_upper_from(start, 0, rank) == reduce_upper_from(
                transpose(rows(mat@), cols),
                i as nat,
                rank,
            ),
        decreases upper_rank - i,
    {
        let ghost w = transpose(rows(mat@), cols);
        let ghost p = first_nonzero(w, i as int, i as int);
        proof {
            lemma_upper_step(w, e, cols, rank, total, i as nat);
            lemma_first_nonzero(w, i as int, i as int);
            assert(rows(mat@)[i as int].len() == cols);
        }
        let mut prev_pivot_i: usize = i;
        while mat[i][prev_pivot_i] == 0
            invariant
                i <= prev_pivot_i <= p,
                p < cols,
                cols == col_n,
                i < mat.len(),
                rows(mat@)[i as int].len() == cols,
                w == transpose(rows(mat@), cols),
                w[p][i as int] != 0,
            decreases p - prev_pivot_i,
        {
            assert(w[prev_pivot_i as int][i as int] == rows(mat@)[i as int][prev_pivot_i as int]);
            prev_pivot_i += 1;
        }
        proof {
            assert(w[prev_pivot_i as int][i as int] == rows(mat@)[i as int][prev_pivot_i as int]);
            assert(prev_pivot_i == p);
            assert(rows(mat@)[0].len() == cols);
        }
        col_swap(mat, i, prev_pivot_i);
        let pivot_i = i;
        let ghost sw = swap_rows(w, i as int, p);
        let ghost target = eliminate(sw, i as int, i as int);
        proof {
            assert(rows(mat@)[pivot_i as int].len() == cols);
            assert(sw[i as int] == w[p]);
            assert(rect(sw, total));
        }
        let pivot = mat[pivot_i][pivot_i];
        assert(pivot == sw[i as int][i as int]) by {
            assert(transpose(rows(mat@), cols)[i as int][i as int] == rows(mat@)[i as int][i as int]);
        }

        let mut cur_i: usize = pivot_i + 1;
        while cur_i < col_n
            invariant
                pivot_i == i,
                i < upper_rank,
                upper_rank <= mat.len(),
                rank == upper_rank,
                mat.len() == old(mat).len(),
                total == mat.len(),
                col_n == old(mat)[0].len(),
                cols == col_n,
                rect(rows(mat@), cols),
                rect(sw, total),
                sw.len() == cols,
                i < cur_i <= col_n,
                pivot == sw[i as int][i as int],
                pivot != 0,
                start == transpose(rows(old(mat)@), cols),
                target == eliminate(sw, i as int, i as int),
                reduce_upper_from(start, 0, rank) == reduce_upper_from(w, i as nat, rank),
                sw == swap_rows(w, i as int, first_nonzero(w, i as int, i as int)),
                forall|c: int|
                    0 <= c < cur_i ==> #[trigger] transpose(rows(mat@), cols)[c] == target[c],
                forall|c: int|
                    cur_i <= c < cols ==> #[trigger] transpose(rows(mat@), cols)[c] == sw[c],
            decreases col_n - cur_i,
        {
            let ghost tr = transpose(rows(mat@), cols);
            proof {
                assert(rows(mat@)[pivot_i as int].len() == cols);
                assert(rows(mat@)[0].len() == cols);
                assert(tr[cur_i as int] == sw[cur_i as int]);
                assert(tr[i as int] == target[i as int]);
                assert(target[i as int] == sw[i as int]);
                assert(tr[cur_i as int][i as int] == rows(mat@)[i as int][cur_i as int]);
            }
            let cur = mat[pivot_i][cur_i];
            if cur != 0 {
                let (cur_m, pivot_m) = lcm_div(cur, pivot);
                proof {
                    assert(col(rows(mat@), cur_i as int) == tr[cur_i as int]);
                    assert(col(rows(mat@), pivot_i as int) == tr[i as int]);
                    assert(target[cur_i as int] == row_comb(
                        sw[cur_i as int],
                        cur_m as int,
                        sw[i as int],
                        pivot_m as int,
                    ));
                }
                match col_mul_sub(mat, cur_i, cur_m, pivot_i, pivot_m) {
                    Ok(()) => {
                        proof {
                            let tr2 = transpose(rows(mat@), cols);
                            assert(tr2 == tr.update(cur_i as int, target[cur_i as int]));
                            assert forall|c: int| 0 <= c < cur_i + 1 implies #[trigger] tr2[c]
                                == target[c] by {
                                if c < cur_i {
                                    assert(tr[c] == target[c]);
                                }
                            }
                            assert forall|c: int| cur_i + 1 <= c < cols implies #[trigger] tr2[c]
                                == sw[c] by {
                                assert(tr[c] == sw[c]);
                            }
                        }
                    },
                    Err(err) => {
                        proof {
                            assert(!fits_i32(target[cur_i as int]));
                            assert(!mat_fits_i32(target));
                        }
                        return Err(err);
                    },
                }
            } else {
                assert(target[cur_i as int] == sw[cur_i as int]);
            }
            cur_i += 1;
        }
        proof {
            let tr = transpose(rows(mat@), cols);
            assert(tr =~= target);
            lemma_transpose_fits(mat@, cols);
        }
        i += 1;
    }
    Ok(())
}

/// Solves a system whose null space has a dimension above 1: returns one
/// basis of it.
fn solve_multiple(mat: Vec<Vec<i32>>, rank: usize) -> (res: Result<
    Vec<Vec<i32>>,
    ArithmeticOverflow,
>)
    requires
        mat.len() > 0,
        mat[0].len() > rank,
        echelon(rows(mat@), mat[0].len() as nat, rank as nat),
    ensures
        res is Ok <==> basis(rows(mat@), mat[0].len() as nat, rank as nat) is Some,
        res is Ok ==> rows(res->Ok_0@) == basis(
            rows(mat@),
            mat[0].len() as nat,
            rank as nat,
        )->Some_0,
{
    let col_n = mat[0].len();
    let ghost cols = col_n as nat;
    let ghost e = rows(mat@);
    let mut aug = mat;
    proof {
        lemma_echelon_rank_bound(e, cols, rank as nat);
    }
    let nullity = col_n - rank;

    row_augment_identity(&mut aug, rank);
    proof {
        let a = augmented(e, cols, rank as nat);
        assert(rows(aug@) == a);
        assert(a.subrange(0, rank as int) =~= e.subrange(0, rank as int));
        lemma_echelon_top(e, cols, rank as nat);
        assert forall|k: int| 0 <= k < a.len() implies (#[trigger] a[k]).len() == cols by {
            if k < rank {
                assert(e[k].len() == cols);
            }
        }
        assert(aug.len() == rank + cols);
        if rank > 0 {
            assert(a[0] == e[0]);
            assert(e[0].len() == cols);
        }
        assert(a[0].len() == cols);
    }
    assert(aug[0].len() == col_n) by {
        assert(rows(aug@)[0].len() == cols);
    }
    match col_reduce_upper(&mut aug, rank) {
        Ok(()) => {},
        Err(err) => {
            return Err(err);
        },
    }
    let ghost w = transpose(rows(aug@), cols);
    let ghost raw = basis_raw(w, cols, rank as nat);
    assert(reduce_upper_from(transpose(augmented(e, cols, rank as nat), cols), 0, rank as nat)
        == Some(w));

    let mut out: Vec<Vec<i32>> = Vec::new();
    let mut k: usize = 0;
    while k < nullity
        invariant
            k <= nullity,
            nullity == col_n - rank,
            cols == col_n,
            aug.len() == rank + cols,
            rect(rows(aug@), cols),
            w == transpose(rows(aug@), cols),
            raw == basis_raw(w, cols, rank as nat),
            out.len() == k,
            e == rows(mat@),
            cols == mat[0].len(),
            basis(e, cols, rank as nat) == finish_all(raw),
            forall|q: int| 0 <= q < k ==> (#[trigger] finish(raw[q])) is Some,
            forall|q: int| 0 <= q < k ==> #[trigger] rows(out@)[q] == finish(raw[q])->Some_0,
        decreases nullity - k,
    {
        let mut v: Vec<i32> = Vec::new();
        let mut j: usize = 0;
        while j < col_n
            invariant
                j <= col_n,
                k < nullity,
                nullity == col_n - rank,
                cols == col_n,
                aug.len() == rank + cols,
                rect(rows(aug@), cols),
                w == transpose(rows(aug@), cols),
                raw == basis_raw(w, cols, rank as nat),
                v.len() == j,
                forall|q: int| 0 <= q < j ==> v[q] == #[trigger] raw[k as int][q],
            decreases col_n - j,
        {
            assert(rows(aug@)[rank + j].len() == cols);
            let x = aug[rank + j][rank + k];
            assert(x == raw[k as int][j as int]) by {
                assert(w[rank + k][rank + j] == rows(aug@)[rank + j][rank + k]);
            }
            v.push(x);
            j += 1;
        }
        assert(ints(v@) =~= raw[k as int]);
        match normalize_sol(&mut v) {
            Ok(()) => {},
            Err(err) => {
                assert(finish(raw[k as int]) is None);
                return Err(err);
            },
        }
        simplify_sol(&mut v);
        let ghost before = rows(out@);
        out.push(v);
        proof {
            assert forall|q: int| 0 <= q < k + 1 implies #[trigger] rows(out@)[q] == finish(
                raw[q],
            )->Some_0 by {
                if q < k {
                    assert(rows(out@)[q] == before[q]);
                }
            }
        }
        k += 1;
    }
    assert(rows(out@) =~= finish_all(raw)->Some_0);
    Ok(out)
}

/// The coefficient vectors that balance an equation.
#[derive(Debug, PartialEq, Eq)]
pub enum Solution {
    /// Only the zero vector balances the equation.
    NoSolution,
    /// One vector, in normal form; every solution is a multiple of it.
    Unique(Vec<i32>),
    /// A basis of the solutions, each vector in normal form; every
    /// solution is a combination of them.
    Infinite(Vec<Vec<i32>>),
}

impl Solution {
    /// The vectors of the solution, in order: none, one, or a basis.
    pub open spec fn vectors(self) -> Seq<Seq<int>> {
        match self {
            Solution::NoSolution => Seq::empty(),
            Solution::Unique(v) => seq![ints(v@)],
            Solution::Infinite(b) => rows(b@),
        }
    }
}

/// Solves the null space of a matrix in row echelon form with `rank`
/// pivot rows, and returns the unique solution or one possible basis.
///
/// With as many pivots as columns there is no solution but zero. With one
/// column more, back substitution gives the one solution. Otherwise the
/// columns of the matrix, augmented with an identity, are reduced, and the
/// basis is read off the identity part. Every vector is brought to normal
/// form.
///
/// Fails if a row sum or an entry leaves the range of 32 bits.
pub fn solve(mat: Vec<Vec<i32>>, rank: usize) -> (res: Result<Solution, ArithmeticOverflow>)
    requires
        mat.len() > 0,
        mat[0].len() > 0,
        echelon(rows(mat@), mat[0].len() as nat, rank as nat),
    ensures
        res is Ok <==> solve_spec(rows(mat@), mat[0].len() as nat, rank as nat) is Some,
        res is Ok ==> res->Ok_0.vectors() == solve_spec(
            rows(mat@),
            mat[0].len() as nat,
            rank as nat,
        )->Some_0,
        res is Ok ==> (res->Ok_0 is NoSolution <==> mat[0].len() == rank),
        res is Ok ==> (res->Ok_0 is Unique <==> mat[0].len() == rank + 1),
        res is Ok ==> (res->Ok_0 is Infinite <==> mat[0].len() > rank + 1),
        res is Ok ==> res->Ok_0.vectors().len() == mat[0].len() - rank,
        res is Ok ==> forall|k: int|
            0 <= k < res->Ok_0.vectors().len() ==> {
                &&& (#[trigger] res->Ok_0.vectors()[k]).len() == mat[0].len()
                &&& in_null(rows(mat@), res->Ok_0.vectors()[k])
                &&& is_normal(res->Ok_0.vectors()[k])
            },
        res is Ok ==> independent(res->Ok_0.vectors(), mat[0].len() as nat),
        res is Ok ==> forall|x: Seq<int>|
            x.len() == mat[0].len() && #[trigger] in_null(rows(mat@), x) ==> in_rational_span(
                x,
                res->Ok_0.vectors(),
                mat[0].len() as nat,
            ),
{
    let col_n = mat[0].len();
    proof {
        lemma_echelon_rank_bound(rows(mat@), col_n as nat, rank as nat);
        if solve_spec(rows(mat@), col_n as nat, rank as nat) is Some {
            lemma_solve_spec(rows(mat@), col_n as nat, rank as nat);
            assert forall|x: Seq<int>|
                x.len() == col_n && #[trigger] in_null(rows(mat@), x) implies in_rational_span(
                x,
                solve_spec(rows(mat@), col_n as nat, rank as nat)->Some_0,
                col_n as nat,
            ) by {
                lemma_solve_spans(rows(mat@), col_n as nat, rank as nat, x);
            }
        }
    }
    let nullity = col_n - rank;
    if nullity == 0 {
        Ok(Solution::NoSolution)
    } else if nullity == 1 {
        match solve_unique(mat, rank) {
            Ok(v) => {
                assert(seq![ints(v@)] =~= Solution::Unique(v).vectors());
                Ok(Solution::Unique(v))
            },
            Err(err) => Err(err),
        }
    } else {
        match solve_multiple(mat, rank) {
            Ok(b) => Ok(Solution::Infinite(b)),
            Err(err) => Err(err),
        }
    }
}

} // verus!
