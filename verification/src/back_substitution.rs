//! Back substitution for a null space of dimension 1.

use crate::echelon::{echelon, lead, lemma_echelon_lead_lower, lemma_echelon_lead_upper, lemma_lead};
use crate::matrix::{fits_i32, in_null};
use crate::normal::{finish, is_normal, lemma_finish};
use crate::num::{gcd_int, in_i32, lcm_div_spec, lemma_lcm_div};
use crate::vector::{
    dot, is_zero, lemma_dot_scaled, lemma_dot_single, lemma_dot_symm, lemma_dot_update,
    lemma_dot_zero, scaled, unit,
};
use vstd::arithmetic::div_mod::lemma_div_basics_1;
use vstd::prelude::*;

verus! {

/// The partial solution after row `t` has been substituted: the entries
/// after `t` are scaled and entry `t` is set, so that row `t` is balanced
/// with the signs arranged to keep the scale factor non-negative.
pub open spec fn back_next(e: Seq<Seq<int>>, sol: Seq<int>, t: int) -> Seq<int> {
    let m = lcm_div_spec(dot(e[t], sol), e[t][t]);
    let sum_m = if m.0 < 0 { -m.0 } else { m.0 };
    let pivot_m = if m.0 < 0 { m.1 } else { -m.1 };
    Seq::new(
        sol.len(),
        |j: int|
            if j < t {
                sol[j]
            } else if j == t {
                pivot_m
            } else {
                sol[j] * sum_m
            },
    )
}

/// One step of back substitution, or `None` if the row sum or an entry of
/// the new partial solution leaves the range of `i32`.
pub open spec fn back_step(e: Seq<Seq<int>>, sol: Seq<int>, t: int) -> Option<Seq<int>> {
    if in_i32(dot(e[t], sol)) && fits_i32(back_next(e, sol, t)) {
        Some(back_next(e, sol, t))
    } else {
        None
    }
}

/// Back substitution through the rows `i - 1` down to `0`.
pub open spec fn back_substitute(e: Seq<Seq<int>>, sol: Seq<int>, i: nat) -> Option<Seq<int>>
    decreases i,
{
    if i == 0 {
        Some(sol)
    } else {
        match back_step(e, sol, i - 1) {
            None => None,
            Some(next) => back_substitute(e, next, (i - 1) as nat),
        }
    }
}

/// The solution of a system whose null space has dimension 1, from its
/// echelon form with `rank` pivots and `rank + 1` columns.
pub open spec fn unique_solution(e: Seq<Seq<int>>, rank: nat) -> Option<Seq<int>> {
    match back_substitute(e, unit(rank + 1, rank as int), rank) {
        None => None,
        Some(raw) => finish(raw),
    }
}

/// The state of back substitution before row `i - 1`: the entries before
/// `i` are still zero, the rows from `i` on are balanced, the vector is not
/// zero, and where the next pivot sits right of the diagonal, entry `i` is
/// the only nonzero one.
pub open spec fn unique_state(e: Seq<Seq<int>>, rank: nat, sol: Seq<int>, i: nat) -> bool {
    &&& sol.len() == rank + 1
    &&& i <= rank
    &&& forall|j: int| 0 <= j < i ==> sol[j] == 0
    &&& forall|k: int| i <= k < rank ==> dot(#[trigger] e[k], sol) == 0
    &&& !is_zero(sol)
    &&& (i > 0 && lead(e[i - 1]) == i) ==> sol[i as int] != 0 && forall|j: int|
        i < j <= rank ==> sol[j] == 0
}

/// The row sum and the diagonal entry of the next row are never both zero,
/// and substituting the row leads to the next state.
pub proof fn lemma_back_step(e: Seq<Seq<int>>, rank: nat, sol: Seq<int>, i: nat)
    requires
        echelon(e, rank + 1, rank),
        unique_state(e, rank, sol, i),
        i > 0,
    ensures
        dot(e[i - 1], sol) != 0 || e[i - 1][i - 1] != 0,
        unique_state(e, rank, back_next(e, sol, i - 1), (i - 1) as nat),
{
    let cols = rank + 1;
    let t = i - 1;
    let row = e[t];
    let sum = dot(row, sol);
    let pivot = row[t];
    assert(row.len() == cols);
    lemma_echelon_lead_lower(e, cols, rank, t);
    lemma_echelon_lead_upper(e, cols, rank, t);
    lemma_lead(row);
    if lead(row) != t {
        assert(lead(row) == i);
        assert(pivot == 0);
        lemma_dot_single(row, sol, cols, i as int);
        assert(sum == row[i as int] * sol[i as int]);
        assert(sum != 0) by (nonlinear_arith)
            requires
                sum == row[i as int] * sol[i as int],
                row[i as int] != 0,
                sol[i as int] != 0,
        ;
    }
    lemma_lcm_div(sum, pivot);
    let m = lcm_div_spec(sum, pivot);
    let sum_m = if m.0 < 0 { -m.0 } else { m.0 };
    let pivot_m = if m.0 < 0 { m.1 } else { -m.1 };
    let next = back_next(e, sol, t);
    let sc = scaled(sol, sum_m);
    assert(0 * sum_m == 0);
    assert(next =~= sc.update(t, pivot_m));
    assert(sum * sum_m + pivot * pivot_m == 0) by (nonlinear_arith)
        requires
            sum * m.0 == pivot * m.1,
            (sum_m == -m.0 && pivot_m == m.1) || (sum_m == m.0 && pivot_m == -m.1),
    ;
    assert forall|k: int| t <= k < rank implies dot(#[trigger] e[k], next) == 0 by {
        assert(e[k].len() == cols);
        lemma_dot_symm(e[k], next, cols);
        lemma_dot_update(sc, t, pivot_m, e[k], cols);
        lemma_dot_scaled(sol, sum_m, e[k], cols);
        lemma_dot_symm(sol, e[k], cols);
        assert(sc[t] == 0);
        // dot(e[k], next) == sum_m * dot(e[k], sol) + pivot_m * e[k][t]
        if k == t {
            assert(sum_m * sum + (pivot_m - 0) * pivot == 0) by (nonlinear_arith)
                requires
                    sum * sum_m + pivot * pivot_m == 0,
            ;
        } else {
            lemma_echelon_lead_lower(e, cols, rank, k);
            lemma_lead(e[k]);
            assert(e[k][t] == 0);
            assert(sum_m * 0 + (pivot_m - 0) * 0 == 0) by (nonlinear_arith);
        }
    }
    // The new vector is not zero.
    let w = choose|w: int| 0 <= w < sol.len() && sol[w] != 0;
    if pivot != 0 {
        assert(sum_m != 0);
        assert(w > t);
        assert(next[w] == sol[w] * sum_m);
        assert(next[w] != 0) by (nonlinear_arith)
            requires
                next[w] == sol[w] * sum_m,
                sol[w] != 0,
                sum_m != 0,
        ;
    } else {
        assert(m.1 != 0);
        assert(next[t] == pivot_m);
        assert(next[t] != 0);
    }
    // Where the pivot above sits right of the diagonal, this row's pivot does too.
    if t > 0 && lead(e[t - 1]) == t {
        assert(lead(e[t - 1]) < lead(e[t]));
        assert(pivot == 0);
        lemma_div_basics_1(gcd_int(sum, pivot));
        assert(m.0 == 0);
        assert(sum_m == 0);
        assert forall|j: int| t < j <= rank implies next[j] == 0 by {
            assert(next[j] == sol[j] * sum_m);
            assert(sol[j] * 0 == 0);
        }
    }
}

/// Back substitution from a valid state ends in a valid state at row 0.
pub proof fn lemma_back_substitute(e: Seq<Seq<int>>, rank: nat, sol: Seq<int>, i: nat)
    requires
        echelon(e, rank + 1, rank),
        unique_state(e, rank, sol, i),
        back_substitute(e, sol, i) is Some,
    ensures
        unique_state(e, rank, back_substitute(e, sol, i)->Some_0, 0),
    decreases i,
{
    if i > 0 {
        lemma_back_step(e, rank, sol, i);
        lemma_back_substitute(e, rank, back_next(e, sol, i - 1), (i - 1) as nat);
    }
}

/// The solution of a system with a null space of dimension 1 has one entry
/// per column, balances every row, and is in normal form.
pub proof fn lemma_unique_solution(e: Seq<Seq<int>>, rank: nat)
    requires
        echelon(e, rank + 1, rank),
        unique_solution(e, rank) is Some,
    ensures
        unique_solution(e, rank)->Some_0.len() == rank + 1,
        in_null(e, unique_solution(e, rank)->Some_0),
        !is_zero(unique_solution(e, rank)->Some_0),
        is_normal(unique_solution(e, rank)->Some_0),
{
    let cols = rank + 1;
    let start = unit(cols, rank as int);
    assert(start[rank as int] == 1);
    assert(unique_state(e, rank, start, rank));
    lemma_back_substitute(e, rank, start, rank);
    let raw = back_substitute(e, start, rank)->Some_0;
    assert forall|k: int| 0 <= k < e.len() implies dot(#[trigger] e[k], raw) == 0 by {
        if k >= rank {
            assert(is_zero(e[k]));
            lemma_dot_zero(e[k], raw, cols);
        }
    }
    lemma_finish(e, cols, raw);
}

} // verus!
