//! The null space of a matrix in echelon form: what the solver returns.

use crate::back_substitution::{lemma_unique_solution, unique_solution};
use crate::basis::{basis, lemma_basis};
use crate::echelon::{echelon, lemma_echelon_independent, lemma_echelon_rank_bound};
use crate::matrix::{col, in_null, rect};
use crate::normal::is_normal;
use crate::span::{
    comb, in_rational_span, independent, lemma_comb_concat, lemma_comb_dot,
    lemma_more_vectors_dependent, lemma_single_independent,
};
use crate::vector::{
    dot, dot_upto, is_zero, lemma_dot_scaled, lemma_dot_self, lemma_dot_symm, lemma_dot_zero,
    scaled,
};
use vstd::prelude::*;

verus! {

/// What the solver returns for a matrix in echelon form: no vector where
/// only the zero vector balances the rows, one vector where the null space
/// has dimension 1, and a basis otherwise.
pub open spec fn solve_spec(e: Seq<Seq<int>>, cols: nat, rank: nat) -> Option<Seq<Seq<int>>> {
    if cols <= rank {
        Some(Seq::empty())
    } else if cols == rank + 1 {
        match unique_solution(e, rank) {
            None => None,
            Some(v) => Some(seq![v]),
        }
    } else {
        basis(e, cols, rank)
    }
}

/// What the solver's vectors satisfy: there is one for each column without
/// pivot; each has one entry per column, balances every row of the matrix
/// and is in normal form; and they are linearly independent.
pub proof fn lemma_solve_spec(e: Seq<Seq<int>>, cols: nat, rank: nat)
    requires
        echelon(e, cols, rank),
        solve_spec(e, cols, rank) is Some,
    ensures
        rank <= cols,
        solve_spec(e, cols, rank)->Some_0.len() == cols - rank,
        forall|k: int|
            0 <= k < cols - rank ==> {
                &&& (#[trigger] solve_spec(e, cols, rank)->Some_0[k]).len() == cols
                &&& in_null(e, solve_spec(e, cols, rank)->Some_0[k])
                &&& is_normal(solve_spec(e, cols, rank)->Some_0[k])
            },
        independent(solve_spec(e, cols, rank)->Some_0, cols),
{
    lemma_echelon_rank_bound(e, cols, rank);
    if cols == rank {
        let b = solve_spec(e, cols, rank)->Some_0;
        assert forall|c: Seq<int>| c.len() == b.len() && is_zero(#[trigger] comb(c, b, cols)) implies is_zero(
            c,
        ) by {}
    } else if cols == rank + 1 {
        lemma_unique_solution(e, rank);
        let v = unique_solution(e, rank)->Some_0;
        lemma_single_independent(v, cols);
        assert(solve_spec(e, cols, rank)->Some_0[0] == v);
    } else {
        lemma_basis(e, cols, rank);
    }
}

/// The null space of a matrix in echelon form with `rank` pivots and
/// `cols` columns has no more than `cols - rank` dimensions: one vector
/// more than that, all balancing the rows, are linearly dependent.
pub proof fn lemma_null_space_dimension(
    e: Seq<Seq<int>>,
    cols: nat,
    rank: nat,
    xs: Seq<Seq<int>>,
) -> (y: Seq<int>)
    requires
        echelon(e, cols, rank),
        rect(xs, cols),
        xs.len() + rank > cols,
        forall|j: int| 0 <= j < xs.len() ==> in_null(e, #[trigger] xs[j]),
    ensures
        y.len() == xs.len(),
        is_zero(comb(y, xs, cols)),
        !is_zero(y),
{
    let top = e.subrange(0, rank as int);
    lemma_echelon_independent(e, cols, rank);
    assert forall|i: int| 0 <= i < top.len() implies (#[trigger] top[i]).len() == cols by {
        assert(top[i] == e[i]);
    }
    let all = xs + top;
    assert forall|i: int| 0 <= i < all.len() implies (#[trigger] all[i]).len() == cols by {
        if i < xs.len() {
            assert(all[i] == xs[i]);
        } else {
            assert(all[i] == top[i - xs.len()]);
        }
    }
    let f = lemma_more_vectors_dependent(all, cols);
    let y = f.subrange(0, xs.len() as int);
    let z = f.subrange(xs.len() as int, f.len() as int);
    assert(f =~= y + z);
    let u = comb(y, xs, cols);
    let w = comb(z, top, cols);
    assert forall|j: int| 0 <= j < cols implies u[j] + w[j] == 0 by {
        lemma_comb_concat(y, z, xs, top, cols, j);
        assert(comb(f, all, cols)[j] == 0);
    }
    // The combination of the rows is orthogonal to every vector of `xs`,
    // hence to the combination of `xs`, which is its own negative.
    let products = Seq::new(xs.len(), |i: int| dot_upto(xs[i], w, cols));
    assert forall|i: int| 0 <= i < xs.len() implies #[trigger] products[i] == 0 by {
        let below = Seq::new(top.len(), |k: int| dot_upto(top[k], xs[i], cols));
        lemma_dot_symm(xs[i], w, cols);
        lemma_comb_dot(z, top, cols, xs[i]);
        assert forall|k: int| 0 <= k < top.len() implies #[trigger] below[k] == 0 by {
            assert(top[k] == e[k]);
            assert(dot(e[k], xs[i]) == 0);
        }
        lemma_dot_zero(z, below, top.len());
    }
    lemma_comb_dot(y, xs, cols, w);
    lemma_dot_zero(y, products, xs.len());
    assert(u =~= scaled(w, -1));
    lemma_dot_scaled(w, -1, w, cols);
    lemma_dot_self(w, cols);
    assert(is_zero(w));
    assert(is_zero(z));
    assert(is_zero(u));
    if is_zero(y) {
        assert forall|k: int| 0 <= k < f.len() implies f[k] == 0 by {
            if k < y.len() {
                assert(f[k] == y[k]);
            } else {
                assert(f[k] == z[k - y.len()]);
            }
        }
    }
    y
}

/// The solver's vectors span the null space: every vector that balances
/// the rows is a combination of them with rational coefficients. Where the
/// solver returns no vector, only the zero vector balances the rows.
pub proof fn lemma_solve_spans(e: Seq<Seq<int>>, cols: nat, rank: nat, x: Seq<int>)
    requires
        echelon(e, cols, rank),
        solve_spec(e, cols, rank) is Some,
        x.len() == cols,
        in_null(e, x),
    ensures
        in_rational_span(x, solve_spec(e, cols, rank)->Some_0, cols),
        cols == rank ==> is_zero(x),
{
    let b = solve_spec(e, cols, rank)->Some_0;
    lemma_solve_spec(e, cols, rank);
    let xs = b.push(x);
    assert forall|j: int| 0 <= j < xs.len() implies (#[trigger] xs[j]).len() == cols && in_null(
        e,
        xs[j],
    ) by {
        if j < b.len() {
            assert(xs[j] == b[j]);
        }
    }
    let y = lemma_null_space_dimension(e, cols, rank, xs);
    let c = y.subrange(0, b.len() as int);
    let d = y[b.len() as int];
    assert(y =~= c + seq![d]);
    assert(xs =~= b + seq![x]);
    let part = comb(c, b, cols);
    assert forall|j: int| 0 <= j < cols implies part[j] + d * x[j] == 0 by {
        lemma_comb_concat(c, seq![d], b, seq![x], cols, j);
        let single = col(seq![x], j);
        assert(single[0] == x[j]);
        assert(dot_upto(seq![d], single, 1) == dot_upto(seq![d], single, 0) + seq![d][0]
            * single[0]);
        assert(comb(y, xs, cols)[j] == 0);
    }
    if d == 0 {
        assert forall|j: int| 0 <= j < cols implies part[j] == 0 by {
            assert(part[j] + d * x[j] == 0);
            assert(0 * x[j] == 0);
        }
        assert(is_zero(part));
        assert(is_zero(c));
        assert forall|k: int| 0 <= k < y.len() implies y[k] == 0 by {
            if k < c.len() {
                assert(y[k] == c[k]);
            }
        }
    }
    assert(part =~= scaled(x, -d)) by {
        assert forall|j: int| 0 <= j < cols implies part[j] == x[j] * (-d) by {
            assert(part[j] + d * x[j] == 0);
            assert(x[j] * (-d) == -(d * x[j])) by (nonlinear_arith);
        }
    }
    assert(comb(c, b, cols) == scaled(x, -d));
    if cols == rank {
        assert forall|j: int| 0 <= j < cols implies x[j] == 0 by {
            assert(part[j] == 0);
            assert(x[j] * (-d) == 0);
            assert(x[j] == 0) by (nonlinear_arith)
                requires
                    x[j] * (-d) == 0,
                    d != 0,
            ;
        }
    }
}

} // verus!
