//! What holds of the balancing pipeline as a whole.

use crate::echelon::{echelon, lemma_lead};
use crate::elimination::{lemma_reduce_from, reduce};
use crate::equation::{conservation_matrix, signed_atoms, symbols_upto};
use crate::matrix::{in_null, rect};
use crate::normal::{
    content, is_normal, leans_negative, lemma_normalized_sign, lemma_sign_sum_same,
    lemma_sign_sum_zero, lemma_simplified_content, lemma_simplified_fixed, lemma_simplified_sign,
    lemma_vec_gcd_zero, negated, normalized, simplified,
};
use crate::null_space::{lemma_solve_spans, lemma_solve_spec, solve_spec};
use crate::rank::{
    lemma_rank_rows, lemma_reduce_rank, lemma_row_rank_same_span, lemma_row_rank_unique,
    most_independent_rows, row_rank_is,
};
use crate::span::{in_rational_span, in_span, independent, lemma_comb_unit};
use crate::term::Term;
use crate::vector::{dot, is_zero, unit, zeros};
use vstd::prelude::*;

verus! {

/// Every vector of a solution balances every row of the matrix that was
/// reduced, not only of its echelon form.
pub proof fn theorem_solution_conserves(m: Seq<Seq<int>>, k: int)
    requires
        m.len() > 0,
        rect(m, m[0].len()),
        reduce(m) is Some,
        solve_spec(reduce(m)->Some_0.0, m[0].len(), reduce(m)->Some_0.1) is Some,
        0 <= k < solve_spec(reduce(m)->Some_0.0, m[0].len(), reduce(m)->Some_0.1)->Some_0.len(),
    ensures
        in_null(m, solve_spec(reduce(m)->Some_0.0, m[0].len(), reduce(m)->Some_0.1)->Some_0[k]),
{
    let cols = m[0].len();
    let e = reduce(m)->Some_0.0;
    let rank = reduce(m)->Some_0.1;
    lemma_reduce_from(m, cols, 0, 0);
    lemma_solve_spec(e, cols, rank);
    let v = solve_spec(e, cols, rank)->Some_0[k];
    assert(in_null(e, v));
}

/// In every vector of a solution of an equation, the atoms of each symbol
/// on the left-hand side, each term taken as often as its coefficient says,
/// are as many as on the right-hand side.
pub proof fn theorem_equation_balanced(terms: Seq<Term>, left_len: nat, k: int, r: int)
    requires
        conservation_matrix(terms, left_len).len() > 0,
        reduce(conservation_matrix(terms, left_len)) is Some,
        solve_spec(
            reduce(conservation_matrix(terms, left_len))->Some_0.0,
            terms.len(),
            reduce(conservation_matrix(terms, left_len))->Some_0.1,
        ) is Some,
        0 <= k < solve_spec(
            reduce(conservation_matrix(terms, left_len))->Some_0.0,
            terms.len(),
            reduce(conservation_matrix(terms, left_len))->Some_0.1,
        )->Some_0.len(),
        0 <= r < symbols_upto(terms, terms.len()).len(),
    ensures
        dot(
            Seq::new(
                terms.len(),
                |c: int| signed_atoms(terms, left_len, c, symbols_upto(terms, terms.len())[r]),
            ),
            solve_spec(
                reduce(conservation_matrix(terms, left_len))->Some_0.0,
                terms.len(),
                reduce(conservation_matrix(terms, left_len))->Some_0.1,
            )->Some_0[k],
        ) == 0,
{
    let m = conservation_matrix(terms, left_len);
    assert(m[0].len() == terms.len());
    assert forall|i: int| 0 <= i < m.len() implies (#[trigger] m[i]).len() == m[0].len() by {}
    theorem_solution_conserves(m, k);
    let v = solve_spec(reduce(m)->Some_0.0, terms.len(), reduce(m)->Some_0.1)->Some_0[k];
    assert(in_null(m, v));
    assert(dot(m[r], v) == 0);
}

/// Reduction finds the row rank: the number of pivots is the dimension of
/// the row space of the matrix, and the largest number of linearly
/// independent rows that the matrix has.
pub proof fn theorem_rank_is_row_rank(m: Seq<Seq<int>>)
    requires
        m.len() > 0,
        rect(m, m[0].len()),
        reduce(m) is Some,
    ensures
        row_rank_is(m, m[0].len(), reduce(m)->Some_0.1),
        most_independent_rows(m, m[0].len(), reduce(m)->Some_0.1),
{
    lemma_reduce_rank(m);
    lemma_rank_rows(m, m[0].len(), reduce(m)->Some_0.1);
}

/// Whether `q` inverts `p`: both rearrange the indices below their length.
pub open spec fn inverts(p: Seq<int>, q: Seq<int>) -> bool {
    &&& p.len() == q.len()
    &&& forall|i: int| 0 <= i < p.len() ==> 0 <= #[trigger] p[i] < p.len() && q[p[i]] == i
    &&& forall|j: int| 0 <= j < q.len() ==> 0 <= #[trigger] q[j] < q.len() && p[q[j]] == j
}

/// Whether `p` is a permutation of the indices below its length.
pub open spec fn is_permutation(p: Seq<int>) -> bool {
    exists|q: Seq<int>| inverts(p, q)
}

/// The rows of `m` in the order that `p` gives.
pub open spec fn permuted(m: Seq<Seq<int>>, p: Seq<int>) -> Seq<Seq<int>> {
    Seq::new(m.len(), |i: int| m[p[i]])
}

/// The rank that reduction finds does not depend on the order of the rows.
pub proof fn theorem_rank_permutation_invariant(m: Seq<Seq<int>>, p: Seq<int>)
    requires
        m.len() > 0,
        rect(m, m[0].len()),
        p.len() == m.len(),
        is_permutation(p),
        reduce(m) is Some,
        reduce(permuted(m, p)) is Some,
    ensures
        reduce(m)->Some_0.1 == reduce(permuted(m, p))->Some_0.1,
{
    let cols = m[0].len();
    let m2 = permuted(m, p);
    let q = choose|q: Seq<int>| inverts(p, q);
    assert(m2[0] == m[p[0]]);
    assert forall|i: int| 0 <= i < m2.len() implies (#[trigger] m2[i]).len() == cols by {
        assert(m2[i] == m[p[i]]);
    }
    assert forall|i: int| 0 <= i < m2.len() implies in_span(#[trigger] m2[i], m, cols) by {
        lemma_comb_unit(m, cols, p[i]);
        assert(unit(m.len(), p[i]).len() == m.len());
    }
    assert forall|j: int| 0 <= j < m.len() implies in_span(#[trigger] m[j], m2, cols) by {
        lemma_comb_unit(m2, cols, q[j]);
        assert(m2[q[j]] == m[p[q[j]]]);
        assert(unit(m2.len(), q[j]).len() == m2.len());
    }
    lemma_reduce_rank(m);
    lemma_reduce_rank(m2);
    lemma_row_rank_same_span(m, m2, cols, reduce(m)->Some_0.1);
    lemma_row_rank_unique(m2, cols, reduce(m)->Some_0.1, reduce(m2)->Some_0.1);
}

/// Every vector of a solution is in normal form: the greatest common
/// divisor of its entries is 1 and it does not lean negative.
pub proof fn theorem_solution_minimal(e: Seq<Seq<int>>, cols: nat, rank: nat, k: int)
    requires
        echelon(e, cols, rank),
        solve_spec(e, cols, rank) is Some,
        0 <= k < solve_spec(e, cols, rank)->Some_0.len(),
    ensures
        content(solve_spec(e, cols, rank)->Some_0[k]) == 1,
        !leans_negative(solve_spec(e, cols, rank)->Some_0[k]),
{
    lemma_solve_spec(e, cols, rank);
    assert(is_normal(solve_spec(e, cols, rank)->Some_0[k]));
}

/// The solver returns as many vectors as there are columns without pivot,
/// each balances every row, and together they are linearly independent.
pub proof fn theorem_basis_independent(e: Seq<Seq<int>>, cols: nat, rank: nat)
    requires
        echelon(e, cols, rank),
        solve_spec(e, cols, rank) is Some,
    ensures
        solve_spec(e, cols, rank)->Some_0.len() == cols - rank,
        forall|k: int|
            0 <= k < cols - rank ==> in_null(e, #[trigger] solve_spec(e, cols, rank)->Some_0[k]),
        independent(solve_spec(e, cols, rank)->Some_0, cols),
{
    lemma_solve_spec(e, cols, rank);
}

/// The solution is complete: every vector that balances every row of the
/// matrix that was reduced is a combination, with rational coefficients,
/// of the vectors of the solution. Where the solution holds no vector,
/// only the zero vector balances the rows.
pub proof fn theorem_solution_complete(m: Seq<Seq<int>>, x: Seq<int>)
    requires
        m.len() > 0,
        rect(m, m[0].len()),
        reduce(m) is Some,
        solve_spec(reduce(m)->Some_0.0, m[0].len(), reduce(m)->Some_0.1) is Some,
        x.len() == m[0].len(),
        in_null(m, x),
    ensures
        in_rational_span(
            x,
            solve_spec(reduce(m)->Some_0.0, m[0].len(), reduce(m)->Some_0.1)->Some_0,
            m[0].len(),
        ),
        solve_spec(reduce(m)->Some_0.0, m[0].len(), reduce(m)->Some_0.1)->Some_0.len() == 0
            ==> is_zero(x),
{
    let cols = m[0].len();
    let e = reduce(m)->Some_0.0;
    let rank = reduce(m)->Some_0.1;
    lemma_reduce_from(m, cols, 0, 0);
    assert(in_null(e, x));
    lemma_solve_spec(e, cols, rank);
    lemma_solve_spans(e, cols, rank, x);
}

/// Normalizing twice is normalizing once: the normal form of a vector is
/// in normal form, and a vector in normal form is its own normal form.
pub proof fn theorem_normal_form_idempotent(v: Seq<int>)
    ensures
        !is_zero(v) ==> is_normal(simplified(normalized(v))),
        is_normal(v) ==> simplified(normalized(v)) == v,
        simplified(normalized(simplified(normalized(v)))) == simplified(normalized(v)),
{
    let n = normalized(v);
    let f = simplified(n);
    lemma_normalized_sign(v);
    if is_normal(v) {
        lemma_simplified_fixed(v);
    }
    if is_zero(v) {
        lemma_vec_gcd_zero(v, v.len());
        lemma_lead(v);
        lemma_sign_sum_same(v, zeros(v.len()), v.len());
        lemma_sign_sum_zero(v.len());
        assert(!leans_negative(v));
        assert(f == v);
    } else {
        if leans_negative(v) {
            let k = choose|k: int| 0 <= k < v.len() && v[k] != 0;
            assert(negated(v)[k] != 0);
        }
        lemma_simplified_sign(n);
        lemma_simplified_content(n);
        lemma_simplified_fixed(f);
    }
}

} // verus!
