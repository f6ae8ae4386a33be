//! Row echelon form.

use crate::matrix::{col, is_rectangular, rect, rows};
use crate::span::{comb, independent};
use crate::vector::{ints, is_zero, lemma_dot_single};
use vstd::prelude::*;

verus! {

/// The index of the first nonzero entry of `v` at or after `j`, or the
/// length of `v` if there is none.
pub open spec fn lead_from(v: Seq<int>, j: nat) -> nat
    decreases v.len() - j,
{
    if j >= v.len() {
        v.len()
    } else if v[j as int] != 0 {
        j
    } else {
        lead_from(v, j + 1)
    }
}

/// The index of the first nonzero entry of `v`, or its length if `v` is zero.
pub open spec fn lead(v: Seq<int>) -> nat {
    lead_from(v, 0)
}

/// Whether `m` is in row echelon form with `rank` pivot rows: the leading
/// entries of the first `rank` rows move strictly to the right, and the
/// other rows are zero.
pub open spec fn echelon(m: Seq<Seq<int>>, cols: nat, rank: nat) -> bool {
    &&& rect(m, cols)
    &&& rank <= m.len()
    &&& forall|i: int| 0 <= i < rank ==> lead(#[trigger] m[i]) < cols
    &&& forall|i: int, j: int| 0 <= i < j < rank ==> lead(#[trigger] m[i]) < lead(#[trigger] m[j])
    &&& forall|i: int| rank <= i < m.len() ==> is_zero(#[trigger] m[i])
}

/// What `lead_from` returns: the entries from `j` up to it are zero, and the
/// entry at it is not.
pub proof fn lemma_lead_from(v: Seq<int>, j: nat)
    requires
        j <= v.len(),
    ensures
        j <= lead_from(v, j) <= v.len(),
        forall|k: int| j <= k < lead_from(v, j) ==> v[k] == 0,
        lead_from(v, j) < v.len() ==> v[lead_from(v, j) as int] != 0,
    decreases v.len() - j,
{
    if j < v.len() && v[j as int] == 0 {
        lemma_lead_from(v, j + 1);
    }
}

/// What `lead` returns: the entries before it are zero, and the entry at it
/// is not.
pub proof fn lemma_lead(v: Seq<int>)
    ensures
        lead(v) <= v.len(),
        forall|k: int| 0 <= k < lead(v) ==> v[k] == 0,
        lead(v) < v.len() ==> v[lead(v) as int] != 0,
        is_zero(v) <==> lead(v) == v.len(),
{
    lemma_lead_from(v, 0);
}

/// A nonzero entry that only zeros precede is the leading entry.
pub proof fn lemma_lead_is(v: Seq<int>, p: int)
    requires
        0 <= p < v.len(),
        v[p] != 0,
        forall|k: int| 0 <= k < p ==> v[k] == 0,
    ensures
        lead(v) == p,
{
    lemma_lead(v);
}

/// Two vectors with zeros in the same places have the same leading index.
pub proof fn lemma_lead_same_pattern(a: Seq<int>, b: Seq<int>)
    requires
        a.len() == b.len(),
        forall|j: int| 0 <= j < a.len() ==> (a[j] == 0 <==> b[j] == 0),
    ensures
        lead(a) == lead(b),
{
    lemma_lead(a);
    lemma_lead(b);
    if lead(a) < lead(b) {
        assert(b[lead(a) as int] == 0);
    }
    if lead(b) < lead(a) {
        assert(a[lead(b) as int] == 0);
    }
}

/// In echelon form the leading entry of row `i` is at column `i` or further right.
pub proof fn lemma_echelon_lead_lower(m: Seq<Seq<int>>, cols: nat, rank: nat, i: int)
    requires
        echelon(m, cols, rank),
        0 <= i < rank,
    ensures
        lead(m[i]) >= i,
    decreases i,
{
    if i > 0 {
        lemma_echelon_lead_lower(m, cols, rank, i - 1);
    }
}

/// In echelon form the leading entry of row `i` leaves room for the
/// leading entries of the pivot rows below it.
pub proof fn lemma_echelon_lead_upper(m: Seq<Seq<int>>, cols: nat, rank: nat, i: int)
    requires
        echelon(m, cols, rank),
        0 <= i < rank,
    ensures
        lead(m[i]) + (rank - 1 - i) < cols,
    decreases rank - i,
{
    if i < rank - 1 {
        lemma_echelon_lead_upper(m, cols, rank, i + 1);
    }
}

/// A matrix in echelon form has no more pivots than columns.
pub proof fn lemma_echelon_rank_bound(m: Seq<Seq<int>>, cols: nat, rank: nat)
    requires
        echelon(m, cols, rank),
    ensures
        rank <= cols,
{
    if rank > 0 {
        lemma_echelon_lead_upper(m, cols, rank, 0);
    }
}

/// The pivot rows of a matrix in echelon form are in echelon form by themselves.
pub proof fn lemma_echelon_top(m: Seq<Seq<int>>, cols: nat, rank: nat)
    requires
        echelon(m, cols, rank),
    ensures
        echelon(m.subrange(0, rank as int), cols, rank),
{
    let t = m.subrange(0, rank as int);
    assert forall|i: int| 0 <= i < rank implies #[trigger] t[i] == m[i] by {}
    assert forall|i: int| 0 <= i < rank implies lead(#[trigger] t[i]) < cols by {
        assert(t[i] == m[i]);
    }
    assert forall|i: int, j: int| 0 <= i < j < rank implies lead(#[trigger] t[i]) < lead(
        #[trigger] t[j],
    ) by {
        assert(t[i] == m[i]);
        assert(t[j] == m[j]);
    }
}

/// The pivot rows of a matrix in echelon form are independent.
pub proof fn lemma_echelon_independent(e: Seq<Seq<int>>, cols: nat, rank: nat)
    requires
        echelon(e, cols, rank),
    ensures
        independent(e.subrange(0, rank as int), cols),
{
    let top = e.subrange(0, rank as int);
    assert forall|c: Seq<int>| c.len() == top.len() && is_zero(#[trigger] comb(c, top, cols)) implies is_zero(
        c,
    ) by {
        lemma_lead(c);
        if !is_zero(c) {
            let t = lead(c) as int;
            let l = lead(e[t]) as int;
            lemma_lead(e[t]);
            assert(e[t].len() == cols);
            let v = col(top, l);
            assert forall|k: int| 0 <= k < rank && k != t implies c[k] == 0 || v[k] == 0 by {
                if k > t {
                    lemma_lead(e[k]);
                    assert(lead(e[t]) < lead(e[k]));
                    assert(top[k] == e[k]);
                }
            }
            lemma_dot_single(c, v, rank, t);
            assert(top[t] == e[t]);
            assert(comb(c, top, cols)[l] == c[t] * e[t][l]);
            assert(c[t] * e[t][l] != 0) by (nonlinear_arith)
                requires
                    c[t] != 0,
                    e[t][l] != 0,
            ;
        }
    }
}

/// Returns the index of the first nonzero entry of a row, or its length if
/// the row is zero.
pub fn lead_of(row: &Vec<i32>) -> (l: usize)
    ensures
        l == lead(ints(row@)),
{
    let n = row.len();
    let ghost v = ints(row@);
    let mut j: usize = 0;
    while j < n
        invariant
            n == row.len(),
            v == ints(row@),
            j <= n,
            lead(v) == lead_from(v, j as nat),
        decreases n - j,
    {
        if row[j] != 0 {
            return j;
        }
        j += 1;
    }
    j
}

/// Tells whether a matrix is in row echelon form with `rank` pivot rows.
pub fn is_echelon(mat: &Vec<Vec<i32>>, rank: usize) -> (b: bool)
    requires
        mat.len() > 0,
    ensures
        b <==> echelon(rows(mat@), mat[0].len() as nat, rank as nat),
{
    let n = mat.len();
    let cols = mat[0].len();
    let ghost m = rows(mat@);
    if !is_rectangular(mat) || rank > n {
        return false;
    }
    let mut prev: usize = 0;
    let mut i: usize = 0;
    while i < rank
        invariant
            n == mat.len(),
            m == rows(mat@),
            cols == mat[0].len(),
            rect(m, cols as nat),
            rank <= n,
            i <= rank,
            forall|a: int| 0 <= a < i ==> lead(#[trigger] m[a]) < cols,
            i > 0 ==> prev == lead(m[i - 1]),
            forall|a: int, b: int| 0 <= a < b < i ==> lead(#[trigger] m[a]) < lead(#[trigger] m[b]),
        decreases rank - i,
    {
        let l = lead_of(&mat[i]);
        assert(l == lead(m[i as int]));
        if l >= cols {
            return false;
        }
        if i > 0 && l <= prev {
            assert(!(lead(m[i - 1]) < lead(m[i as int])));
            return false;
        }
        prev = l;
        i += 1;
    }
    while i < n
        invariant
            n == mat.len(),
            m == rows(mat@),
            cols == mat[0].len(),
            rect(m, cols as nat),
            rank <= i <= n,
            forall|a: int| 0 <= a < rank ==> lead(#[trigger] m[a]) < cols,
            forall|a: int, b: int|
                0 <= a < b < rank ==> lead(#[trigger] m[a]) < lead(#[trigger] m[b]),
            forall|a: int| rank <= a < i ==> is_zero(#[trigger] m[a]),
        decreases n - i,
    {
        let l = lead_of(&mat[i]);
        proof {
            lemma_lead(m[i as int]);
            assert(m[i as int].len() == cols);
        }
        if l != cols {
            assert(!is_zero(m[i as int]));
            return false;
        }
        i += 1;
    }
    true
}

} // verus!
