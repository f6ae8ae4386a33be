//! The row rank of an integer matrix, and why elimination finds it.

use crate::echelon::{echelon, lemma_echelon_independent};
use crate::elimination::{
    elim_xs, elim_ys, eliminate, least_pivot, lemma_eliminate_gen_op, lemma_least_pivot,
    lemma_pivot_step_echelon, lemma_reduce_from, partial_echelon, reduce, reduce_from,
};
use crate::matrix::{col, identity, rect, swap_rows};
use crate::span::{
    all_in_span, comb, gen_op, in_span, independent, lemma_comb_assoc, lemma_comb_concat,
    lemma_comb_linear, lemma_comb_unit, lemma_comb_zero, lemma_gen_op_independent,
    lemma_identity_independent, lemma_more_vectors_dependent, lemma_span_trans,
    lemma_subrange_independent, lemma_swap_independent,
};
use crate::vector::{
    dot_upto, is_zero, lemma_dot_ext, lemma_dot_scaled, lemma_dot_single, lemma_dot_update,
    lemma_dot_zero, scaled, unit, zeros,
};
use vstd::prelude::*;

verus! {

/// Whether `vs` holds `r` independent vectors of length `n` from the row
/// span of `m`.
pub open spec fn spans_independent(vs: Seq<Seq<int>>, m: Seq<Seq<int>>, n: nat, r: nat) -> bool {
    &&& vs.len() == r
    &&& rect(vs, n)
    &&& all_in_span(vs, m, n)
    &&& independent(vs, n)
}

/// Whether `r` is the row rank of `m`, a matrix with `n` columns: the row
/// span of `m` holds `r` independent vectors, and no more.
///
/// This is the dimension of the row space over the rationals: a rational
/// combination of integer rows becomes an integer combination when it is
/// multiplied by its denominators, which changes neither independence nor
/// the space that a family spans.
pub open spec fn row_rank_is(m: Seq<Seq<int>>, n: nat, r: nat) -> bool {
    &&& exists|vs: Seq<Seq<int>>| #[trigger] spans_independent(vs, m, n, r)
    &&& forall|vs: Seq<Seq<int>>| !#[trigger] spans_independent(vs, m, n, r + 1)
}

/// Whether every row of `e` is the combination of the rows of `m` with the
/// matching row of `p` as coefficients: `e` is `p` times `m`.
pub open spec fn factors(e: Seq<Seq<int>>, p: Seq<Seq<int>>, m: Seq<Seq<int>>, n: nat) -> bool {
    &&& e.len() == p.len()
    &&& p.len() == m.len()
    &&& rect(p, m.len())
    &&& forall|k: int| 0 <= k < e.len() ==> #[trigger] e[k] == comb(p[k], m, n)
}

/// A matrix that elimination brings to an echelon form with `rank` pivot
/// rows, by row operations that an independent matrix `p` records, has row
/// rank `rank`.
pub proof fn lemma_rank_from_factors(
    m: Seq<Seq<int>>,
    e: Seq<Seq<int>>,
    p: Seq<Seq<int>>,
    n: nat,
    rank: nat,
)
    requires
        rect(m, n),
        echelon(e, n, rank),
        factors(e, p, m, n),
        independent(p, m.len()),
    ensures
        row_rank_is(m, n, rank),
{
    let rows = m.len();
    // The pivot rows are independent vectors of the row span.
    let top = e.subrange(0, rank as int);
    lemma_echelon_independent(e, n, rank);
    assert forall|i: int| 0 <= i < top.len() implies in_span(#[trigger] top[i], m, n) by {
        assert(top[i] == e[i]);
        assert(e[i] == comb(p[i], m, n));
        assert(p[i].len() == rows);
    }
    assert forall|i: int| 0 <= i < top.len() implies (#[trigger] top[i]).len() == n by {
        assert(top[i] == e[i]);
    }
    assert(spans_independent(top, m, n, rank));

    // One vector more is dependent: the rows of `p` that give the zero
    // rows of `e` are relations among the rows of `m`.
    let tail = p.subrange(rank as int, rows as int);
    lemma_subrange_independent(p, rows, rank as int, rows as int);
    assert forall|k: int| 0 <= k < tail.len() implies (#[trigger] tail[k]).len() == rows
        && is_zero(comb(tail[k], m, n)) by {
        assert(tail[k] == p[rank + k]);
        assert(e[rank + k] == comb(p[rank + k], m, n));
        assert(is_zero(e[rank + k]));
    }
    assert forall|vs: Seq<Seq<int>>| !#[trigger] spans_independent(vs, m, n, rank + 1) by {
        if vs.len() == rank + 1 && rect(vs, n) && all_in_span(vs, m, n) {
            lemma_span_bound(m, n, vs, tail);
        }
    }
}

/// Whether `rels` holds relations among the rows of `m`: coefficients that
/// combine the rows to zero.
pub open spec fn relations(rels: Seq<Seq<int>>, m: Seq<Seq<int>>, n: nat) -> bool {
    &&& rect(rels, m.len())
    &&& forall|k: int| 0 <= k < rels.len() ==> is_zero(comb(#[trigger] rels[k], m, n))
}

/// Independent relations leave little room for independent vectors: vectors
/// of the row span of `m` that, together with independent relations among
/// the rows, are more than `m` has rows are linearly dependent.
pub proof fn lemma_span_bound(m: Seq<Seq<int>>, n: nat, vs: Seq<Seq<int>>, rels: Seq<Seq<int>>)
    requires
        all_in_span(vs, m, n),
        relations(rels, m, n),
        independent(rels, m.len()),
        vs.len() + rels.len() > m.len(),
    ensures
        !independent(vs, n),
{
    let rows = m.len();
    let cs = Seq::new(
        vs.len(),
        |i: int| choose|c: Seq<int>| c.len() == m.len() && #[trigger] comb(c, m, n) == vs[i],
    );
    assert forall|i: int| 0 <= i < vs.len() implies (#[trigger] cs[i]).len() == rows && vs[i]
        == comb(cs[i], m, n) by {
        assert(in_span(vs[i], m, n));
    }
    let all = cs + rels;
    assert forall|i: int| 0 <= i < all.len() implies (#[trigger] all[i]).len() == rows by {
        if i < cs.len() {
            assert(all[i] == cs[i]);
        } else {
            assert(all[i] == rels[i - cs.len()]);
        }
    }
    let f = lemma_more_vectors_dependent(all, rows);
    let y = f.subrange(0, cs.len() as int);
    let z = f.subrange(cs.len() as int, f.len() as int);
    assert(f =~= y + z);
    let u = comb(y, cs, rows);
    let t = comb(z, rels, rows);
    assert forall|j: int| 0 <= j < rows implies u[j] + t[j] == 0 by {
        lemma_comb_concat(y, z, cs, rels, rows, j);
        assert(comb(f, all, rows)[j] == 0);
    }
    if is_zero(y) {
        lemma_comb_zero(y, cs, rows);
        assert(is_zero(t));
        assert(is_zero(z));
        assert forall|k: int| 0 <= k < f.len() implies f[k] == 0 by {
            if k < y.len() {
                assert(f[k] == y[k]);
            } else {
                assert(f[k] == z[k - y.len()]);
            }
        }
    }
    // The same coefficients combine the vectors to zero.
    lemma_comb_assoc(y, cs, m, n, vs);
    let zs = Seq::new(rels.len(), |k: int| comb(rels[k], m, n));
    lemma_comb_assoc(z, rels, m, n, zs);
    assert(u =~= scaled(t, -1));
    assert forall|q: int| 0 <= q < n implies comb(y, vs, n)[q] == 0 by {
        let v = col(m, q);
        lemma_dot_scaled(t, -1, v, rows);
        assert(comb(u, m, n)[q] == -dot_upto(t, v, rows));
        assert(comb(t, m, n)[q] == comb(z, zs, n)[q]);
        assert forall|k: int| 0 <= k < zs.len() implies col(zs, q)[k] == 0 by {
            assert(is_zero(comb(rels[k], m, n)));
        }
        lemma_dot_zero(z, col(zs, q), zs.len());
    }
    assert(is_zero(comb(y, vs, n)));
}

/// A row span that holds `r2` independent vectors holds `r1` of them for
/// every `r1` up to `r2`.
pub proof fn lemma_fewer_independent(m: Seq<Seq<int>>, n: nat, r1: nat, r2: nat) -> (part: Seq<
    Seq<int>,
>)
    requires
        exists|vs: Seq<Seq<int>>| #[trigger] spans_independent(vs, m, n, r2),
        r1 <= r2,
    ensures
        spans_independent(part, m, n, r1),
{
    let vs = choose|vs: Seq<Seq<int>>| #[trigger] spans_independent(vs, m, n, r2);
    let part = vs.subrange(0, r1 as int);
    lemma_subrange_independent(vs, n, 0, r1 as int);
    assert forall|i: int| 0 <= i < part.len() implies (#[trigger] part[i]).len() == n && in_span(
        part[i],
        m,
        n,
    ) by {
        assert(part[i] == vs[i]);
    }
    part
}

/// The row rank of a matrix is unique.
pub proof fn lemma_row_rank_unique(m: Seq<Seq<int>>, n: nat, r1: nat, r2: nat)
    requires
        row_rank_is(m, n, r1),
        row_rank_is(m, n, r2),
    ensures
        r1 == r2,
{
    if r1 < r2 {
        let part = lemma_fewer_independent(m, n, r1 + 1, r2);
        assert(spans_independent(part, m, n, r1 + 1));
    } else if r2 < r1 {
        let part = lemma_fewer_independent(m, n, r2 + 1, r1);
        assert(spans_independent(part, m, n, r2 + 1));
    }
}

/// Two matrices whose rows lie in each other's row span have the same row rank.
pub proof fn lemma_row_rank_same_span(m1: Seq<Seq<int>>, m2: Seq<Seq<int>>, n: nat, r: nat)
    requires
        rect(m1, n),
        rect(m2, n),
        all_in_span(m1, m2, n),
        all_in_span(m2, m1, n),
        row_rank_is(m1, n, r),
    ensures
        row_rank_is(m2, n, r),
{
    let vs = choose|vs: Seq<Seq<int>>| #[trigger] spans_independent(vs, m1, n, r);
    lemma_span_trans(vs, m1, m2, n);
    assert(spans_independent(vs, m2, n, r));
    assert forall|ws: Seq<Seq<int>>| !#[trigger] spans_independent(ws, m2, n, r + 1) by {
        if ws.len() == r + 1 && rect(ws, n) && all_in_span(ws, m2, n) {
            lemma_span_trans(ws, m2, m1, n);
            assert(!spans_independent(ws, m1, n, r + 1));
        }
    }
}

/// Elimination from a state that an independent matrix `p` records as a
/// product with the first matrix `m0` ends with the row rank of `m0`.
pub proof fn lemma_reduce_rank_from(
    m0: Seq<Seq<int>>,
    m: Seq<Seq<int>>,
    p: Seq<Seq<int>>,
    cols: nat,
    r: nat,
    c: nat,
)
    requires
        rect(m0, cols),
        partial_echelon(m, cols, r, c),
        factors(m, p, m0, cols),
        independent(p, m0.len()),
        reduce_from(m, cols, r, c) is Some,
    ensures
        row_rank_is(m0, cols, reduce_from(m, cols, r, c)->Some_0.1),
    decreases cols - c,
{
    let rows = m0.len();
    if r >= m.len() || c >= cols {
        lemma_reduce_from(m, cols, r, c);
        lemma_rank_from_factors(m0, m, p, cols, r);
    } else {
        lemma_least_pivot(m, c as int, r as int, m.len() as int);
        match least_pivot(m, c as int, r as int, m.len() as int) {
            None => {
                lemma_reduce_rank_from(m0, m, p, cols, r, c + 1);
            },
            Some(pv) => {
                let sw = swap_rows(m, r as int, pv);
                let e = eliminate(sw, r as int, c as int);
                let psw = swap_rows(p, r as int, pv);
                let xs = elim_xs(sw, r as int, c as int);
                let ys = elim_ys(sw, r as int, c as int);
                let stepped = gen_op(psw, r as int, xs, ys);
                assert(sw[r as int] == m[pv]);
                lemma_eliminate_gen_op(sw, r as int, c as int);
                lemma_swap_independent(p, rows, r as int, pv);
                assert(rect(psw, rows));
                lemma_gen_op_independent(psw, rows, r as int, xs, ys);
                assert forall|k: int| 0 <= k < sw.len() implies #[trigger] sw[k] == comb(
                    psw[k],
                    m0,
                    cols,
                ) by {
                    if k == r {
                        assert(m[pv] == comb(p[pv], m0, cols));
                    } else if k == pv {
                        assert(m[r as int] == comb(p[r as int], m0, cols));
                    } else {
                        assert(m[k] == comb(p[k], m0, cols));
                    }
                }
                assert forall|k: int| 0 <= k < e.len() implies #[trigger] e[k] == comb(
                    stepped[k],
                    m0,
                    cols,
                ) by {
                    assert(sw[k] == comb(psw[k], m0, cols));
                    assert(sw[r as int] == comb(psw[r as int], m0, cols));
                    assert(psw[k].len() == rows);
                    assert(psw[r as int].len() == rows);
                    if k > r {
                        lemma_comb_linear(psw[k], xs[k], psw[r as int], ys[k], m0, cols);
                    }
                }
                assert forall|k: int| 0 <= k < stepped.len() implies (#[trigger] stepped[k]).len()
                    == rows by {
                    assert(psw[k].len() == rows);
                }
                lemma_pivot_step_echelon(m, cols, r, c, pv);
                lemma_reduce_rank_from(m0, e, stepped, cols, r + 1, c + 1);
            },
        }
    }
}

/// The number of pivots that elimination finds is the row rank of the matrix.
pub proof fn lemma_reduce_rank(m: Seq<Seq<int>>)
    requires
        m.len() > 0,
        rect(m, m[0].len()),
        reduce(m) is Some,
    ensures
        row_rank_is(m, m[0].len(), reduce(m)->Some_0.1),
{
    let cols = m[0].len();
    let id = identity(m.len());
    lemma_identity_independent(m.len());
    assert forall|k: int| 0 <= k < m.len() implies #[trigger] m[k] == comb(id[k], m, cols) by {
        lemma_comb_unit(m, cols, k);
    }
    lemma_reduce_rank_from(m, m, id, cols, 0, 0);
}

/// The rows of `m` that `idx` picks, in that order.
pub open spec fn select(m: Seq<Seq<int>>, idx: Seq<int>) -> Seq<Seq<int>> {
    Seq::new(idx.len(), |j: int| m[idx[j]])
}

/// Whether `idx` lists indices below `bound` in increasing order.
pub open spec fn increasing(idx: Seq<int>, bound: int) -> bool {
    &&& forall|j: int| 0 <= j < idx.len() ==> 0 <= #[trigger] idx[j] < bound
    &&& forall|j: int, k: int| 0 <= j < k < idx.len() ==> #[trigger] idx[j] < #[trigger] idx[k]
}

/// Whether `idx` picks linearly independent rows of `m`.
pub open spec fn independent_rows(m: Seq<Seq<int>>, n: nat, idx: Seq<int>) -> bool {
    increasing(idx, m.len() as int) && independent(select(m, idx), n)
}

/// Whether `r` is the largest number of linearly independent rows of `m`.
pub open spec fn most_independent_rows(m: Seq<Seq<int>>, n: nat, r: nat) -> bool {
    &&& exists|idx: Seq<int>| idx.len() == r && #[trigger] independent_rows(m, n, idx)
    &&& forall|idx: Seq<int>| idx.len() == r + 1 ==> !#[trigger] independent_rows(m, n, idx)
}

/// The coefficients `c` of the first `t` picked rows, each put at the
/// index of its row in a vector of length `len`.
pub open spec fn scatter(c: Seq<int>, idx: Seq<int>, len: nat, t: nat) -> Seq<int>
    decreases t,
{
    if t == 0 {
        zeros(len)
    } else {
        let prev = scatter(c, idx, len, (t - 1) as nat);
        prev.update(idx[t - 1], prev[idx[t - 1]] + c[t - 1])
    }
}

/// Scattered coefficients weigh a vector as the coefficients weigh the
/// picked entries, and they are zero where no row was picked.
pub proof fn lemma_scatter(c: Seq<int>, idx: Seq<int>, len: nat, t: nat, v: Seq<int>)
    requires
        t <= idx.len(),
        forall|j: int| 0 <= j < idx.len() ==> 0 <= #[trigger] idx[j] < len,
    ensures
        scatter(c, idx, len, t).len() == len,
        dot_upto(scatter(c, idx, len, t), v, len) == dot_upto(
            c,
            Seq::new(idx.len(), |j: int| v[idx[j]]),
            t,
        ),
        forall|row: int|
            0 <= row < len && (forall|j: int| 0 <= j < t ==> #[trigger] idx[j] != row)
                ==> #[trigger] scatter(c, idx, len, t)[row] == 0,
    decreases t,
{
    if t == 0 {
        lemma_dot_zero(zeros(len), v, len);
    } else {
        let before = (t - 1) as nat;
        lemma_scatter(c, idx, len, before, v);
        let prev = scatter(c, idx, len, before);
        let k = idx[t - 1];
        lemma_dot_update(prev, k, prev[k] + c[t - 1], v, len);
        let picked = Seq::new(idx.len(), |j: int| v[idx[j]]);
        assert(picked[t - 1] == v[k]);
        assert((prev[k] + c[t - 1] - prev[k]) * v[k] == c[t - 1] * v[k]);
    }
}

/// A vector with a nonzero entry where every vector of an independent
/// family is zero can join the family.
pub proof fn lemma_push_independent(vs: Seq<Seq<int>>, n: nat, w: Seq<int>, q: int)
    requires
        independent(vs, n),
        0 <= q < n,
        w[q] != 0,
        forall|t: int| 0 <= t < vs.len() ==> (#[trigger] vs[t])[q] == 0,
    ensures
        independent(vs.push(w), n),
{
    let ext = vs.push(w);
    let k = vs.len() as int;
    assert forall|c: Seq<int>| c.len() == ext.len() && is_zero(#[trigger] comb(c, ext, n)) implies is_zero(
        c,
    ) by {
        let column = col(ext, q);
        assert forall|t: int| 0 <= t < ext.len() && t != k implies c[t] == 0 || column[t] == 0 by {
            assert(ext[t] == vs[t]);
        }
        lemma_dot_single(c, column, ext.len(), k);
        assert(comb(c, ext, n)[q] == 0);
        assert(column[k] == w[q]);
        assert(c[k] == 0) by (nonlinear_arith)
            requires
                c[k] * w[q] == 0,
                w[q] != 0,
        ;
        lemma_drop_zero(c, vs, w, n);
        let head = c.subrange(0, k);
        assert(is_zero(head));
        assert forall|t: int| 0 <= t < c.len() implies c[t] == 0 by {
            if t < k {
                assert(c[t] == head[t]);
            }
        }
    }
}

/// Where the last coefficient is zero, the others combine the family
/// without its last vector to the same vector.
pub proof fn lemma_drop_zero(c: Seq<int>, vs: Seq<Seq<int>>, w: Seq<int>, n: nat)
    requires
        c.len() == vs.len() + 1,
        c[vs.len() as int] == 0,
    ensures
        comb(c.subrange(0, vs.len() as int), vs, n) == comb(c, vs.push(w), n),
{
    let k = vs.len() as int;
    let head = c.subrange(0, k);
    let l = comb(head, vs, n);
    let r = comb(c, vs.push(w), n);
    assert forall|j: int| 0 <= j < n implies l[j] == r[j] by {
        let column = col(vs.push(w), j);
        assert(dot_upto(c, column, (k + 1) as nat) == dot_upto(c, column, k as nat) + c[k]
            * column[k]);
        assert(0 * column[k] == 0);
        lemma_dot_ext(c, column, head, col(vs, j), k as nat);
    }
    assert(l =~= r);
}

/// Going through the first `i` rows and keeping each row that is
/// independent of the rows kept before it leaves independent rows and, for
/// every other row, a relation that ties it to the rows kept before it;
/// these relations are independent too.
pub proof fn lemma_greedy_rows(m: Seq<Seq<int>>, n: nat, i: nat) -> (res: (
    Seq<int>,
    Seq<Seq<int>>,
))
    requires
        rect(m, n),
        i <= m.len(),
    ensures
        increasing(res.0, i as int),
        independent(select(m, res.0), n),
        res.0.len() + res.1.len() == i,
        relations(res.1, m, n),
        independent(res.1, m.len()),
        forall|t: int, row: int|
            0 <= t < res.1.len() && i <= row < m.len() ==> #[trigger] res.1[t][row] == 0,
    decreases i,
{
    let rows = m.len();
    if i == 0 {
        let sel = Seq::<int>::empty();
        let rels = Seq::<Seq<int>>::empty();
        assert forall|c: Seq<int>|
            c.len() == select(m, sel).len() && is_zero(
                #[trigger] comb(c, select(m, sel), n),
            ) implies is_zero(c) by {}
        assert forall|c: Seq<int>| c.len() == rels.len() && is_zero(#[trigger] comb(c, rels, rows)) implies is_zero(
            c,
        ) by {}
        (sel, rels)
    } else {
        let row = (i - 1) as int;
        let (sel, rels) = lemma_greedy_rows(m, n, (i - 1) as nat);
        let ext = sel.push(row);
        assert(increasing(ext, i as int)) by {
            assert forall|j: int| 0 <= j < ext.len() implies 0 <= #[trigger] ext[j] < i by {
                if j < sel.len() {
                    assert(ext[j] == sel[j]);
                }
            }
            assert forall|j: int, k: int| 0 <= j < k < ext.len() implies #[trigger] ext[j]
                < #[trigger] ext[k] by {
                assert(ext[j] == sel[j]);
                if k < sel.len() {
                    assert(ext[k] == sel[k]);
                }
            }
        }
        if independent(select(m, ext), n) {
            (ext, rels)
        } else {
            let kept = select(m, sel);
            let more = select(m, ext);
            assert(more =~= kept.push(m[row]));
            let c = choose|c: Seq<int>|
                c.len() == more.len() && is_zero(#[trigger] comb(c, more, n)) && !is_zero(c);
            let last = sel.len() as int;
            if c[last] == 0 {
                lemma_drop_zero(c, kept, m[row], n);
                let head = c.subrange(0, last);
                assert(is_zero(head));
                assert forall|t: int| 0 <= t < c.len() implies c[t] == 0 by {
                    if t < last {
                        assert(c[t] == head[t]);
                    }
                }
            }
            let rho = scatter(c, ext, rows, ext.len());
            assert forall|j: int| 0 <= j < ext.len() implies 0 <= #[trigger] ext[j] < rows by {}
            lemma_scatter(c, ext, rows, ext.len(), zeros(rows));
            assert forall|q: int| 0 <= q < n implies comb(rho, m, n)[q] == 0 by {
                lemma_scatter(c, ext, rows, ext.len(), col(m, q));
                assert(Seq::new(ext.len(), |j: int| col(m, q)[ext[j]]) =~= col(more, q));
                assert(comb(c, more, n)[q] == 0);
            }
            // The relation is zero from row `i` on and holds the last
            // coefficient at the row itself.
            let before = scatter(c, ext, rows, sel.len());
            lemma_scatter(c, ext, rows, sel.len(), zeros(rows));
            assert(before[row] == 0) by {
                assert forall|j: int| 0 <= j < sel.len() implies #[trigger] ext[j] != row by {
                    assert(ext[j] < ext[last]);
                }
            }
            assert(rho[row] == c[last]);
            assert forall|later: int| i <= later < rows implies rho[later] == 0 by {
                assert forall|j: int| 0 <= j < ext.len() implies #[trigger] ext[j] != later by {}
            }
            lemma_push_independent(rels, rows, rho, row);
            let grown = rels.push(rho);
            assert forall|k: int| 0 <= k < grown.len() implies (#[trigger] grown[k]).len() == rows
                && is_zero(comb(grown[k], m, n)) by {
                if k < rels.len() {
                    assert(grown[k] == rels[k]);
                }
            }
            assert forall|t: int, later: int|
                0 <= t < grown.len() && i <= later < rows implies #[trigger] grown[t][later]
                == 0 by {
                if t < rels.len() {
                    assert(grown[t] == rels[t]);
                }
            }
            (sel, grown)
        }
    }
}

/// The row rank of a matrix is the largest number of linearly independent
/// rows that it has.
pub proof fn lemma_rank_rows(m: Seq<Seq<int>>, n: nat, r: nat)
    requires
        rect(m, n),
        row_rank_is(m, n, r),
    ensures
        most_independent_rows(m, n, r),
{
    let rows = m.len();
    let (sel, rels) = lemma_greedy_rows(m, n, rows);
    if sel.len() < r {
        let vs = choose|vs: Seq<Seq<int>>| #[trigger] spans_independent(vs, m, n, r);
        lemma_span_bound(m, n, vs, rels);
    }
    let idx = sel.subrange(0, r as int);
    lemma_subrange_independent(select(m, sel), n, 0, r as int);
    assert(select(m, idx) =~= select(m, sel).subrange(0, r as int));
    assert(increasing(idx, rows as int)) by {
        assert forall|j: int| 0 <= j < idx.len() implies 0 <= #[trigger] idx[j] < rows by {
            assert(idx[j] == sel[j]);
        }
        assert forall|j: int, k: int| 0 <= j < k < idx.len() implies #[trigger] idx[j]
            < #[trigger] idx[k] by {
            assert(idx[j] == sel[j]);
            assert(idx[k] == sel[k]);
        }
    }
    assert(independent_rows(m, n, idx));
    assert forall|more: Seq<int>| more.len() == r + 1 implies !#[trigger] independent_rows(
        m,
        n,
        more,
    ) by {
        if increasing(more, rows as int) {
            let vs = select(m, more);
            assert forall|j: int| 0 <= j < vs.len() implies (#[trigger] vs[j]).len() == n
                && in_span(vs[j], m, n) by {
                lemma_comb_unit(m, n, more[j]);
                assert(unit(rows, more[j]).len() == rows);
            }
            assert(!spans_independent(vs, m, n, r + 1));
        }
    }
}

} // verus!
