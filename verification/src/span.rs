//! Linear combinations of rows, and linear independence.

use crate::matrix::{col, identity, rect, swap_rows};
use crate::vector::{
    dot_upto, is_zero, lemma_dot_comb, lemma_dot_concat, lemma_dot_ext, lemma_dot_padded,
    lemma_dot_scaled, lemma_dot_swapped, lemma_dot_symm, lemma_dot_unit, lemma_dot_update,
    lemma_dot_zero, padded, row_comb, scaled, swapped, unit,
};
use vstd::prelude::*;

verus! {

/// The linear combination of the rows of `vs`, each of length `n`, with the
/// coefficients `c`.
pub open spec fn comb(c: Seq<int>, vs: Seq<Seq<int>>, n: nat) -> Seq<int> {
    Seq::new(n, |j: int| dot_upto(c, col(vs, j), vs.len()))
}

/// Whether the rows of `vs`, each of length `n`, are linearly independent:
/// only the zero coefficients combine them to the zero vector.
///
/// The coefficients are integers. For vectors of integers this is the same
/// as independence over the rationals, since a rational combination can be
/// cleared of its denominators.
pub open spec fn independent(vs: Seq<Seq<int>>, n: nat) -> bool {
    forall|c: Seq<int>| c.len() == vs.len() && is_zero(#[trigger] comb(c, vs, n)) ==> is_zero(c)
}

/// Whether `v` is an integer combination of the rows of `m`.
pub open spec fn in_span(v: Seq<int>, m: Seq<Seq<int>>, n: nat) -> bool {
    exists|c: Seq<int>| c.len() == m.len() && #[trigger] comb(c, m, n) == v
}

/// Whether every row of `vs` is an integer combination of the rows of `m`.
pub open spec fn all_in_span(vs: Seq<Seq<int>>, m: Seq<Seq<int>>, n: nat) -> bool {
    forall|i: int| 0 <= i < vs.len() ==> in_span(#[trigger] vs[i], m, n)
}

/// The matrix in which every row `k` after row `r` is replaced by itself
/// times `xs[k]` minus row `r` times `ys[k]`.
pub open spec fn gen_op(m: Seq<Seq<int>>, r: int, xs: Seq<int>, ys: Seq<int>) -> Seq<Seq<int>> {
    Seq::new(
        m.len(),
        |k: int|
            if k > r {
                row_comb(m[k], xs[k], m[r], ys[k])
            } else {
                m[k]
            },
    )
}

/// The sum of `c[k] * ys[k]` over `r < k < t`.
pub open spec fn tail_sum(c: Seq<int>, ys: Seq<int>, r: int, t: nat) -> int
    decreases t,
{
    if t == 0 || t <= r + 1 {
        0
    } else {
        tail_sum(c, ys, r, (t - 1) as nat) + c[t - 1] * ys[t - 1]
    }
}

/// The coefficients that combine the rows of `m` to what `c` combines the
/// rows of `gen_op(m, r, xs, ys)` to.
pub open spec fn adjusted(c: Seq<int>, r: int, xs: Seq<int>, ys: Seq<int>) -> Seq<int> {
    Seq::new(
        c.len(),
        |k: int|
            if k == r {
                c[r] - tail_sum(c, ys, r, c.len())
            } else if k > r {
                c[k] * xs[k]
            } else {
                c[k]
            },
    )
}

/// The coefficients `y` on the first `t` rows of `c`, column by column.
pub open spec fn partial_comb(y: Seq<int>, c: Seq<Seq<int>>, b: nat, t: nat) -> Seq<int> {
    Seq::new(b, |k: int| dot_upto(y, col(c, k), t))
}

/// A combination with a unit vector as coefficients picks one row.
pub proof fn lemma_comb_unit(vs: Seq<Seq<int>>, n: nat, i: int)
    requires
        rect(vs, n),
        0 <= i < vs.len(),
    ensures
        comb(unit(vs.len(), i), vs, n) == vs[i],
{
    let c = unit(vs.len(), i);
    assert forall|j: int| 0 <= j < n implies comb(c, vs, n)[j] == vs[i][j] by {
        lemma_dot_unit(vs.len(), i, col(vs, j), vs.len());
    }
    assert(comb(c, vs, n) =~= vs[i]);
}

/// A combination with zero coefficients is the zero vector.
pub proof fn lemma_comb_zero(c: Seq<int>, vs: Seq<Seq<int>>, n: nat)
    requires
        is_zero(c),
        c.len() == vs.len(),
    ensures
        is_zero(comb(c, vs, n)),
{
    assert forall|j: int| 0 <= j < n implies comb(c, vs, n)[j] == 0 by {
        lemma_dot_zero(c, col(vs, j), vs.len());
    }
}

/// A combination is linear in its coefficients.
pub proof fn lemma_comb_linear(
    a: Seq<int>,
    x: int,
    b: Seq<int>,
    y: int,
    vs: Seq<Seq<int>>,
    n: nat,
)
    requires
        a.len() == vs.len(),
        b.len() == vs.len(),
    ensures
        comb(row_comb(a, x, b, y), vs, n) == row_comb(comb(a, vs, n), x, comb(b, vs, n), y),
{
    let l = comb(row_comb(a, x, b, y), vs, n);
    let r = row_comb(comb(a, vs, n), x, comb(b, vs, n), y);
    assert forall|j: int| 0 <= j < n implies l[j] == r[j] by {
        lemma_dot_comb(a, x, b, y, col(vs, j), vs.len());
        assert(x * dot_upto(a, col(vs, j), vs.len()) == dot_upto(a, col(vs, j), vs.len()) * x)
            by (nonlinear_arith);
        assert(y * dot_upto(b, col(vs, j), vs.len()) == dot_upto(b, col(vs, j), vs.len()) * y)
            by (nonlinear_arith);
    }
    assert(l =~= r);
}

/// A double sum can be taken in either order: the coefficients `y` on the
/// dot products of the rows of `c` with `v` give the dot product of the
/// combination of the rows with `v`.
pub proof fn lemma_double_sum(y: Seq<int>, c: Seq<Seq<int>>, v: Seq<int>, b: nat, t: nat)
    requires
        t <= c.len(),
        rect(c, b),
    ensures
        dot_upto(y, Seq::new(c.len(), |i: int| dot_upto(c[i], v, b)), t) == dot_upto(
            partial_comb(y, c, b, t),
            v,
            b,
        ),
    decreases t,
{
    let mv = Seq::new(c.len(), |i: int| dot_upto(c[i], v, b));
    if t == 0 {
        lemma_dot_zero(partial_comb(y, c, b, 0), v, b);
    } else {
        let k = t - 1;
        lemma_double_sum(y, c, v, b, k as nat);
        let prev = partial_comb(y, c, b, k as nat);
        let cur = partial_comb(y, c, b, t);
        assert(c[k].len() == b);
        assert(cur =~= row_comb(prev, 1, c[k], -y[k])) by {
            assert forall|q: int| 0 <= q < b implies cur[q] == prev[q] * 1 - c[k][q] * (-y[k]) by {
                assert(col(c, q)[k] == c[k][q]);
                assert(prev[q] * 1 - c[k][q] * (-y[k]) == prev[q] + y[k] * c[k][q])
                    by (nonlinear_arith);
            }
        }
        lemma_dot_comb(prev, 1, c[k], -y[k], v, b);
        assert(1 * dot_upto(prev, v, b) - (-y[k]) * dot_upto(c[k], v, b) == dot_upto(prev, v, b)
            + y[k] * dot_upto(c[k], v, b)) by (nonlinear_arith);
        assert(mv[k] == dot_upto(c[k], v, b));
    }
}

/// A combination of combinations is a combination: the coefficients `y` on
/// the rows `comb(c[i], m, n)` give what the coefficients `comb(y, c, ..)`
/// give on the rows of `m`.
pub proof fn lemma_comb_assoc(
    y: Seq<int>,
    c: Seq<Seq<int>>,
    m: Seq<Seq<int>>,
    n: nat,
    vs: Seq<Seq<int>>,
)
    requires
        rect(c, m.len()),
        vs.len() == c.len(),
        forall|i: int| 0 <= i < c.len() ==> #[trigger] vs[i] == comb(c[i], m, n),
    ensures
        comb(y, vs, n) == comb(comb(y, c, m.len()), m, n),
{
    let l = comb(y, vs, n);
    let r = comb(comb(y, c, m.len()), m, n);
    assert forall|q: int| 0 <= q < n implies l[q] == r[q] by {
        let v = col(m, q);
        lemma_double_sum(y, c, v, m.len(), c.len());
        let mv = Seq::new(c.len(), |i: int| dot_upto(c[i], v, m.len()));
        assert(col(vs, q) =~= mv) by {
            assert forall|i: int| 0 <= i < c.len() implies col(vs, q)[i] == mv[i] by {
                assert(vs[i] == comb(c[i], m, n));
            }
        }
        assert(partial_comb(y, c, m.len(), c.len()) =~= comb(y, c, m.len()));
    }
    assert(l =~= r);
}

/// Vectors in the row span of `a`, whose rows are in the row span of `b`,
/// are in the row span of `b`.
pub proof fn lemma_span_trans(vs: Seq<Seq<int>>, a: Seq<Seq<int>>, b: Seq<Seq<int>>, n: nat)
    requires
        all_in_span(vs, a, n),
        all_in_span(a, b, n),
    ensures
        all_in_span(vs, b, n),
{
    let cs = Seq::new(
        a.len(),
        |i: int| choose|c: Seq<int>| c.len() == b.len() && #[trigger] comb(c, b, n) == a[i],
    );
    assert forall|i: int| 0 <= i < a.len() implies (#[trigger] cs[i]).len() == b.len() && a[i]
        == comb(cs[i], b, n) by {
        assert(in_span(a[i], b, n));
    }
    assert forall|i: int| 0 <= i < vs.len() implies in_span(#[trigger] vs[i], b, n) by {
        assert(in_span(vs[i], a, n));
        let y = choose|c: Seq<int>| c.len() == a.len() && #[trigger] comb(c, a, n) == vs[i];
        lemma_comb_assoc(y, cs, b, n, a);
        let c2 = comb(y, cs, b.len());
        assert(c2.len() == b.len());
        assert(comb(c2, b, n) == vs[i]);
    }
}

/// The rows of the identity matrix are independent.
pub proof fn lemma_identity_independent(n: nat)
    ensures
        independent(identity(n), n),
{
    let id = identity(n);
    assert forall|c: Seq<int>| c.len() == id.len() && is_zero(#[trigger] comb(c, id, n)) implies is_zero(
        c,
    ) by {
        assert forall|j: int| 0 <= j < c.len() implies c[j] == 0 by {
            assert(col(id, j) =~= unit(n, j));
            lemma_dot_symm(c, unit(n, j), n);
            lemma_dot_unit(n, j, c, n);
            assert(comb(c, id, n)[j] == 0);
        }
    }
}

/// A single vector that is not zero is independent.
pub proof fn lemma_single_independent(v: Seq<int>, n: nat)
    requires
        v.len() == n,
        !is_zero(v),
    ensures
        independent(seq![v], n),
{
    let vs = seq![v];
    assert forall|c: Seq<int>| c.len() == vs.len() && is_zero(#[trigger] comb(c, vs, n)) implies is_zero(
        c,
    ) by {
        let k = choose|k: int| 0 <= k < v.len() && v[k] != 0;
        assert(comb(c, vs, n)[k] == 0);
        let cl = col(vs, k);
        assert(cl[0] == v[k]);
        assert(dot_upto(c, cl, 1) == dot_upto(c, cl, 0) + c[0] * cl[0]);
        assert(c[0] == 0) by (nonlinear_arith)
            requires
                c[0] * v[k] == 0,
                v[k] != 0,
        ;
    }
}

/// No vector of an independent family is zero.
pub proof fn lemma_independent_nonzero(vs: Seq<Seq<int>>, n: nat, k: int)
    requires
        independent(vs, n),
        rect(vs, n),
        0 <= k < vs.len(),
    ensures
        !is_zero(vs[k]),
{
    if is_zero(vs[k]) {
        let c = unit(vs.len(), k);
        lemma_comb_unit(vs, n, k);
        assert(is_zero(comb(c, vs, n)));
        assert(c[k] == 1);
    }
}

/// Exchanging two rows keeps independence.
pub proof fn lemma_swap_independent(vs: Seq<Seq<int>>, n: nat, i: int, j: int)
    requires
        independent(vs, n),
        0 <= i < vs.len(),
        0 <= j < vs.len(),
    ensures
        independent(swap_rows(vs, i, j), n),
{
    let sw = swap_rows(vs, i, j);
    assert forall|c: Seq<int>| c.len() == sw.len() && is_zero(#[trigger] comb(c, sw, n)) implies is_zero(
        c,
    ) by {
        let c2 = swapped(c, i, j);
        assert forall|q: int| 0 <= q < n implies comb(c2, vs, n)[q] == 0 by {
            assert(col(vs, q) =~= swapped(col(sw, q), i, j));
            lemma_dot_swapped(c, col(sw, q), i, j);
            assert(comb(c, sw, n)[q] == 0);
        }
        assert(is_zero(comb(c2, vs, n)));
        assert forall|k: int| 0 <= k < c.len() implies c[k] == 0 by {
            if k == i {
                assert(c2[j] == c[i]);
            } else if k == j {
                assert(c2[i] == c[j]);
            } else {
                assert(c2[k] == c[k]);
            }
        }
    }
}

/// A sum over coefficients that are zero after `r` is zero.
pub proof fn lemma_tail_sum_zero(c: Seq<int>, ys: Seq<int>, r: int, t: nat)
    requires
        forall|k: int| r < k < t ==> c[k] == 0,
    ensures
        tail_sum(c, ys, r, t) == 0,
    decreases t,
{
    if t > 0 && t > r + 1 {
        lemma_tail_sum_zero(c, ys, r, (t - 1) as nat);
        assert(0 * ys[t - 1] == 0);
    }
}

/// In one column, the coefficients `c` on the rows after the operation sum
/// to what the adjusted coefficients sum to on the rows before it; on a
/// prefix of the rows the two differ by the part of the tail sum that is
/// still to come.
pub proof fn lemma_gen_op_dot(
    c: Seq<int>,
    v: Seq<int>,
    ev: Seq<int>,
    r: int,
    xs: Seq<int>,
    ys: Seq<int>,
    t: nat,
)
    requires
        c.len() == v.len(),
        ev.len() == v.len(),
        0 <= r < v.len(),
        t <= v.len(),
        forall|k: int|
            0 <= k < v.len() ==> #[trigger] ev[k] == if k > r {
                v[k] * xs[k] - v[r] * ys[k]
            } else {
                v[k]
            },
    ensures
        dot_upto(c, ev, t) == dot_upto(adjusted(c, r, xs, ys), v, t) + if t > r {
            v[r] * (tail_sum(c, ys, r, c.len()) - tail_sum(c, ys, r, t))
        } else {
            0
        },
    decreases t,
{
    if t > 0 {
        let k = t - 1;
        let a = adjusted(c, r, xs, ys);
        let total = tail_sum(c, ys, r, c.len());
        lemma_gen_op_dot(c, v, ev, r, xs, ys, k as nat);
        assert(ev[k] == if k > r { v[k] * xs[k] - v[r] * ys[k] } else { v[k] });
        if k == r {
            assert(tail_sum(c, ys, r, t) == 0);
            assert(c[r] * v[r] == (c[r] - total) * v[r] + v[r] * (total - 0)) by (nonlinear_arith);
        } else if k > r {
            let before = tail_sum(c, ys, r, k as nat);
            assert(tail_sum(c, ys, r, t) == before + c[k] * ys[k]);
            assert(c[k] * (v[k] * xs[k] - v[r] * ys[k]) + v[r] * (total - before) == (c[k] * xs[k])
                * v[k] + v[r] * (total - (before + c[k] * ys[k]))) by (nonlinear_arith);
        }
    }
}

/// A row operation whose factors `xs` are not zero keeps independence.
pub proof fn lemma_gen_op_independent(
    m: Seq<Seq<int>>,
    n: nat,
    r: int,
    xs: Seq<int>,
    ys: Seq<int>,
)
    requires
        independent(m, n),
        rect(m, n),
        0 <= r < m.len(),
        forall|k: int| r < k < m.len() ==> xs[k] != 0,
    ensures
        independent(gen_op(m, r, xs, ys), n),
{
    let e = gen_op(m, r, xs, ys);
    assert forall|c: Seq<int>| c.len() == e.len() && is_zero(#[trigger] comb(c, e, n)) implies is_zero(
        c,
    ) by {
        let a = adjusted(c, r, xs, ys);
        assert forall|j: int| 0 <= j < n implies comb(a, m, n)[j] == 0 by {
            let v = col(m, j);
            let ev = col(e, j);
            assert forall|k: int| 0 <= k < v.len() implies #[trigger] ev[k] == if k > r {
                v[k] * xs[k] - v[r] * ys[k]
            } else {
                v[k]
            } by {
                assert(m[k].len() == n);
                assert(m[r].len() == n);
            }
            lemma_gen_op_dot(c, v, ev, r, xs, ys, m.len());
            assert(v[r] * (tail_sum(c, ys, r, c.len()) - tail_sum(c, ys, r, c.len())) == 0)
                by (nonlinear_arith);
            assert(comb(c, e, n)[j] == 0);
        }
        assert(is_zero(comb(a, m, n)));
        assert(is_zero(a));
        assert forall|k: int| r < k < c.len() implies c[k] == 0 by {
            assert(a[k] == 0);
            assert(c[k] == 0) by (nonlinear_arith)
                requires
                    c[k] * xs[k] == 0,
                    xs[k] != 0,
            ;
        }
        lemma_tail_sum_zero(c, ys, r, c.len());
        assert forall|k: int| 0 <= k < c.len() implies c[k] == 0 by {
            assert(a[k] == 0);
        }
    }
}

/// A part of an independent family is independent.
pub proof fn lemma_subrange_independent(vs: Seq<Seq<int>>, n: nat, lo: int, hi: int)
    requires
        independent(vs, n),
        0 <= lo <= hi <= vs.len(),
    ensures
        independent(vs.subrange(lo, hi), n),
{
    let sub = vs.subrange(lo, hi);
    assert forall|c: Seq<int>| c.len() == sub.len() && is_zero(#[trigger] comb(c, sub, n)) implies is_zero(
        c,
    ) by {
        let wide = padded(c, lo, vs.len());
        assert forall|j: int| 0 <= j < n implies comb(wide, vs, n)[j] == 0 by {
            lemma_dot_padded(c, col(vs, j), lo, vs.len());
            assert(col(vs, j).subrange(lo, hi) =~= col(sub, j));
            assert(comb(c, sub, n)[j] == 0);
        }
        assert(is_zero(comb(wide, vs, n)));
        assert forall|k: int| 0 <= k < c.len() implies c[k] == 0 by {
            assert(wide[lo + k] == c[k]);
        }
    }
}

/// Replacing one vector of an independent family by a vector of which it
/// is a nonzero multiple keeps independence.
pub proof fn lemma_unscale_independent(vs: Seq<Seq<int>>, n: nat, k: int, f: Seq<int>, g: int)
    requires
        independent(vs, n),
        rect(vs, n),
        0 <= k < vs.len(),
        g != 0,
        vs[k] == scaled(f, g),
    ensures
        independent(vs.update(k, f), n),
{
    let ws = vs.update(k, f);
    assert forall|c: Seq<int>| c.len() == ws.len() && is_zero(#[trigger] comb(c, ws, n)) implies is_zero(
        c,
    ) by {
        let c2 = scaled(c, g).update(k, c[k]);
        assert forall|j: int| 0 <= j < n implies comb(c2, vs, n)[j] == 0 by {
            let v = col(vs, j);
            let w = col(ws, j);
            assert(vs[k].len() == n);
            assert(f.len() == n);
            assert(v =~= w.update(k, f[j] * g));
            // dot(c2, v) == g * dot(c, w)
            lemma_dot_update(scaled(c, g), k, c[k], v, vs.len());
            lemma_dot_scaled(c, g, v, vs.len());
            lemma_dot_symm(c, v, vs.len());
            lemma_dot_symm(c, w, vs.len());
            lemma_dot_update(w, k, f[j] * g, c, vs.len());
            assert(comb(c, ws, n)[j] == 0);
            let d = dot_upto(c, w, vs.len());
            assert(g * (d + (f[j] * g - w[k]) * c[k]) + (c[k] - c[k] * g) * (f[j] * g) == g * d)
                by (nonlinear_arith)
                requires
                    w[k] == f[j],
            ;
        }
        assert(is_zero(comb(c2, vs, n)));
        assert(is_zero(c2));
        assert forall|i: int| 0 <= i < c.len() implies c[i] == 0 by {
            assert(c2[i] == 0);
            if i != k {
                assert(c[i] == 0) by (nonlinear_arith)
                    requires
                        c[i] * g == 0,
                        g != 0,
                ;
            }
        }
    }
}

/// More vectors than they have entries are linearly dependent: there are
/// coefficients, not all zero, that combine them to zero.
pub proof fn lemma_more_vectors_dependent(vs: Seq<Seq<int>>, n: nat) -> (c: Seq<int>)
    requires
        rect(vs, n),
        vs.len() > n,
    ensures
        c.len() == vs.len(),
        is_zero(comb(c, vs, n)),
        !is_zero(c),
    decreases n,
{
    let m = vs.len();
    if n == 0 {
        let c = unit(m, 0);
        assert(c[0] == 1);
        c
    } else {
        let q = (n - 1) as int;
        if forall|i: int| 0 <= i < m ==> (#[trigger] vs[i])[q] == 0 {
            let short = Seq::new(m, |i: int| vs[i].subrange(0, q));
            assert forall|i: int| 0 <= i < m implies (#[trigger] short[i]).len() == q by {
                assert(vs[i].len() == n);
            }
            let c = lemma_more_vectors_dependent(short, q as nat);
            assert forall|j: int| 0 <= j < n implies comb(c, vs, n)[j] == 0 by {
                if j < q {
                    assert(col(vs, j) =~= col(short, j)) by {
                        assert forall|i: int| 0 <= i < m implies col(vs, j)[i] == col(
                            short,
                            j,
                        )[i] by {
                            assert(vs[i].len() == n);
                        }
                    }
                    assert(comb(c, short, q as nat)[j] == 0);
                } else {
                    lemma_dot_zero(c, col(vs, j), m);
                }
            }
            c
        } else {
            let p = choose|i: int| 0 <= i < m && (#[trigger] vs[i])[q] != 0;
            let last = m - 1;
            let sw = swap_rows(vs, p, last);
            let a = sw[last][q];
            assert(sw[last] == vs[p]);
            assert(rect(sw, n));
            let colq = col(sw, q);
            let us = Seq::new(
                last as nat,
                |i: int| row_comb(sw[i], a, sw[last], sw[i][q]).subrange(0, q),
            );
            assert forall|i: int| 0 <= i < last implies (#[trigger] us[i]).len() == q by {
                assert(sw[i].len() == n);
            }
            let y = lemma_more_vectors_dependent(us, q as nat);
            let s = dot_upto(y, colq, last as nat);
            let c_sw = scaled(y, a).push(-s);
            assert forall|j: int| 0 <= j < n implies comb(c_sw, sw, n)[j] == 0 by {
                let cj = col(sw, j);
                assert(sw[last].len() == n);
                // dot(c_sw, cj, m) == a * dot(y, cj, last) - s * cj[last]
                assert(dot_upto(c_sw, cj, m) == dot_upto(c_sw, cj, last as nat) + c_sw[last]
                    * cj[last]);
                lemma_dot_ext(c_sw, cj, scaled(y, a), cj, last as nat);
                lemma_dot_scaled(y, a, cj, last as nat);
                let dj = dot_upto(y, cj, last as nat);
                if j < q {
                    let uj = col(us, j);
                    let target = row_comb(cj, a, colq, cj[last]);
                    assert forall|i: int| 0 <= i < last implies uj[i] == target[i] by {
                        assert(sw[i].len() == n);
                        assert(sw[last][j] * sw[i][q] == sw[i][q] * sw[last][j])
                            by (nonlinear_arith);
                    }
                    lemma_dot_ext(y, uj, y, target, last as nat);
                    lemma_dot_symm(y, target, last as nat);
                    lemma_dot_comb(cj, a, colq, cj[last], y, last as nat);
                    lemma_dot_symm(cj, y, last as nat);
                    lemma_dot_symm(colq, y, last as nat);
                    assert(comb(y, us, q as nat)[j] == 0);
                    assert(a * dj + (-s) * cj[last] == a * dj - cj[last] * s) by (nonlinear_arith);
                } else {
                    assert(cj =~= colq);
                    assert(cj[last] == a);
                    assert(a * s + (-s) * a == 0) by (nonlinear_arith);
                }
            }
            let w = choose|w: int| 0 <= w < y.len() && y[w] != 0;
            assert(c_sw[w] == y[w] * a);
            assert(c_sw[w] != 0) by (nonlinear_arith)
                requires
                    c_sw[w] == y[w] * a,
                    y[w] != 0,
                    a != 0,
            ;
            let c = swapped(c_sw, p, last);
            assert forall|j: int| 0 <= j < n implies comb(c, vs, n)[j] == 0 by {
                assert(col(vs, j) =~= swapped(col(sw, j), p, last));
                lemma_dot_swapped(c_sw, col(sw, j), p, last);
                assert(comb(c_sw, sw, n)[j] == 0);
            }
            assert(!is_zero(c)) by {
                if w == p {
                    assert(c[last] == c_sw[w]);
                } else if w == last {
                    assert(c[p] == c_sw[w]);
                } else {
                    assert(c[w] == c_sw[w]);
                }
            }
            c
        }
    }
}

/// Whether a nonzero multiple of `x` is an integer combination of the rows
/// of `vs`: `x` is a combination of them with rational coefficients.
pub open spec fn in_rational_span(x: Seq<int>, vs: Seq<Seq<int>>, n: nat) -> bool {
    exists|d: int, c: Seq<int>|
        #![trigger comb(c, vs, n), scaled(x, d)]
        d != 0 && c.len() == vs.len() && comb(c, vs, n) == scaled(x, d)
}

/// The combination of two families, one after the other, is the sum of the
/// combinations of each.
pub proof fn lemma_comb_concat(
    y: Seq<int>,
    z: Seq<int>,
    a: Seq<Seq<int>>,
    b: Seq<Seq<int>>,
    n: nat,
    j: int,
)
    requires
        y.len() == a.len(),
        z.len() == b.len(),
        0 <= j < n,
    ensures
        comb(y + z, a + b, n)[j] == comb(y, a, n)[j] + comb(z, b, n)[j],
{
    assert(col(a + b, j) =~= col(a, j) + col(b, j));
    lemma_dot_concat(y, z, col(a, j), col(b, j), z.len());
}

/// The dot product of a combination with a vector is the combination of
/// the dot products.
pub proof fn lemma_comb_dot(y: Seq<int>, vs: Seq<Seq<int>>, n: nat, w: Seq<int>)
    requires
        rect(vs, n),
    ensures
        dot_upto(comb(y, vs, n), w, n) == dot_upto(
            y,
            Seq::new(vs.len(), |i: int| dot_upto(vs[i], w, n)),
            vs.len(),
        ),
{
    lemma_double_sum(y, vs, w, n, vs.len());
    assert(partial_comb(y, vs, n, vs.len()) =~= comb(y, vs, n));
}

} // verus!
