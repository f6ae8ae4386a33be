//! The normal form of a solution vector: a fixed sign and coprime entries.

use crate::echelon::{lead, lemma_lead, lemma_lead_same_pattern};
use crate::matrix::{fits_i32, in_null, rect};
use crate::num::{
    abs, divides, gcd_nat, lemma_divides_trans, lemma_exact_div, lemma_gcd_divides,
    lemma_gcd_greatest, lemma_gcd_positive,
};
use crate::span::{independent, lemma_independent_nonzero, lemma_unscale_independent};
use crate::vector::{dot, is_zero, lemma_dot_scaled, lemma_dot_symm, scaled, zeros};
use vstd::arithmetic::div_mod::{lemma_fundamental_div_mod, lemma_mod_multiples_basic};
use vstd::prelude::*;

verus! {

/// The sign of an integer: `1`, `0` or `-1`.
pub open spec fn signum(x: int) -> int {
    if x > 0 {
        1
    } else if x < 0 {
        -1
    } else {
        0
    }
}

/// The number of positive entries minus the number of negative entries
/// among the first `n` entries of `v`.
pub open spec fn sign_sum(v: Seq<int>, n: nat) -> int
    decreases n,
{
    if n == 0 {
        0
    } else {
        sign_sum(v, (n - 1) as nat) + signum(v[n - 1])
    }
}

/// Whether `v` has more negative than positive entries or, with as many of
/// each, a negative first nonzero entry.
pub open spec fn leans_negative(v: Seq<int>) -> bool {
    let s = sign_sum(v, v.len());
    s < 0 || (s == 0 && lead(v) < v.len() && v[lead(v) as int] < 0)
}

/// The vector `-v`.
pub open spec fn negated(v: Seq<int>) -> Seq<int> {
    Seq::new(v.len(), |j: int| -v[j])
}

/// The vector `v` or `-v`, whichever does not lean negative.
pub open spec fn normalized(v: Seq<int>) -> Seq<int> {
    if leans_negative(v) {
        negated(v)
    } else {
        v
    }
}

/// The greatest common divisor of the first `n` entries of `v`.
pub open spec fn vec_gcd(v: Seq<int>, n: nat) -> nat
    decreases n,
{
    if n == 0 {
        0
    } else {
        gcd_nat(vec_gcd(v, (n - 1) as nat), abs(v[n - 1]))
    }
}

/// The greatest common divisor of all entries of `v`.
pub open spec fn content(v: Seq<int>) -> nat {
    vec_gcd(v, v.len())
}

/// The vector `v` with every entry divided by the greatest common divisor
/// of all entries; the zero vector stays as it is.
pub open spec fn simplified(v: Seq<int>) -> Seq<int> {
    if content(v) == 0 {
        v
    } else {
        Seq::new(v.len(), |j: int| v[j] / (content(v) as int))
    }
}

/// Whether `v` is in normal form: it does not lean negative and its entries
/// have no common divisor but 1.
pub open spec fn is_normal(v: Seq<int>) -> bool {
    !leans_negative(v) && content(v) == 1
}

/// A vector brought to normal form: its sign fixed, then divided by its
/// content. `None` if the vector cannot be negated in 32 bits.
pub open spec fn finish(v: Seq<int>) -> Option<Seq<int>> {
    if fits_i32(normalized(v)) {
        Some(simplified(normalized(v)))
    } else {
        None
    }
}

/// Every vector brought to normal form, or `None` if one of them cannot be.
pub open spec fn finish_all(vs: Seq<Seq<int>>) -> Option<Seq<Seq<int>>> {
    if forall|k: int| 0 <= k < vs.len() ==> (#[trigger] finish(vs[k])) is Some {
        Some(Seq::new(vs.len(), |k: int| finish(vs[k])->Some_0))
    } else {
        None
    }
}

/// The first `t` vectors of `raw` in normal form, followed by the others
/// as they are.
pub open spec fn finished_upto(raw: Seq<Seq<int>>, t: nat) -> Seq<Seq<int>> {
    Seq::new(
        raw.len(),
        |k: int|
            if k < t {
                simplified(normalized(raw[k]))
            } else {
                raw[k]
            },
    )
}

/// Negating a vector negates its sign sum.
pub proof fn lemma_sign_sum_negated(v: Seq<int>, n: nat)
    requires
        n <= v.len(),
    ensures
        sign_sum(negated(v), n) == -sign_sum(v, n),
    decreases n,
{
    if n > 0 {
        lemma_sign_sum_negated(v, (n - 1) as nat);
    }
}

/// Two vectors whose entries have the same signs have the same sign sum.
pub proof fn lemma_sign_sum_same(a: Seq<int>, b: Seq<int>, n: nat)
    requires
        forall|j: int| 0 <= j < n ==> signum(a[j]) == signum(b[j]),
    ensures
        sign_sum(a, n) == sign_sum(b, n),
    decreases n,
{
    if n > 0 {
        lemma_sign_sum_same(a, b, (n - 1) as nat);
    }
}

/// Among the first `t` entries of the zero vector there are as many
/// positive as negative ones.
pub proof fn lemma_sign_sum_zero_upto(n: nat, t: nat)
    requires
        t <= n,
    ensures
        sign_sum(zeros(n), t) == 0,
    decreases t,
{
    if t > 0 {
        lemma_sign_sum_zero_upto(n, (t - 1) as nat);
    }
}

/// The zero vector has as many positive as negative entries.
pub proof fn lemma_sign_sum_zero(n: nat)
    ensures
        sign_sum(zeros(n), n) == 0,
{
    lemma_sign_sum_zero_upto(n, n);
}

/// The normalized vector does not lean negative.
pub proof fn lemma_normalized_sign(v: Seq<int>)
    ensures
        !leans_negative(normalized(v)),
{
    if leans_negative(v) {
        let w = negated(v);
        lemma_sign_sum_negated(v, v.len());
        lemma_lead_same_pattern(v, w);
    }
}

/// The greatest common divisor of the first `n` entries divides each of them.
pub proof fn lemma_vec_gcd_divides(v: Seq<int>, n: nat, j: int)
    requires
        0 <= j < n,
    ensures
        divides(vec_gcd(v, n) as int, abs(v[j]) as int),
    decreases n,
{
    let prev = vec_gcd(v, (n - 1) as nat);
    lemma_gcd_divides(prev, abs(v[n - 1]));
    if j < n - 1 {
        lemma_vec_gcd_divides(v, (n - 1) as nat, j);
        lemma_divides_trans(vec_gcd(v, n) as int, prev as int, abs(v[j]) as int);
    }
}

/// Every common divisor of the first `n` entries divides their greatest
/// common divisor.
pub proof fn lemma_vec_gcd_greatest(v: Seq<int>, n: nat, d: int)
    requires
        d > 0,
        forall|j: int| 0 <= j < n ==> abs(v[j]) as int % d == 0,
    ensures
        vec_gcd(v, n) as int % d == 0,
    decreases n,
{
    if n > 0 {
        lemma_vec_gcd_greatest(v, (n - 1) as nat, d);
        lemma_gcd_greatest(vec_gcd(v, (n - 1) as nat), abs(v[n - 1]), d);
    } else {
        assert(0int % d == 0) by (nonlinear_arith)
            requires
                d > 0,
        ;
    }
}

/// The greatest common divisor of entries that are not all zero is positive.
pub proof fn lemma_vec_gcd_positive(v: Seq<int>, n: nat, j: int)
    requires
        0 <= j < n,
        v[j] != 0,
    ensures
        vec_gcd(v, n) > 0,
    decreases n,
{
    if j < n - 1 {
        lemma_vec_gcd_positive(v, (n - 1) as nat, j);
    }
    lemma_gcd_positive(vec_gcd(v, (n - 1) as nat), abs(v[n - 1]));
}

/// The greatest common divisor of zeros is zero.
pub proof fn lemma_vec_gcd_zero(v: Seq<int>, n: nat)
    requires
        forall|j: int| 0 <= j < n ==> v[j] == 0,
    ensures
        vec_gcd(v, n) == 0,
    decreases n,
{
    if n > 0 {
        lemma_vec_gcd_zero(v, (n - 1) as nat);
    }
}

/// What dividing by the content does to a vector that is not zero: every
/// entry is divided exactly and keeps its sign.
pub proof fn lemma_simplified_entries(v: Seq<int>)
    requires
        !is_zero(v),
    ensures
        content(v) > 0,
        simplified(v).len() == v.len(),
        forall|j: int|
            0 <= j < v.len() ==> #[trigger] simplified(v)[j] * (content(v) as int) == v[j],
        forall|j: int| 0 <= j < v.len() ==> signum(#[trigger] simplified(v)[j]) == signum(v[j]),
{
    let k = choose|k: int| 0 <= k < v.len() && v[k] != 0;
    lemma_vec_gcd_positive(v, v.len(), k);
    let g = content(v) as int;
    let w = simplified(v);
    assert forall|j: int| 0 <= j < v.len() implies #[trigger] w[j] * g == v[j] && signum(w[j])
        == signum(v[j]) by {
        lemma_vec_gcd_divides(v, v.len(), j);
        lemma_exact_div(v[j], g);
        assert(signum(w[j]) == signum(v[j])) by (nonlinear_arith)
            requires
                w[j] * g == v[j],
                g > 0,
        ;
    }
}

/// Dividing by the content keeps the sign convention.
pub proof fn lemma_simplified_sign(v: Seq<int>)
    requires
        !is_zero(v),
    ensures
        leans_negative(simplified(v)) == leans_negative(v),
        !is_zero(simplified(v)),
{
    let w = simplified(v);
    lemma_simplified_entries(v);
    lemma_sign_sum_same(w, v, v.len());
    assert forall|j: int| 0 <= j < v.len() implies (w[j] == 0 <==> v[j] == 0) by {
        assert(signum(w[j]) == signum(v[j]));
    }
    lemma_lead_same_pattern(w, v);
    lemma_lead(v);
    lemma_lead(w);
    if lead(v) < v.len() {
        assert(signum(w[lead(v) as int]) == signum(v[lead(v) as int]));
    }
}

/// After dividing by the content, the entries have no common divisor but 1.
pub proof fn lemma_simplified_content(v: Seq<int>)
    requires
        !is_zero(v),
    ensures
        content(simplified(v)) == 1,
{
    let w = simplified(v);
    let g = content(v) as int;
    lemma_simplified_entries(v);
    lemma_simplified_sign(v);
    let k = choose|k: int| 0 <= k < w.len() && w[k] != 0;
    lemma_vec_gcd_positive(w, w.len(), k);
    let h = content(w) as int;
    assert(h * g > 0) by (nonlinear_arith)
        requires
            h > 0,
            g > 0,
    ;
    assert forall|j: int| 0 <= j < v.len() implies abs(v[j]) as int % (h * g) == 0 by {
        lemma_vec_gcd_divides(w, w.len(), j);
        let aw = abs(w[j]) as int;
        lemma_fundamental_div_mod(aw, h);
        let q = aw / h;
        assert(w[j] * g == v[j]);
        assert(abs(v[j]) as int == q * (h * g)) by (nonlinear_arith)
            requires
                w[j] * g == v[j],
                aw == h * q,
                aw == abs(w[j]),
                g > 0,
        ;
        lemma_mod_multiples_basic(q, h * g);
    }
    lemma_vec_gcd_greatest(v, v.len(), h * g);
    lemma_fundamental_div_mod(g, h * g);
    assert(h == 1) by (nonlinear_arith)
        requires
            g == (h * g) * (g / (h * g)),
            g > 0,
            h > 0,
    ;
}

/// Dividing by a content of 1 changes nothing.
pub proof fn lemma_simplified_fixed(v: Seq<int>)
    requires
        content(v) == 1,
    ensures
        simplified(v) == v,
{
    assert(simplified(v) =~= v);
}

/// The negative of a vector that balances the rows of `e` balances them too.
pub proof fn lemma_negated_null(e: Seq<Seq<int>>, cols: nat, v: Seq<int>)
    requires
        rect(e, cols),
        v.len() == cols,
        in_null(e, v),
    ensures
        in_null(e, negated(v)),
{
    assert(negated(v) =~= scaled(v, -1)) by {
        assert forall|j: int| 0 <= j < v.len() implies -v[j] == v[j] * (-1) by {}
    }
    assert forall|k: int| 0 <= k < e.len() implies dot(#[trigger] e[k], negated(v)) == 0 by {
        assert(e[k].len() == cols);
        lemma_dot_symm(e[k], scaled(v, -1), cols);
        lemma_dot_scaled(v, -1, e[k], cols);
        lemma_dot_symm(v, e[k], cols);
        assert(dot(e[k], v) == 0);
    }
}

/// A vector that balances the rows of `e` still does after it is divided
/// by its content.
pub proof fn lemma_simplified_null(e: Seq<Seq<int>>, cols: nat, v: Seq<int>)
    requires
        rect(e, cols),
        v.len() == cols,
        in_null(e, v),
    ensures
        in_null(e, simplified(v)),
{
    if content(v) != 0 {
        if is_zero(v) {
            lemma_vec_gcd_zero(v, v.len());
        }
        let w = simplified(v);
        let g = content(v) as int;
        lemma_simplified_entries(v);
        assert(v =~= scaled(w, g));
        assert forall|k: int| 0 <= k < e.len() implies dot(#[trigger] e[k], w) == 0 by {
            assert(e[k].len() == cols);
            lemma_dot_symm(e[k], scaled(w, g), cols);
            lemma_dot_scaled(w, g, e[k], cols);
            lemma_dot_symm(w, e[k], cols);
            assert(dot(e[k], v) == 0);
            assert(dot(e[k], w) == 0) by (nonlinear_arith)
                requires
                    g * dot(e[k], w) == 0,
                    g > 0,
            ;
        }
    }
}

/// What the normal form of a vector keeps: its length, that it balances the
/// rows of `e`, and that it is not zero.
pub proof fn lemma_finish(e: Seq<Seq<int>>, cols: nat, v: Seq<int>)
    requires
        rect(e, cols),
        v.len() == cols,
        in_null(e, v),
        !is_zero(v),
        finish(v) is Some,
    ensures
        finish(v)->Some_0.len() == cols,
        in_null(e, finish(v)->Some_0),
        !is_zero(finish(v)->Some_0),
        is_normal(finish(v)->Some_0),
{
    let n = normalized(v);
    if leans_negative(v) {
        lemma_negated_null(e, cols, v);
        let k = choose|k: int| 0 <= k < v.len() && v[k] != 0;
        assert(negated(v)[k] != 0);
    }
    lemma_normalized_sign(v);
    lemma_simplified_null(e, cols, n);
    lemma_simplified_sign(n);
    lemma_simplified_content(n);
    lemma_simplified_entries(n);
}

/// A vector that is not zero is a nonzero multiple of its normal form.
pub proof fn lemma_finish_multiple(v: Seq<int>) -> (g: int)
    requires
        !is_zero(v),
    ensures
        g != 0,
        v == scaled(simplified(normalized(v)), g),
{
    let n = normalized(v);
    if leans_negative(v) {
        let k = choose|k: int| 0 <= k < v.len() && v[k] != 0;
        assert(negated(v)[k] != 0);
    }
    lemma_simplified_entries(n);
    let f = simplified(n);
    let c = content(n) as int;
    if leans_negative(v) {
        assert(v =~= scaled(f, -c)) by {
            assert forall|j: int| 0 <= j < v.len() implies v[j] == f[j] * (-c) by {
                assert(f[j] * c == n[j]);
                assert(f[j] * (-c) == -(f[j] * c)) by (nonlinear_arith);
            }
        }
        -c
    } else {
        assert(v =~= scaled(f, c));
        c
    }
}

/// Bringing the vectors of an independent family to normal form, one by
/// one, keeps the family independent.
pub proof fn lemma_finished_independent(raw: Seq<Seq<int>>, n: nat, t: nat)
    requires
        independent(raw, n),
        rect(raw, n),
        t <= raw.len(),
    ensures
        independent(finished_upto(raw, t), n),
        rect(finished_upto(raw, t), n),
    decreases t,
{
    if t == 0 {
        assert(finished_upto(raw, 0) =~= raw);
    } else {
        let k = (t - 1) as int;
        lemma_finished_independent(raw, n, (t - 1) as nat);
        let prev = finished_upto(raw, (t - 1) as nat);
        lemma_independent_nonzero(raw, n, k);
        let g = lemma_finish_multiple(raw[k]);
        let f = simplified(normalized(raw[k]));
        assert(prev[k] == raw[k]);
        lemma_unscale_independent(prev, n, k, f, g);
        assert(finished_upto(raw, t) =~= prev.update(k, f));
        assert(f.len() == n) by {
            assert(raw[k].len() == n);
            assert(raw[k] == scaled(f, g));
        }
    }
}

} // verus!
