//! Integer vectors as sequences, and their dot products.

use vstd::prelude::*;

verus! {

/// The view of a vector of machine integers as mathematical integers.
pub open spec fn ints(v: Seq<i32>) -> Seq<int> {
    Seq::new(v.len(), |j: int| v[j] as int)
}

/// The zero vector of length `n`.
pub open spec fn zeros(n: nat) -> Seq<int> {
    Seq::new(n, |j: int| 0int)
}

/// The `i`-th unit vector of length `n`.
pub open spec fn unit(n: nat, i: int) -> Seq<int> {
    Seq::new(n, |j: int| if j == i { 1int } else { 0int })
}

/// Whether every entry of `v` is zero.
pub open spec fn is_zero(v: Seq<int>) -> bool {
    forall|j: int| 0 <= j < v.len() ==> v[j] == 0
}

/// The sum of `a[j] * b[j]` over `j < n`.
pub open spec fn dot_upto(a: Seq<int>, b: Seq<int>, n: nat) -> int
    decreases n,
{
    if n == 0 {
        0
    } else {
        dot_upto(a, b, (n - 1) as nat) + a[n - 1] * b[n - 1]
    }
}

/// The dot product of two vectors of equal length.
pub open spec fn dot(a: Seq<int>, b: Seq<int>) -> int {
    dot_upto(a, b, a.len())
}

/// The vector `dest * dm - src * sm`, entry by entry.
pub open spec fn row_comb(dest: Seq<int>, dm: int, src: Seq<int>, sm: int) -> Seq<int> {
    Seq::new(dest.len(), |j: int| dest[j] * dm - src[j] * sm)
}

/// The vector `v * k`, entry by entry.
pub open spec fn scaled(v: Seq<int>, k: int) -> Seq<int> {
    Seq::new(v.len(), |j: int| v[j] * k)
}

/// The vector `a` with entries `i` and `j` exchanged.
pub open spec fn swapped(a: Seq<int>, i: int, j: int) -> Seq<int> {
    a.update(i, a[j]).update(j, a[i])
}

/// The vector of length `len` that holds `c` from position `lo` on and
/// zeros elsewhere.
pub open spec fn padded(c: Seq<int>, lo: int, len: nat) -> Seq<int> {
    Seq::new(
        len,
        |k: int|
            if lo <= k < lo + c.len() {
                c[k - lo]
            } else {
                0
            },
    )
}

/// A dot product depends only on the entries that it sums.
pub proof fn lemma_dot_ext(a: Seq<int>, b: Seq<int>, a2: Seq<int>, b2: Seq<int>, n: nat)
    requires
        forall|j: int| 0 <= j < n ==> a[j] == a2[j],
        forall|j: int| 0 <= j < n ==> b[j] == b2[j],
    ensures
        dot_upto(a, b, n) == dot_upto(a2, b2, n),
    decreases n,
{
    if n > 0 {
        lemma_dot_ext(a, b, a2, b2, (n - 1) as nat);
    }
}

/// A dot product is symmetric.
pub proof fn lemma_dot_symm(a: Seq<int>, b: Seq<int>, n: nat)
    ensures
        dot_upto(a, b, n) == dot_upto(b, a, n),
    decreases n,
{
    if n > 0 {
        lemma_dot_symm(a, b, (n - 1) as nat);
        assert(a[n - 1] * b[n - 1] == b[n - 1] * a[n - 1]) by (nonlinear_arith);
    }
}

/// A dot product with a vector whose summed entries are zero is zero.
pub proof fn lemma_dot_zero(a: Seq<int>, b: Seq<int>, n: nat)
    requires
        forall|j: int| 0 <= j < n ==> a[j] == 0 || b[j] == 0,
    ensures
        dot_upto(a, b, n) == 0,
    decreases n,
{
    if n > 0 {
        lemma_dot_zero(a, b, (n - 1) as nat);
        assert(a[n - 1] * b[n - 1] == 0) by (nonlinear_arith)
            requires
                a[n - 1] == 0 || b[n - 1] == 0,
        ;
    }
}

/// A dot product in which at most one product is nonzero equals that product.
pub proof fn lemma_dot_single(a: Seq<int>, b: Seq<int>, n: nat, i: int)
    requires
        forall|j: int| 0 <= j < n && j != i ==> a[j] == 0 || b[j] == 0,
    ensures
        dot_upto(a, b, n) == if 0 <= i < n { a[i] * b[i] } else { 0 },
    decreases n,
{
    if n > 0 {
        lemma_dot_single(a, b, (n - 1) as nat, i);
        if i != n - 1 {
            assert(a[n - 1] * b[n - 1] == 0) by (nonlinear_arith)
                requires
                    a[n - 1] == 0 || b[n - 1] == 0,
            ;
        }
    }
}

/// A dot product is linear in its first argument.
pub proof fn lemma_dot_comb(a: Seq<int>, x: int, b: Seq<int>, y: int, v: Seq<int>, n: nat)
    requires
        n <= a.len(),
    ensures
        dot_upto(row_comb(a, x, b, y), v, n) == x * dot_upto(a, v, n) - y * dot_upto(b, v, n),
    decreases n,
{
    if n > 0 {
        let m = (n - 1) as nat;
        lemma_dot_comb(a, x, b, y, v, m);
        let c = row_comb(a, x, b, y);
        assert(c[n - 1] == a[n - 1] * x - b[n - 1] * y);
        assert(dot_upto(c, v, m) + (a[n - 1] * x - b[n - 1] * y) * v[n - 1] == x * (dot_upto(
            a,
            v,
            m,
        ) + a[n - 1] * v[n - 1]) - y * (dot_upto(b, v, m) + b[n - 1] * v[n - 1]))
            by (nonlinear_arith)
            requires
                dot_upto(c, v, m) == x * dot_upto(a, v, m) - y * dot_upto(b, v, m),
        ;
    } else {
        assert(x * 0 - y * 0 == 0) by (nonlinear_arith);
    }
}

/// Scaling one argument scales the dot product.
pub proof fn lemma_dot_scaled(a: Seq<int>, k: int, v: Seq<int>, n: nat)
    requires
        n <= a.len(),
    ensures
        dot_upto(scaled(a, k), v, n) == k * dot_upto(a, v, n),
    decreases n,
{
    if n > 0 {
        let m = (n - 1) as nat;
        lemma_dot_scaled(a, k, v, m);
        assert(dot_upto(scaled(a, k), v, m) + (a[n - 1] * k) * v[n - 1] == k * (dot_upto(a, v, m)
            + a[n - 1] * v[n - 1])) by (nonlinear_arith)
            requires
                dot_upto(scaled(a, k), v, m) == k * dot_upto(a, v, m),
        ;
    } else {
        assert(k * 0 == 0) by (nonlinear_arith);
    }
}

/// The dot product with a unit vector picks one entry.
pub proof fn lemma_dot_unit(len: nat, i: int, v: Seq<int>, n: nat)
    requires
        n <= len,
    ensures
        dot_upto(unit(len, i), v, n) == if 0 <= i < n { v[i] } else { 0 },
    decreases n,
{
    if n > 0 {
        lemma_dot_unit(len, i, v, (n - 1) as nat);
        assert(1 * v[n - 1] == v[n - 1]);
        assert(0 * v[n - 1] == 0);
    }
}

/// Changing one entry of the first argument changes the dot product by
/// the difference times the matching entry of the second.
pub proof fn lemma_dot_update(a: Seq<int>, i: int, x: int, b: Seq<int>, n: nat)
    requires
        0 <= i < a.len(),
        n <= a.len(),
    ensures
        dot_upto(a.update(i, x), b, n) == dot_upto(a, b, n) + if i < n {
            (x - a[i]) * b[i]
        } else {
            0
        },
    decreases n,
{
    if n > 0 {
        let m = (n - 1) as nat;
        lemma_dot_update(a, i, x, b, m);
        let u = a.update(i, x);
        if i == n - 1 {
            assert(x * b[i] == a[i] * b[i] + (x - a[i]) * b[i]) by (nonlinear_arith);
        } else {
            assert(u[n - 1] == a[n - 1]);
        }
    }
}

/// Exchanging the same two entries in both arguments keeps the dot product.
pub proof fn lemma_dot_swapped(a: Seq<int>, b: Seq<int>, i: int, j: int)
    requires
        a.len() == b.len(),
        0 <= i < a.len(),
        0 <= j < a.len(),
    ensures
        dot_upto(swapped(a, i, j), swapped(b, i, j), a.len()) == dot_upto(a, b, a.len()),
{
    let n = a.len();
    if i != j {
        let a1 = a.update(i, a[j]);
        let a2 = a1.update(j, a[i]);
        let b1 = b.update(i, b[j]);
        let b2 = b1.update(j, b[i]);
        lemma_dot_update(a1, j, a[i], b2, n);
        lemma_dot_update(a, i, a[j], b2, n);
        lemma_dot_symm(a, b2, n);
        lemma_dot_update(b1, j, b[i], a, n);
        lemma_dot_update(b, i, b[j], a, n);
        lemma_dot_symm(b, a, n);
        let d = dot_upto(a, b, n);
        assert(d + (b[j] - b[i]) * a[i] + (b[i] - b[j]) * a[j] + (a[j] - a[i]) * b[j] + (a[i]
            - a[j]) * b[i] == d) by (nonlinear_arith);
    } else {
        assert(swapped(a, i, j) =~= a);
        assert(swapped(b, i, j) =~= b);
    }
}

/// The dot product with a padded vector is the dot product with the
/// matching part of the other vector.
pub proof fn lemma_dot_padded(c: Seq<int>, v: Seq<int>, lo: int, t: nat)
    requires
        0 <= lo,
        lo + c.len() <= v.len(),
        t <= v.len(),
    ensures
        dot_upto(padded(c, lo, v.len()), v, t) == dot_upto(
            c,
            v.subrange(lo, lo + c.len()),
            if t <= lo {
                0
            } else if t >= lo + c.len() {
                c.len()
            } else {
                (t - lo) as nat
            },
        ),
    decreases t,
{
    if t > 0 {
        lemma_dot_padded(c, v, lo, (t - 1) as nat);
        let k = t - 1;
        let w = padded(c, lo, v.len());
        if lo <= k < lo + c.len() {
            assert(v.subrange(lo, lo + c.len())[k - lo] == v[k]);
        } else {
            assert(0 * v[k] == 0);
        }
    }
}

/// The dot product of two concatenations is the sum of the dot products of
/// the parts.
pub proof fn lemma_dot_concat(y: Seq<int>, z: Seq<int>, u: Seq<int>, w: Seq<int>, t: nat)
    requires
        y.len() == u.len(),
        z.len() == w.len(),
        t <= z.len(),
    ensures
        dot_upto(y + z, u + w, y.len() + t) == dot_upto(y, u, y.len()) + dot_upto(z, w, t),
    decreases t,
{
    if t == 0 {
        lemma_dot_ext(y + z, u + w, y, u, y.len());
    } else {
        lemma_dot_concat(y, z, u, w, (t - 1) as nat);
        assert((y + z)[y.len() + t - 1] == z[t - 1]);
        assert((u + w)[y.len() + t - 1] == w[t - 1]);
    }
}

/// The dot product of a vector with itself is not negative, and it is zero
/// only where the summed entries are zero.
pub proof fn lemma_dot_self(w: Seq<int>, n: nat)
    ensures
        dot_upto(w, w, n) >= 0,
        dot_upto(w, w, n) == 0 ==> forall|j: int| 0 <= j < n ==> w[j] == 0,
    decreases n,
{
    if n > 0 {
        lemma_dot_self(w, (n - 1) as nat);
        assert(w[n - 1] * w[n - 1] >= 0) by (nonlinear_arith);
        assert(w[n - 1] * w[n - 1] == 0 ==> w[n - 1] == 0) by (nonlinear_arith);
    }
}

} // verus!
