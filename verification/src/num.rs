//! Integer helpers: ranges, absolute values, greatest common divisors and
//! exact division.

use gcd::Gcd;
use vstd::arithmetic::div_mod::{
    lemma_fundamental_div_mod, lemma_fundamental_div_mod_converse, lemma_mod_multiples_basic,
};
use vstd::prelude::*;

verus! {

/// Whether a mathematical integer can be held in an `i32`.
pub open spec fn in_i32(x: int) -> bool {
    i32::MIN <= x <= i32::MAX
}

/// The absolute value of an integer.
pub open spec fn abs(x: int) -> nat {
    if x < 0 {
        (-x) as nat
    } else {
        x as nat
    }
}

/// Whether `d` divides `n`; zero divides only zero.
pub open spec fn divides(d: int, n: int) -> bool {
    if d == 0 {
        n == 0
    } else {
        n % d == 0
    }
}

/// The greatest common divisor of two natural numbers, with `gcd_nat(0, 0) == 0`.
pub open spec fn gcd_nat(a: nat, b: nat) -> nat
    decreases b,
{
    if b == 0 {
        a
    } else {
        gcd_nat(b, a % b)
    }
}

/// The non-negative greatest common divisor of two integers.
pub open spec fn gcd_int(a: int, b: int) -> int {
    gcd_nat(abs(a), abs(b)) as int
}

/// The two multipliers that bring `a` and `b` to their least common multiple:
/// `b / g` for `a` and `a / g` for `b`, where `g` is their greatest common divisor.
pub open spec fn lcm_div_spec(a: int, b: int) -> (int, int) {
    let g = gcd_int(a, b);
    (b / g, a / g)
}

/// A multiple of `g` plus a multiple of `g` is a multiple of `g`.
pub proof fn lemma_divides_linear(g: int, x: int, k: int, y: int)
    requires
        g > 0,
        x % g == 0,
        y % g == 0,
    ensures
        (x * k + y) % g == 0,
{
    let qx = x / g;
    let qy = y / g;
    lemma_fundamental_div_mod(x, g);
    lemma_fundamental_div_mod(y, g);
    assert(x * k + y == (qx * k + qy) * g) by (nonlinear_arith)
        requires
            x == g * qx,
            y == g * qy,
    ;
    lemma_mod_multiples_basic(qx * k + qy, g);
}

/// Divisibility is transitive.
pub proof fn lemma_divides_trans(a: int, b: int, c: int)
    requires
        a >= 0,
        b >= 0,
        divides(a, b),
        divides(b, c),
    ensures
        divides(a, c),
{
    if b != 0 && a != 0 {
        lemma_fundamental_div_mod(b, a);
        lemma_fundamental_div_mod(c, b);
        let q = (c / b) * (b / a);
        assert(c == q * a) by (nonlinear_arith)
            requires
                b == a * (b / a),
                c == b * (c / b),
                q == (c / b) * (b / a),
        ;
        lemma_mod_multiples_basic(q, a);
    }
}

/// The greatest common divisor is positive unless both numbers are zero.
pub proof fn lemma_gcd_positive(a: nat, b: nat)
    requires
        a > 0 || b > 0,
    ensures
        gcd_nat(a, b) > 0,
    decreases b,
{
    if b != 0 {
        lemma_gcd_positive(b, a % b);
    }
}

/// The greatest common divisor divides both numbers.
pub proof fn lemma_gcd_divides(a: nat, b: nat)
    ensures
        divides(gcd_nat(a, b) as int, a as int),
        divides(gcd_nat(a, b) as int, b as int),
    decreases b,
{
    if b != 0 {
        let g = gcd_nat(b, a % b) as int;
        lemma_gcd_divides(b, a % b);
        lemma_gcd_positive(b, a % b);
        lemma_fundamental_div_mod(a as int, b as int);
        lemma_divides_linear(g, b as int, (a as int) / (b as int), (a % b) as int);
        assert(b * (a as int / b as int) == (a as int / b as int) * b) by (nonlinear_arith);
    } else if a != 0 {
        assert(a as int % a as int == 0) by (nonlinear_arith)
            requires
                a > 0,
        ;
    }
}

/// Every common divisor of two numbers divides their greatest common divisor.
pub proof fn lemma_gcd_greatest(a: nat, b: nat, d: int)
    requires
        d > 0,
        a as int % d == 0,
        b as int % d == 0,
    ensures
        gcd_nat(a, b) as int % d == 0,
    decreases b,
{
    if b != 0 {
        let q = (a as int) / (b as int);
        lemma_fundamental_div_mod(a as int, b as int);
        lemma_divides_linear(d, b as int, -q, a as int);
        assert(b * (-q) + a == (a % b) as int) by (nonlinear_arith)
            requires
                a as int == b * q + (a % b) as int,
        ;
        lemma_gcd_greatest(b, a % b, d);
    }
}

/// Dividing an integer by a positive divisor of it is exact.
pub proof fn lemma_exact_div(a: int, g: int)
    requires
        g > 0,
        abs(a) as int % g == 0,
    ensures
        (a / g) * g == a,
        a % g == 0,
        a >= 0 ==> a / g == abs(a) as int / g,
        a < 0 ==> a / g == -(abs(a) as int / g),
        abs(a / g) <= abs(a),
        a != 0 ==> a / g != 0,
{
    let m = abs(a) as int;
    let k = m / g;
    lemma_fundamental_div_mod(m, g);
    assert(m == g * k);
    if a < 0 {
        assert(a == (-k) * g + 0) by (nonlinear_arith)
            requires
                -a == g * k,
        ;
        lemma_fundamental_div_mod_converse(a, g, -k, 0);
    }
    assert(k >= 0 && k <= m) by (nonlinear_arith)
        requires
            m == g * k,
            g > 0,
            m >= 0,
    ;
    assert((a / g) * g == a) by (nonlinear_arith)
        requires
            m == g * k,
            a >= 0 ==> a / g == k && a == m,
            a < 0 ==> a / g == -k && a == -m,
    ;
    if a != 0 && a / g == 0 {
        assert((a / g) * g == 0) by (nonlinear_arith)
            requires
                a / g == 0,
        ;
    }
}

/// What the two multipliers of `lcm_div_spec` satisfy.
pub proof fn lemma_lcm_div(a: int, b: int)
    requires
        a != 0 || b != 0,
    ensures
        gcd_int(a, b) > 0,
        lcm_div_spec(a, b).0 * gcd_int(a, b) == b,
        lcm_div_spec(a, b).1 * gcd_int(a, b) == a,
        a * lcm_div_spec(a, b).0 == b * lcm_div_spec(a, b).1,
        abs(lcm_div_spec(a, b).0) <= abs(b),
        abs(lcm_div_spec(a, b).1) <= abs(a),
        b != 0 ==> lcm_div_spec(a, b).0 != 0,
        a != 0 ==> lcm_div_spec(a, b).1 != 0,
{
    let g = gcd_int(a, b);
    lemma_gcd_positive(abs(a), abs(b));
    lemma_gcd_divides(abs(a), abs(b));
    lemma_exact_div(a, g);
    lemma_exact_div(b, g);
    let am = b / g;
    let bm = a / g;
    assert(a * am == b * bm) by (nonlinear_arith)
        requires
            am * g == b,
            bm * g == a,
    ;
}

/// The product of two 32-bit integers fits comfortably in 64 bits.
pub proof fn lemma_product_bound(a: int, b: int)
    requires
        in_i32(a),
        in_i32(b),
    ensures
        -0x3fff_ffff_8000_0000 <= a * b <= 0x4000_0000_0000_0000,
{
    assert(a * b <= 0x4000_0000_0000_0000) by (nonlinear_arith)
        requires
            -0x8000_0000 <= a <= 0x7fff_ffff,
            -0x8000_0000 <= b <= 0x7fff_ffff,
    ;
    assert(-0x3fff_ffff_8000_0000 <= a * b) by (nonlinear_arith)
        requires
            -0x8000_0000 <= a <= 0x7fff_ffff,
            -0x8000_0000 <= b <= 0x7fff_ffff,
    ;
}

/// The absolute value of a 32-bit integer, as an unsigned number.
pub fn abs_u32(x: i32) -> (r: u32)
    ensures
        r == abs(x as int),
{
    if x < 0 {
        (-(x as i64)) as u32
    } else {
        x as u32
    }
}

/// Calls `gcd::Gcd::gcd` on two `u32` values. The contract claims that the
/// crate returns their greatest common divisor, and zero when both are zero.
#[verifier::external_body]
pub(crate) fn gcd_u32(u: u32, v: u32) -> (g: u32)
    ensures
        g == gcd_nat(u as nat, v as nat),
{
    u.gcd(v)
}

/// Returns the non-negative greatest common divisor of two signed integers.
pub fn gcd(u: i32, v: i32) -> (g: u32)
    ensures
        g == gcd_int(u as int, v as int),
{
    gcd_u32(abs_u32(u), abs_u32(v))
}

/// Divides `a` by a positive divisor `g` of it.
pub fn div_exact(a: i32, g: u32) -> (q: i32)
    requires
        g > 0,
        abs(a as int) as int % (g as int) == 0,
    ensures
        q == a as int / (g as int),
{
    proof {
        lemma_exact_div(a as int, g as int);
    }
    let k: u32 = abs_u32(a) / g;
    if a < 0 {
        (-(k as i64)) as i32
    } else {
        k as i32
    }
}

/// Returns the multipliers that, when multiplied by the corresponding integer,
/// give the least common multiple of two integers that are not both zero.
pub fn lcm_div(a: i32, b: i32) -> (r: (i32, i32))
    requires
        a != 0 || b != 0,
    ensures
        r.0 == lcm_div_spec(a as int, b as int).0,
        r.1 == lcm_div_spec(a as int, b as int).1,
{
    let g = gcd(a, b);
    proof {
        lemma_gcd_positive(abs(a as int), abs(b as int));
        lemma_gcd_divides(abs(a as int), abs(b as int));
    }
    (div_exact(b, g), div_exact(a, g))
}

} // verus!
