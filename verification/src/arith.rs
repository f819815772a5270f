//! The mathematical greatest common divisor and the small facts about
//! divisibility that the extended Euclidean proofs rest on.

use vstd::prelude::*;
use vstd::arithmetic::div_mod::lemma_fundamental_div_mod;
use vstd::arithmetic::div_mod::lemma_fundamental_div_mod_converse;
use vstd::arithmetic::div_mod::lemma_mod_bound;
use vstd::math::abs;

verus! {

/// The greatest common divisor of two integers, always non-negative,
/// by the Euclidean recursion on the magnitude of the second argument.
pub open spec fn int_gcd(a: int, b: int) -> int
    decreases abs(b),
{
    if b == 0 {
        abs(a) as int
    } else {
        int_gcd(b, a % (abs(b) as int))
    }
}

/// `d` divides `x`.
pub open spec fn divides(d: int, x: int) -> bool {
    exists|k: int| x == #[trigger] (k * d)
}

pub proof fn lemma_gcd_nonneg(a: int, b: int)
    ensures
        int_gcd(a, b) >= 0,
    decreases abs(b),
{
    if b != 0 {
        lemma_mod_bound(a, abs(b) as int);
        lemma_gcd_nonneg(b, a % (abs(b) as int));
    }
}

/// One Euclidean step keeps the gcd: if `a == b*q + r` with
/// `0 <= r < |b|`, the pair `(a, b)` has the gcd of `(b, r)`.
pub proof fn lemma_gcd_step(a: int, b: int, q: int, r: int)
    requires
        b != 0,
        a == b * q + r,
        0 <= r < abs(b),
    ensures
        int_gcd(a, b) == int_gcd(b, r),
{
    let m = abs(b) as int;
    if b > 0 {
        assert(a == q * m + r) by (nonlinear_arith)
            requires
                a == b * q + r,
                m == b,
        ;
        lemma_fundamental_div_mod_converse(a, m, q, r);
    } else {
        assert(a == (-q) * m + r) by (nonlinear_arith)
            requires
                a == b * q + r,
                m == -b,
        ;
        lemma_fundamental_div_mod_converse(a, m, -q, r);
    }
    assert(a % m == r);
}

pub proof fn lemma_divides_linear(d: int, x: int, y: int, u: int, v: int)
    requires
        divides(d, x),
        divides(d, y),
    ensures
        divides(d, u * x + v * y),
{
    let k = choose|k: int| x == #[trigger] (k * d);
    let l = choose|l: int| y == #[trigger] (l * d);
    assert(u * x + v * y == (u * k + v * l) * d) by (nonlinear_arith)
        requires
            x == k * d,
            y == l * d,
    ;
}

/// The gcd divides both arguments.
pub proof fn lemma_gcd_divides(a: int, b: int)
    ensures
        divides(int_gcd(a, b), a),
        divides(int_gcd(a, b), b),
    decreases abs(b),
{
    if b == 0 {
        let g = abs(a) as int;
        if a >= 0 {
            assert(a == 1 * g);
        } else {
            assert(a == (-1) * g);
        }
        assert(b == 0 * g);
    } else {
        let m = abs(b) as int;
        let r = a % m;
        lemma_mod_bound(a, m);
        lemma_gcd_divides(b, r);
        let g = int_gcd(b, r);
        lemma_fundamental_div_mod(a, m);
        // a == m * (a / m) + r, and m is b or -b
        if b > 0 {
            lemma_divides_linear(g, b, r, a / m, 1);
            assert(a == (a / m) * b + 1 * r) by (nonlinear_arith)
                requires
                    a == m * (a / m) + r,
                    m == b,
            ;
        } else {
            lemma_divides_linear(g, b, r, -(a / m), 1);
            assert(a == (-(a / m)) * b + 1 * r) by (nonlinear_arith)
                requires
                    a == m * (a / m) + r,
                    m == -b,
            ;
        }
    }
}

/// Whatever combines two integers into a unit is coprime to witness:
/// if `u*x + v*y` is `1` or `-1`, then `gcd(x, y) == 1`.
pub proof fn lemma_coprime_from_unit(x: int, y: int, u: int, v: int)
    requires
        u * x + v * y == 1 || u * x + v * y == -1,
    ensures
        int_gcd(x, y) == 1,
{
    let g = int_gcd(x, y);
    lemma_gcd_nonneg(x, y);
    lemma_gcd_divides(x, y);
    lemma_divides_linear(g, x, y, u, v);
    let k = choose|k: int| u * x + v * y == #[trigger] (k * g);
    assert(g == 1) by (nonlinear_arith)
        requires
            g >= 0,
            k * g == 1 || k * g == -1,
    ;
}

/// A product by a non-negative factor recovers the factor by division.
pub proof fn lemma_div_of_multiple(x: int, g: int)
    requires
        g > 0,
    ensures
        (x * g) / g == x,
{
    lemma_fundamental_div_mod_converse(x * g, g, x, 0);
}

} // verus!
