//! The extended Euclidean algorithm with sign-normalized Bezout and
//! reduced cofactor outputs, and the modular inverse and modular
//! division built on it.

use vstd::prelude::*;
use vstd::arithmetic::div_mod::lemma_fundamental_div_mod_converse;
use vstd::arithmetic::div_mod::lemma_mod_bound;
use vstd::arithmetic::div_mod::lemma_mod_multiples_vanish;
use vstd::arithmetic::div_mod::lemma_mul_mod_noop_right;
use vstd::arithmetic::div_mod::lemma_small_mod;
use vstd::math::abs;
use num_bigint::BigInt;

use crate::arith::int_gcd;
use crate::arith::lemma_coprime_from_unit;
use crate::arith::lemma_div_of_multiple;
use crate::arith::lemma_gcd_divides;
use crate::arith::lemma_gcd_nonneg;
use crate::arith::lemma_gcd_step;

use crate::bigint::big_div_rem_euclid;
use crate::bigint::big_eq;
use crate::bigint::big_from_i64;
use crate::bigint::big_is_negative;
use crate::bigint::big_lt;
use crate::bigint::big_mul;
use crate::bigint::big_neg;
use crate::bigint::big_rem_euclid;
use crate::bigint::big_sub;
use crate::bigint::big_value;

verus! {

/// One step of the remainder sequence: `r == a*x + b*y` for the inputs
/// `a`, `b` of the enclosing run.
pub struct ExtendedEuclideanObject {
    pub r: BigInt,
    pub x: BigInt,
    pub y: BigInt,
}

/// The outcome of `ext_euclid(a, b)`:
/// `gcd == a * bezout_x + b * bezout_y`,
/// `a == gcd(a,b) * reduced_a` and `b == gcd(a,b) * reduced_b`, with
/// `reduced_a` and `reduced_b` coprime.
/// When `gcd == 1`, `a * bezout_x == 1 (mod b)` and
/// `b * bezout_y == 1 (mod a)`.
#[derive(Debug, Clone, PartialEq, Eq)]
pub struct ExtendedEuclideanResult {
    pub gcd: BigInt,
    pub bezout_x: BigInt,
    pub bezout_y: BigInt,
    pub reduced_a: BigInt,
    pub reduced_b: BigInt,
}

/// The error of the modular operations.
#[derive(Clone, Copy, Debug, PartialEq, Eq, Structural)]
pub enum ModularError {
    /// The modulus was not strictly greater than one.
    InvalidModulus,
    /// The relevant pair had a gcd other than one, so no multiplicative
    /// inverse exists.
    NoModularInverse,
}

/// The cofactor `a / gcd(a, b)`, as `ext_euclid` returns it: one when
/// both inputs are zero.
pub open spec fn spec_reduced_a(a: int, b: int) -> int {
    if a == 0 && b == 0 {
        1
    } else {
        a / int_gcd(a, b)
    }
}

/// The cofactor `b / gcd(a, b)`, as `ext_euclid` returns it: zero when
/// both inputs are zero.
pub open spec fn spec_reduced_b(a: int, b: int) -> int {
    if a == 0 && b == 0 {
        0
    } else {
        b / int_gcd(a, b)
    }
}

/// One run of the remainder sequence at the spec level: from the pair
/// of states `(r0, x0, y0)` and `(r1, x1, y1)` — each satisfying
/// `r == x*a + y*b` for the inputs `a, b` — to the state holding the
/// last non-zero remainder and its Bezout coefficients.  Each step
/// takes the Euclidean remainder of `r0` by `r1` and updates the
/// coefficients by the matching quotient, exactly as the loop of
/// `ext_euclid` does.
pub open spec fn euclid_triple(r0: int, x0: int, y0: int, r1: int, x1: int, y1: int) -> (
    int,
    int,
    int,
)
    decreases abs(r1),
{
    if r1 == 0 {
        (r0, x0, y0)
    } else {
        let m = abs(r1) as int;
        let r = r0 % m;
        let q = if r1 < 0 {
            -(r0 / m)
        } else {
            r0 / m
        };
        euclid_triple(r1, x1, y1, r, x0 - q * x1, y0 - q * y1)
    }
}

/// The Bezout coefficients that `ext_euclid(a, b)` returns: those of
/// the remainder sequence started on `a == 1*a + 0*b` and
/// `b == 0*a + 1*b`, both negated when the last non-zero remainder was
/// negative, since the gcd field is normalized non-negative.
pub open spec fn bezout_coefficients(a: int, b: int) -> (int, int) {
    let t = euclid_triple(a, 1, 0, b, 0, 1);
    if t.0 < 0 {
        (-t.1, -t.2)
    } else {
        (t.1, t.2)
    }
}

/// A unit Bezout combination inverts: if `1 == x*a + y*b` with
/// `b != 0`, then `a * x == 1` modulo the magnitude of `b`.  This is
/// the sense in which `bezout_x` is the inverse of `a` modulo `b`
/// when the gcd is one (and, by symmetry, `bezout_y` that of `b`
/// modulo `a`).
pub proof fn lemma_bezout_inverse(a: int, b: int, x: int, y: int)
    requires
        b != 0,
        1 == x * a + y * b,
    ensures
        (a * x) % (abs(b) as int) == 1int % (abs(b) as int),
{
    let m = abs(b) as int;
    if b > 0 {
        assert(a * x == m * (-y) + 1) by (nonlinear_arith)
            requires
                1 == x * a + y * b,
                m == b,
        ;
    } else {
        assert(a * x == m * y + 1) by (nonlinear_arith)
            requires
                1 == x * a + y * b,
                m == -b,
        ;
    }
    lemma_mod_multiples_vanish(-y, 1, m);
    lemma_mod_multiples_vanish(y, 1, m);
}

/// Computes the non-negative gcd of `a` and `b` together with the
/// Bezout coefficients and the sign-normalized cofactors `a / gcd`
/// and `b / gcd`: the gcd field equals the mathematical gcd, and the
/// inputs factor through it as `a == gcd * reduced_a` and
/// `b == gcd * reduced_b`, whatever the signs of the inputs.
pub fn ext_euclid(a: &BigInt, b: &BigInt) -> (res: ExtendedEuclideanResult)
    ensures
        big_value(res.gcd) == int_gcd(big_value(*a), big_value(*b)),
        big_value(res.gcd) >= 0,
        big_value(res.gcd) == big_value(res.bezout_x) * big_value(*a) + big_value(res.bezout_y)
            * big_value(*b),
        (big_value(res.bezout_x), big_value(res.bezout_y)) == bezout_coefficients(
            big_value(*a),
            big_value(*b),
        ),
        big_value(*a) == big_value(res.gcd) * big_value(res.reduced_a),
        big_value(*b) == big_value(res.gcd) * big_value(res.reduced_b),
        big_value(res.reduced_a) == spec_reduced_a(big_value(*a), big_value(*b)),
        big_value(res.reduced_b) == spec_reduced_b(big_value(*a), big_value(*b)),
        int_gcd(big_value(res.reduced_a), big_value(res.reduced_b)) == 1,
{
    let ghost av: int = big_value(*a);
    let ghost bv: int = big_value(*b);
    let mut prev = ExtendedEuclideanObject {
        r: a.clone(),
        x: big_from_i64(1),
        y: big_from_i64(0),
    };
    let mut curr = ExtendedEuclideanObject {
        r: b.clone(),
        x: big_from_i64(0),
        y: big_from_i64(1),
    };
    let zero = big_from_i64(0);
    let ghost mut sgn: int = 1;
    while !big_eq(&curr.r, &zero)
        invariant
            big_value(zero) == 0,
            sgn == 1 || sgn == -1,
            big_value(prev.r) == big_value(prev.x) * av + big_value(prev.y) * bv,
            big_value(curr.r) == big_value(curr.x) * av + big_value(curr.y) * bv,
            big_value(prev.r) * big_value(curr.y) - big_value(curr.r) * big_value(prev.y) == sgn
                * av,
            big_value(prev.r) * big_value(curr.x) - big_value(curr.r) * big_value(prev.x) == -sgn
                * bv,
            big_value(prev.x) * big_value(curr.y) - big_value(curr.x) * big_value(prev.y) == sgn,
            int_gcd(big_value(prev.r), big_value(curr.r)) == int_gcd(av, bv),
            euclid_triple(
                big_value(prev.r),
                big_value(prev.x),
                big_value(prev.y),
                big_value(curr.r),
                big_value(curr.x),
                big_value(curr.y),
            ) == euclid_triple(av, 1, 0, bv, 0, 1),
            (av == 0 && bv == 0) ==> big_value(curr.x) == 0 && big_value(curr.y) == 1,
        decreases abs(big_value(curr.r)),
    {
        let (q, r) = big_div_rem_euclid(&prev.r, &curr.r);
        let x = big_sub(&prev.x, &big_mul(&q, &curr.x));
        let y = big_sub(&prev.y, &big_mul(&q, &curr.y));
        proof {
            let pr = big_value(prev.r);
            let px = big_value(prev.x);
            let py = big_value(prev.y);
            let cr = big_value(curr.r);
            let cx = big_value(curr.x);
            let cy = big_value(curr.y);
            let qv = big_value(q);
            let rv = big_value(r);
            let xv2 = big_value(x);
            let yv2 = big_value(y);
            assert(rv == pr - qv * cr) by (nonlinear_arith)
                requires
                    pr == cr * qv + rv,
            ;
            assert(rv == xv2 * av + yv2 * bv) by (nonlinear_arith)
                requires
                    pr == px * av + py * bv,
                    cr == cx * av + cy * bv,
                    rv == pr - qv * cr,
                    xv2 == px - qv * cx,
                    yv2 == py - qv * cy,
            ;
            assert(cr * yv2 - rv * cy == (-sgn) * av) by (nonlinear_arith)
                requires
                    rv == pr - qv * cr,
                    yv2 == py - qv * cy,
                    pr * cy - cr * py == sgn * av,
            ;
            assert(cr * xv2 - rv * cx == (-(-sgn)) * bv) by (nonlinear_arith)
                requires
                    rv == pr - qv * cr,
                    xv2 == px - qv * cx,
                    pr * cx - cr * px == (-sgn) * bv,
            ;
            assert(cx * yv2 - xv2 * cy == -sgn) by (nonlinear_arith)
                requires
                    xv2 == px - qv * cx,
                    yv2 == py - qv * cy,
                    px * cy - cx * py == sgn,
            ;
            lemma_gcd_step(pr, cr, qv, rv);
            // the exec quotient and remainder are the ones the spec
            // recursion takes, so one unfolding keeps the triple
            let m = abs(cr) as int;
            if cr > 0 {
                assert(pr == qv * m + rv) by (nonlinear_arith)
                    requires
                        pr == cr * qv + rv,
                        m == cr,
                ;
                lemma_fundamental_div_mod_converse(pr, m, qv, rv);
            } else {
                assert(pr == (-qv) * m + rv) by (nonlinear_arith)
                    requires
                        pr == cr * qv + rv,
                        m == -cr,
                ;
                lemma_fundamental_div_mod_converse(pr, m, -qv, rv);
            }
            assert(euclid_triple(pr, px, py, cr, cx, cy) == euclid_triple(
                cr,
                cx,
                cy,
                rv,
                xv2,
                yv2,
            ));
            if av == 0 && bv == 0 {
                assert(cr == cx * 0 + cy * 0);
                assert(false);
            }
            sgn = -sgn;
        }
        prev = curr;
        curr = ExtendedEuclideanObject { r, x, y };
    }
    proof {
        let g0 = big_value(prev.r);
        let yc = big_value(curr.y);
        let xc = big_value(curr.x);
        let gg = int_gcd(av, bv);
        assert(big_value(curr.r) == 0);
        assert(g0 * yc == sgn * av) by (nonlinear_arith)
            requires
                g0 * yc - 0 * big_value(prev.y) == sgn * av,
        ;
        assert(g0 * xc == (-sgn) * bv) by (nonlinear_arith)
            requires
                g0 * xc - 0 * big_value(prev.x) == (-sgn) * bv,
        ;
        lemma_gcd_nonneg(av, bv);
        assert(int_gcd(g0, 0) == gg);
        assert(abs(g0) as int == gg);
        assert(euclid_triple(g0, big_value(prev.x), big_value(prev.y), 0, xc, yc) == (
            g0,
            big_value(prev.x),
            big_value(prev.y),
        ));
        assert(euclid_triple(av, 1, 0, bv, 0, 1) == (g0, big_value(prev.x), big_value(prev.y)));
    }
    // the last non-zero remainder carries the gcd up to sign: make it
    // non-negative, negating the Bezout pair with it so the identity
    // gcd == x*a + y*b is kept
    if big_is_negative(&prev.r) {
        let ghost gneg: int = big_value(prev.r);
        let ghost pxneg: int = big_value(prev.x);
        let ghost pyneg: int = big_value(prev.y);
        prev.r = big_neg(&prev.r);
        prev.x = big_neg(&prev.x);
        prev.y = big_neg(&prev.y);
        proof {
            let yc = big_value(curr.y);
            let xc = big_value(curr.x);
            assert((-gneg) == (-pxneg) * av + (-pyneg) * bv) by (nonlinear_arith)
                requires
                    gneg == pxneg * av + pyneg * bv,
            ;
            assert((-gneg) * yc == (-sgn) * av) by (nonlinear_arith)
                requires
                    gneg * yc == sgn * av,
            ;
            assert((-gneg) * xc == (-(-sgn)) * bv) by (nonlinear_arith)
                requires
                    gneg * xc == (-sgn) * bv,
            ;
            assert((-pxneg) * yc - xc * (-pyneg) == -sgn) by (nonlinear_arith)
                requires
                    pxneg * yc - xc * pyneg == sgn,
            ;
            sgn = -sgn;
        }
    }
    proof {
        assert(big_value(prev.r) == int_gcd(av, bv));
        assert((big_value(prev.x), big_value(prev.y)) == bezout_coefficients(av, bv));
    }
    let ghost g0: int = big_value(prev.r);
    let ghost yc: int = big_value(curr.y);
    let ghost xc: int = big_value(curr.x);
    let ghost ea: int = 1;
    let ghost eb: int = 1;
    if big_is_negative(a) != big_is_negative(&curr.y) {
        curr.y = big_neg(&curr.y);
        proof {
            ea = -1;
        }
    }
    if big_is_negative(b) != big_is_negative(&curr.x) {
        curr.x = big_neg(&curr.x);
        proof {
            eb = -1;
        }
    }
    proof {
        let gg = int_gcd(av, bv);
        let ray = big_value(curr.y);
        let rbx = big_value(curr.x);
        assert(av == gg * ray) by (nonlinear_arith)
            requires
                g0 * yc == sgn * av,
                sgn == 1 || sgn == -1,
                gg == abs(g0),
                (g0 >= 0 ==> gg == g0) && (g0 < 0 ==> gg == -g0),
                (av >= 0 && yc >= 0) ==> ray == yc,
                (av >= 0 && yc < 0) ==> ray == -yc,
                (av < 0 && yc >= 0) ==> ray == -yc,
                (av < 0 && yc < 0) ==> ray == yc,
        ;
        assert(bv == gg * rbx) by (nonlinear_arith)
            requires
                g0 * xc == -sgn * bv,
                sgn == 1 || sgn == -1,
                gg == abs(g0),
                (g0 >= 0 ==> gg == g0) && (g0 < 0 ==> gg == -g0),
                (bv >= 0 && xc >= 0) ==> rbx == xc,
                (bv >= 0 && xc < 0) ==> rbx == -xc,
                (bv < 0 && xc >= 0) ==> rbx == -xc,
                (bv < 0 && xc < 0) ==> rbx == xc,
        ;
        if av == 0 && bv == 0 {
            assert(ray == 1 && rbx == 0);
        } else {
            if gg == 0 {
                lemma_gcd_divides(av, bv);
                assert(av == 0 && bv == 0) by {
                    let k = choose|k: int| av == #[trigger] (k * gg);
                    let l = choose|l: int| bv == #[trigger] (l * gg);
                    assert(k * 0 == 0) by (nonlinear_arith);
                    assert(l * 0 == 0) by (nonlinear_arith);
                }
            }
            assert(gg > 0);
            lemma_div_of_multiple(ray, gg);
            lemma_div_of_multiple(rbx, gg);
            assert(av / gg == ray) by (nonlinear_arith)
                requires
                    av == gg * ray,
                    (ray * gg) / gg == ray,
            ;
            assert(bv / gg == rbx) by (nonlinear_arith)
                requires
                    bv == gg * rbx,
                    (rbx * gg) / gg == rbx,
            ;
        }
        let u = big_value(prev.x) * ea;
        let v = -big_value(prev.y) * eb;
        assert(u * ray + v * rbx == sgn) by (nonlinear_arith)
            requires
                big_value(prev.x) * yc - xc * big_value(prev.y) == sgn,
                u == big_value(prev.x) * ea,
                v == -big_value(prev.y) * eb,
                ea == 1 || ea == -1,
                eb == 1 || eb == -1,
                yc == ea * ray,
                xc == eb * rbx,
        ;
        lemma_coprime_from_unit(ray, rbx, u, v);
    }
    ExtendedEuclideanResult {
        gcd: prev.r,
        bezout_x: prev.x,
        bezout_y: prev.y,
        reduced_a: curr.y,
        reduced_b: curr.x,
    }
}

/// The multiplicative inverse of `a` modulo `p`, as the non-negative
/// residue in `[0, p)`.  Fails with `InvalidModulus` unless `p > 1`,
/// and with `NoModularInverse` exactly when `gcd(a, p) != 1`.
pub fn modinv(a: &BigInt, p: &BigInt) -> (r: Result<BigInt, ModularError>)
    ensures
        big_value(*p) <= 1 ==> r == Err::<BigInt, ModularError>(ModularError::InvalidModulus),
        big_value(*p) > 1 && int_gcd(big_value(*a), big_value(*p)) != 1 ==> r == Err::<
            BigInt,
            ModularError,
        >(ModularError::NoModularInverse),
        big_value(*p) > 1 && int_gcd(big_value(*a), big_value(*p)) == 1 ==> (r matches Ok(x) && 0
            <= big_value(x) < big_value(*p) && (big_value(*a) * big_value(x)) % big_value(*p) == 1),
{
    let one = big_from_i64(1);
    if !big_lt(&one, p) {
        return Err(ModularError::InvalidModulus);
    }
    let obj = ext_euclid(a, p);
    let ghost av: int = big_value(*a);
    let ghost pv: int = big_value(*p);
    if !big_eq(&obj.gcd, &one) {
        proof {
            assert(int_gcd(av, pv) != 1);
        }
        return Err(ModularError::NoModularInverse);
    }
    let res = big_rem_euclid(&obj.bezout_x, p);
    proof {
        let xv = big_value(obj.bezout_x);
        let yv = big_value(obj.bezout_y);
        assert(av * xv == pv * (-yv) + 1) by (nonlinear_arith)
            requires
                1 == xv * av + yv * pv,
        ;
        lemma_mod_multiples_vanish(-yv, 1, pv);
        lemma_small_mod(1nat, pv as nat);
        assert((av * xv) % pv == 1);
        lemma_mul_mod_noop_right(av, xv, pv);
        lemma_mod_bound(xv, pv);
        assert((av * (xv % pv)) % pv == 1);
    }
    Ok(res)
}

/// Modular division of `a` by `b` under the modulus `p`, after the
/// common factor of `a` and `b` is removed: for the reduced pair
/// `(ra, rb)` the result `x` satisfies `rb * x == ra (mod p)`, so
/// `b * x == a (mod p)`.  When `rb == 1` the reduced `ra` is returned
/// directly.  Fails with `InvalidModulus` unless `p > 1`, and with
/// `NoModularInverse` exactly when `rb != 1` and `gcd(rb, p) != 1`.
pub fn moddiv(a: &BigInt, b: &BigInt, p: &BigInt) -> (r: Result<BigInt, ModularError>)
    ensures
        big_value(*p) <= 1 ==> r == Err::<BigInt, ModularError>(ModularError::InvalidModulus),
        big_value(*p) > 1 && spec_reduced_b(big_value(*a), big_value(*b)) == 1 ==> (r matches Ok(x)
            && big_value(x) == spec_reduced_a(big_value(*a), big_value(*b))),
        big_value(*p) > 1 && spec_reduced_b(big_value(*a), big_value(*b)) != 1 && int_gcd(
            spec_reduced_b(big_value(*a), big_value(*b)),
            big_value(*p),
        ) == 1 ==> (r matches Ok(x) && 0 <= big_value(x) < big_value(*p) && (spec_reduced_b(
            big_value(*a),
            big_value(*b),
        ) * big_value(x)) % big_value(*p) == spec_reduced_a(big_value(*a), big_value(*b))
            % big_value(*p)),
        big_value(*p) > 1 && spec_reduced_b(big_value(*a), big_value(*b)) != 1 && int_gcd(
            spec_reduced_b(big_value(*a), big_value(*b)),
            big_value(*p),
        ) != 1 ==> r == Err::<BigInt, ModularError>(ModularError::NoModularInverse),
        r matches Ok(x) ==> (big_value(*b) * big_value(x)) % big_value(*p) == big_value(*a)
            % big_value(*p),
{
    let one = big_from_i64(1);
    if !big_lt(&one, p) {
        return Err(ModularError::InvalidModulus);
    }
    let obj_ab = ext_euclid(a, b);
    let ra = obj_ab.reduced_a;
    let rb = obj_ab.reduced_b;
    let ghost av: int = big_value(*a);
    let ghost bv: int = big_value(*b);
    let ghost pv: int = big_value(*p);
    let ghost gg: int = int_gcd(av, bv);
    let ghost rav: int = big_value(ra);
    let ghost rbv: int = big_value(rb);
    if big_eq(&rb, &one) {
        proof {
            assert(bv * rav == av) by (nonlinear_arith)
                requires
                    av == gg * rav,
                    bv == gg * rbv,
                    rbv == 1,
            ;
        }
        return Ok(ra);
    }
    let inv = match modinv(&rb, p) {
        Ok(v) => v,
        Err(e) => {
            return Err(e);
        },
    };
    let prod = big_mul(&ra, &inv);
    let res = big_rem_euclid(&prod, p);
    proof {
        let iv = big_value(inv);
        let resv = big_value(res);
        lemma_mod_bound(rav * iv, pv);
        // rb * res == ra (mod p)
        lemma_mul_mod_noop_right(rbv, rav * iv, pv);
        assert(rbv * (rav * iv) == rav * (rbv * iv)) by (nonlinear_arith);
        lemma_mul_mod_noop_right(rav, rbv * iv, pv);
        assert((rbv * resv) % pv == (rav * ((rbv * iv) % pv)) % pv);
        assert((rbv * resv) % pv == rav % pv);
        // b * res == a (mod p)
        lemma_mul_mod_noop_right(gg, rbv * resv, pv);
        assert(gg * (rbv * resv) == bv * resv) by (nonlinear_arith)
            requires
                bv == gg * rbv,
        ;
        lemma_mul_mod_noop_right(gg, rav, pv);
        assert(gg * rav == av);
        assert((bv * resv) % pv == (gg * ((rbv * resv) % pv)) % pv);
        assert((bv * resv) % pv == (gg * (rav % pv)) % pv);
        assert((bv * resv) % pv == av % pv);
    }
    Ok(res)
}

} // verus!
