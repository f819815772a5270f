//! Trial division, the Miller-Rabin probabilistic primality test, and
//! the rejection-sampling generators for random primes and safe
//! primes.

use vstd::prelude::*;
use vstd::arithmetic::div_mod::lemma_fundamental_div_mod;
use vstd::arithmetic::div_mod::lemma_mod_bound;
use vstd::arithmetic::div_mod::lemma_mod_multiples_basic;
use vstd::arithmetic::div_mod::lemma_mod_multiples_vanish;
use vstd::arithmetic::div_mod::lemma_small_mod;
use vstd::arithmetic::power::lemma1_pow;
use vstd::arithmetic::power::lemma_pow_mod_noop;
use vstd::arithmetic::power::lemma_pow_multiplies;
use vstd::arithmetic::power::pow;
use vstd::arithmetic::power2::lemma2_to64;
use vstd::arithmetic::power2::lemma_pow2_adds;
use vstd::arithmetic::power2::lemma_pow2_pos;
use vstd::arithmetic::power2::lemma_pow2_strictly_increases;
use vstd::arithmetic::power2::pow2;
use num_bigint::BigInt;

use crate::arith::lemma_div_of_multiple;
use crate::bigint::big_add;
use crate::bigint::big_bit;
use crate::bigint::big_eq;
use crate::bigint::big_from_i64;
use crate::bigint::big_modpow;
use crate::bigint::big_rem_euclid;
use crate::bigint::big_set_bit_true;
use crate::bigint::big_shl;
use crate::bigint::big_shr;
use crate::bigint::big_sub;
use crate::bigint::big_value;
use crate::bigint::lemma_with_bit_set_zero;
use crate::bigint::with_bit_set;
use crate::consts::small_primes;
use crate::consts::small_primes_seq;
use crate::rand::big_random_range;
use crate::rand::rand_exact_nbits;
use crate::rand::RandomSource;

verus! {

/// The odd factor of `m`: what is left after stripping every factor
/// of two.
pub open spec fn odd_part(m: nat) -> nat
    decreases m,
{
    if m == 0 {
        0
    } else if m % 2 == 1 {
        m
    } else {
        odd_part(m / 2)
    }
}

/// How many factors of two `m` holds.
pub open spec fn two_adic(m: nat) -> nat
    decreases m,
{
    if m == 0 {
        0
    } else if m % 2 == 1 {
        0
    } else {
        1 + two_adic(m / 2)
    }
}

/// `n` is a strong probable prime to the base `a`: with
/// `n - 1 == 2^s * d` and `d` odd, either `a^d` is `1` or `n - 1`
/// modulo `n`, or some repeated squaring `a^(2^r * d)` with `r < s`
/// is `n - 1` modulo `n`.
pub open spec fn sprp(n: int, a: int) -> bool {
    let d = odd_part((n - 1) as nat);
    let s = two_adic((n - 1) as nat);
    ||| pow(a, d) % n == 1
    ||| pow(a, d) % n == n - 1
    ||| exists|r: nat| 1 <= r < s && #[trigger] pow(a, pow2(r) * d) % n == n - 1
}

/// The decomposition `m == 2^s * d` with `d` odd is the one that
/// `odd_part` and `two_adic` compute.
proof fn lemma_odd_decomposition(m: nat, d: nat, s: nat)
    requires
        d % 2 == 1,
        m == pow2(s) * d,
    ensures
        odd_part(m) == d,
        two_adic(m) == s,
    decreases s,
{
    if s == 0 {
        assert(pow2(0) == 1) by {
            lemma2_to64();
        }
    } else {
        lemma_pow2_adds((s - 1) as nat, 1);
        assert(pow2(1) == 2) by {
            lemma2_to64();
        }
        let m2 = pow2((s - 1) as nat) * d;
        assert(m == m2 * 2) by (nonlinear_arith)
            requires
                m == pow2(s) * d,
                pow2(s) == pow2((s - 1) as nat) * 2,
                m2 == pow2((s - 1) as nat) * d,
        ;
        lemma_mod_multiples_basic(m2 as int, 2);
        assert(m % 2 == 0);
        lemma_pow2_pos((s - 1) as nat);
        assert(m2 >= 1) by (nonlinear_arith)
            requires
                pow2((s - 1) as nat) >= 1,
                d >= 1,
                m2 == pow2((s - 1) as nat) * d,
        ;
        lemma_div_of_multiple(m2 as int, 2);
        assert(m / 2 == m2);
        lemma_odd_decomposition(m2, d, (s - 1) as nat);
    }
}

/// Squaring a residue of `a^e` modulo `n` gives the residue of
/// `a^(2e)`.
proof fn lemma_square_mod(a: int, e: nat, n: int)
    requires
        n > 0,
    ensures
        pow(pow(a, e) % n, 2) % n == pow(a, 2 * e) % n,
{
    lemma_pow_mod_noop(pow(a, e), 2, n);
    lemma_pow_multiplies(a, e, 2);
    assert(e * 2 == 2 * e);
}

/// `(n - 1)^2` is `1` modulo `n`.
proof fn lemma_minus_one_square(n: int)
    requires
        n >= 2,
    ensures
        pow(n - 1, 2) % n == 1,
{
    reveal_with_fuel(pow, 3);
    assert(pow(n - 1, 2) == (n - 1) * ((n - 1) * 1));
    assert((n - 1) * ((n - 1) * 1) == n * (n - 2) + 1) by (nonlinear_arith);
    lemma_mod_multiples_vanish(n - 2, 1, n);
    lemma_small_mod(1nat, n as nat);
}

/// Once the squaring chain reaches one it stays one.
proof fn lemma_one_stays(a: int, d: nat, n: int, r0: nat, j: nat)
    requires
        n >= 2,
        pow(a, pow2(r0) * d) % n == 1,
        r0 <= j,
    ensures
        pow(a, pow2(j) * d) % n == 1,
    decreases j - r0,
{
    if j > r0 {
        lemma_one_stays(a, d, n, r0, (j - 1) as nat);
        let e = pow2((j - 1) as nat) * d;
        lemma_square_mod(a, e, n);
        lemma1_pow(2);
        lemma_small_mod(1nat, n as nat);
        lemma_pow2_adds((j - 1) as nat, 1);
        assert(pow2(1) == 2) by {
            lemma2_to64();
        }
        assert(2 * e == pow2(j) * d) by (nonlinear_arith)
            requires
                e == pow2((j - 1) as nat) * d,
                pow2(j) == pow2((j - 1) as nat) * 2,
        ;
    }
}

/// Powers of two do not shrink as the exponent grows.
proof fn lemma_pow2_le(e1: nat, e2: nat)
    requires
        e1 <= e2,
    ensures
        pow2(e1) <= pow2(e2),
{
    if e1 < e2 {
        lemma_pow2_strictly_increases(e1, e2);
    }
}

/// Whether `n` has no factor in the small-prime table.  False as soon
/// as one table prime divides `n` (so a table prime itself fails).
pub fn try_div(n: &BigInt) -> (r: bool)
    ensures
        r <==> (forall|i: int|
            0 <= i < small_primes_seq().len() ==> big_value(*n) % (
            #[trigger] small_primes_seq()[i] as int) != 0),
{
    let table = small_primes();
    let zero = big_from_i64(0);
    let mut i: usize = 0;
    while i < table.len()
        invariant
            table@ == small_primes_seq(),
            forall|k: int| 0 <= k < table@.len() ==> 2 <= #[trigger] table@[k] < 256,
            big_value(zero) == 0,
            i <= table@.len(),
            forall|j: int|
                0 <= j < i ==> big_value(*n) % (#[trigger] small_primes_seq()[j] as int) != 0,
        decreases table@.len() - i,
    {
        let sp = table[i];
        let sp_big = big_from_i64(sp as i64);
        let rem = big_rem_euclid(n, &sp_big);
        if big_eq(&rem, &zero) {
            return false;
        }
        i = i + 1;
    }
    true
}

/// Whether `q` hits the safe-prime sieve: for some odd table prime
/// `sp`, `q mod sp` is the integer half of `sp`, which is exactly when
/// `2q + 1` would be divisible by `sp`.
fn half_small_prime(q: &BigInt) -> (r: bool)
    ensures
        r <==> (exists|i: int|
            1 <= i < small_primes_seq().len() && big_value(*q) % (
            #[trigger] small_primes_seq()[i] as int) == small_primes_seq()[i] as int / 2),
{
    let table = small_primes();
    let mut i: usize = 1;
    while i < table.len()
        invariant
            table@ == small_primes_seq(),
            forall|k: int| 0 <= k < table@.len() ==> 2 <= #[trigger] table@[k] < 256,
            1 <= i <= table@.len(),
            forall|j: int|
                1 <= j < i ==> big_value(*q) % (#[trigger] small_primes_seq()[j] as int)
                    != small_primes_seq()[j] as int / 2,
        decreases table@.len() - i,
    {
        let sp = table[i];
        let sp_big = big_from_i64(sp as i64);
        let half = big_from_i64((sp / 2) as i64);
        let rem = big_rem_euclid(q, &sp_big);
        if big_eq(&rem, &half) {
            return true;
        }
        i = i + 1;
    }
    false
}

/// The safe-prime sieve is sound: for an odd modulus `sp >= 3` and a
/// candidate `q >= 0`, the remainder of `q` modulo `sp` is the integer
/// half of `sp` exactly when `sp` divides `2q + 1`.  So rejecting a
/// candidate on the half-value check discards exactly those `q` whose
/// `p == 2q + 1` a later trial division by `sp` would reject.
pub proof fn lemma_half_sieve(q: int, sp: int)
    requires
        sp >= 3,
        sp % 2 == 1,
        q >= 0,
    ensures
        q % sp == sp / 2 <==> (2 * q + 1) % sp == 0,
{
    let r = q % sp;
    lemma_mod_bound(q, sp);
    lemma_fundamental_div_mod(q, sp);
    assert(2 * q + 1 == sp * (2 * (q / sp)) + (2 * r + 1)) by (nonlinear_arith)
        requires
            q == sp * (q / sp) + r,
    ;
    lemma_mod_multiples_vanish(2 * (q / sp), 2 * r + 1, sp);
    lemma_fundamental_div_mod(sp, 2);
    lemma_mod_bound(sp, 2);
    if r == sp / 2 {
        assert(2 * r + 1 == sp);
        assert(sp == 1 * sp) by (nonlinear_arith);
        lemma_mod_multiples_basic(1, sp);
    } else {
        if 2 * r + 1 < sp {
            lemma_small_mod((2 * r + 1) as nat, sp as nat);
        } else {
            assert(2 * r + 1 != sp);
            vstd::arithmetic::div_mod::lemma_fundamental_div_mod_converse(
                2 * r + 1,
                sp,
                1,
                2 * r + 1 - sp,
            );
        }
    }
}

/// One Miller-Rabin round with the witness `a`: whether `n` is a
/// strong probable prime to that base, for `n - 1 == 2^s * d` with `d`
/// odd.
#[verifier::loop_isolation(false)]
fn mr_round(
    n: &BigInt,
    n_minus_one: &BigInt,
    d: &BigInt,
    s: u64,
    a: &BigInt,
    one: &BigInt,
    two: &BigInt,
) -> (pass: bool)
    requires
        big_value(*n) >= 3,
        big_value(*one) == 1,
        big_value(*two) == 2,
        big_value(*n_minus_one) == big_value(*n) - 1,
        big_value(*d) >= 1,
        big_value(*d) % 2 == 1,
        big_value(*n) - 1 == pow2(s as nat) * (big_value(*d) as nat),
        s < u64::MAX,
    ensures
        pass <==> sprp(big_value(*n), big_value(*a)),
{
    let ghost nv: int = big_value(*n);
    let ghost av: int = big_value(*a);
    let ghost dn: nat = big_value(*d) as nat;
    proof {
        lemma_odd_decomposition((nv - 1) as nat, dn, s as nat);
        assert(pow2(0) == 1 && pow2(1) == 2) by {
            lemma2_to64();
        }
    }
    let mut x = big_modpow(a, d, n);
    if big_eq(&x, one) {
        return true;
    }
    if big_eq(&x, n_minus_one) {
        return true;
    }
    proof {
        assert(pow2(0) * dn == dn) by (nonlinear_arith)
            requires
                pow2(0) == 1,
        ;
        assert(big_value(x) == pow(av, pow2(0) * dn) % nv);
    }
    let mut r: u64 = 1;
    while r <= s
        invariant
            1 <= r <= s + 1,
            big_value(x) == pow(av, pow2((r - 1) as nat) * dn) % nv,
            pow(av, dn) % nv != 1,
            pow(av, dn) % nv != nv - 1,
            forall|j: nat|
                1 <= j < r - 1 ==> #[trigger] pow(av, pow2(j) * dn) % nv != nv - 1,
        decreases s + 1 - r,
    {
        let x_was_minus_one = big_eq(&x, n_minus_one);
        let x_new = big_modpow(&x, two, n);
        proof {
            let e = pow2((r - 1) as nat) * dn;
            lemma_square_mod(av, e, nv);
            lemma_pow2_adds((r - 1) as nat, 1);
            assert(2 * e == pow2(r as nat) * dn) by (nonlinear_arith)
                requires
                    e == pow2((r - 1) as nat) * dn,
                    pow2(r as nat) == pow2((r - 1) as nat) * 2,
            ;
            assert(big_value(x_new) == pow(av, pow2(r as nat) * dn) % nv);
        }
        x = x_new;
        if big_eq(&x, one) {
            if !x_was_minus_one {
                proof {
                    lemma_minus_one_square(nv);
                    assert forall|j: nat| 1 <= j < s implies #[trigger] pow(av, pow2(j) * dn) % nv
                        != nv - 1 by {
                        if j == r - 1 {
                        } else if j >= r {
                            lemma_one_stays(av, dn, nv, r as nat, j);
                        }
                    }
                }
                return false;
            }
            proof {
                assert(pow2(0) * dn == dn) by (nonlinear_arith)
                    requires
                        pow2(0) == 1,
                ;
                if r == 1 {
                    assert(pow(av, dn) % nv == nv - 1);
                    assert(false);
                } else {
                    assert(1 <= (r - 1) as nat && ((r - 1) as nat) < s as nat);
                    assert(pow(av, pow2((r - 1) as nat) * dn) % nv == nv - 1);
                }
            }
            return true;
        }
        proof {
            lemma_minus_one_square(nv);
            if pow(av, pow2((r - 1) as nat) * dn) % nv == nv - 1 {
                let e = pow2((r - 1) as nat) * dn;
                lemma_square_mod(av, e, nv);
                lemma_small_mod(1nat, nv as nat);
                assert(false);
            }
        }
        r = r + 1;
    }
    proof {
        assert(forall|j: nat| 1 <= j < s ==> #[trigger] pow(av, pow2(j) * dn) % nv != nv - 1);
    }
    false
}

/// The Miller-Rabin probabilistic primality test with the given
/// number of rounds, each on a fresh uniformly random witness in
/// `[2, n-2)`.  A false answer certifies a witness to which `n` is
/// not a strong probable prime, so `n` is composite; a true answer
/// means every round passed, which for a composite `n` has
/// probability at most `4^-trial`.
#[verifier::loop_isolation(false)]
pub fn miller_rabin(n: &BigInt, trial: usize) -> (r: bool)
    requires
        big_value(*n) >= 5,
        big_value(*n) <= pow2(u64::MAX as nat),
    ensures
        trial == 0 ==> r,
        !r ==> exists|a: int| 2 <= a <= big_value(*n) - 3 && !sprp(big_value(*n), a),
{
    let ghost nv: int = big_value(*n);
    let one = big_from_i64(1);
    let two = big_from_i64(2);
    let n_minus_one = big_sub(n, &one);
    let n_minus_two = big_sub(n, &two);
    // solve n - 1 == 2^s * d with d odd, stripping low zero bits
    let mut d = n_minus_one.clone();
    let mut s: u64 = 0;
    proof {
        assert(pow2(0) == 1 && pow2(1) == 2) by {
            lemma2_to64();
        }
        assert((nv - 1) as nat == pow2(0) * ((nv - 1) as nat)) by (nonlinear_arith)
            requires
                pow2(0) == 1,
        ;
    }
    while !big_bit(&d, 0)
        invariant
            big_value(d) >= 1,
            (nv - 1) as nat == pow2(s as nat) * (big_value(d) as nat),
            pow2(s as nat) <= (nv - 1) as nat,
        decreases big_value(d),
    {
        proof {
            vstd::arithmetic::div_mod::lemma_div_basics(big_value(d));
            let dv = big_value(d);
            lemma_fundamental_div_mod(dv, 2);
            lemma_mod_bound(dv, 2);
            assert(dv % 2 == 0);
            assert(dv == 2 * (dv / 2));
            lemma_pow2_adds(s as nat, 1);
            assert((nv - 1) as nat == pow2((s + 1) as nat) * ((dv / 2) as nat))
                by (nonlinear_arith)
                requires
                    (nv - 1) as nat == pow2(s as nat) * (dv as nat),
                    dv == 2 * (dv / 2),
                    dv >= 1,
                    pow2((s + 1) as nat) == pow2(s as nat) * 2,
            ;
            assert(pow2((s + 1) as nat) <= (nv - 1) as nat) by (nonlinear_arith)
                requires
                    (nv - 1) as nat == pow2((s + 1) as nat) * ((dv / 2) as nat),
                    dv / 2 >= 1,
                    pow2((s + 1) as nat) >= 0,
            ;
            if s + 1 > u64::MAX {
                lemma_pow2_strictly_increases(u64::MAX as nat, (s + 1) as nat);
                lemma_pow2_le(u64::MAX as nat, (s + 1) as nat);
                assert(false);
            }
        }
        d = big_shr(&d, 1);
        s = s + 1;
    }
    proof {
        vstd::arithmetic::div_mod::lemma_div_basics(big_value(d));
        if s == u64::MAX {
            lemma_pow2_le(u64::MAX as nat, s as nat);
            assert(pow2(u64::MAX as nat) <= (nv - 1) as nat);
            assert(false);
        }
    }
    let mut i: usize = 0;
    while i < trial
        invariant
            i <= trial,
        decreases trial - i,
    {
        let a = big_random_range(&two, &n_minus_two);
        if !mr_round(n, &n_minus_one, &d, s, &a, &one, &two) {
            return false;
        }
        i = i + 1;
    }
    true
}

/// Trial division against the small-prime table, then four
/// Miller-Rabin rounds.  A table prime itself is reported composite,
/// as trial division finds it divides itself.
#[verifier::loop_isolation(false)]
pub fn is_prime(n: &BigInt) -> (r: bool)
    requires
        big_value(*n) >= 2,
        big_value(*n) <= pow2(u64::MAX as nat),
    ensures
        r ==> (forall|i: int|
            0 <= i < small_primes_seq().len() ==> big_value(*n) % (
            #[trigger] small_primes_seq()[i] as int) != 0),
        !r ==> (exists|i: int|
            0 <= i < small_primes_seq().len() && big_value(*n) % (
            #[trigger] small_primes_seq()[i] as int) == 0) || (exists|a: int|
            2 <= a <= big_value(*n) - 3 && !sprp(big_value(*n), a)),
{
    if !try_div(n) {
        return false;
    }
    proof {
        lemma_passed_trial_div_at_least_five(big_value(*n));
    }
    miller_rabin(n, 4)
}

/// A value of at least two that no table prime divides is odd, not a
/// multiple of three, and so at least five.
proof fn lemma_passed_trial_div_at_least_five(v: int)
    requires
        v >= 2,
        forall|i: int|
            0 <= i < small_primes_seq().len() ==> v % (#[trigger] small_primes_seq()[i] as int)
                != 0,
    ensures
        v >= 5,
        v % 2 == 1,
{
    assert(small_primes_seq()[0] == 2);
    assert(small_primes_seq()[1] == 3);
    assert(v % 2 != 0);
    assert(v % 3 != 0);
    lemma_mod_bound(v, 2);
}

/// The deterministic polynomial-time primality test is out of scope:
/// this stub always reports false and must never be taken for a real
/// answer.
pub fn aks(_p: &BigInt) -> (r: bool)
    ensures
        !r,
{
    false
}

/// Draws candidates of exactly `nbits` bits with the low bit forced,
/// and returns the first that passes trial division and five
/// Miller-Rabin rounds: an odd probable prime of exactly `nbits`
/// bits.  `None` only if the astronomically large attempt bound is
/// exhausted.
#[verifier::loop_isolation(false)]
pub fn rand_prime<R: RandomSource>(nbits: usize, rng: &mut R) -> (p: Option<BigInt>)
    requires
        2 <= nbits,
        nbits + 7 <= usize::MAX,
    ensures
        p matches Some(v) ==> {
            &&& pow2((nbits - 1) as nat) <= big_value(v) < pow2(nbits as nat)
            &&& big_value(v) % 2 == 1
            &&& forall|i: int|
                0 <= i < small_primes_seq().len() ==> big_value(v) % (
                #[trigger] small_primes_seq()[i] as int) != 0
        },
{
    let mut attempts: u64 = 0;
    while attempts < u64::MAX
        decreases u64::MAX - attempts,
    {
        let mut cand = rand_exact_nbits(nbits, rng);
        let ghost v0: int = big_value(cand);
        big_set_bit_true(&mut cand, 0);
        proof {
            lemma_with_bit_set_zero(v0);
            lemma_odd_candidate_range(v0, big_value(cand), (nbits - 1) as nat);
        }
        if try_div(&cand) {
            proof {
                assert(pow2(1) == 2) by {
                    lemma2_to64();
                }
                lemma_pow2_le(1nat, (nbits - 1) as nat);
                lemma_passed_trial_div_at_least_five(big_value(cand));
                lemma_pow2_le(nbits as nat, u64::MAX as nat);
            }
            if miller_rabin(&cand, 5) {
                return Some(cand);
            }
        }
        attempts = attempts + 1;
    }
    None
}

/// Forcing the low bit keeps an exact-bit-length candidate in its
/// window `[2^k, 2^(k+1))`.
proof fn lemma_odd_candidate_range(v: int, w: int, k: nat)
    requires
        pow2(k) <= v < pow2(k + 1),
        w == with_bit_set(v, 0),
    ensures
        pow2(k) <= w < pow2(k + 1),
        w % 2 == 1,
{
    lemma_with_bit_set_zero(v);
    lemma_pow2_adds(k, 1);
    assert(pow2(1) == 2) by {
        lemma2_to64();
    }
    let h = pow2(k) as int;
    assert(pow2(k + 1) == h * 2);
    lemma_fundamental_div_mod(v, 2);
    lemma_mod_bound(v, 2);
    if v % 2 == 0 {
        assert(v <= h * 2 - 2) by (nonlinear_arith)
            requires
                v == 2 * (v / 2),
                v < h * 2,
        ;
    }
}

/// Draws Sophie Germain candidates `q` of exactly `nbits - 1` bits
/// with the low bit forced, forms `p == 2q + 1`, and returns the
/// first `p` such that `q` and `p` pass trial division, `q` misses
/// the safe-prime sieve, and both pass five Miller-Rabin rounds: an
/// odd probable safe prime of exactly `nbits` bits whose half
/// `(p-1)/2` is an odd probable prime clear of the small-prime table.
/// `None` only if the astronomically large attempt bound is
/// exhausted.
#[verifier::loop_isolation(false)]
pub fn rand_safe_prime<R: RandomSource>(nbits: usize, rng: &mut R) -> (p: Option<BigInt>)
    requires
        3 <= nbits,
        nbits + 7 <= usize::MAX,
    ensures
        p matches Some(v) ==> {
            &&& pow2((nbits - 1) as nat) <= big_value(v) < pow2(nbits as nat)
            &&& big_value(v) % 2 == 1
            &&& ((big_value(v) - 1) / 2) % 2 == 1
            &&& forall|i: int|
                0 <= i < small_primes_seq().len() ==> big_value(v) % (
                #[trigger] small_primes_seq()[i] as int) != 0
            &&& forall|i: int|
                0 <= i < small_primes_seq().len() ==> ((big_value(v) - 1) / 2) % (
                #[trigger] small_primes_seq()[i] as int) != 0
        },
{
    let one = big_from_i64(1);
    let mut attempts: u64 = 0;
    while attempts < u64::MAX
        invariant
            big_value(one) == 1,
        decreases u64::MAX - attempts,
    {
        let mut q = rand_exact_nbits(nbits - 1, rng);
        let ghost v0: int = big_value(q);
        big_set_bit_true(&mut q, 0);
        proof {
            lemma_with_bit_set_zero(v0);
            lemma_odd_candidate_range(v0, big_value(q), (nbits - 2) as nat);
        }
        let p_cand = big_add(&big_shl(&q, 1), &one);
        let ghost qv: int = big_value(q);
        let ghost pv: int = big_value(p_cand);
        proof {
            assert(pow2(1) == 2) by {
                lemma2_to64();
            }
            assert(pv == 2 * qv + 1) by (nonlinear_arith)
                requires
                    pv == qv * pow2(1) + 1,
                    pow2(1) == 2,
            ;
            lemma_pow2_adds((nbits - 2) as nat, 1);
            lemma_pow2_adds((nbits - 1) as nat, 1);
            lemma_mod_multiples_vanish(qv, 1, 2);
            lemma_small_mod(1nat, 2nat);
            lemma_div_of_multiple(qv, 2);
            assert((pv - 1) / 2 == qv) by (nonlinear_arith)
                requires
                    pv == 2 * qv + 1,
                    (qv * 2) / 2 == qv,
            ;
        }
        if try_div(&q) {
            if !half_small_prime(&q) {
                if try_div(&p_cand) {
                    proof {
                        lemma_pow2_le(1nat, (nbits - 2) as nat);
                        lemma_passed_trial_div_at_least_five(qv);
                        lemma_passed_trial_div_at_least_five(pv);
                        lemma_pow2_le((nbits - 1) as nat, u64::MAX as nat);
                        lemma_pow2_le(nbits as nat, u64::MAX as nat);
                    }
                    if miller_rabin(&q, 5) {
                        if miller_rabin(&p_cand, 5) {
                            return Some(p_cand);
                        }
                    }
                }
            }
        }
        attempts = attempts + 1;
    }
    None
}

} // verus!
