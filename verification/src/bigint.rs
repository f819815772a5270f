//! The trusted layer over `num_bigint::BigInt`.
//!
//! A `BigInt` is opaque to the verifier; `big_value` names the
//! mathematical integer that one holds.  Every arithmetic, comparison,
//! shift and bit operation that the library relies on is wrapped here
//! with a contract over `big_value`, taken from what the `num_bigint`
//! (and `num_traits`) sources show.  Everything above this layer is
//! verified against these contracts.

use vstd::prelude::*;
use vstd::arithmetic::power::pow;
use vstd::arithmetic::power2::pow2;
use vstd::arithmetic::power2::lemma_pow2_adds;
use vstd::arithmetic::power2::lemma_pow2_pos;
use vstd::math::abs;

verus! {

#[verifier::external_type_specification]
#[verifier::external_body]
pub struct ExBigInt(num_bigint::BigInt);

/// The mathematical integer that a `BigInt` holds.
pub uninterp spec fn big_value(n: num_bigint::BigInt) -> int;

/// Relies on `BigInt: From<i64>`: builds the integer with that value.
#[verifier::external_body]
pub(crate) fn big_from_i64(v: i64) -> (r: num_bigint::BigInt)
    ensures
        big_value(r) == v as int,
{
    num_bigint::BigInt::from(v)
}

/// Relies on `BigInt: Clone`: the copy holds the same value.
pub assume_specification[ <num_bigint::BigInt as Clone>::clone ](
    n: &num_bigint::BigInt,
) -> (r: num_bigint::BigInt)
    ensures
        big_value(r) == big_value(*n),
;

/// Relies on `BigInt: PartialEq`: `BigInt` keeps a normalized
/// sign-magnitude form, so structural equality is value equality.
#[verifier::external_body]
pub(crate) fn big_eq(a: &num_bigint::BigInt, b: &num_bigint::BigInt) -> (r: bool)
    ensures
        r <==> big_value(*a) == big_value(*b),
{
    a == b
}

/// Relies on `BigInt: Ord`: comparison follows the numeric order.
#[verifier::external_body]
pub(crate) fn big_lt(a: &num_bigint::BigInt, b: &num_bigint::BigInt) -> (r: bool)
    ensures
        r <==> big_value(*a) < big_value(*b),
{
    a < b
}

/// Relies on `num_traits::Signed::is_negative` for `BigInt`.
#[verifier::external_body]
pub(crate) fn big_is_negative(n: &num_bigint::BigInt) -> (r: bool)
    ensures
        r <==> big_value(*n) < 0,
{
    num_traits::Signed::is_negative(n)
}

/// Relies on `Neg` for `&BigInt`.
#[verifier::external_body]
pub(crate) fn big_neg(n: &num_bigint::BigInt) -> (r: num_bigint::BigInt)
    ensures
        big_value(r) == -big_value(*n),
{
    -n
}

/// Relies on `Add` for `&BigInt`.
#[verifier::external_body]
pub(crate) fn big_add(a: &num_bigint::BigInt, b: &num_bigint::BigInt) -> (r: num_bigint::BigInt)
    ensures
        big_value(r) == big_value(*a) + big_value(*b),
{
    a + b
}

/// Relies on `Sub` for `&BigInt`.
#[verifier::external_body]
pub(crate) fn big_sub(a: &num_bigint::BigInt, b: &num_bigint::BigInt) -> (r: num_bigint::BigInt)
    ensures
        big_value(r) == big_value(*a) - big_value(*b),
{
    a - b
}

/// Relies on `Mul` for `&BigInt`.
#[verifier::external_body]
pub(crate) fn big_mul(a: &num_bigint::BigInt, b: &num_bigint::BigInt) -> (r: num_bigint::BigInt)
    ensures
        big_value(r) == big_value(*a) * big_value(*b),
{
    a * b
}

/// Relies on `num_traits::Euclid::div_rem_euclid` for `BigInt`: the
/// quotient and the remainder of Euclidean division, the remainder
/// non-negative and below the divisor's magnitude.  Panics on a zero
/// divisor, so that is excluded.
#[verifier::external_body]
pub(crate) fn big_div_rem_euclid(
    a: &num_bigint::BigInt,
    b: &num_bigint::BigInt,
) -> (qr: (num_bigint::BigInt, num_bigint::BigInt))
    requires
        big_value(*b) != 0,
    ensures
        big_value(*a) == big_value(*b) * big_value(qr.0) + big_value(qr.1),
        0 <= big_value(qr.1) < abs(big_value(*b)),
{
    num_traits::Euclid::div_rem_euclid(a, b)
}

/// Relies on `num_traits::Euclid::rem_euclid` for `BigInt`: for a
/// positive modulus the result is the non-negative remainder.
#[verifier::external_body]
pub(crate) fn big_rem_euclid(
    a: &num_bigint::BigInt,
    m: &num_bigint::BigInt,
) -> (r: num_bigint::BigInt)
    requires
        big_value(*m) > 0,
    ensures
        big_value(r) == big_value(*a) % big_value(*m),
{
    num_traits::Euclid::rem_euclid(a, m)
}

/// Relies on `BigInt::modpow`: `(self ^ exponent) % modulus`, in
/// `[0, modulus)` for a positive modulus.  Panics on a negative
/// exponent or a zero modulus, so those are excluded.
#[verifier::external_body]
pub(crate) fn big_modpow(
    b: &num_bigint::BigInt,
    e: &num_bigint::BigInt,
    m: &num_bigint::BigInt,
) -> (r: num_bigint::BigInt)
    requires
        big_value(*e) >= 0,
        big_value(*m) > 0,
    ensures
        big_value(r) == pow(big_value(*b), big_value(*e) as nat) % big_value(*m),
{
    b.modpow(e, m)
}

/// Relies on `Shl<usize>` for `&BigInt`: a left shift multiplies by a
/// power of two.
#[verifier::external_body]
pub(crate) fn big_shl(n: &num_bigint::BigInt, k: usize) -> (r: num_bigint::BigInt)
    ensures
        big_value(r) == big_value(*n) * pow2(k as nat),
{
    n << k
}

/// Relies on `Shr<usize>` for `&BigInt`: for a non-negative value a
/// right shift divides by a power of two, rounding down.
#[verifier::external_body]
pub(crate) fn big_shr(n: &num_bigint::BigInt, k: usize) -> (r: num_bigint::BigInt)
    requires
        big_value(*n) >= 0,
    ensures
        big_value(r) == big_value(*n) / pow2(k as nat) as int,
{
    n >> k
}

/// Relies on `BigInt::bit`: for a non-negative value, whether the bit
/// at the given position of the magnitude is set.
#[verifier::external_body]
pub(crate) fn big_bit(n: &num_bigint::BigInt, i: u64) -> (r: bool)
    requires
        big_value(*n) >= 0,
    ensures
        r <==> (big_value(*n) / pow2(i as nat) as int) % 2 == 1,
{
    n.bit(i)
}

/// Relies on `BigInt::set_bit` with `true`: for a non-negative value it
/// sets the bit at the given position of the magnitude.
#[verifier::external_body]
pub(crate) fn big_set_bit_true(n: &mut num_bigint::BigInt, i: u64)
    requires
        big_value(*old(n)) >= 0,
    ensures
        big_value(*final(n)) == with_bit_set(big_value(*old(n)), i as nat),
{
    n.set_bit(i, true)
}

/// Relies on `BigInt::from_bytes_be` with `Sign::Plus`: the bytes are
/// the big-endian base-256 digits of a non-negative integer.
#[verifier::external_body]
pub(crate) fn big_from_bytes_be(bytes: &Vec<u8>) -> (r: num_bigint::BigInt)
    ensures
        big_value(r) == be_val(bytes@),
{
    num_bigint::BigInt::from_bytes_be(num_bigint::Sign::Plus, bytes.as_slice())
}

/// The integer whose big-endian base-256 digits are `s`.
pub open spec fn be_val(s: Seq<u8>) -> int
    decreases s.len(),
{
    if s.len() == 0 {
        0
    } else {
        be_val(s.drop_last()) * 256 + s.last()
    }
}

/// `v` with the bit at position `i` set, for `v >= 0`: the digits of
/// `v` above position `i` and below position `i` are kept, and the
/// digit at `i` becomes one.
pub open spec fn with_bit_set(v: int, i: nat) -> int {
    (v / pow2((i + 1) as nat) as int) * pow2((i + 1) as nat) as int + pow2(i) as int + v % pow2(
        i,
    ) as int
}

/// Setting the top bit of a value below `2^(i+1)` lands it in
/// `[2^i, 2^(i+1))`.
pub proof fn lemma_with_bit_set_range(v: int, i: nat)
    requires
        0 <= v < pow2(i + 1),
    ensures
        pow2(i) <= with_bit_set(v, i) < pow2(i + 1),
{
    let p = pow2(i) as int;
    let p2 = pow2((i + 1) as nat) as int;
    lemma_pow2_pos(i);
    lemma_pow2_pos(i + 1);
    lemma_pow2_adds(i, 1);
    assert(pow2(1) == 2) by {
        vstd::arithmetic::power2::lemma2_to64();
    }
    vstd::arithmetic::div_mod::lemma_basic_div(v, p2);
    vstd::arithmetic::div_mod::lemma_mod_bound(v, p);
}

/// Setting the lowest bit of a non-negative value makes it odd and
/// moves it by at most one: it stays put when odd and grows by one
/// when even.
pub proof fn lemma_with_bit_set_zero(v: int)
    requires
        v >= 0,
    ensures
        with_bit_set(v, 0) % 2 == 1,
        v % 2 == 1 ==> with_bit_set(v, 0) == v,
        v % 2 == 0 ==> with_bit_set(v, 0) == v + 1,
{
    assert(pow2(0) == 1 && pow2(1) == 2) by {
        vstd::arithmetic::power2::lemma2_to64();
    }
    vstd::arithmetic::div_mod::lemma_fundamental_div_mod(v, 2);
    vstd::arithmetic::div_mod::lemma_mod_bound(v, 2);
    assert(v % 1 == 0) by {
        vstd::arithmetic::div_mod::lemma_mod_bound(v, 1);
    }
    let w = with_bit_set(v, 0);
    assert(w == (v / 2) * 2 + 1);
    vstd::arithmetic::div_mod::lemma_fundamental_div_mod_converse((v / 2) * 2 + 1, 2, v / 2, 1);
}

/// A big-endian digit string of `n` bytes holds a value below `2^(8n)`.
pub proof fn lemma_be_val_bound(s: Seq<u8>)
    ensures
        0 <= be_val(s) < pow2((8 * s.len()) as nat),
    decreases s.len(),
{
    if s.len() == 0 {
        assert(pow2(0) == 1) by {
            vstd::arithmetic::power2::lemma2_to64();
        }
    } else {
        lemma_be_val_bound(s.drop_last());
        let m = (8 * (s.len() - 1)) as nat;
        lemma_pow2_adds(m, 8);
        assert(pow2(8) == 256) by {
            vstd::arithmetic::power2::lemma2_to64();
        }
        lemma_pow2_pos(m);
        assert(be_val(s.drop_last()) * 256 + s.last() < pow2(m) as int * 256) by (nonlinear_arith)
            requires
                be_val(s.drop_last()) < pow2(m),
                0 <= s.last() < 256,
        ;
        assert(0 <= be_val(s.drop_last()) * 256) by (nonlinear_arith)
            requires
                0 <= be_val(s.drop_last()),
        ;
    }
}

} // verus!
