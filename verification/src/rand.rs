//! Uniformly random non-negative integers of a requested bit length,
//! drawn from a pluggable secure byte source.

use vstd::prelude::*;
use vstd::arithmetic::div_mod::lemma_div_pos_is_pos;
use vstd::arithmetic::div_mod::lemma_fundamental_div_mod;
use vstd::arithmetic::div_mod::lemma_multiply_divide_lt;
use vstd::arithmetic::power2::lemma_pow2_adds;
use vstd::arithmetic::power2::lemma_pow2_pos;
use vstd::arithmetic::power2::pow2;
use num_bigint::BigInt;

use crate::bigint::be_val;
use crate::bigint::big_from_bytes_be;
use crate::bigint::big_from_i64;
use crate::bigint::big_set_bit_true;
use crate::bigint::big_shr;
use crate::bigint::big_value;
use crate::bigint::lemma_be_val_bound;
use crate::bigint::lemma_with_bit_set_range;

verus! {

/// The capability of filling a buffer with cryptographically secure
/// random bytes.  The randomized operations take it as an explicit
/// parameter, so a seeded source can stand in for the operating
/// system's one.
pub trait RandomSource {
    /// Overwrites the buffer with random bytes, keeping its length.
    fn fill_bytes(&mut self, buf: &mut Vec<u8>)
        ensures
            final(buf)@.len() == old(buf)@.len(),
    ;
}

/// The operating system's secure random source.
pub struct OsRandom;

impl RandomSource for OsRandom {
    fn fill_bytes(&mut self, buf: &mut Vec<u8>) {
        os_fill_bytes(buf)
    }
}

/// Relies on `rand_core::RngCore::fill_bytes` for `rand_core::OsRng`:
/// it overwrites the slice in place, so the length is kept.
#[verifier::external_body]
fn os_fill_bytes(buf: &mut Vec<u8>)
    ensures
        final(buf)@.len() == old(buf)@.len(),
{
    let mut rng = rand_core::OsRng;
    rand_core::RngCore::fill_bytes(&mut rng, buf.as_mut_slice())
}

/// Relies on `num_bigint::RandBigInt::gen_bigint_range` with the
/// operating system's generator: a value in `[lo, hi)`; it panics
/// unless `lo < hi`, so that is excluded.
#[verifier::external_body]
pub(crate) fn big_random_range(lo: &BigInt, hi: &BigInt) -> (r: BigInt)
    requires
        big_value(*lo) < big_value(*hi),
    ensures
        big_value(*lo) <= big_value(r) < big_value(*hi),
{
    let mut rng = rand_core::OsRng;
    num_bigint::RandBigInt::gen_bigint_range(&mut rng, lo, hi)
}

/// Fixed-bit-length random generation, as `BigInt` supports it.
pub trait RandFixedLength where Self: Sized {
    /// A uniformly random non-negative value of at most `nbits` bits.
    fn rand_nbits<R: RandomSource>(nbits: usize, rng: &mut R) -> Self
        requires
            nbits + 7 <= usize::MAX,
    ;

    /// A uniformly random value of exactly `nbits` bits.
    fn rand_exact_nbits<R: RandomSource>(nbits: usize, rng: &mut R) -> Self
        requires
            nbits + 7 <= usize::MAX,
    ;
}

impl RandFixedLength for BigInt {
    fn rand_nbits<R: RandomSource>(nbits: usize, rng: &mut R) -> BigInt {
        rand_nbits(nbits, rng)
    }

    fn rand_exact_nbits<R: RandomSource>(nbits: usize, rng: &mut R) -> BigInt {
        rand_exact_nbits(nbits, rng)
    }
}

/// Draws `ceil(nbits/8)` random bytes, reads them big-endian and
/// shifts away the excess bits of the byte alignment: a uniformly
/// random non-negative integer representable in at most `nbits` bits.
/// Zero for `nbits == 0`.
pub fn rand_nbits<R: RandomSource>(nbits: usize, rng: &mut R) -> (n: BigInt)
    requires
        nbits + 7 <= usize::MAX,
    ensures
        0 <= big_value(n) < pow2(nbits as nat),
        nbits == 0 ==> big_value(n) == 0,
{
    if nbits == 0 {
        let z = big_from_i64(0);
        proof {
            lemma_pow2_pos(0);
        }
        return z;
    }
    let raw = random_aligned(nbits, rng);
    proof {
        lemma_byte_align(nbits as int);
    }
    let shift: usize = ((nbits - 1) / 8 + 1) * 8 - nbits;
    let n = big_shr(&raw, shift);
    proof {
        lemma_shifted_range(big_value(raw), nbits as nat, shift as nat);
    }
    n
}

/// Draws `ceil(nbits/8)` random bytes, reads them big-endian, shifts
/// away the excess bits of the byte alignment and forces the top bit:
/// a uniformly random integer of exactly `nbits` bits, in
/// `[2^(nbits-1), 2^nbits)`.  Zero for `nbits == 0`.
pub fn rand_exact_nbits<R: RandomSource>(nbits: usize, rng: &mut R) -> (n: BigInt)
    requires
        nbits + 7 <= usize::MAX,
    ensures
        nbits == 0 ==> big_value(n) == 0,
        nbits >= 1 ==> pow2((nbits - 1) as nat) <= big_value(n) < pow2(nbits as nat),
{
    if nbits == 0 {
        return big_from_i64(0);
    }
    let raw = random_aligned(nbits, rng);
    proof {
        lemma_byte_align(nbits as int);
    }
    let shift: usize = ((nbits - 1) / 8 + 1) * 8 - nbits;
    let mut n = big_shr(&raw, shift);
    proof {
        lemma_shifted_range(big_value(raw), nbits as nat, shift as nat);
    }
    let ghost v0: int = big_value(n);
    big_set_bit_true(&mut n, (nbits - 1) as u64);
    proof {
        lemma_with_bit_set_range(v0, (nbits - 1) as nat);
    }
    n
}

/// Rounding a positive bit count up to whole bytes adds at most seven
/// bits.
proof fn lemma_byte_align(nbits: int)
    requires
        1 <= nbits,
    ensures
        nbits <= ((nbits - 1) / 8 + 1) * 8 <= nbits + 7,
{
    lemma_fundamental_div_mod(nbits - 1, 8);
    vstd::arithmetic::div_mod::lemma_mod_bound(nbits - 1, 8);
}

/// Fills `ceil(nbits/8)` bytes from the source and reads them as a
/// big-endian non-negative integer, so the result lies below
/// `2^(8 * ceil(nbits/8))`.
fn random_aligned<R: RandomSource>(nbits: usize, rng: &mut R) -> (raw: BigInt)
    requires
        1 <= nbits,
        nbits + 7 <= usize::MAX,
    ensures
        0 <= big_value(raw) < pow2((((nbits - 1) / 8 + 1) * 8) as nat),
{
    let nbytes: usize = (nbits - 1) / 8 + 1;
    let mut buf: Vec<u8> = Vec::new();
    let mut i: usize = 0;
    while i < nbytes
        invariant
            buf@.len() == i,
            i <= nbytes,
        decreases nbytes - i,
    {
        buf.push(0);
        i = i + 1;
    }
    rng.fill_bytes(&mut buf);
    let raw = big_from_bytes_be(&buf);
    proof {
        lemma_be_val_bound(buf@);
        assert(8 * buf@.len() == (nbytes * 8) as nat);
    }
    raw
}

/// A value below `2^(nbits + shift)`, shifted right by `shift`, lies
/// below `2^nbits`.
proof fn lemma_shifted_range(raw: int, nbits: nat, shift: nat)
    requires
        0 <= raw < pow2(nbits + shift),
    ensures
        0 <= raw / (pow2(shift) as int) < pow2(nbits),
{
    lemma_pow2_pos(shift);
    lemma_pow2_pos(nbits);
    lemma_pow2_adds(nbits, shift);
    lemma_div_pos_is_pos(raw, pow2(shift) as int);
    assert(pow2(nbits) as int * pow2(shift) as int == pow2(shift) as int * pow2(
        nbits,
    ) as int) by (nonlinear_arith);
    lemma_multiply_divide_lt(raw, pow2(shift) as int, pow2(nbits) as int);
}

} // verus!
