use std::str::FromStr;

use num_bigint::BigInt;
use num_bigint_ext::prime::{aks, is_prime, miller_rabin, try_div};
use num_bigint_ext::small_primes;

#[test]
fn test_miller_rabin() {
    let mersenne_1279 = (BigInt::from(1) << 1279) - 1;
    assert_eq!(miller_rabin(&mersenne_1279, 5), true);
    let a001262_32 = BigInt::from(486737);
    assert_eq!(miller_rabin(&a001262_32, 5), false);
    let a020231_33 = BigInt::from(315121);
    assert_eq!(miller_rabin(&a020231_33, 5), false);

    // source:
    // Arnault F., Rabin-Miller primality test: composite numbers that pass it, Math. Comp., Volume 64, No. 209, 355-361, 1995.
    let large_strong_pseudo = "
        80383745745363949125707961434194210813883768828755
        81458374889175222974273765333652186502336163960045
        45791504202360320876656996676098728404396540823292
        87387918508691668573282677617710293896977394701670
        82304286871099974399765441448453411558724506334092
        79022275296229414984230688168540432645753401832978
        6111298960644845216191652872597534901"
        .chars()
        .filter(|c| !c.is_whitespace())
        .collect::<String>();
    let large_strong_pseudo = BigInt::from_str(&large_strong_pseudo).unwrap();
    assert_eq!(miller_rabin(&large_strong_pseudo, 5), false);
}

#[test]
fn try_div_finds_small_factors() {
    assert_eq!(try_div(&BigInt::from(221)), false); // 13 * 17
    assert_eq!(try_div(&BigInt::from(65537)), true);
    // a table prime divides itself, so it fails trial division
    assert_eq!(try_div(&BigInt::from(7)), false);
}

#[test]
fn is_prime_results() {
    assert_eq!(is_prime(&BigInt::from(65537)), true);
    assert_eq!(is_prime(&BigInt::from(35)), false);
    // small primes sit in the table and are rejected by trial division
    assert_eq!(is_prime(&BigInt::from(7)), false);
}

#[test]
fn small_primes_table() {
    let table = small_primes();
    assert_eq!(table[0], 2);
    assert_eq!(table[1], 3);
    assert_eq!(*table.last().unwrap(), 251);
    assert_eq!(table.len(), 54);
}

#[test]
fn aks_is_a_stub() {
    assert_eq!(aks(&BigInt::from(7)), false);
}
