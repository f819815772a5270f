use num_bigint::BigInt;
use num_bigint_ext::prime::{miller_rabin, rand_prime, rand_safe_prime, try_div};
use num_bigint_ext::rand::{rand_exact_nbits, rand_nbits, OsRandom, RandFixedLength};

#[test]
fn rand_fixed_length_trait() {
    let mut rng = OsRandom;
    let n = <BigInt as RandFixedLength>::rand_exact_nbits(16, &mut rng);
    assert_eq!(n.bits(), 16);
    let m = <BigInt as RandFixedLength>::rand_nbits(16, &mut rng);
    assert!(m.bits() <= 16);
}

#[test]
fn rand_safe_prime_medium() {
    let mut rng = OsRandom;
    let p = rand_safe_prime(64, &mut rng).unwrap();
    println!("rand_safe_prime: {}", p);
    assert_eq!(p.bits(), 64);
    let q: BigInt = (&p - 1) / 2;
    assert!(try_div(&p));
    assert!(try_div(&q));
    assert!(miller_rabin(&q, 5));
    assert!(miller_rabin(&p, 5));
}

#[test]
fn rand_exact_nbits_bit_length() {
    let mut rng = OsRandom;
    for nbits in [1u64, 2, 7, 8, 9, 16, 31, 64, 100] {
        for _ in 0..8 {
            let n = rand_exact_nbits(nbits as usize, &mut rng);
            assert_eq!(n.bits(), nbits);
        }
    }
    assert_eq!(rand_exact_nbits(0, &mut rng), BigInt::from(0));
}

#[test]
fn rand_nbits_bit_length() {
    let mut rng = OsRandom;
    for nbits in [1u64, 5, 8, 13, 64] {
        for _ in 0..8 {
            let n = rand_nbits(nbits as usize, &mut rng);
            assert!(n.bits() <= nbits);
            assert!(n >= BigInt::from(0));
        }
    }
    assert_eq!(rand_nbits(0, &mut rng), BigInt::from(0));
}

#[test]
fn rand_prime_small() {
    let mut rng = OsRandom;
    let p = rand_prime(32, &mut rng).unwrap();
    assert_eq!(p.bits(), 32);
    assert_eq!(&p % 2, BigInt::from(1));
    assert!(try_div(&p));
    assert!(miller_rabin(&p, 10));
}

#[test]
fn rand_prime_medium() {
    let mut rng = OsRandom;
    let p = rand_prime(256, &mut rng).unwrap();
    println!("rand_prime: {}", p);
    assert_eq!(p.bits(), 256);
    assert_eq!(&p % 2, BigInt::from(1));
    assert!(try_div(&p));
    assert!(miller_rabin(&p, 5));
}

#[test]
fn rand_safe_prime_small() {
    let mut rng = OsRandom;
    let p = rand_safe_prime(24, &mut rng).unwrap();
    assert_eq!(p.bits(), 24);
    assert_eq!(&p % 2, BigInt::from(1));
    let q: BigInt = (&p - 1) / 2;
    assert_eq!(q.bits(), 23);
    assert!(try_div(&p));
    assert!(try_div(&q));
    assert!(miller_rabin(&q, 5));
    assert!(miller_rabin(&p, 5));
}
