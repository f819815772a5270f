use num_bigint::BigInt;
use num_bigint_ext::euclid::{ExtendedEuclideanResult, ModularError};
use num_bigint_ext::{ext_euclid, moddiv, modinv};

#[test]
fn test_extended_euclidean() {
    let a = BigInt::from(288);
    let b = BigInt::from(396);
    let obj = ext_euclid(&a, &b);
    let gt = ExtendedEuclideanResult {
        gcd: BigInt::from(36),
        bezout_x: BigInt::from(-4),
        bezout_y: BigInt::from(3),
        reduced_a: BigInt::from(8),
        reduced_b: BigInt::from(11),
    };
    assert!(obj == gt);
}

#[test]
fn test_moddiv() {
    let a = BigInt::from(28);
    let b = BigInt::from(8);
    let p = BigInt::from(17);
    let res = moddiv(&a, &b, &p).unwrap();
    assert_eq!(res, BigInt::from(12));
    let a = BigInt::from(7); // reduce a by gcd(a, b)
    let b = BigInt::from(2); // reduce b by gcd(a, b)
    let res = moddiv(&a, &b, &p).unwrap();
    assert_eq!(res, BigInt::from(12));
}

#[test]
fn test_modinv() {
    let a = BigInt::from(-2);
    let p = BigInt::from(17);
    let res = modinv(&a, &p).unwrap();
    assert_eq!(res, BigInt::from(8));
}

#[test]
fn bezout_identity_concrete() {
    let obj = ext_euclid(&BigInt::from(288), &BigInt::from(396));
    assert_eq!(
        obj.bezout_x * BigInt::from(288) + obj.bezout_y * BigInt::from(396),
        BigInt::from(36)
    );
}

#[test]
fn ext_euclid_negative_inputs() {
    // The gcd is non-negative whatever the signs of the inputs, and
    // the cofactors carry the input signs: a == gcd * reduced_a and
    // b == gcd * reduced_b hold with the returned field.
    let obj = ext_euclid(&BigInt::from(4), &BigInt::from(-2));
    assert_eq!(obj.gcd, BigInt::from(2));
    assert_eq!(obj.reduced_a, BigInt::from(2));
    assert_eq!(obj.reduced_b, BigInt::from(-1));
    assert_eq!(
        obj.bezout_x * BigInt::from(4) + obj.bezout_y * BigInt::from(-2),
        BigInt::from(2)
    );

    let obj = ext_euclid(&BigInt::from(6), &BigInt::from(-3));
    assert_eq!(obj.gcd, BigInt::from(3));
    assert_eq!(&obj.gcd * &obj.reduced_a, BigInt::from(6));
    assert_eq!(&obj.gcd * &obj.reduced_b, BigInt::from(-3));

    // coprime inputs give gcd one even when one of them is negative
    let obj = ext_euclid(&BigInt::from(5), &BigInt::from(-1));
    assert_eq!(obj.gcd, BigInt::from(1));
}

#[test]
fn ext_euclid_zero_operand() {
    let obj = ext_euclid(&BigInt::from(0), &BigInt::from(5));
    assert_eq!(obj.gcd, BigInt::from(5));
    assert_eq!(obj.bezout_x, BigInt::from(0));
    assert_eq!(obj.bezout_y, BigInt::from(1));
    assert_eq!(obj.reduced_a, BigInt::from(0));
    assert_eq!(obj.reduced_b, BigInt::from(1));
}

#[test]
fn ext_euclid_deterministic() {
    let a = BigInt::from(288);
    let b = BigInt::from(396);
    assert!(ext_euclid(&a, &b) == ext_euclid(&a, &b));
}

#[test]
fn modinv_no_inverse() {
    let res = modinv(&BigInt::from(4), &BigInt::from(16));
    assert_eq!(res, Err(ModularError::NoModularInverse));
}

#[test]
fn modinv_invalid_modulus() {
    assert_eq!(
        modinv(&BigInt::from(3), &BigInt::from(1)),
        Err(ModularError::InvalidModulus)
    );
    assert_eq!(
        modinv(&BigInt::from(3), &BigInt::from(0)),
        Err(ModularError::InvalidModulus)
    );
    assert_eq!(
        modinv(&BigInt::from(3), &BigInt::from(-5)),
        Err(ModularError::InvalidModulus)
    );
}

#[test]
fn moddiv_invalid_modulus() {
    assert_eq!(
        moddiv(&BigInt::from(3), &BigInt::from(2), &BigInt::from(1)),
        Err(ModularError::InvalidModulus)
    );
}

#[test]
fn moddiv_no_inverse() {
    // 2/4 reduces to 1/2, and 2 has no inverse modulo 16.
    let res = moddiv(&BigInt::from(2), &BigInt::from(4), &BigInt::from(16));
    assert_eq!(res, Err(ModularError::NoModularInverse));
}

#[test]
fn moddiv_reduced_unit_divisor() {
    // 28/4 reduces to 7/1, returned directly without reduction mod p.
    let res = moddiv(&BigInt::from(28), &BigInt::from(4), &BigInt::from(5)).unwrap();
    assert_eq!(res, BigInt::from(7));
}

#[test]
fn modinv_matches_product() {
    // b * moddiv(a, b, p) == a (mod p) on a handful of values
    let p = BigInt::from(101);
    for (a, b) in [(30, 7), (-5, 3), (99, 100), (1, 55)] {
        let x = moddiv(&BigInt::from(a), &BigInt::from(b), &p).unwrap();
        let lhs = ((BigInt::from(b) * &x) % &p + &p) % &p;
        let rhs = ((BigInt::from(a) % &p) + &p) % &p;
        assert_eq!(lhs, rhs);
    }
}
