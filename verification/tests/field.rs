use sumcheck::field::{Fp, MODULUS};

#[test]
fn basic_addition() {
    assert_eq!(Fp::new(7) + Fp::new(6), Fp::new(13));
}

#[test]
fn basic_subtraction() {
    assert_eq!(Fp::new(7) - Fp::new(6), Fp::new(1));
}

#[test]
fn basic_multiplication() {
    assert_eq!(Fp::new(7) * Fp::new(6), Fp::new(42));
}

#[test]
fn add_wraps_around_modulus() {
    let a = Fp::new(MODULUS - 1);
    let b = Fp::new(2);
    assert_eq!(a + b, Fp::new(1));
}

#[test]
fn sub_wraps_around_modulus() {
    let a = Fp::new(1);
    let b = Fp::new(2);
    assert_eq!(a - b, Fp::new(MODULUS - 1));
}

#[test]
fn neg_is_additive_inverse() {
    let a = Fp::new(12345);
    assert_eq!(a + (-a), Fp::zero());
}

#[test]
fn inverse_takes_to_one() {
    let a = Fp::new(999);
    let inv = a.inverse().unwrap();
    assert_eq!(a * inv, Fp::one());
}

#[test]
fn zero_has_no_inverse() {
    assert!(Fp::zero().inverse().is_none());
}

#[test]
fn multiplicative_identity_is_one() {
    let a = Fp::new(54321);
    assert_eq!(a * Fp::one(), a);
}

#[test]
fn pow_matches_repeated_multiplication() {
    let a = Fp::new(3);
    let mut expected = Fp::one();
    for _ in 0..10 {
        expected = expected * a;
    }
    assert_eq!(a.pow(10), expected);
}

#[test]
fn new_reduces_modulo_the_prime() {
    assert_eq!(Fp::new(MODULUS), Fp::zero());
    assert_eq!(Fp::new(MODULUS + 5), Fp::new(5));
    assert_eq!(Fp::new(u64::MAX), Fp::new(u64::MAX % MODULUS));
}

#[test]
fn from_u64_reduces() {
    assert_eq!(Fp::from(MODULUS + 3), Fp::new(3));
}

#[test]
fn is_zero_only_for_zero() {
    assert!(Fp::zero().is_zero());
    assert!(Fp::new(MODULUS).is_zero());
    assert!(!Fp::one().is_zero());
}

#[test]
fn negation_of_zero_is_zero() {
    assert_eq!(-Fp::zero(), Fp::zero());
    assert_eq!(-Fp::one(), Fp::new(MODULUS - 1));
}

#[test]
fn multiplication_reduces_large_products() {
    let a = Fp::new(MODULUS - 1);
    assert_eq!(a * a, Fp::one());
    assert_eq!(Fp::new(1 << 20) * Fp::new(1 << 20), Fp::new((1u64 << 40) % MODULUS));
}

#[test]
fn pow_edge_cases() {
    assert_eq!(Fp::new(5).pow(0), Fp::one());
    assert_eq!(Fp::zero().pow(0), Fp::one());
    assert_eq!(Fp::zero().pow(7), Fp::zero());
    assert_eq!(Fp::new(2).pow(31), Fp::new((1u64 << 31) % MODULUS));
    // Fermat: a^(p-1) == 1 for nonzero a
    assert_eq!(Fp::new(123456).pow(MODULUS - 1), Fp::one());
}

#[test]
fn inverse_of_one_and_of_minus_one() {
    assert_eq!(Fp::one().inverse(), Some(Fp::one()));
    let m = Fp::new(MODULUS - 1);
    assert_eq!(m.inverse(), Some(m));
    let a = Fp::new(2);
    assert_eq!(a.inverse().unwrap(), Fp::new((MODULUS + 1) / 2));
}

#[test]
fn to_bytes_is_little_endian() {
    assert_eq!(Fp::new(0x0102).to_bytes(), vec![2, 1, 0, 0, 0, 0, 0, 0]);
    assert_eq!(Fp::new(MODULUS - 1).to_bytes(), (MODULUS - 1).to_le_bytes().to_vec());
}

#[test]
fn from_bytes_reduce_reads_little_endian() {
    assert_eq!(Fp::from_bytes_reduce(&[]), Fp::zero());
    assert_eq!(Fp::from_bytes_reduce(&[2, 1]), Fp::new(0x0102));
    let bytes = MODULUS.to_le_bytes();
    assert_eq!(Fp::from_bytes_reduce(&bytes), Fp::zero());
    // 2^64 modulo the prime
    let mut nine = [0u8; 9];
    nine[8] = 1;
    let two_64 = Fp::new(1 << 32) * Fp::new(1 << 32);
    assert_eq!(Fp::from_bytes_reduce(&nine), two_64);
}
