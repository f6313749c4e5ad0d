use fibcalc::fermat::FermatNum;
use fibcalc::fft_params::select_fft_params;
use num_bigint::BigUint;
use num_traits::One;

#[test]
fn fermat_new() {
    let f = FermatNum::new(64);
    assert_eq!(f.shift, 64);
    assert!(!f.data.is_empty());
}

#[test]
fn fermat_modulus() {
    let f = FermatNum::new(64);
    let modulus = f.modulus();
    let expected = (BigUint::one() << 64) + BigUint::one();
    assert_eq!(modulus, expected);
}

#[test]
fn fermat_to_from_biguint_roundtrip() {
    let val = BigUint::from(123_456_789u64);
    let f = FermatNum::from_biguint(&val, 128);
    assert_eq!(f.to_biguint(), val);
}

#[test]
fn fermat_to_from_large_value() {
    let val = (BigUint::one() << 100) + BigUint::from(42u64);
    let f = FermatNum::from_biguint(&val, 128);
    assert_eq!(f.to_biguint(), val);
}

#[test]
fn fermat_add_mod() {
    let a = FermatNum::from_biguint(&BigUint::from(100u64), 64);
    let b = FermatNum::from_biguint(&BigUint::from(200u64), 64);
    let c = a.add(&b);
    assert_eq!(c.to_biguint(), BigUint::from(300u64));
}

#[test]
fn fermat_add_wraps() {
    let _modulus = (BigUint::one() << 64) + BigUint::one();
    let a = FermatNum::from_biguint(&(BigUint::one() << 64), 64);
    let b = FermatNum::from_biguint(&BigUint::one(), 64);
    let c = a.add(&b);
    assert_eq!(c.to_biguint(), BigUint::from(0u64));
}

#[test]
fn fermat_sub() {
    let a = FermatNum::from_biguint(&BigUint::from(300u64), 64);
    let b = FermatNum::from_biguint(&BigUint::from(200u64), 64);
    let c = a.sub(&b);
    assert_eq!(c.to_biguint(), BigUint::from(100u64));
}

#[test]
fn fermat_sub_wraps() {
    let modulus = (BigUint::one() << 64) + BigUint::one();
    let a = FermatNum::from_biguint(&BigUint::from(100u64), 64);
    let b = FermatNum::from_biguint(&BigUint::from(200u64), 64);
    let c = a.sub(&b);
    let expected = &modulus - BigUint::from(100u64);
    assert_eq!(c.to_biguint(), expected);
}

#[test]
fn fermat_mul() {
    let a = FermatNum::from_biguint(&BigUint::from(100u64), 128);
    let b = FermatNum::from_biguint(&BigUint::from(200u64), 128);
    let c = a.fermat_mul(&b);
    assert_eq!(c.to_biguint(), BigUint::from(20000u64));
}

#[test]
fn fermat_shift_left() {
    let mut a = FermatNum::from_biguint(&BigUint::one(), 128);
    a.shift_left(10);
    assert_eq!(a.to_biguint(), BigUint::from(1024u64));
}

#[test]
fn fermat_shift_left_wraps() {
    let modulus = (BigUint::one() << 64) + BigUint::one();
    let mut a = FermatNum::from_biguint(&BigUint::one(), 64);
    a.shift_left(64);
    assert_eq!(a.to_biguint(), &modulus - BigUint::one());
}

#[test]
fn fermat_shift_right_inverse_of_left() {
    let original = BigUint::from(12345u64);
    let mut a = FermatNum::from_biguint(&original, 128);
    a.shift_left(20);
    a.shift_right(20);
    assert_eq!(a.to_biguint(), original);
}

#[test]
fn fermat_normalize() {
    let modulus = (BigUint::one() << 64) + BigUint::one();
    let val = &modulus + BigUint::from(5u64);
    let mut f = FermatNum::from_biguint(&val, 64);
    f.normalize();
    assert_eq!(f.to_biguint(), BigUint::from(5u64));
}

#[test]
fn fermat_normalize_large_values() {
    // Test with several multiples of the modulus for different shifts
    for &shift in &[64, 128, 192, 256] {
        let modulus = (BigUint::one() << shift) + BigUint::one();
        // Value = 3 * modulus + 42
        let val = &modulus * BigUint::from(3u64) + BigUint::from(42u64);
        let mut f = FermatNum::from_biguint(&val, shift);
        f.normalize();
        assert_eq!(
            f.to_biguint(),
            BigUint::from(42u64),
            "normalize failed for shift={shift}"
        );

        // Value = modulus exactly -> should be 0
        let mut f2 = FermatNum::from_biguint(&modulus, shift);
        f2.normalize();
        assert_eq!(
            f2.to_biguint(),
            BigUint::from(0u64),
            "normalize of modulus should be 0 for shift={shift}"
        );

        // Value = 2 * modulus -> should be 0
        let val3 = &modulus * BigUint::from(2u64);
        let mut f3 = FermatNum::from_biguint(&val3, shift);
        f3.normalize();
        assert_eq!(
            f3.to_biguint(),
            BigUint::from(0u64),
            "normalize of 2*modulus should be 0 for shift={shift}"
        );
    }
}

#[test]
fn select_params_small() {
    let (piece_bits, n, shift) = select_fft_params(1000, 1000);
    assert!(piece_bits > 0);
    assert!(n > 0);
    assert!(shift > 0);
    assert_eq!(n & (n - 1), 0);
    assert_eq!(shift % (n / 2), 0);
}

#[test]
fn select_params_large() {
    let (piece_bits, n, shift) = select_fft_params(100_000, 100_000);
    assert!(piece_bits > 0);
    assert!(n > 0);
    assert_eq!(n & (n - 1), 0);
    assert_eq!(shift % (n / 2), 0);
    assert!(shift >= 2 * piece_bits + 1);
}

#[test]
fn fermat_shift_by_multiple_of_shift_at_odd_mask() {
    // shift % 64 == 63: a shift by a multiple of `shift` is a negation or nothing.
    let shift = 127;
    let modulus = (BigUint::one() << 127) + BigUint::one();
    let five = BigUint::from(5u64);
    let mut a = FermatNum::from_biguint(&five, shift);
    a.shift_left(127);
    assert_eq!(a.to_biguint(), &modulus - &five);
    a.shift_left(254);
    assert_eq!(a.to_biguint(), &modulus - &five);
    a.shift_right(127);
    assert_eq!(a.to_biguint(), five);
    a.shift_left(381);
    a.shift_right(381);
    assert_eq!(a.to_biguint(), BigUint::from(5u64));
}
