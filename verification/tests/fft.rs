use fibcalc::fermat::FermatNum;
use fibcalc::fft_cache::{CacheKey, FFTCache};
use fibcalc::fft::{fft_multiply, fft_square, mul, mul_to, sqr, sqr_to};
use fibcalc::fft_core::{bit_reverse_permutation, fft_forward, fft_inverse};
use fibcalc::fft_poly::{pointwise_multiply, Poly};
use fibcalc::fft_recursion::fft_recursive;
use fibcalc::memory_est::estimate_fft_memory;
use fibcalc::scan::bit_length;
use num_bigint::BigUint;
use num_traits::One;

#[test]
fn fft_mul_small() {
    let a = BigUint::from(12345u64);
    let b = BigUint::from(67890u64);
    assert_eq!(mul(&a, &b), BigUint::from(838_102_050u64));
}

#[test]
fn fft_sqr_small() {
    let a = BigUint::from(99999u64);
    assert_eq!(sqr(&a), BigUint::from(9_999_800_001u64));
}

#[test]
fn fft_mul_zero() {
    let a = BigUint::from(12345u64);
    let b = BigUint::ZERO;
    assert_eq!(mul(&a, &b), BigUint::ZERO);
}

#[test]
fn fft_multiply_correctness() {
    // Test FFT multiplication directly with numbers of various sizes.
    // Use deterministic patterns rather than random numbers.
    for &bit_size in &[128, 256, 512, 1024] {
        let a = (BigUint::one() << bit_size) - BigUint::one(); // 2^n - 1
        let b = (BigUint::one() << bit_size) - BigUint::from(3u64); // 2^n - 3
        let expected = &a * &b;
        let got = fft_multiply(&a, &b);
        assert_eq!(
            expected, got,
            "FFT multiply failed for {bit_size}-bit numbers"
        );
    }
}

#[test]
fn fft_square_correctness() {
    for &bit_size in &[128, 256, 512, 1024] {
        let a = (BigUint::one() << bit_size) - BigUint::one();
        let expected = &a * &a;
        let got = fft_square(&a);
        assert_eq!(
            expected, got,
            "FFT square failed for {bit_size}-bit numbers"
        );
    }
}

#[test]
fn fft_multiply_asymmetric() {
    // Test with operands of different sizes
    let a = (BigUint::one() << 512) - BigUint::one();
    let b = BigUint::from(12345u64);
    let expected = &a * &b;
    let got = fft_multiply(&a, &b);
    assert_eq!(expected, got, "FFT multiply failed for asymmetric operands");
}

#[test]
fn fft_roundtrip_identity() {
    // Forward then inverse should recover the original data.
    // Use n=4, shift=8 (modulus = 257, a Fermat prime)
    let shift = 8;
    let vals = [1u64, 2, 3, 4];
    let mut data: Vec<FermatNum> = vals
        .iter()
        .map(|&v| FermatNum::from_biguint(&BigUint::from(v), shift))
        .collect();

    let original: Vec<BigUint> = data.iter().map(|f| f.to_biguint()).collect();

    fft_forward(&mut data, shift);
    fft_inverse(&mut data, shift);

    for (i, (got, expected)) in data
        .iter()
        .map(|f| f.to_biguint())
        .zip(original.iter())
        .enumerate()
    {
        assert_eq!(&got, expected, "Mismatch at index {i}");
    }
}

#[test]
fn fft_roundtrip_8_elements() {
    // Test with n=8 elements
    let shift = 16; // Must be divisible by n/2 = 4
    let vals = [10u64, 20, 30, 40, 50, 60, 70, 80];
    let mut data: Vec<FermatNum> = vals
        .iter()
        .map(|&v| FermatNum::from_biguint(&BigUint::from(v), shift))
        .collect();

    let original: Vec<BigUint> = data.iter().map(|f| f.to_biguint()).collect();

    fft_forward(&mut data, shift);
    fft_inverse(&mut data, shift);

    for (i, (got, expected)) in data
        .iter()
        .map(|f| f.to_biguint())
        .zip(original.iter())
        .enumerate()
    {
        assert_eq!(&got, expected, "Mismatch at index {i}");
    }
}

#[test]
fn fft_single_element() {
    let shift = 64;
    let mut data = vec![FermatNum::from_biguint(&BigUint::from(42u64), shift)];
    fft_forward(&mut data, shift);
    assert_eq!(data[0].to_biguint(), BigUint::from(42u64));
}

#[test]
fn poly_roundtrip_small() {
    let value = BigUint::from(12345u64);
    let poly = Poly::from_biguint(&value, 4, 16, 64);
    assert_eq!(poly.len(), 4);
    assert_eq!(poly.to_biguint(), value);
}

#[test]
fn poly_roundtrip_large() {
    // Test with a value that spans multiple pieces
    let value = (BigUint::one() << 200) + BigUint::from(999u64);
    let poly = Poly::from_biguint(&value, 8, 64, 256);
    assert_eq!(poly.to_biguint(), value);
}

#[test]
fn poly_zero() {
    let value = BigUint::from(0u32);
    let poly = Poly::from_biguint(&value, 4, 64, 128);
    assert_eq!(poly.to_biguint(), value);
}

#[test]
fn pointwise_multiply_simple() {
    let shift = 128;
    let a = vec![
        FermatNum::from_biguint(&BigUint::from(3u64), shift),
        FermatNum::from_biguint(&BigUint::from(5u64), shift),
    ];
    let b = vec![
        FermatNum::from_biguint(&BigUint::from(7u64), shift),
        FermatNum::from_biguint(&BigUint::from(11u64), shift),
    ];
    let c = pointwise_multiply(&a, &b, shift);
    assert_eq!(c[0].to_biguint(), BigUint::from(21u64));
    assert_eq!(c[1].to_biguint(), BigUint::from(55u64));
}

#[test]
fn placeholder() {
    assert!(true);
}

#[test]
fn memory_est_estimate_small() {
    let est = estimate_fft_memory(1000, 1000);
    assert!(est > 0);
}

#[test]
fn estimate_grows_with_size() {
    let small = estimate_fft_memory(1000, 1000);
    let large = estimate_fft_memory(1_000_000, 1_000_000);
    assert!(large > small);
}

#[test]
fn bit_length_values() {
    assert_eq!(bit_length(&BigUint::from(0u32)), 0);
    assert_eq!(bit_length(&BigUint::from(1u32)), 1);
    assert_eq!(bit_length(&BigUint::from(255u32)), 8);
}

#[test]
fn bit_reverse_permutation_of_eight() {
    let shift = 8;
    let mut data: Vec<FermatNum> = (0u64..8)
        .map(|v| FermatNum::from_biguint(&BigUint::from(v), shift))
        .collect();
    bit_reverse_permutation(&mut data);
    let got: Vec<BigUint> = data.iter().map(|x| x.to_biguint()).collect();
    let want: Vec<BigUint> = [0u64, 4, 2, 6, 1, 5, 3, 7].iter().map(|&v| BigUint::from(v)).collect();
    assert_eq!(got, want);
}

#[test]
fn bit_reverse_permutation_twice_is_identity() {
    let shift = 16;
    let vals: Vec<u64> = (0u64..16).map(|v| v * 37 % 101).collect();
    let mut data: Vec<FermatNum> = vals
        .iter()
        .map(|&v| FermatNum::from_biguint(&BigUint::from(v), shift))
        .collect();
    bit_reverse_permutation(&mut data);
    bit_reverse_permutation(&mut data);
    let got: Vec<BigUint> = data.iter().map(|x| x.to_biguint()).collect();
    let want: Vec<BigUint> = vals.iter().map(|&v| BigUint::from(v)).collect();
    assert_eq!(got, want);
}

#[test]
fn fft_forward_transform_values() {
    // modulo 257 with the root 2^(16 / 4) = 16
    let shift = 8;
    let mut data: Vec<FermatNum> = [1u64, 2, 3, 4]
        .iter()
        .map(|&v| FermatNum::from_biguint(&BigUint::from(v), shift))
        .collect();
    fft_forward(&mut data, shift);
    let got: Vec<BigUint> = data.iter().map(|x| x.to_biguint()).collect();
    let want: Vec<BigUint> = [10u64, 223, 255, 30].iter().map(|&v| BigUint::from(v)).collect();
    assert_eq!(got, want);
}

#[test]
fn fft_inverse_divides_by_length() {
    // the transform of the reversed tail of [10, 223, 255, 30] is 4 times [1, 2, 3, 4]
    let shift = 8;
    let mut data: Vec<FermatNum> = [10u64, 223, 255, 30]
        .iter()
        .map(|&v| FermatNum::from_biguint(&BigUint::from(v), shift))
        .collect();
    fft_inverse(&mut data, shift);
    let got: Vec<BigUint> = data.iter().map(|x| x.to_biguint()).collect();
    let want: Vec<BigUint> = [1u64, 2, 3, 4].iter().map(|&v| BigUint::from(v)).collect();
    assert_eq!(got, want);
}

#[test]
fn fft_products_of_large_operands_are_exact() {
    let a = BigUint::from(3u32).pow(9000);
    let b = BigUint::from(7u32).pow(5000) + BigUint::from(12345u32);
    assert!(a.bits() >= 10_000);
    assert_eq!(fft_multiply(&a, &b), &a * &b);
    assert_eq!(mul(&a, &b), &a * &b);
    assert_eq!(fft_square(&b), &b * &b);
    assert_eq!(sqr(&a), &a * &a);
    let mut dst = BigUint::from(0u32);
    mul_to(&mut dst, &a, &b);
    assert_eq!(dst, &a * &b);
    sqr_to(&mut dst, &b);
    assert_eq!(dst, &b * &b);
}

#[test]
fn fft_short_input_at_odd_mask_shift() {
    // Fewer than two elements are left as they are, whatever the shift.
    let shift = 63;
    let mut data = vec![FermatNum::from_biguint(&BigUint::from(7u64), shift)];
    fft_forward(&mut data, shift);
    assert_eq!(data[0].to_biguint(), BigUint::from(7u64));
    fft_inverse(&mut data, shift);
    assert_eq!(data[0].to_biguint(), BigUint::from(7u64));
    fft_recursive(&mut data, shift, 1);
    assert_eq!(data[0].to_biguint(), BigUint::from(7u64));
    let mut empty: Vec<FermatNum> = Vec::new();
    fft_forward(&mut empty, shift);
    assert!(empty.is_empty());
}

#[test]
fn cache_put_get() {
    let mut cache = FFTCache::new(10);
    let key = CacheKey { size: 8, shift: 64 };
    cache.put(key.clone(), vec![vec![1, 2, 3]]);
    assert!(cache.get(&key).is_some());
}

#[test]
fn cache_eviction() {
    let mut cache = FFTCache::new(2);
    for i in 0..3 {
        cache.put(CacheKey { size: i, shift: 64 }, vec![]);
    }
    // After exceeding max, cache should have been cleared + 1 new entry
    assert!(cache.len() <= 2);
}

#[test]
fn cache_replaces_and_empties_at_capacity() {
    let mut cache = FFTCache::new(2);
    let a = CacheKey { size: 4, shift: 16 };
    let b = CacheKey { size: 8, shift: 32 };
    cache.put(a, vec![vec![1]]);
    cache.put(a, vec![vec![2]]);
    assert_eq!(cache.len(), 1);
    assert_eq!(cache.get(&a), Some(vec![vec![2]]));
    cache.put(b, vec![vec![3]]);
    assert_eq!(cache.len(), 2);
    // At capacity: the next table empties the cache first.
    cache.put(a, vec![vec![4]]);
    assert_eq!(cache.len(), 1);
    assert_eq!(cache.get(&b), None);
    assert_eq!(cache.get(&a), Some(vec![vec![4]]));
    cache.clear();
    assert!(cache.is_empty());
}
