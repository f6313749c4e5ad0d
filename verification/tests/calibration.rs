use fibcalc::adaptive::{binary_search_crossover, find_strassen_threshold, midpoint_of, narrow_step};
use fibcalc::constants::DEFAULT_STRASSEN_THRESHOLD;
use fibcalc::microbench::{bench_fft, bench_karatsuba, find_fft_crossover, make_number};
use fibcalc::profile::{current_timestamp, CalibrationProfile};
use fibcalc::runner::{benchmark, benchmark_detailed};
use num_bigint::BigUint;


#[test]
fn strassen_relative_to_fft() {
    let strassen = find_strassen_threshold(500_000);
    assert!(strassen <= 500_000);
    assert!(strassen >= DEFAULT_STRASSEN_THRESHOLD);
}

#[test]
fn binary_search_converges() {
    let result = binary_search_crossover(1024, 65536);
    assert!(result >= 1024);
    assert!(result <= 65536);
}

#[test]
fn bench_karatsuba_small() {
    let duration = bench_karatsuba(1000);
    assert!(duration.as_nanos() > 0);
}

#[test]
fn bench_fft_small() {
    let duration = bench_fft(1000);
    assert!(duration.as_nanos() > 0);
}

#[test]
fn make_number_bit_length() {
    let n = make_number(1024);
    // Should have approximately 1024 bits
    assert!(n.bits() >= 1020);
    assert!(n.bits() <= 1024);
}

#[test]
fn make_number_zero() {
    let n = make_number(0);
    assert_eq!(n, BigUint::from(0u32));
}

#[test]
fn find_fft_crossover_runs() {
    let points = find_fft_crossover(&[512, 1024, 2048]);
    assert_eq!(points.len(), 3);
    for p in &points {
        assert!(p.karatsuba_ns > 0);
        assert!(p.fft_ns > 0);
    }
}

#[test]
fn profile_compatibility() {
    let profile = CalibrationProfile::defaults_for(4);
    assert!(profile.is_compatible());

    let mut old = CalibrationProfile::defaults_for(4);
    old.version = 0;
    assert!(!old.is_compatible());
}

#[test]
fn profile_cpu_match() {
    let mut profile = CalibrationProfile::defaults_for(4);
    profile.cpu_fingerprint = "cores=8".to_string();
    assert!(profile.matches_cpu("cores=8"));
    assert!(!profile.matches_cpu("cores=4"));
    // Empty fingerprint should match anything
    profile.cpu_fingerprint = String::new();
    assert!(profile.matches_cpu("cores=8"));
}

#[test]
fn profile_validation() {
    let profile = CalibrationProfile::defaults_for(4);
    assert!(profile.is_valid());

    let mut bad = CalibrationProfile::defaults_for(4);
    bad.parallel_threshold = 0;
    assert!(!bad.is_valid());
}

#[test]
fn current_timestamp_nonempty() {
    let ts = current_timestamp();
    assert!(!ts.is_empty());
    assert!(ts.starts_with("unix:"));
}

#[test]
fn benchmark_runs() {
    let duration = benchmark(10, || {
        let _ = 2 + 2;
    });
    assert!(duration.as_nanos() < 1_000_000);
}

#[test]
fn benchmark_detailed_runs() {
    let result = benchmark_detailed(2, 5, || {
        let _ = 2 + 2;
    });
    assert_eq!(result.iterations, 5);
    assert!(result.min <= result.median);
    assert!(result.median <= result.max);
    assert!(result.mean.as_nanos() < 1_000_000);
}

#[test]
fn benchmark_result_with_name() {
    let result = benchmark_detailed(1, 3, || {}).with_name("test_bench");
    assert_eq!(result.name, "test_bench");
}

#[test]
fn midpoint_rounds_down() {
    assert_eq!(midpoint_of(1024, 2048), 1536);
    assert_eq!(midpoint_of(3, 6), 4);
    assert_eq!(midpoint_of(7, 7), 7);
}

#[test]
fn narrow_step_keeps_the_half_by_outcome() {
    assert_eq!(narrow_step(1024, 2048, Some(true)), (1024, 1536));
    assert_eq!(narrow_step(1024, 2048, Some(false)), (1536, 2048));
    assert_eq!(narrow_step(1024, 2048, None), (1024, 2048));
}
