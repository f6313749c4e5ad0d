use fibcalc::calculator::{calculate_small, fibonacci, FibCalculator, FibError};
use fibcalc::common::{first_error_or_values, semaphore_concurrency};
use fibcalc::constants::{FIB_TABLE, MAX_FIB_U64};
use fibcalc::doubling_framework::execute_doubling_loop_parallel;
use fibcalc::fastdoubling::{bit_count, OptimizedFastDoubling};
use fibcalc::fermat::FermatNum;
use fibcalc::fft::{mul, sqr};
use fibcalc::fft_based::FFTBasedCalculator;
use fibcalc::fft_poly::{reassemble, Poly};
use fibcalc::fft_wrappers::{mul_fft, smart_multiply, smart_square, sqr_fft};
use fibcalc::generator::SequenceGenerator;
use fibcalc::generator_iterative::IterativeGenerator;
use fibcalc::iterator::{fib_pair, FibIterator};
use fibcalc::matrix::{Matrix, MatrixExponentiation, MatrixState};
use fibcalc::memory_budget::{parse_memory_limit, MemoryEstimate};
use fibcalc::memory_est::estimate_fft_memory;
use fibcalc::microbench::{make_number, CrossoverPoint};
use fibcalc::adaptive::crossover_bracket;
use fibcalc::fft_core::fft_forward;
use fibcalc::pool::tl_acquire;
use fibcalc::modular::FastDoublingMod;
use fibcalc::options::Options;
use fibcalc::output::{format_number, format_result};
use fibcalc::profile::{fingerprint_for, timestamp_for, CalibrationProfile};
use fibcalc::progress::{CancellationToken, TimeoutCancellationToken};
use fibcalc::runner::{benchmark_detailed, summarize};
use fibcalc::scan::bit_length;
use num_bigint::BigUint;
use std::cell::RefCell;
use std::time::Duration;

fn noop(_done: u64, _total: u64) {}

#[test]
fn fib_sum_rule_holds_on_table() {
    for i in 0..92 {
        assert_eq!(FIB_TABLE[i + 2], FIB_TABLE[i + 1] + FIB_TABLE[i]);
    }
}

#[test]
fn calculators_agree_on_f_1000() {
    let cancel = CancellationToken::new();
    let opts = Options::default();
    let fd = OptimizedFastDoubling::new().calculate_core(&cancel, &noop, 1000, &opts).unwrap();
    let mx = MatrixExponentiation::new().calculate_core(&cancel, &noop, 1000).unwrap();
    let ff = FFTBasedCalculator::new().calculate_core(&cancel, &noop, 1000, &opts).unwrap();
    let par = execute_doubling_loop_parallel(1000, &cancel, &noop, 1).unwrap();
    let (pair, _) = fib_pair(1000);
    assert_eq!(fd, mx);
    assert_eq!(fd, ff);
    assert_eq!(fd, par);
    assert_eq!(fd, pair);
}

#[test]
fn fast_doubling_small_fft_threshold_still_exact() {
    let cancel = CancellationToken::new();
    let opts = Options { fft_threshold: 1, parallel_threshold: 1, ..Options::default() };
    let fd = OptimizedFastDoubling::new().calculate_core(&cancel, &noop, 500, &opts).unwrap();
    let (pair, _) = fib_pair(500);
    assert_eq!(fd, pair);
}

#[test]
fn calculators_agree_through_the_transform() {
    // F(60000) has about 41600 bits: the products go through the transform
    let n = 60_000u64;
    let cancel = CancellationToken::new();
    let opts = Options::default();
    let fd = OptimizedFastDoubling::new().calculate_core(&cancel, &noop, n, &opts).unwrap();
    let ff = FFTBasedCalculator::new().calculate_core(&cancel, &noop, n, &opts).unwrap();
    let par = execute_doubling_loop_parallel(n, &cancel, &noop, 1).unwrap();
    let (mut a, mut b) = (BigUint::from(0u32), BigUint::from(1u32));
    for _ in 0..n {
        let c = &a + &b;
        a = b;
        b = c;
    }
    assert!(a.bits() > 40_000);
    assert_eq!(fd, a);
    assert_eq!(ff, a);
    assert_eq!(par, a);
    assert_eq!(fibonacci(n), a);
}

#[test]
fn modular_agrees_with_full_value() {
    let cancel = CancellationToken::new();
    let m = BigUint::from(1_000_000_007u64);
    let full = fib_pair(777).0;
    let r = FastDoublingMod::fibonacci_mod(777, &m, &cancel, &noop).unwrap();
    assert_eq!(r, full % &m);
}

#[test]
fn modular_last_digits_error_variants() {
    let cancel = CancellationToken::new();
    let calc = FastDoublingMod::new();
    let zero = Options { last_digits: Some(0), ..Options::default() };
    match calc.calculate_core(&cancel, &noop, 100, &zero) {
        Err(FibError::Config(s)) => assert_eq!(s, "FastDoublingMod requires last_digits > 0"),
        other => panic!("unexpected {other:?}"),
    }
    let three = Options { last_digits: Some(3), ..Options::default() };
    assert_eq!(calc.calculate_core(&cancel, &noop, 100, &three).unwrap(), BigUint::from(75u64));
    match FastDoublingMod::fibonacci_mod(5, &BigUint::from(0u32), &cancel, &noop) {
        Err(FibError::Config(s)) => assert_eq!(s, "modulus cannot be zero"),
        other => panic!("unexpected {other:?}"),
    }
}

#[test]
fn fast_path_covers_table_and_fibonacci_helper() {
    let calc = FibCalculator::new(MatrixExponentiation::new());
    let cancel = CancellationToken::new();
    cancel.cancel();
    let opts = Options::default();
    assert_eq!(calc.calculate(&cancel, &noop, MAX_FIB_U64, &opts).unwrap(), BigUint::from(FIB_TABLE[93]));
    assert!(matches!(calc.calculate(&cancel, &noop, MAX_FIB_U64 + 1, &opts), Err(FibError::Cancelled)));
    assert_eq!(calculate_small(20), BigUint::from(6765u32));
    assert_eq!(fibonacci(100), BigUint::parse_bytes(b"354224848179261915075", 10).unwrap());
    assert_eq!(fibonacci(10).to_string(), "55");
    assert_eq!(fibonacci(0).to_string(), "0");
    assert_eq!(fibonacci(1000).to_string().len(), 209);
    assert_eq!(fibonacci(10000).to_string().len(), 2090);
}

#[test]
fn error_messages() {
    assert_eq!(FibError::Config("x".to_string()).to_string(), "configuration error: x");
    assert_eq!(FibError::Timeout("1s".to_string()).to_string(), "calculation timed out after 1s");
    assert_eq!(FibError::Mismatch.to_string(), "result mismatch between algorithms");
}

#[test]
fn shift_right_undoes_shift_left() {
    let v = BigUint::from(987_654_321u64);
    for shift in [64usize, 128, 200] {
        for k in [1usize, 63, 64, 100, 255] {
            let mut a = FermatNum::from_biguint(&v, shift);
            a.shift_left(k);
            a.shift_right(k);
            assert_eq!(a.to_biguint(), v);
        }
    }
}

#[test]
fn normalize_is_idempotent_and_reduces() {
    let modulus = (BigUint::from(1u32) << 128) + BigUint::from(1u32);
    let val = &modulus * BigUint::from(7u32) + BigUint::from(11u32);
    let mut f = FermatNum::from_biguint(&val, 128);
    f.normalize();
    let once = f.to_biguint();
    f.normalize();
    assert_eq!(once, BigUint::from(11u32));
    assert_eq!(f.to_biguint(), once);
}

#[test]
fn fermat_sub_and_mul_wrap() {
    let a = FermatNum::from_biguint(&BigUint::from(5u32), 64);
    let b = FermatNum::from_biguint(&BigUint::from(9u32), 64);
    let d = a.sub(&b);
    let modulus = (BigUint::from(1u32) << 64) + BigUint::from(1u32);
    assert_eq!(d.to_biguint(), &modulus - BigUint::from(4u32));
    let big = FermatNum::from_biguint(&(BigUint::from(1u32) << 63), 64);
    let sq = big.fermat_mul(&big);
    assert_eq!(sq.to_biguint(), (BigUint::from(1u32) << 126) % &modulus);
    assert!(FermatNum::new(64).is_zero());
}

#[test]
fn products_through_the_transform() {
    let a = (BigUint::from(1u32) << 20_000) - BigUint::from(12_345u32);
    let b = (BigUint::from(1u32) << 15_000) + BigUint::from(777u32);
    assert_eq!(mul(&a, &b), &a * &b);
    assert_eq!(sqr(&a), &a * &a);
    assert_eq!(mul_fft(&a, &b), &a * &b);
    assert_eq!(sqr_fft(&b), &b * &b);
    assert_eq!(smart_multiply(&a, &b, 100), &a * &b);
    assert_eq!(smart_square(&a, 1_000_000), &a * &a);
}

#[test]
fn pieces_join_back() {
    let v = (BigUint::from(1u32) << 300) + BigUint::from(123_456_789u64);
    let p = Poly::from_biguint(&v, 8, 64, 256);
    assert_eq!(p.len(), 8);
    assert!(!p.is_empty());
    assert_eq!(reassemble(&p.coeffs, 64), v);
    assert_eq!(p.coeffs[1].to_biguint(), BigUint::from(0u32));
    assert_eq!(p.coeffs[4].to_biguint(), BigUint::from(1u32) << 44);
}

#[test]
fn bit_counts() {
    assert_eq!(bit_length(&(BigUint::from(1u32) << 100)), 101);
    assert_eq!(bit_count(0), 0);
    assert_eq!(bit_count(1), 1);
    assert_eq!(bit_count(u64::MAX), 64);
    assert_eq!(make_number(9), BigUint::from(0xABABu32));
}

#[test]
fn fft_memory_estimate_value() {
    // 1000 x 1000 bits: 64-bit pieces, 32 coefficients, shift 144 (3 limbs + 1)
    assert_eq!(estimate_fft_memory(1000, 1000), 32 * 32 * 4 + 32 * 16);
}

#[test]
fn memory_estimate_and_limits() {
    let e = MemoryEstimate::from_result_bits(81);
    assert_eq!(e.result_bytes, 11);
    assert_eq!(e.temp_bytes, 55);
    assert_eq!(e.total_bytes, 66);
    assert!(e.fits_in(Some(66)));
    assert!(!e.fits_in(Some(65)));
    assert_eq!(parse_memory_limit("  100B ").unwrap(), 100);
    assert_eq!(parse_memory_limit("+7").unwrap(), 7);
    assert_eq!(parse_memory_limit("2 K").unwrap(), 2048);
    assert!(parse_memory_limit("12Q").unwrap_err().starts_with("invalid memory limit: "));
}

#[test]
fn formatting() {
    assert_eq!(format_number(0), "0");
    assert_eq!(format_number(999), "999");
    assert_eq!(format_number(1000), "1,000");
    assert_eq!(format_number(u64::MAX), "18,446,744,073,709,551,615");
    let big = BigUint::from(10u32).pow(120);
    let s = format_result(&big, false);
    assert_eq!(s, format!("1{}...{} (121 digits)", "0".repeat(49), "0".repeat(50)));
    assert_eq!(format_result(&big, true), big.to_string());
    assert_eq!(fingerprint_for(8), "cores=8");
    assert_eq!(timestamp_for(42), "unix:42");
}

#[test]
fn profile_defaults() {
    let p = CalibrationProfile::defaults_for(3);
    assert_eq!(p.num_cores, 3);
    assert!(p.is_valid());
    assert!(p.matches_cpu(""));
}

#[test]
fn generator_errors_and_first_error() {
    let g = IterativeGenerator::new();
    let cancel = CancellationToken::new();
    match g.generate(3, 2, &cancel) {
        Err(FibError::Config(s)) => assert_eq!(s, "start must be <= end"),
        other => panic!("unexpected {other:?}"),
    }
    let results: Vec<Result<u32, FibError>> =
        vec![Ok(1), Err(FibError::Cancelled), Err(FibError::Mismatch), Ok(4)];
    assert!(matches!(first_error_or_values(results), Err(FibError::Cancelled)));
    let ok: Vec<Result<u32, FibError>> = vec![Ok(1), Ok(4)];
    assert_eq!(first_error_or_values(ok).unwrap(), vec![1, 4]);
    assert_eq!(semaphore_concurrency(Some(50), 8), 8);
    assert_eq!(semaphore_concurrency(Some(0), 8), 8);
    assert_eq!(semaphore_concurrency(None, 6), 6);
}

#[test]
fn matrix_state_and_identity() {
    let mut s = MatrixState::new();
    assert!(s.result.is_identity());
    s.result = Matrix::fibonacci_q();
    assert!(!s.result.is_identity());
    s.reset();
    assert!(s.result.is_identity());
}

#[test]
fn statistics_of_timings() {
    let r = summarize(String::from("t"), vec![50, 10, 40, 20], 4);
    assert_eq!(r.min, Duration::from_nanos(10));
    assert_eq!(r.max, Duration::from_nanos(50));
    assert_eq!(r.median, Duration::from_nanos(30));
    assert_eq!(r.mean, Duration::from_nanos(30));
    let d = benchmark_detailed(0, 3, || {});
    assert_eq!(d.iterations, 3);
    assert!(d.min <= d.median && d.median <= d.max);
    assert_eq!(d.name, "");
}

#[test]
fn timeout_too_long_for_the_clock_means_no_deadline() {
    let token = TimeoutCancellationToken::new(Duration::MAX);
    assert!(!token.is_cancelled());
    assert!(token.check_cancelled().is_ok());
    assert_eq!(token.remaining(), Duration::MAX);
}

#[test]
fn calculators_succeed_at_zero() {
    let cancel = CancellationToken::new();
    cancel.cancel();
    let opts = Options::default();
    assert_eq!(OptimizedFastDoubling::new().calculate_core(&cancel, &noop, 0, &opts).unwrap(), BigUint::from(0u32));
    assert_eq!(MatrixExponentiation::new().calculate_core(&cancel, &noop, 0).unwrap(), BigUint::from(0u32));
    assert_eq!(FastDoublingMod::fibonacci_mod(0, &BigUint::from(7u32), &cancel, &noop).unwrap(), BigUint::from(0u32));
    assert!(matches!(OptimizedFastDoubling::new().calculate_core(&cancel, &noop, 5, &opts), Err(FibError::Cancelled)));
}

#[test]
fn progress_reports_walk_the_bits() {
    let seen = RefCell::new(Vec::new());
    let report = |done: u64, total: u64| seen.borrow_mut().push((done, total));
    let cancel = CancellationToken::new();
    let opts = Options::default();
    OptimizedFastDoubling::new().calculate_core(&cancel, &report, 100, &opts).unwrap();
    assert_eq!(seen.into_inner(), vec![(1, 7), (2, 7), (3, 7), (4, 7), (5, 7), (6, 7), (7, 7)]);
}

fn point(bits: usize, faster: bool) -> CrossoverPoint {
    CrossoverPoint { bit_length: bits, karatsuba_ns: 10, fft_ns: if faster { 5 } else { 20 }, fft_is_faster: faster }
}

#[test]
fn crossover_bracket_from_points() {
    assert_eq!(crossover_bracket(&vec![point(1024, false), point(2048, false)]), None);
    assert_eq!(crossover_bracket(&vec![point(1024, true), point(2048, true)]), Some((1024, 1024)));
    assert_eq!(
        crossover_bracket(&vec![point(1024, false), point(2048, false), point(4096, true), point(8192, false)]),
        Some((2048, 4096))
    );
}

#[test]
fn iterator_takes_consecutive_numbers() {
    let mut it = FibIterator::from_index(10);
    let got = it.take(3);
    let want = vec![(10u64, BigUint::from(55u32)), (11, BigUint::from(89u32)), (12, BigUint::from(144u32))];
    assert_eq!(got, want);
    assert_eq!(it.next(), Some((13, BigUint::from(233u32))));
}

#[test]
fn memory_limit_error_carries_the_parse_error() {
    let e = parse_memory_limit("12Q").unwrap_err();
    assert_eq!(e, format!("invalid memory limit: {}", "12Q".parse::<usize>().unwrap_err()));
}

#[test]
fn transform_of_nothing_is_nothing() {
    let mut data: Vec<FermatNum> = Vec::new();
    fft_forward(&mut data, 8);
    assert!(data.is_empty());
}

#[test]
fn pool_reuses_the_last_object_reset() {
    let mut pool: Vec<Vec<u8>> = vec![vec![1], vec![10, 20, 30]];
    let v = tl_acquire(&mut pool, 4, || vec![99], |v: &mut Vec<u8>| v.push(7));
    assert_eq!(v, vec![10, 20, 30, 7]);
    assert_eq!(pool, vec![vec![1]]);
}
