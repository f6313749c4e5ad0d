//! Timing of schoolbook and transform-based products, for calibration.

use crate::big::{big_from_bytes_be, big_mul, big_val, big_zero, bytes_be_val};
use crate::decimal::usize_to_decimal;
use crate::fft_params::div_ceil;
use crate::runner::{benchmark, benchmark_detailed, duration_nanos, duration_quotient, stats_of, BenchmarkResult};
use crate::decimal::decimal;
use num_bigint::BigUint;
use std::time::Duration;
use vstd::prelude::*;

verus! {

/// Timing of both products at one operand size.
#[derive(Debug, Clone)]
pub struct CrossoverPoint {
    /// Operand size (bits).
    pub bit_length: usize,
    /// Median schoolbook time (ns).
    pub karatsuba_ns: u64,
    /// Median transform time (ns).
    pub fft_ns: u64,
    /// Whether the transform was faster.
    pub fft_is_faster: bool,
}

/// The operand of the benchmarks: `ceil(bit_length / 8)` bytes 0xAB
/// (highest bit set), or zero.
pub fn make_number(bit_length: usize) -> (r: BigUint)
    ensures
        bit_length == 0 ==> big_val(r) == 0,
        bit_length > 0 ==> big_val(r) == bytes_be_val(Seq::new(
            crate::fft_params::ceil_div(bit_length as nat, 8), |i: int| 0xABu8)),
{
    if bit_length == 0 {
        return big_zero();
    }
    let len = div_ceil(bit_length, 8);
    let mut bytes: Vec<u8> = vec![0xABu8; len];
    let b0 = bytes[0] | 0x80;
    bytes.set(0, b0);
    proof {
        assert(0xABu8 | 0x80u8 == 0xABu8) by (bit_vector);
        assert(bytes@ =~= Seq::new(crate::fft_params::ceil_div(bit_length as nat, 8), |i: int| 0xABu8));
    }
    big_from_bytes_be(bytes.as_slice())
}

/// Mean time of a schoolbook product of two `bit_length`-bit numbers, over
/// ten runs.
pub fn bench_karatsuba(bit_length: usize) -> (r: Duration)
    ensures
        exists|total: Duration| r == #[trigger] duration_quotient(total, 10),
{
    let a = make_number(bit_length);
    let b = make_number(bit_length);
    benchmark(10, || {
        let _p = big_mul(&a, &b);
    })
}

/// Mean time of a transform-based product of two `bit_length`-bit
/// numbers, over ten runs.
pub fn bench_fft(bit_length: usize) -> (r: Duration)
    ensures
        exists|total: Duration| r == #[trigger] duration_quotient(total, 10),
{
    let a = make_number(bit_length);
    let b = make_number(bit_length);
    benchmark(10, || {
        let _p = crate::fft::mul(&a, &b);
    })
}

/// Detailed timing of the schoolbook product: ten measured runs after
/// three warm-up runs, named "karatsuba_" and the size.
fn bench_karatsuba_detailed(bit_length: usize) -> (r: BenchmarkResult)
    ensures
        r.name@ == "karatsuba_"@ + decimal(bit_length as nat),
        r.iterations == 10,
        exists|ns: Seq<u128>| ns.len() == 10 && #[trigger] stats_of(r, ns),
{
    let a = make_number(bit_length);
    let b = make_number(bit_length);
    let res = benchmark_detailed(3, 10, || {
        let _p = big_mul(&a, &b);
    });
    let mut name = String::from_str("karatsuba_");
    let digits = usize_to_decimal(bit_length);
    name.append(digits.as_str());
    let r = res.with_name(name.as_str());
    proof {
        let ns = choose|ns: Seq<u128>| ns.len() == 10 && #[trigger] stats_of(res, ns);
        assert(stats_of(r, ns));
    }
    r
}

/// Detailed timing of the transform-based product: ten measured runs after
/// three warm-up runs, named "fft_" and the size.
fn bench_fft_detailed(bit_length: usize) -> (r: BenchmarkResult)
    ensures
        r.name@ == "fft_"@ + decimal(bit_length as nat),
        r.iterations == 10,
        exists|ns: Seq<u128>| ns.len() == 10 && #[trigger] stats_of(r, ns),
{
    let a = make_number(bit_length);
    let b = make_number(bit_length);
    let res = benchmark_detailed(3, 10, || {
        let _p = crate::fft::mul(&a, &b);
    });
    let mut name = String::from_str("fft_");
    let digits = usize_to_decimal(bit_length);
    name.append(digits.as_str());
    let r = res.with_name(name.as_str());
    proof {
        let ns = choose|ns: Seq<u128>| ns.len() == 10 && #[trigger] stats_of(res, ns);
        assert(stats_of(r, ns));
    }
    r
}

/// Median time of the result, in nanoseconds (cut to 64 bits).
fn median_ns(r: &BenchmarkResult) -> (n: u128)
    ensures
        n == duration_nanos(r.median),
{
    crate::runner::duration_nanos_u128(&r.median)
}

/// The times of a point are the medians of the two timings cut to 64 bits,
/// and the transform counts as faster when its median is below the other.
pub open spec fn consistent_point(p: CrossoverPoint) -> bool {
    exists|k_ns: u128, f_ns: u128|
        #![trigger (k_ns as u64), (f_ns as u64)]
        p.karatsuba_ns == k_ns as u64 && p.fft_ns == f_ns as u64 && p.fft_is_faster == (f_ns < k_ns)
}

/// Time both products at each size: one point per size, in order.
pub fn find_fft_crossover(bit_lengths: &[usize]) -> (r: Vec<CrossoverPoint>)
    ensures
        r@.len() == bit_lengths@.len(),
        forall|i: int| 0 <= i < r@.len() ==> (#[trigger] r@[i]).bit_length == bit_lengths@[i],
        forall|i: int| 0 <= i < r@.len() ==> consistent_point(#[trigger] r@[i]),
{
    let mut points: Vec<CrossoverPoint> = Vec::new();
    let mut i: usize = 0;
    while i < bit_lengths.len()
        invariant
            i <= bit_lengths@.len(),
            points@.len() == i,
            forall|k: int| 0 <= k < i ==> (#[trigger] points@[k]).bit_length == bit_lengths@[k],
            forall|k: int| 0 <= k < i ==> consistent_point(#[trigger] points@[k]),
        decreases bit_lengths@.len() - i,
    {
        let bits = bit_lengths[i];
        let karatsuba = bench_karatsuba_detailed(bits);
        let fft = bench_fft_detailed(bits);
        let k_ns = median_ns(&karatsuba);
        let f_ns = median_ns(&fft);
        let point = CrossoverPoint {
            bit_length: bits,
            karatsuba_ns: k_ns as u64,
            fft_ns: f_ns as u64,
            fft_is_faster: f_ns < k_ns,
        };
        proof {
            assert(consistent_point(point));
        }
        points.push(point);
        i += 1;
    }
    points
}

} // verus!
