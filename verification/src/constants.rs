//! Thresholds, limits and precomputed values of the calculators.

use vstd::prelude::*;

pub mod exit_codes;

verus! {

/// Default threshold (in bits) for parallel multiplication.
pub const DEFAULT_PARALLEL_THRESHOLD: usize = 4096;

/// Default threshold (in bits) for FFT multiplication.
pub const DEFAULT_FFT_THRESHOLD: usize = 500_000;

/// Default threshold (in bits) for Strassen multiplication.
pub const DEFAULT_STRASSEN_THRESHOLD: usize = 3072;

/// Threshold (in bits) for parallel FFT execution.
pub const PARALLEL_FFT_THRESHOLD: usize = 5_000_000;

/// Default N value for calibration benchmarks.
pub const CALIBRATION_N: u64 = 10_000_000;

/// Maximum bit length for pooled big numbers (100M bits).
pub const MAX_POOLED_BIT_LEN: usize = 100_000_000;

/// Largest index whose Fibonacci number fits in a `u64`.
pub const MAX_FIB_U64: u64 = 93;

/// F(0) to F(93), the Fibonacci numbers that fit in a `u64`.
pub const FIB_TABLE: [u64; 94] = [
    0, 1, 1, 2,
    3, 5, 8, 13,
    21, 34, 55, 89,
    144, 233, 377, 610,
    987, 1597, 2584, 4181,
    6765, 10946, 17711, 28657,
    46368, 75025, 121393, 196418,
    317811, 514229, 832040, 1346269,
    2178309, 3524578, 5702887, 9227465,
    14930352, 24157817, 39088169, 63245986,
    102334155, 165580141, 267914296, 433494437,
    701408733, 1134903170, 1836311903, 2971215073,
    4807526976, 7778742049, 12586269025, 20365011074,
    32951280099, 53316291173, 86267571272, 139583862445,
    225851433717, 365435296162, 591286729879, 956722026041,
    1548008755920, 2504730781961, 4052739537881, 6557470319842,
    10610209857723, 17167680177565, 27777890035288, 44945570212853,
    72723460248141, 117669030460994, 190392490709135, 308061521170129,
    498454011879264, 806515533049393, 1304969544928657, 2111485077978050,
    3416454622906707, 5527939700884757, 8944394323791464, 14472334024676221,
    23416728348467685, 37889062373143906, 61305790721611591, 99194853094755497,
    160500643816367088, 259695496911122585, 420196140727489673, 679891637638612258,
    1100087778366101931, 1779979416004714189, 2880067194370816120, 4660046610375530309,
    7540113804746346429, 12200160415121876738,
];

/// Each entry of the table from the third on is the sum of the two before.
pub open spec fn table_recurrence_from(k: nat) -> bool
    decreases 94 - k,
{
    if k >= 94 {
        true
    } else {
        FIB_TABLE@[k as int] == FIB_TABLE@[k - 1] + FIB_TABLE@[k - 2] && table_recurrence_from(k + 1)
    }
}

} // verus!
