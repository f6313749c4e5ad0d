//! Fibonacci numbers of arbitrary size, computed by fast doubling, by
//! powers of the Fibonacci Q matrix, and by doubling over FFT products in
//! the Fermat ring Z/(2^s + 1), with the thresholds, calibration profiles
//! and formatting that drive them.

pub mod big;
pub mod limbs;
pub mod arith;
pub mod limb_ops;
pub mod limb_bits;
pub mod fermat;
pub mod fft_params;
pub mod bit_reverse;
pub mod ntt;
pub mod conv;
pub mod fft_core;
pub mod fft_poly;
pub mod fft;
pub mod fft_recursion;
pub mod memory_est;
pub mod scan;
pub mod fibonacci;
pub mod constants;
pub mod options;
pub mod calculator;
pub mod progress;
pub mod strategy;
pub mod fastdoubling;
pub mod matrix;
pub mod modular;
pub mod generator;
pub mod generator_iterative;
pub mod iterator;
pub mod doubling_framework;
pub mod fft_based;
pub mod common;
pub mod pool;
pub mod runner;
pub mod decimal;
pub mod output;
pub mod presenter;
pub mod profile;
pub mod microbench;
pub mod adaptive;
pub mod calibration;
pub mod memory_budget;
pub mod threshold_types;
pub mod fft_cache;
pub mod allocator;
pub mod fft_wrappers;
