//! Process exit codes of the command-line program.

use vstd::prelude::*;

verus! {

/// Successful execution.
pub const SUCCESS: i32 = 0;

/// Generic error.
pub const ERROR_GENERIC: i32 = 1;

/// Computation timed out.
pub const ERROR_TIMEOUT: i32 = 2;

/// Algorithm results did not match during cross-validation.
pub const ERROR_MISMATCH: i32 = 3;

/// Invalid configuration.
pub const ERROR_CONFIG: i32 = 4;

/// Computation cancelled by the user.
pub const ERROR_CANCELED: i32 = 130;

} // verus!
