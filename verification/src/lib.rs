//! Small, fixed-dimension dense linear algebra on binary64 bit patterns:
//! LU factorization with partial pivoting, LDLT factorization without
//! pivoting, and the determinants and solves built on them.
//!
//! Every value is the 64-bit pattern of an IEEE 754 binary64 number. The
//! library decides signs, finiteness and comparisons on the patterns and
//! asks the caller's arithmetic unit for every rounded result.

use vstd::prelude::*;

pub mod arith;
pub mod binary64;
pub mod error;
pub mod ldlt;
pub mod lu;
pub mod matrix;
pub mod substitution;
pub mod vector;

pub use arith::Operation;
pub use error::LaError;
pub use ldlt::Ldlt;
pub use lu::Lu;
pub use matrix::Matrix;
pub use vector::Vector;

verus! {

/// Default absolute pivot tolerance for LU factorization: the pattern of
/// `1e-12`.
pub const DEFAULT_PIVOT_TOL: u64 = 0x3D71_9799_812D_EA11;

/// Default tolerance for the diagonal of an LDLT factorization: the pattern
/// of `1e-12`.
pub const DEFAULT_SINGULAR_TOL: u64 = 0x3D71_9799_812D_EA11;

} // verus!
