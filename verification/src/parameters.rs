//! Parameter set of ML-KEM-768.
use vstd::prelude::*;

verus! {

/// Degree of the polynomials (number of coefficients).
pub const N: usize = 256;

/// Rank of the module (number of polynomials in a vector).
pub const K: usize = 3;

/// The prime modulus of the coefficient ring.
pub const Q: i32 = 3329;

/// Noise parameter of the secret and error vectors of key generation and of `r`.
pub const ETA_1: i16 = 2;

/// Noise parameter of the encryption errors `e1` and `e2`.
pub const ETA_2: i16 = 2;

/// Number of bits kept per coefficient of `u` when compressing a ciphertext.
pub const D_U: i32 = 10;

/// Number of bits kept per coefficient of `v` when compressing a ciphertext.
pub const D_V: i32 = 4;

} // verus!
