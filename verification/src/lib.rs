//! A verified implementation of the Kyber (ML-KEM-768) lattice scheme:
//! modular arithmetic in Montgomery form, the number theoretic transform,
//! vectors and matrices of polynomials, compression, noise sampling and the
//! CPA encryption / CCA encapsulation built on top of them.
use vstd::prelude::*;

pub mod parameters;
pub mod arith;
pub mod math_utils;
pub mod ntt;
pub mod ntt_spec;
pub mod primitives;
pub mod encoding;
pub mod kyber;
pub mod kem;
pub mod format_utils;
pub mod correctness;
pub mod product;
pub mod ui;

verus! {
}
