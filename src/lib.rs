//! Verifiable secret sharing over the BLS12-381 base field, with signature
//! provenance on every share value.
pub mod field;
pub mod sums;
pub mod polynomials;
pub mod signature;
pub mod vss;
pub mod communication;
pub mod rand_extr;
