//! Finite-field arithmetic in Montgomery form, quadratic extensions, and elliptic
//! curves in short Weierstrass and Montgomery form.
pub mod limbs;
pub mod modular;
pub mod field;
pub mod fields;
pub mod bytes;
pub mod extension;
pub mod curve;
pub mod primes;
pub mod laws;
