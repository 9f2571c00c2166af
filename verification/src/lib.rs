//! BLS12-381 base-field arithmetic on six 64-bit limbs: carry-chain addition
//! and subtraction modulo `p`, 32-bit CIOS Montgomery multiplication and
//! reduction, big-endian encoding, and the exponents of the field's
//! inverse, Legendre symbol and square root.

pub mod specs;
pub mod lemmas;
pub mod word;
pub mod consts;
pub mod fp;
pub mod bytes;
pub mod montgomery;
pub mod error;
pub mod witness;
pub mod modexp;
pub mod laws;
