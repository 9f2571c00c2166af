//! The library's error.

use vstd::prelude::*;

verus! {

/// Why a witness or a runtime call was refused.
#[derive(Debug, Clone, Copy, PartialEq, Eq, Structural)]
pub enum FpError {
    /// The instruction data is malformed: too short, not 48 bytes, not a
    /// canonical field element, or the exponentiation call failed.
    InvalidInstructionData,
}

} // verus!
