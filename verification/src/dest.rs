//! Destination bit masks of a C-instruction: A is bit 5, D bit 4, M bit 3
//! of the instruction word, so within the 3-bit field A=4, D=2, M=1.

use vstd::prelude::*;

verus! {

pub const A: u8 = 0b100;

pub const D: u8 = 0b010;

pub const M: u8 = 0b001;

} // verus!
