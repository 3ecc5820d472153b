//! Function secret sharing for two parties: distributed point functions
//! (equality keys) and distributed interval functions (less-or-equal keys)
//! over 32-bit inputs, with a length-doubling AES-MMO pseudorandom generator
//! and a flat byte layout for the keys.
use vstd::prelude::*;

pub mod eq;
pub mod fss;
pub mod le;
pub mod stream;
pub mod utils;

verus! {

/// Width of an input, in bytes.
pub const N: usize = 4;

/// Width of a seed, in bytes.
pub const L: usize = 16;

} // verus!
