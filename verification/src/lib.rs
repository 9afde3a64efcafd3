//! Signed messages hidden in the frequency domain of RGB pictures.
//!
//! The library holds the integer side of the scheme: the signed payload
//! container, Ed25519 signing and verification, the block layout and the
//! key-driven pseudo-random ordering of blocks and coefficients, the bit
//! plans that say which coefficient carries which payload bit, and the
//! parity rule of quantization index modulation.
#![allow(unused_imports)]

pub mod block;
pub mod crypto;
pub mod embed;
pub mod error;
pub mod extract;
pub mod keys;
pub mod payload;
pub mod picture;
pub mod qim;
pub mod report;
pub mod text;

use vstd::prelude::*;

verus! {

} // verus!
