//! LEB128-style unsigned varint codec: each byte carries seven bits of the
//! value, least significant group first, and a continuation flag in its
//! high bit.
pub mod laws;
pub mod varint;

pub use varint::{decode, encode, VarintError};
