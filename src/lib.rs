//! Base64 block coding with the standard alphabet and `=` padding.
//!
//! Encoding maps each group of three bytes to four symbols; a final group of
//! one or two bytes is padded with `==` or `=`. Decoding trims surrounding
//! whitespace, maps each group of four symbols back to three bytes and drops
//! the bytes that stand for padding.

pub mod alphabet;
pub mod lengths;
pub mod encode;
pub mod decode;
pub mod laws;

pub use decode::{decode_block, DecodeError};
pub use encode::encode_block;
pub use lengths::{decoded_len, encoded_len};
