//! Encoding and decoding of Solidity ABI values.
pub mod types;
pub mod word;
pub mod value;
pub mod encoding;
pub mod encode;
pub mod decoding;
pub mod decode;
pub mod laws;
