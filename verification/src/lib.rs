//! A small cryptographic toolkit: ECB and CBC chaining over a 16-byte block
//! cipher, hex and base64 codecs, and the pieces of a statistical attack on
//! single-byte and repeating-key XOR.
//!
//! Every executable function carries a contract over mathematical models of
//! its arguments (`Seq<u8>`, `Seq<char>`, `int`), and the laws that tie
//! functions together (round trips, inverses) are stated as proof functions.

pub mod error;
pub mod basics;
pub mod mode;
pub mod conversion;
pub mod cracking;
pub mod padding;
pub mod aes;
