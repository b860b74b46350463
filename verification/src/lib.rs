//! Canonical Huffman compression of byte streams.
//!
//! The compressed format is `N` (8-byte big-endian count of original bytes),
//! followed by 256 code-length bytes, followed by the payload: the canonical
//! code of each input byte packed MSB-first, the last byte zero-padded.

pub mod bits;
pub mod codec;
pub mod tree;
