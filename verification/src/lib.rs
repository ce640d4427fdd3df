//! Bit-width transcoding of byte streams, and a radix-8 trie over the result.
//!
//! A byte stream is cut into symbols of three bits (or four), lowest bits
//! first; the symbols of a string are the path of that string through a
//! trie with eight slots to a node. A packer turns three-bit symbols back
//! into the bytes they came from.

pub mod arena;
pub mod bits;
pub mod iters;
pub mod outline;
pub mod source;
pub mod trie;
