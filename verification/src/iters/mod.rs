//! The transcoders: byte streams to fixed-width symbols, and back.

pub mod nibbles;
pub mod octals;

pub use nibbles::Nibbles;
pub use octals::{OctalPrinter, Octals};
