//! A lossless byte-oriented compression codec built on Huffman coding.
//!
//! The pipeline counts byte frequencies, builds a deterministic Huffman
//! tree, derives a prefix-free code table, and packs per-byte codes into a
//! dense bitstream behind a textual frequency-table header.  The decoder
//! rebuilds the identical tree from the header and walks it bit by bit.
//!
//! A side module parses scan target lists — comma-separated hosts with a
//! numeric wildcard, and port lists with ranges — for the network tools
//! that ship alongside the codec.

pub mod freq;
pub mod tree;
pub mod code;
pub mod bits;
pub mod header;
pub mod codec;
pub mod scan;
