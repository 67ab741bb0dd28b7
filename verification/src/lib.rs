//! Huffman compression of byte streams: a frequency table, a Huffman tree
//! built greedily from it, prefix codes read off the tree, a bit packer and
//! the matching unpacker, and the header that carries the table.
pub mod cli;
pub mod decode;
pub mod encode;
pub mod utility;

use vstd::prelude::*;

verus! {

/// The compressor: `Huffman::encode` and `Huffman::decode`.
pub struct Huffman;

} // verus!
