pub mod bits;
pub mod data_header;
pub mod decoding;
pub mod encoding;
pub mod heap;
pub mod huffman_tree;
pub mod wire;

use vstd::prelude::*;

verus! {

/// The version of the header format that this library writes: the counts
/// in range form.
pub const CURRENT_VERSION: u8 = 2;

/// Number of times each byte value occurs, indexed by the byte value.
pub type Occurences = [u64; 256];

} // verus!
