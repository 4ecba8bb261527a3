//! LZ4 block compression and decompression with machine-checked contracts.
use vstd::prelude::*;

pub mod error;
pub mod format;
pub mod sink;
pub mod primitives;
pub mod decompress;
pub mod hashtable;
pub mod greedy;
pub mod compress;
pub mod compressor;
pub mod laws;
pub mod dict;
pub mod block;

pub use block::{compress, compress_into, compress_prepend_size, get_maximum_output_size};
pub use block::{decompress, decompress_into, decompress_size_prepended};

verus! {

/// Size of the LZ4 sliding window; dictionaries are trimmed to their last
/// `WINDOW_SIZE` bytes.
pub const WINDOW_SIZE: usize = 65536;

/// The last match must start at least 12 bytes before the end of the block.
pub const MFLIMIT: usize = 12;

/// The last 5 bytes of a block are always literals.
pub const LAST_LITERALS: usize = 5;

/// `LAST_LITERALS + 1`: the match finder stops this many bytes before the end.
pub const END_OFFSET: usize = 6;

/// Minimum length of an input for which matches are searched.
pub const LZ4_MIN_LENGTH: usize = 13;

/// Largest back-reference distance that fits in a match offset.
pub const MAX_DISTANCE: usize = 65535;

/// Shortest match the format can express.
pub const MINMATCH: usize = 4;

} // verus!
