//! LZ4 block format: the compression and decompression functions, the
//! reusable compressors and decompressor, the dictionary trainer and the
//! error types, in one place.
pub use crate::compress::{
    compress, compress_into, compress_into_with_dict, compress_prepend_size, get_maximum_output_size,
};
pub use crate::compressor::{Compressor, CompressorN, DictCompressor, DictCompressorN};
pub use crate::decompress::{
    decompress, decompress_into, decompress_into_with_dict, decompress_size_prepended, uncompressed_size, Decompressor,
};
pub use crate::dict::DictTrainer;
pub use crate::error::{CompressError, DecompressError};
