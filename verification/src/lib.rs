//! A verified implementation of the Snappy block format and its framed
//! streaming container: an LZ77-style block compressor/decompressor pair and
//! a chunked, checksummed stream writer/reader around them.
//!
//! The wire format is fixed by the spec functions in [`definitions`]:
//! `decode_elems` and `block_decode` give the meaning of a compressed block,
//! `decode_chunks` the meaning of a framed stream. The compressor proves
//! that everything it emits decodes back to its input; the decompressor
//! proves that it returns exactly what those decoders describe.
use vstd::prelude::*;

pub mod compress;
pub mod decompress;
pub mod definitions;
pub mod primitives;

pub use crate::compress::compress;
pub use crate::compress::compress_stream;
pub use crate::compress::frame_chunk;
pub use crate::compress::max_compressed_len;
pub use crate::compress::Compressor;
pub use crate::decompress::decompress;
pub use crate::decompress::decompress_stream;
pub use crate::decompress::decompressed_len;
pub use crate::decompress::Decompressor;
pub use crate::definitions::SnappyError;

verus! {

} // verus!
