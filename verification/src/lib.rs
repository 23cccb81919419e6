//! Compression algorithms, implemented from scratch and proved correct.
//!
//! Every algorithm implements [`Codec`] and is listed in [`all_codecs`], which
//! automatically puts it under the shared round-trip tests, the benchmarks and
//! the CLI. For every one of them decompressing what was compressed gives back
//! the input, and that is proved: see `codec::codecs_are_lossless`.
pub mod ans;
pub mod bits;
pub mod bwt;
pub mod codec;
pub mod codecs;
pub mod counts;
pub mod crc32;
pub mod deflate;
pub mod error;
pub mod frame;
pub mod freq_table;
pub mod gzip;
pub mod huffman;
pub mod lz77;
pub mod lzma;
pub mod nums;
pub mod range;
pub mod testkit;

pub use crate::codec::all_codecs;
pub use crate::codec::codec_by_id;
pub use crate::codec::codec_by_name;
pub use crate::codec::AnyCodec;
pub use crate::codec::Codec;
pub use crate::error::Error;
