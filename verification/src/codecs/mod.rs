//! One module per algorithm. Register new codecs in [`crate::all_codecs`].
pub mod bwt;
pub mod deflate;
pub mod huffman;
pub mod lzma;
pub mod lzss;
pub mod packbits;
pub mod range;
pub mod rans;
pub mod rle;
pub mod store;

pub use crate::codecs::bwt::Bwt;
pub use crate::codecs::deflate::Deflate;
pub use crate::codecs::huffman::Huffman;
pub use crate::codecs::lzma::Lzma;
pub use crate::codecs::lzss::Lzss;
pub use crate::codecs::packbits::PackBits;
pub use crate::codecs::range::Range0;
pub use crate::codecs::range::Range1;
pub use crate::codecs::rans::Rans;
pub use crate::codecs::rle::Rle;
pub use crate::codecs::store::Store;
