pub mod ans;
pub mod bitstream;
pub mod canonical;
pub mod huffman;
pub mod sequences;

pub use bitstream::{BitReader, BitWriter};
