//! Streaming encoder and decoder of the `.cdp` container.
pub mod block;
pub mod decoder;
pub mod encoder;
pub mod truncation;

pub use decoder::{Decoder, DecoderOptions};
pub use encoder::{CompressionLevel, Encoder, EncoderOptions, DEFAULT_BLOCK_SIZE};
