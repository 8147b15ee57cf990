pub mod block;
pub mod flags;
pub mod magic;

pub use block::{BlockHeader, BlockType};
pub use flags::HeaderFlags;
pub use magic::{validate_magic, CODROP_MAGIC};
pub mod header;
pub use header::StreamHeader;
