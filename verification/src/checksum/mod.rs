pub mod crc32c;
pub mod crc8;

pub use crc32c::Crc32c;
pub use crc8::Crc8;
pub mod xxh3;
pub use xxh3::StreamHash64;
