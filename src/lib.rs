//! Encoding and decoding of LZXD compression streams, the format used inside
//! cabinet archives.

pub mod bits;
pub mod bitseq;
pub mod block_type;
pub mod consts;
pub mod decoder;
pub mod encoder;
pub mod error;
pub mod round_trip;
mod le;

pub use bits::{BitReader, BitWriter};
pub use block_type::BlockType;
pub use consts::{CHUNK_SIZE, WINDOW_MAX, WINDOW_MIN};
pub use decoder::Decoder;
pub use encoder::Encoder;
pub use error::Error;
