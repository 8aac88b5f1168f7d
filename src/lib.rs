//! Hide and recover text in custom chunks of PNG files: the chunk-type field,
//! the checksummed chunk record and the PNG container, with their codecs.
pub mod chunk_type;

pub use chunk_type::{ChunkType, InvalidChunkType};
pub mod chunk;

pub use chunk::{Chunk, ChunkParseError};
pub mod png;

pub use png::{ChunkNotFoundError, Png, PngParseError};
