//! Chunk-level codec for PNG files: typed, checksummed chunks and the
//! signature-prefixed container that holds them, with every function
//! specified against a mathematical model of the wire format.

pub mod error;
pub mod chunk;
pub mod chunk_type;
pub mod commands;
pub mod crc;
pub mod png;
pub mod text;
pub mod wire;
