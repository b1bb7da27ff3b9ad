//! A verified codec for PNG-style chunk streams: 4-byte type codes with
//! case-derived flags, length-prefixed checksummed binary records, and a
//! container that parses and serializes a full chunk stream behind a fixed
//! magic signature.

pub mod bytes;
pub mod chunk;
pub mod chunk_type;
pub mod container;
pub mod error;
pub mod text;
