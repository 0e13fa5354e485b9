//! Defragmentation of region containers: a fixed 32 x 32 grid of
//! variable-length records addressed through a sector table.
//!
//! [`parser::parse_mca`] decodes a container image, [`writer::write_rca`]
//! lays its records out again back to back, and [`defrag::compact`] trims
//! the result and decides whether it is worth writing.
pub mod format;
pub mod parser;
pub mod writer;
pub mod defrag;
pub mod repack;

pub use defrag::{compact, defrag, trimmed_length, Compaction, Defragmented};
pub use parser::{parse_mca, Chunk, ChunkLocation, Chunks, RegionError};
pub use writer::write_rca;
