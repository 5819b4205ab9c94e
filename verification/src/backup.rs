//! The chunking engine: gear hash, boundary detection and duplicate grouping.

pub mod cdc_chunker;
pub mod chunk_index;
pub mod gear;
