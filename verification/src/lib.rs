//! Content-defined chunking for deduplicating backups.
//!
//! A byte stream is cut into variable-length chunks at positions chosen by a
//! rolling gear hash of the bytes themselves, so that an edit moves only the
//! boundaries next to it. Chunks are then grouped by their BLAKE3 digest to
//! show which of them repeat.

pub mod backup;
pub mod config;
