//! Integrity verification for a directory of protected files: content-defined
//! chunking, per-chunk digests under a Merkle root, and chunk-level localization
//! of corruption against a stored signature record.

pub mod chunker;
pub mod params;
pub mod digest;
pub mod hexcode;
pub mod signature_handler;
pub mod environment;
pub mod file_handler;
pub mod scan;
pub mod security;
