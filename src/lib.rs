//! Finds files with identical content by grouping them under a digest of
//! their bytes, optionally scoped to their parent directory.
pub mod digest;
pub mod grouping;
pub mod laws;
pub mod config;
