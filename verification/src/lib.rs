//! Maintenance of a single machine-managed block of text inside a larger
//! configuration file (the host-resolution override file).
//!
//! The library is a set of pure string transforms:
//! * locating a managed block bounded by two fixed marker lines,
//! * extracting a freshness annotation ("Last update:") from the block,
//! * replacing the block with fresh content while preserving everything
//!   outside it.
//!
//! Reading the file, fetching replacement content from a remote source and
//! writing the result back (possibly with elevated rights) are the callers'
//! business; the functions here only map text to text.

pub mod block;
pub mod laws;
pub mod text;
