//! Packing of directory trees into single-file archives and unpacking them again.
use vstd::prelude::*;

pub mod archive;
pub mod decimal;
pub mod encode;
pub mod header;
pub mod pack;
pub mod source;
pub mod tree;
pub mod util;

verus! {

/// Why an archive operation failed.
#[derive(Debug, Clone, Copy, PartialEq, Eq, Structural)]
pub enum ArchiveError {
    /// The header or the metadata document is malformed, truncated or inconsistent.
    Format,
    /// A size does not fit the format's numeric fields.
    Oversize,
    /// The pack source is neither a directory nor a usable pattern.
    InvalidSource,
    /// No file entry has the requested path.
    NotFound,
}

} // verus!
