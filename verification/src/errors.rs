//! The errors the index reports.

use vstd::prelude::*;

use crate::codec::{NPFPackageIDError, ParseNPFPathError};

verus! {

/// Why an index operation failed.  Every failure is contained to the one
/// archive it concerns; the rest of the index is unaffected.
#[derive(Debug)]
pub enum IndexError {
    /// The archive's location does not follow the naming convention.
    PathParse(ParseNPFPathError),
    /// The archive's declared identity disagrees with its location.
    PackageIdMismatch(NPFPackageIDError),
    /// The archive could not be read, or lacks its payload.
    ArchiveFormat(String),
    /// No cache entry is known for the requested identifier.
    NotFound(String),
}

} // verus!
