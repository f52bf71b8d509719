//! Failures surfaced to callers.
//!
//! Everything else that can go wrong while parsing — missing `-L` paths,
//! malformed configuration lines, unrecognized keys, unexpected inspection
//! output — is silently-skippable noise, not an error.

use vstd::prelude::*;

verus! {

/// The error kinds of this crate, each carrying the offending path or a
/// short message.
#[derive(Debug)]
pub enum Error {
    /// A `-L` search path exists on disk but could not be resolved to a
    /// canonical form.
    CannotCanonicalizePath { path: String },
    /// The configuration file could not be opened.
    MakeConfNotExist { out_dir: String },
    /// The binary to inspect does not exist.
    LibraryNotExist { path: String },
    /// An external inspection command could not be run.
    ExternalToolFailure { message: String },
}

} // verus!
