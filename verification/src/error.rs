use vstd::prelude::*;

verus! {

/// Errors surfaced by the manifest, the path helpers and the reconciliation
/// service. Every error is reported to the caller unchanged; no operation
/// retries on its own.
#[derive(Debug, PartialEq, Eq)]
pub enum DotError {
    /// An underlying filesystem operation failed; carries a description.
    Io(String),
    /// The manifest text is malformed.
    Parse,
    /// The manifest holds an entry that cannot be written out.
    Serialize,
    /// A path, file or manifest entry that was looked for is not there.
    NotFound(String),
    /// The manifest file is already present (`init` refuses to overwrite it).
    AlreadyExists(String),
    /// The key is already tracked by the manifest.
    AlreadyTracked(String),
    /// A path has no usable form.
    InvalidPath,
    /// The home directory could not be determined.
    NoHomeDir,
    /// The resolved original location exists but is not a symbolic link.
    SymlinkNotFound(String),
    /// Any other failure, described in words.
    Other(String),
}

} // verus!
