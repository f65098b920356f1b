//! The errors that reading or bumping a manifest version can raise.

use vstd::prelude::*;

verus! {

/// Everything that can go wrong between loading a manifest's text and
/// producing the mutated text or the selected component. None of these are
/// recoverable: a caller reports the error and aborts the invocation.
#[derive(Clone, Copy, Debug, PartialEq, Eq, Structural)]
pub enum Error {
    /// A pre-release or build label does not match the dot-separated
    /// identifier grammar.
    InvalidLabel,
    /// A full version string does not match the semantic-version grammar.
    InvalidVersion,
    /// The manifest text is not a well-formed structured document.
    InvalidManifest,
    /// The manifest has no `package.version` string field.
    MissingVersionField,
    /// The manifest's `package.version` field is not a semantic version.
    UnparsableManifestVersion,
    /// An increment would push a version number past the largest
    /// representable value.
    Overflow,
}

impl Error {
    /// A human-readable description, for reporting on standard error.
    pub fn message(&self) -> (r: &'static str)
    {
        match self {
            Error::InvalidLabel => "invalid pre-release or build label",
            Error::InvalidVersion => "invalid version string",
            Error::InvalidManifest => "manifest is not valid TOML",
            Error::MissingVersionField => "manifest has no package.version string",
            Error::UnparsableManifestVersion => "package.version is not a valid semantic version",
            Error::Overflow => "version number too large to increment",
        }
    }
}

} // verus!
