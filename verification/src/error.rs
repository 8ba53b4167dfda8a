//! The typed failures of parsing, resolution and mutation.  Each variant
//! carries what a caller needs to render a diagnostic or pick an exit code.

use vstd::prelude::*;

verus! {

/// Why an operation could not be resolved or applied.
#[derive(Debug)]
pub enum PatchError {
    /// The heading path was empty.
    EmptyHeadingPath,
    /// A heading-path string held no heading marker at all.
    InvalidHeadingPath,
    /// No section's heading matches the requested text.
    HeadingNotFound { heading: Vec<u8> },
    /// Several sections match an unqualified heading.
    AmbiguousHeading { heading: Vec<u8> },
    /// A nested path element found no match inside the enclosing scope.
    SubheadingNotFound { heading: Vec<u8> },
    /// The block index is not below the section's block count.
    BlockIndexOutOfRange { index: usize, available: usize },
    /// The fingerprint pattern does not compile as a regular expression.
    InvalidFingerprint { pattern: Vec<u8> },
    /// The fingerprint pattern does not match the target block's content.
    FingerprintMismatch { pattern: Vec<u8> },
    /// Replace or delete was requested with neither a fingerprint nor force.
    UnsafeDestructiveOperation,
    /// Append or replace was requested without content.
    MissingContent,
}

/// Mathematical image of `PatchError`.
#[verifier::ext_equal]
pub ghost enum PatchErrorModel {
    EmptyHeadingPath,
    InvalidHeadingPath,
    HeadingNotFound { heading: Seq<u8> },
    AmbiguousHeading { heading: Seq<u8> },
    SubheadingNotFound { heading: Seq<u8> },
    BlockIndexOutOfRange { index: int, available: int },
    InvalidFingerprint { pattern: Seq<u8> },
    FingerprintMismatch { pattern: Seq<u8> },
    UnsafeDestructiveOperation,
    MissingContent,
}

impl View for PatchError {
    type V = PatchErrorModel;

    open spec fn view(&self) -> PatchErrorModel {
        match self {
            PatchError::EmptyHeadingPath => PatchErrorModel::EmptyHeadingPath,
            PatchError::InvalidHeadingPath => PatchErrorModel::InvalidHeadingPath,
            PatchError::HeadingNotFound { heading } => PatchErrorModel::HeadingNotFound {
                heading: heading@,
            },
            PatchError::AmbiguousHeading { heading } => PatchErrorModel::AmbiguousHeading {
                heading: heading@,
            },
            PatchError::SubheadingNotFound { heading } => PatchErrorModel::SubheadingNotFound {
                heading: heading@,
            },
            PatchError::BlockIndexOutOfRange { index, available } => {
                PatchErrorModel::BlockIndexOutOfRange {
                    index: *index as int,
                    available: *available as int,
                }
            },
            PatchError::InvalidFingerprint { pattern } => PatchErrorModel::InvalidFingerprint {
                pattern: pattern@,
            },
            PatchError::FingerprintMismatch { pattern } => PatchErrorModel::FingerprintMismatch {
                pattern: pattern@,
            },
            PatchError::UnsafeDestructiveOperation => PatchErrorModel::UnsafeDestructiveOperation,
            PatchError::MissingContent => PatchErrorModel::MissingContent,
        }
    }
}

} // verus!
