//! How a run can fail, and what it can warn of.

use vstd::prelude::*;

verus! {

/// The kinds of failure and of warning of a bundle build.
#[derive(Clone, Copy, Debug, PartialEq, Eq, Structural)]
pub enum BuildError {
    /// The bundle specification names an input that it does not define, or
    /// names one input twice in its search order.
    SpecInvalid,
    /// An input could not be read.
    InputIO,
    /// An ignore rule is not a regular expression.
    IgnorePatternInvalid,
    /// Two patches aim at one logical path. A warning: the first one stays.
    PatchConflict,
    /// The patch tool failed on a file.
    PatchApplyFailed,
    /// A file's place in the manifest is taken. A warning: the file is skipped.
    ManifestCollision,
    /// The bundle digest is not the expected one. A warning.
    DigestMismatch,
    /// The container could not be written.
    ContainerWriteFailed,
    /// A file, or a compressed stream, is too long for a 32-bit length.
    SizeOverflow,
    /// A path pattern cannot be expanded.
    PatternInvalid,
    /// A line of the manifest has no path or no digest.
    MalformedFilelist,
    /// The bundle digest is not 64 hexadecimal digits.
    MalformedDigest,
}

} // verus!
