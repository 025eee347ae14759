use vstd::prelude::*;

verus! {

/// The ways a block or frame decode can fail.
#[derive(Clone, Copy, Debug, PartialEq, Eq, Structural)]
pub enum DecodeError {
    /// The input is malformed: bad magic, unsupported or reserved header
    /// fields, a block larger than the frame allows, or trailing bytes.
    Format,
    /// A header, block or content checksum did not match the recomputed value.
    ChecksumMismatch,
    /// A compressed payload cannot be expanded, or expands past its bound.
    CorruptData,
    /// The input ends in the middle of a header, a block, the end marker or a
    /// trailing checksum.
    Truncated,
    /// The header declares a content size that the decoded bytes do not have.
    SizeMismatch,
}

/// The ways an encode can fail. Encoding succeeds for every input and
/// configuration, so no variant is ever produced; the type keeps the
/// fallible signature of the compression operations.
#[derive(Clone, Copy, Debug, PartialEq, Eq, Structural)]
pub enum EncodeError {
    /// Never returned.
    Unreachable,
}

} // verus!
