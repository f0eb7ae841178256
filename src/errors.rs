//! Errors of the object codecs and of the pack handling.
use vstd::prelude::*;

verus! {

/// What can go wrong while reading or writing objects and packs.
#[derive(Debug, Clone, PartialEq, Eq)]
pub enum GitError {
    /// A signature line that starts with neither `author` nor `committer`.
    InvalidSignatureType(Vec<u8>),
    /// A stored or inbound object that cannot be parsed.
    MalformedObject,
    /// A pack whose framing, checksum or deltas are wrong.
    MalformedPack,
}

} // verus!
