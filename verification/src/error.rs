//! What can go wrong.

use vstd::prelude::*;

verus! {

/// Everything that can go wrong while decoding repository data or diffing.
#[derive(Debug, Clone, Copy, PartialEq, Eq, Structural)]
pub enum GitError {
    /// The requested object does not exist in the object store.
    ObjectMissing,
    /// An object could not be decompressed or its header is malformed.
    CorruptObject,
    /// An object carries another type tag than the one asked for.
    WrongType,
    /// `HEAD` or the branch file it names lacks the expected shape.
    UnresolvedHead,
    /// The staging file does not start with its four-byte signature.
    InvalidSignature,
    /// The staging file's version is not the supported one.
    UnsupportedVersion,
    /// The staging file ends before the declared content does.
    TruncatedIndex,
    /// A staged entry's name is not as long as its flags declare.
    NameLengthMismatch,
    /// A staged entry carries a field that no valid entry can hold.
    MalformedEntry,
    /// A commit object lacks a required line or field.
    MalformedCommit,
    /// A tree object's records do not fill its payload exactly.
    MalformedTree,
    /// The header of a hunk does not name the line it starts at.
    MalformedHeader,
    /// Content that has to be text is not valid UTF-8.
    NonUtf8Content,
    /// The input is larger than the machine's integers can count.
    TooLarge,
}

} // verus!
