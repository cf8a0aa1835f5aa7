//! Reads a version-control repository's object store and staging area and
//! computes minimal line-level diffs between snapshots.

use vstd::prelude::*;

pub mod bytes;
pub mod commit;
pub mod data;
pub mod diff;
pub mod edit_graph;
pub mod error;
pub mod hash;
pub mod head;
pub mod header;
pub mod index;
pub mod line;
pub mod myers;
pub mod object;
pub mod patch;
pub mod path;
pub mod render;
pub mod stats;
pub mod text;
pub mod time;
pub mod walk;

verus! {

/// The printed form of raw hash bytes: two lower-case hexadecimal digits
/// for each byte.
pub fn get_hash(bytes: &[u8]) -> (hash: String)
    ensures
        hash@ == crate::hash::hex_of(bytes@),
{
    crate::hash::from_bytes(bytes)
}

} // verus!
