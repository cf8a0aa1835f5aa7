//! The statistics of a set of changes, as a repository reports them.

use vstd::prelude::*;

verus! {

/// How many files changed, and how many lines were inserted and deleted.
#[derive(Debug, Clone, Copy, PartialEq, Eq, Structural)]
pub struct Stats {
    pub files_changed: usize,
    pub insertions: usize,
    pub deletions: usize,
}

impl Stats {
    /// The statistics with the given numbers.
    pub fn new(files_changed: usize, insertions: usize, deletions: usize) -> (r: Stats)
        ensures
            r.files_changed == files_changed,
            r.insertions == insertions,
            r.deletions == deletions,
    {
        Stats { files_changed, insertions, deletions }
    }
}

} // verus!
