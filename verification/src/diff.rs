//! A changed path as the first view of the working tree knew it: in the
//! staging area or out of it.
use vstd::prelude::*;

verus! {

/// Where a changed path stands.
#[derive(Clone, Copy, Debug, PartialEq, Eq, Hash, Structural)]
pub enum DiffArea {
    Unstaged,
    Staged,
}

/// A changed path and its area.
#[derive(Clone, Debug, PartialEq, Eq, Hash)]
pub struct DiffKey {
    pub path: String,
    pub area: DiffArea,
}

impl DiffKey {
    /// Whether the key is outside the staging area.
    pub fn is_unstaged(key: &&DiffKey) -> (b: bool)
        ensures
            b == (key.area == DiffArea::Unstaged),
    {
        matches!(key.area, DiffArea::Unstaged)
    }

    /// Whether the key is in the staging area.
    pub fn is_staged(key: &&DiffKey) -> (b: bool)
        ensures
            b == (key.area == DiffArea::Staged),
    {
        matches!(key.area, DiffArea::Staged)
    }
}

} // verus!
