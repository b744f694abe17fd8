//! The requests of the first view of the working tree.
use crate::diff::DiffKey;
use vstd::prelude::*;

verus! {

/// Something the user asked for.
pub enum Action {
    Pull,
    Refresh,
    AddOrRestore(DiffKey),
}

} // verus!
