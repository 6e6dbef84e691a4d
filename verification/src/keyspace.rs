//! Partitions of the key space, the units for which difficulty is reported.
use crate::range::KeyRange;
use vstd::prelude::*;

verus! {

/// A list of key ranges, as the caller has cut the key space. The index
/// takes the ranges as they come: it reports on each of them and asks
/// nothing of them.
#[derive(Clone, Debug, PartialEq, Eq)]
pub struct KeyPartitioning {
    pub parts: Vec<KeyRange>,
}

impl KeyPartitioning {
    /// The partitioning into `parts`, in their order.
    pub fn new(parts: Vec<KeyRange>) -> (r: KeyPartitioning)
        ensures
            r.parts == parts,
    {
        KeyPartitioning { parts }
    }
}

} // verus!
