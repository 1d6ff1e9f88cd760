//! Spawn-pack bookkeeping shared with the entity layer. Only the integer
//! pack description lives here; the tuning tables of the enemy catalogue
//! are floating-point data and stay with the simulation around the library.

use vstd::prelude::*;

verus! {

/// A pack of enemies to spawn together: (enemy kind, count) pairs.
#[derive(Clone)]
pub struct PackRecord {
    vec: Vec<(usize, usize)>,
}

impl PackRecord {
    /// The (kind, count) entries the pack holds.
    pub closed spec fn entries(self) -> Seq<(usize, usize)> {
        self.vec@
    }

    /// A pack from its (kind, count) entries.
    pub fn new(vec: Vec<(usize, usize)>) -> (r: PackRecord)
        ensures
            r.entries() == vec@,
    {
        PackRecord { vec }
    }

    /// Number of (kind, count) entries.
    pub fn len(&self) -> (r: usize)
        ensures
            r == self.entries().len(),
    {
        self.vec.len()
    }

    /// The k-th (kind, count) entry.
    pub fn entry(&self, k: usize) -> (r: (usize, usize))
        requires
            k < self.entries().len(),
        ensures
            r == self.entries()[k as int],
    {
        self.vec[k]
    }
}

} // verus!
