//! A small min-priority queue over integer keys, used by the Dijkstra-style
//! distance-field builder. Extraction always returns an element with a
//! minimal key — the earliest-inserted one among ties — which is the only
//! property the propagation relies on.

use vstd::prelude::*;

verus! {

/// Index of the first element with a minimal key.
pub open spec fn first_min_idx(s: Seq<(i64, usize)>) -> int
    decreases s.len(),
{
    if s.len() <= 1 {
        0
    } else {
        let p = first_min_idx(s.drop_last());
        if s.last().0 < s[p].0 {
            s.len() - 1
        } else {
            p
        }
    }
}

/// `first_min_idx` indexes the sequence and picks a minimal key.
pub proof fn lemma_first_min_idx(s: Seq<(i64, usize)>)
    requires
        s.len() > 0,
    ensures
        0 <= first_min_idx(s) < s.len(),
        forall|m: int| 0 <= m < s.len() ==> s[first_min_idx(s)].0 <= (#[trigger] s[m]).0,
    decreases s.len(),
{
    if s.len() > 1 {
        lemma_first_min_idx(s.drop_last());
        let p = first_min_idx(s.drop_last());
        assert forall|m: int| 0 <= m < s.len() implies s[first_min_idx(s)].0
            <= (#[trigger] s[m]).0 by {
            if m < s.len() - 1 {
                assert(s.drop_last()[m] == s[m]);
                assert(s.drop_last()[p] == s[p]);
                assert(s.drop_last()[p].0 <= s.drop_last()[m].0);
            }
        }
    }
}

/// A min-priority queue of (key, value) entries.
pub struct PriorityQueue {
    pub heap: Vec<(i64, usize)>,
}

impl PriorityQueue {
    /// The entries currently held, in insertion order.
    pub open spec fn view(self) -> Seq<(i64, usize)> {
        self.heap@
    }

    /// An empty queue.
    pub fn new() -> (r: PriorityQueue)
        ensures
            r@.len() == 0,
    {
        PriorityQueue { heap: Vec::new() }
    }

    /// Number of entries held.
    pub fn len(&self) -> (r: usize)
        ensures
            r == self@.len(),
    {
        self.heap.len()
    }

    /// Inserts an entry.
    pub fn push(&mut self, key: i64, value: usize)
        ensures
            final(self)@ == old(self)@.push((key, value)),
    {
        self.heap.push((key, value));
    }

    /// Removes and returns the earliest entry with a minimal key, or None
    /// when the queue is empty.
    pub fn pop(&mut self) -> (r: Option<(i64, usize)>)
        ensures
            match r {
                Some(kv) => {
                    &&& old(self)@.len() > 0
                    &&& kv == old(self)@[first_min_idx(old(self)@)]
                    &&& final(self)@ == old(self)@.remove(first_min_idx(old(self)@))
                    &&& forall|m: int|
                        0 <= m < old(self)@.len() ==> kv.0 <= (#[trigger] old(self)@[m]).0
                },
                None => {
                    &&& old(self)@.len() == 0
                    &&& final(self)@ == old(self)@
                },
            },
    {
        if self.heap.len() == 0 {
            return None;
        }
        let ghost s = self.heap@;
        let mut best: usize = 0;
        let mut k: usize = 1;
        while k < self.heap.len()
            invariant
                self.heap@ == s,
                1 <= k <= s.len(),
                best == first_min_idx(s.take(k as int)),
                best < k,
            decreases s.len() - k,
        {
            proof {
                assert(s.take(k as int + 1).drop_last() =~= s.take(k as int));
            }
            if self.heap[k].0 < self.heap[best].0 {
                best = k;
            }
            k = k + 1;
        }
        proof {
            assert(s.take(s.len() as int) =~= s);
            lemma_first_min_idx(s);
        }
        let kv: (i64, usize) = self.heap[best];
        self.heap.remove(best);
        Some(kv)
    }
}

} // verus!
