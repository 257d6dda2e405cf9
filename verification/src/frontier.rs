//! The priority frontier that drives the shortest-path and the spanning-tree
//! search: candidates wait in it, each with a priority, and leave it cheapest
//! first. Among candidates of equal priority the one that entered first leaves
//! first, so that a search runs the same way every time.
//!
//! The candidates are kept in the order of their arrival: one enters in
//! constant time, and taking one out looks at all that wait.

use vstd::prelude::*;
use crate::Cost;

verus! {

/// Candidates with their priorities, in the order in which they entered.
pub struct Frontier<T> {
    entries: Vec<(Cost, T)>,
}

impl<T> View for Frontier<T> {
    type V = Seq<(Cost, T)>;

    closed spec fn view(&self) -> Seq<(Cost, T)> {
        self.entries@
    }
}

/// Entry `i` has the lowest priority of `entries`, and every entry before it
/// has a higher one.
pub open spec fn is_first_minimum<T>(entries: Seq<(Cost, T)>, i: int) -> bool {
    &&& 0 <= i < entries.len()
    &&& forall|j: int| 0 <= j < entries.len() ==> entries[i].0 <= (#[trigger] entries[j]).0
    &&& forall|j: int| 0 <= j < i ==> entries[i].0 < (#[trigger] entries[j]).0
}

/// The position of the entry that leaves next.
pub open spec fn first_minimum<T>(entries: Seq<(Cost, T)>) -> int {
    choose|i: int| is_first_minimum(entries, i)
}

/// At most one position is the first minimum.
pub proof fn lemma_first_minimum_unique<T>(entries: Seq<(Cost, T)>, i: int, j: int)
    requires
        is_first_minimum(entries, i),
        is_first_minimum(entries, j),
    ensures
        i == j,
{
    if i < j {
        assert(entries[j].0 < entries[i].0);
    } else if j < i {
        assert(entries[i].0 < entries[j].0);
    }
}

impl<T> Frontier<T> {
    /// A frontier without candidates.
    pub fn new() -> (frontier: Frontier<T>)
        ensures
            frontier@ == Seq::<(Cost, T)>::empty(),
    {
        Frontier { entries: Vec::new() }
    }

    /// The number of candidates that wait.
    pub fn len(&self) -> (len: usize)
        ensures
            len == self@.len(),
    {
        self.entries.len()
    }

    /// Whether no candidate waits.
    pub fn is_empty(&self) -> (empty: bool)
        ensures
            empty == (self@.len() == 0),
    {
        self.entries.len() == 0
    }

    /// Lets `item` wait with `priority`, behind all that wait already.
    pub fn push(&mut self, priority: Cost, item: T)
        ensures
            final(self)@ == old(self)@.push((priority, item)),
    {
        self.entries.push((priority, item));
    }

    /// Takes out the candidate of lowest priority, the earliest of them where
    /// several share it. An empty frontier gives `None`.
    pub fn pop(&mut self) -> (next: Option<(Cost, T)>)
        ensures
            old(self)@.len() == 0 ==> next is None && final(self)@ == old(self)@,
            old(self)@.len() > 0 ==> {
                &&& is_first_minimum(old(self)@, first_minimum(old(self)@))
                &&& next == Some(old(self)@[first_minimum(old(self)@)])
                &&& final(self)@ == old(self)@.remove(first_minimum(old(self)@))
            },
    {
        if self.entries.len() == 0 {
            return None;
        }
        let mut best: usize = 0;
        let mut i: usize = 1;
        while i < self.entries.len()
            invariant
                0 <= best < i <= self.entries@.len(),
                self.entries@ == old(self).entries@,
                forall|j: int| 0 <= j < i ==> self.entries@[best as int].0 <= (#[trigger] self.entries@[j]).0,
                forall|j: int|
                    0 <= j < best ==> self.entries@[best as int].0 < (#[trigger] self.entries@[j]).0,
            decreases self.entries@.len() - i,
        {
            if self.entries[i].0 < self.entries[best].0 {
                best = i;
            }
            i += 1;
        }
        proof {
            assert(is_first_minimum(old(self)@, best as int));
            lemma_first_minimum_unique(old(self)@, best as int, first_minimum(old(self)@));
        }
        Some(self.entries.remove(best))
    }
}

} // verus!
