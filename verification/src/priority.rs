//! A frontier that hands out the cheapest pending entry first.
//!
//! [`MinPriorityNode`] turns the order of costs around, so that the entry of
//! least cost is the greatest one; [`Frontier`] always hands out a greatest
//! entry, and among equals the one that has waited longest.

use std::cmp::Ordering;
use vstd::prelude::*;
use vstd::std_specs::cmp::{PartialEqSpecImpl, PartialOrdSpecImpl};

verus! {

/// A node together with the cost at which it is pending. Entries compare by
/// cost alone and in reverse: the cheaper entry is the greater one.
#[derive(Debug)]
pub struct MinPriorityNode<T> {
    pub node: T,
    pub cost: usize,
}

impl<T> PartialEq for MinPriorityNode<T> {
    fn eq(&self, other: &Self) -> (equal: bool) {
        self.cost == other.cost
    }
}

impl<T> PartialEqSpecImpl for MinPriorityNode<T> {
    open spec fn obeys_eq_spec() -> bool {
        true
    }

    open spec fn eq_spec(&self, other: &Self) -> bool {
        self.cost == other.cost
    }
}

impl<T> Eq for MinPriorityNode<T> {

}

impl<T> PartialOrd for MinPriorityNode<T> {
    fn partial_cmp(&self, other: &Self) -> (order: Option<Ordering>) {
        Some(self.cmp(other))
    }
}

impl<T> PartialOrdSpecImpl for MinPriorityNode<T> {
    open spec fn obeys_partial_cmp_spec() -> bool {
        true
    }

    open spec fn partial_cmp_spec(&self, other: &Self) -> Option<Ordering> {
        Some(self.reversed_order(other))
    }
}

impl<T> MinPriorityNode<T> {
    /// How `self` stands to `other`: greater when it is cheaper.
    pub open spec fn reversed_order(&self, other: &Self) -> Ordering {
        if self.cost < other.cost {
            Ordering::Greater
        } else if self.cost > other.cost {
            Ordering::Less
        } else {
            Ordering::Equal
        }
    }

    /// Compares two entries by cost, the cheaper one being the greater.
    pub fn cmp(&self, other: &Self) -> (order: Ordering)
        ensures
            order == self.reversed_order(other),
    {
        if self.cost < other.cost {
            Ordering::Greater
        } else if self.cost > other.cost {
            Ordering::Less
        } else {
            Ordering::Equal
        }
    }
}

/// The index of the entry handed out next: the first among those of least
/// cost (0 for an empty sequence).
pub open spec fn first_least<T>(entries: Seq<MinPriorityNode<T>>) -> int
    decreases entries.len(),
{
    if entries.len() <= 1 {
        0
    } else {
        let best = first_least(entries.drop_last());
        if entries.last().cost < entries[best].cost {
            entries.len() - 1
        } else {
            best
        }
    }
}

/// `first_least` names an entry that no entry undercuts and that every
/// earlier entry exceeds.
pub proof fn lemma_first_least<T>(entries: Seq<MinPriorityNode<T>>)
    requires
        entries.len() > 0,
    ensures
        0 <= first_least(entries) < entries.len(),
        forall|j: int|
            0 <= j < entries.len() ==> entries[first_least(entries)].cost <= (
            #[trigger] entries[j]).cost,
        forall|j: int|
            0 <= j < first_least(entries) ==> entries[first_least(entries)].cost < (
            #[trigger] entries[j]).cost,
    decreases entries.len(),
{
    if entries.len() > 1 {
        let shorter = entries.drop_last();
        lemma_first_least(shorter);
        let best = first_least(shorter);
        assert(shorter[best] == entries[best]);
        assert forall|j: int| 0 <= j < entries.len() implies entries[first_least(entries)].cost <= (
        #[trigger] entries[j]).cost by {
            if j < shorter.len() {
                assert(shorter[j] == entries[j]);
            }
        }
        assert forall|j: int| 0 <= j < first_least(entries) implies entries[first_least(
            entries,
        )].cost < (#[trigger] entries[j]).cost by {
            if j < shorter.len() {
                assert(shorter[j] == entries[j]);
            }
        }
    }
}

/// The pending entries of a search, in the order they were pushed.
pub struct Frontier<T> {
    entries: Vec<MinPriorityNode<T>>,
}

impl<T> View for Frontier<T> {
    type V = Seq<MinPriorityNode<T>>;

    closed spec fn view(&self) -> Seq<MinPriorityNode<T>> {
        self.entries@
    }
}

impl<T> Frontier<T> {
    /// An empty frontier.
    pub fn new() -> (frontier: Self)
        ensures
            frontier@ == Seq::<MinPriorityNode<T>>::empty(),
    {
        Frontier { entries: Vec::new() }
    }

    /// The number of pending entries.
    pub fn len(&self) -> (count: usize)
        ensures
            count == self@.len(),
    {
        self.entries.len()
    }

    /// Whether nothing is pending.
    pub fn is_empty(&self) -> (empty: bool)
        ensures
            empty == (self@.len() == 0),
    {
        self.entries.len() == 0
    }

    /// Adds `entry` behind all pending entries.
    pub fn push(&mut self, entry: MinPriorityNode<T>)
        ensures
            final(self)@ == old(self)@.push(entry),
    {
        self.entries.push(entry);
    }

    /// Takes out the greatest entry, that is the first of least cost, or
    /// returns `None` when nothing is pending.
    pub fn pop(&mut self) -> (entry: Option<MinPriorityNode<T>>)
        ensures
            old(self)@.len() == 0 ==> entry.is_none() && final(self)@ == old(self)@,
            old(self)@.len() > 0 ==> entry == Some(old(self)@[first_least(old(self)@)])
                && final(self)@ == old(self)@.remove(first_least(old(self)@)),
    {
        if self.entries.len() == 0 {
            return None;
        }
        let mut best: usize = 0;
        let mut i: usize = 1;
        proof {
            assert(self.entries@.take(1).len() == 1);
        }
        while i < self.entries.len()
            invariant
                1 <= i <= self.entries.len(),
                best < i,
                best == first_least(self.entries@.take(i as int)),
            decreases self.entries.len() - i,
        {
            proof {
                let longer = self.entries@.take(i + 1);
                assert(longer.drop_last() =~= self.entries@.take(i as int));
                assert(longer.last() == self.entries@[i as int]);
                assert(longer[best as int] == self.entries@[best as int]);
            }
            if self.entries[i] > self.entries[best] {
                best = i;
            }
            i = i + 1;
        }
        proof {
            assert(self.entries@.take(i as int) =~= self.entries@);
        }
        Some(self.entries.remove(best))
    }
}

} // verus!
