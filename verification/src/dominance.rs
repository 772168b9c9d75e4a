//! Dominance tables: the best cost found so far for each state key.
//!
//! A search offers every newly found cost to the table and goes on with the
//! state only when the offer is an improvement. Two tables are provided, one
//! backed by a flat array for key spaces of known size, one backed by a hash
//! map for sparse keys.

use vstd::prelude::*;
use rustc_hash::FxHashMap;
use crate::fx::{fx_get, fx_insert, fx_new};

verus! {

/// The best cost recorded for `key`, if any.
pub open spec fn best_in(table: Map<usize, u64>, key: usize) -> Option<u64> {
    if table.contains_key(key) {
        Some(table[key])
    } else {
        None
    }
}

/// Whether `cost` is strictly better than what `table` records for `key`.
pub open spec fn improves(table: Map<usize, u64>, key: usize, cost: u64) -> bool {
    !table.contains_key(key) || cost < table[key]
}

/// The table after `cost` was offered for `key`: the offer is recorded when
/// it improves on the table and dropped otherwise.
pub open spec fn offered(table: Map<usize, u64>, key: usize, cost: u64) -> Map<usize, u64> {
    if improves(table, key, cost) {
        table.insert(key, cost)
    } else {
        table
    }
}

/// The table that results from making `offers` in order on an empty table.
pub open spec fn after_offers(offers: Seq<(usize, u64)>) -> Map<usize, u64>
    decreases offers.len(),
{
    if offers.len() == 0 {
        Map::empty()
    } else {
        offered(after_offers(offers.drop_last()), offers.last().0, offers.last().1)
    }
}

/// Whether `cost` is the least cost among the offers made for `key`.
pub open spec fn is_least_offered(offers: Seq<(usize, u64)>, key: usize, cost: u64) -> bool {
    &&& exists|i: int| 0 <= i < offers.len() && offers[i] == (key, cost)
    &&& forall|i: int| 0 <= i < offers.len() && (#[trigger] offers[i]).0 == key ==> cost <= offers[i].1
}

/// After any sequence of offers the table records, for each key, the least
/// cost ever offered for it, and records nothing for a key that was never
/// offered.
pub proof fn lemma_best_is_least_offered(offers: Seq<(usize, u64)>, key: usize)
    ensures
        match best_in(after_offers(offers), key) {
            Some(cost) => is_least_offered(offers, key, cost),
            None => forall|i: int| 0 <= i < offers.len() ==> (#[trigger] offers[i]).0 != key,
        },
    decreases offers.len(),
{
    if offers.len() > 0 {
        let earlier = offers.drop_last();
        let last = offers.last();
        lemma_best_is_least_offered(earlier, key);
        let before = after_offers(earlier);
        assert forall|i: int| 0 <= i < earlier.len() implies earlier[i] == offers[i] by {}
        match best_in(after_offers(offers), key) {
            Some(cost) => {
                if last.0 == key && improves(before, key, last.1) {
                    assert(offers[offers.len() - 1] == (key, cost));
                    assert forall|i: int|
                        0 <= i < offers.len() && (#[trigger] offers[i]).0 == key implies cost
                        <= offers[i].1 by {
                        if i < earlier.len() {
                            assert(earlier[i].0 == key);
                        }
                    }
                } else {
                    let i = choose|i: int| 0 <= i < earlier.len() && earlier[i] == (key, cost);
                    assert(offers[i] == (key, cost));
                    assert forall|j: int|
                        0 <= j < offers.len() && (#[trigger] offers[j]).0 == key implies cost
                        <= offers[j].1 by {
                        if j < earlier.len() {
                            assert(earlier[j].0 == key);
                        }
                    }
                }
            },
            None => {
                assert forall|i: int| 0 <= i < offers.len() implies (#[trigger] offers[i]).0
                    != key by {
                    if i < earlier.len() {
                        assert(earlier[i].0 != key);
                    }
                }
            },
        }
    }
}

/// What a search needs from a dominance table.
pub trait Dominance: Sized {
    /// The costs recorded, by key.
    spec fn table(&self) -> Map<usize, u64>;

    /// Representation invariant.
    spec fn wf(&self) -> bool;

    /// Whether the table has room for `key`.
    spec fn admits(&self, key: usize) -> bool;

    /// The best cost recorded for `key`, or `None` when there is none.
    fn best(&self, key: usize) -> (r: Option<u64>)
        requires
            self.wf(),
            self.admits(key),
        ensures
            r == best_in(self.table(), key),
    ;

    /// Offers `cost` for `key`. Returns `true`, and records the cost, when
    /// nothing was recorded for the key or the cost is strictly lower than
    /// what was; returns `false` and changes nothing otherwise.
    fn offer(&mut self, key: usize, cost: u64) -> (r: bool)
        requires
            old(self).wf(),
            old(self).admits(key),
        ensures
            final(self).wf(),
            r == improves(old(self).table(), key, cost),
            final(self).table() == offered(old(self).table(), key, cost),
            forall|k: usize| final(self).admits(k) == old(self).admits(k),
    ;
}

/// A dominance table over the keys `0..capacity`, backed by a flat array.
pub struct DenseDominance {
    slots: Vec<Option<u64>>,
}

impl DenseDominance {
    /// Number of keys the table has room for.
    pub closed spec fn capacity(&self) -> nat {
        self.slots@.len()
    }

    /// An empty table for the keys `0..capacity`.
    pub fn new(capacity: usize) -> (t: DenseDominance)
        ensures
            t.capacity() == capacity,
            t.table() == Map::<usize, u64>::empty(),
            t.wf(),
    {
        let mut slots: Vec<Option<u64>> = Vec::new();
        let mut i: usize = 0;
        while i < capacity
            invariant
                i <= capacity,
                slots@.len() == i,
                forall|k: int| 0 <= k < i ==> (#[trigger] slots@[k]).is_none(),
            decreases capacity - i,
        {
            slots.push(None);
            i += 1;
        }
        let t = DenseDominance { slots };
        assert(t.table() =~= Map::<usize, u64>::empty());
        t
    }
}

impl Dominance for DenseDominance {
    closed spec fn table(&self) -> Map<usize, u64> {
        Map::new(
            |k: usize| k < self.slots@.len() && self.slots@[k as int].is_some(),
            |k: usize| self.slots@[k as int].unwrap(),
        )
    }

    open spec fn wf(&self) -> bool {
        true
    }

    open spec fn admits(&self, key: usize) -> bool {
        key < self.capacity()
    }

    fn best(&self, key: usize) -> (r: Option<u64>) {
        self.slots[key]
    }

    fn offer(&mut self, key: usize, cost: u64) -> (r: bool) {
        let better = match self.slots[key] {
            None => true,
            Some(known) => cost < known,
        };
        if better {
            self.slots[key] = Some(cost);
            assert(self.table() =~= old(self).table().insert(key, cost));
        }
        better
    }
}

/// A dominance table over arbitrary keys, backed by a hash map.
pub struct HashDominance {
    costs: FxHashMap<u64, u64>,
}

impl HashDominance {
    /// An empty table.
    pub fn new() -> (t: HashDominance)
        ensures
            t.table() == Map::<usize, u64>::empty(),
            t.wf(),
    {
        let t = HashDominance { costs: fx_new() };
        assert(t.table() =~= Map::<usize, u64>::empty());
        t
    }
}

impl Dominance for HashDominance {
    closed spec fn table(&self) -> Map<usize, u64> {
        Map::new(|k: usize| self.costs@.contains_key(k as u64), |k: usize| self.costs@[k as u64])
    }

    open spec fn wf(&self) -> bool {
        true
    }

    open spec fn admits(&self, key: usize) -> bool {
        true
    }

    fn best(&self, key: usize) -> (r: Option<u64>) {
        fx_get(&self.costs, key as u64)
    }

    fn offer(&mut self, key: usize, cost: u64) -> (r: bool) {
        let better = match fx_get(&self.costs, key as u64) {
            None => true,
            Some(known) => cost < known,
        };
        if better {
            fx_insert(&mut self.costs, key as u64, cost);
            assert(self.table() =~= old(self).table().insert(key, cost));
        }
        better
    }
}

} // verus!
