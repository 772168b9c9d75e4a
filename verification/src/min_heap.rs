//! A binary min-heap keyed by `u64` priorities: the frontier for searches
//! whose priorities are not small bounded integers, or do not come in
//! non-decreasing order.

use vstd::prelude::*;
use vstd::multiset::Multiset;
use vstd::seq_lib::{to_multiset_build, to_multiset_contains, to_multiset_update};
use crate::bucket_queue::lemma_swap_remove_front;
use crate::frontier::Frontier;

verus! {

/// The index of the parent of the heap node at index `i > 0`.
pub open spec fn parent_of(i: int) -> int {
    (i - 1) / 2
}

/// Whether `s`, read as a binary tree in level order, is a min-heap: no
/// node has a lower priority than its parent.
pub open spec fn is_heap<T>(s: Seq<(u64, T)>) -> bool {
    forall|i: int| 0 < i < s.len() ==> s[parent_of(i)].0 <= (#[trigger] s[i]).0
}

/// Whether `s` is a min-heap but for the node at `hole`, which may have a
/// lower priority than its parent while its children respect its parent.
pub open spec fn is_heap_but_up<T>(s: Seq<(u64, T)>, hole: int) -> bool {
    &&& forall|i: int|
        0 < i < s.len() && i != hole ==> s[parent_of(i)].0 <= (#[trigger] s[i]).0
    &&& forall|i: int|
        0 < i < s.len() && parent_of(i) == hole && hole > 0 ==> s[parent_of(hole)].0 <= (
        #[trigger] s[i]).0
}

/// Whether `s` is a min-heap but for the node at `hole`, which may have a
/// higher priority than its children while they respect its parent.
pub open spec fn is_heap_but_down<T>(s: Seq<(u64, T)>, hole: int) -> bool {
    &&& forall|i: int|
        0 < i < s.len() && parent_of(i) != hole ==> s[parent_of(i)].0 <= (#[trigger] s[i]).0
    &&& forall|i: int|
        0 < i < s.len() && parent_of(i) == hole && hole > 0 ==> s[parent_of(hole)].0 <= (
        #[trigger] s[i]).0
}

/// The sequence `s` with the items at `i` and `j` exchanged.
pub open spec fn swapped<T>(s: Seq<(u64, T)>, i: int, j: int) -> Seq<(u64, T)> {
    s.update(i, s[j]).update(j, s[i])
}

/// Exchanging two items leaves the multiset of items as it was.
pub proof fn lemma_swapped_same_items<T>(s: Seq<(u64, T)>, i: int, j: int)
    requires
        0 <= i < s.len(),
        0 <= j < s.len(),
    ensures
        swapped(s, i, j).to_multiset() =~= s.to_multiset(),
{
    broadcast use vstd::multiset::group_multiset_axioms;

    to_multiset_update(s, i, s[j]);
    to_multiset_update(s.update(i, s[j]), j, s[i]);
    to_multiset_contains(s, s[i]);
    to_multiset_contains(s, s[j]);
    assert(s.contains(s[i]));
    assert(s.contains(s[j]));
}

/// The root of a min-heap has the lowest priority of all.
pub proof fn lemma_root_is_least<T>(s: Seq<(u64, T)>, i: int)
    requires
        is_heap(s),
        0 <= i < s.len(),
    ensures
        s[0].0 <= s[i].0,
    decreases i,
{
    if i > 0 {
        lemma_root_is_least(s, parent_of(i));
    }
}

/// A binary min-heap of items of type `T`, each with a `u64` priority.
pub struct MinHeap<T> {
    data: Vec<(u64, T)>,
}

impl<T: Copy> View for MinHeap<T> {
    type V = Seq<(u64, T)>;

    /// The entries in level order.
    closed spec fn view(&self) -> Seq<(u64, T)> {
        self.data@
    }
}

impl<T: Copy> MinHeap<T> {
    /// An empty heap.
    pub fn new() -> (h: MinHeap<T>)
        ensures
            h@ == Seq::<(u64, T)>::empty(),
            is_heap(h@),
            h.entries() == Multiset::<(u64, T)>::empty(),
    {
        let h = MinHeap { data: Vec::new() };
        proof {
            vstd::seq_lib::to_multiset_len(h@);
            assert(h.entries().len() == 0);
            vstd::multiset::lemma_multiset_empty_len(h.entries());
        }
        h
    }

    /// Whether the heap holds no entry.
    pub fn is_empty(&self) -> (r: bool)
        ensures
            r == (self@.len() == 0),
            r == (self.entries().len() == 0),
    {
        proof {
            vstd::seq_lib::to_multiset_len(self@);
        }
        self.data.len() == 0
    }

    /// Number of entries held.
    pub fn len(&self) -> (r: usize)
        ensures
            r == self@.len(),
            r == self.entries().len(),
    {
        proof {
            vstd::seq_lib::to_multiset_len(self@);
        }
        self.data.len()
    }

    /// An entry of lowest priority, left in place, or `None` when the heap
    /// is empty.
    pub fn peek_min(&self) -> (r: Option<(u64, T)>)
        requires
            is_heap(self@),
        ensures
            r.is_none() <==> self@.len() == 0,
            r matches Some(e) ==> e == self@[0] && self.entries().count(e) > 0 && forall|
                o: (u64, T),
            | #[trigger] self.entries().count(o) > 0 ==> e.0 <= o.0,
    {
        if self.data.len() == 0 {
            None
        } else {
            proof {
                self.lemma_first_is_least();
            }
            Some(self.data[0])
        }
    }

    /// In a non-empty heap the first entry is held and has the lowest
    /// priority among the entries.
    pub proof fn lemma_first_is_least(&self)
        requires
            is_heap(self@),
            self@.len() > 0,
        ensures
            self.entries().count(self@[0]) > 0,
            forall|o: (u64, T)| #[trigger] self.entries().count(o) > 0 ==> self@[0].0 <= o.0,
    {
        let s = self@;
        to_multiset_contains(s, s[0]);
        assert(s.contains(s[0]));
        assert forall|o: (u64, T)| #[trigger] self.entries().count(o) > 0 implies s[0].0
            <= o.0 by {
            to_multiset_contains(s, o);
            let k = choose|k: int| 0 <= k < s.len() && s[k] == o;
            lemma_root_is_least(s, k);
        }
    }

    /// Exchanges the entries at `i` and `j`.
    fn swap(&mut self, i: usize, j: usize)
        requires
            i < old(self)@.len(),
            j < old(self)@.len(),
        ensures
            final(self)@ == swapped(old(self)@, i as int, j as int),
            final(self).entries() == old(self).entries(),
    {
        let a = self.data[i];
        let b = self.data[j];
        self.data[i] = b;
        self.data[j] = a;
        proof {
            lemma_swapped_same_items(old(self)@, i as int, j as int);
        }
    }

    /// Moves the entry at `start` up until its parent's priority is no
    /// higher than its own.
    fn sift_up(&mut self, start: usize)
        requires
            start < old(self)@.len(),
            is_heap_but_up(old(self)@, start as int),
        ensures
            is_heap(final(self)@),
            final(self)@.len() == old(self)@.len(),
            final(self).entries() == old(self).entries(),
    {
        let mut i: usize = start;
        while i > 0
            invariant
                i < self@.len(),
                self@.len() == old(self)@.len(),
                is_heap_but_up(self@, i as int),
                self.entries() == old(self).entries(),
            ensures
                is_heap(self@),
                self@.len() == old(self)@.len(),
                self.entries() == old(self).entries(),
            decreases i,
        {
            let parent: usize = (i - 1) / 2;
            if self.data[parent].0 <= self.data[i].0 {
                break ;
            }
            self.swap(i, parent);
            i = parent;
        }
    }

    /// Moves the entry at `start` down until none of its children has a
    /// lower priority than its own.
    fn sift_down(&mut self, start: usize)
        requires
            start < old(self)@.len(),
            is_heap_but_down(old(self)@, start as int),
        ensures
            is_heap(final(self)@),
            final(self)@.len() == old(self)@.len(),
            final(self).entries() == old(self).entries(),
    {
        let len: usize = self.data.len();
        let mut i: usize = start;
        loop
            invariant
                i < len,
                len == self@.len(),
                self@.len() == old(self)@.len(),
                is_heap_but_down(self@, i as int),
                self.entries() == old(self).entries(),
            ensures
                is_heap(self@),
                self@.len() == old(self)@.len(),
                self.entries() == old(self).entries(),
            decreases len - i,
        {
            if i > (len - 1) / 2 {
                break ;
            }
            let left: usize = 2 * i + 1;
            if left >= len {
                break ;
            }
            let mut child: usize = left;
            if left + 1 < len && self.data[left + 1].0 < self.data[left].0 {
                child = left + 1;
            }
            if self.data[i].0 <= self.data[child].0 {
                break ;
            }
            self.swap(i, child);
            i = child;
        }
    }
}

impl<T: Copy> MinHeap<T> {
    /// The entries held, as a multiset.
    pub open spec fn entries(&self) -> Multiset<(u64, T)> {
        self@.to_multiset()
    }
}

impl<T: Copy> Frontier<T> for MinHeap<T> {
    open spec fn entries(&self) -> Multiset<(u64, T)> {
        self@.to_multiset()
    }

    open spec fn wf(&self) -> bool {
        is_heap(self@)
    }

    open spec fn is_monotone(&self) -> bool {
        false
    }

    open spec fn floor(&self) -> u64 {
        0
    }

    open spec fn ceiling(&self) -> u64 {
        u64::MAX
    }

    fn limit(&self) -> (r: u64) {
        u64::MAX
    }

    fn push(&mut self, priority: u64, item: T)
        ensures
            final(self)@.len() == old(self)@.len() + 1,
    {
        self.data.push((priority, item));
        proof {
            to_multiset_build(old(self)@, (priority, item));
        }
        let last: usize = self.data.len() - 1;
        self.sift_up(last);
    }

    fn pop_min(&mut self) -> (r: Option<(u64, T)>)
        ensures
            r matches Some(e) ==> e == old(self)@[0] && final(self)@.len() + 1 == old(self)@.len(),
    {
        proof {
            vstd::seq_lib::to_multiset_len(self@);
        }
        if self.data.len() == 0 {
            return None;
        }
        proof {
            self.lemma_first_is_least();
            lemma_swap_remove_front(self@);
        }
        let least = self.data.swap_remove(0);
        if self.data.len() > 0 {
            self.sift_down(0);
        }
        Some(least)
    }
}

} // verus!
