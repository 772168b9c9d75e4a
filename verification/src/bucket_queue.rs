//! A priority queue for small bounded integer priorities.
//!
//! Items wait in one bucket per priority. A cursor walks the buckets upward
//! and never turns back, so a search that only ever asks for non-decreasing
//! minima pays constant amortised time per operation.

use vstd::prelude::*;
use vstd::multiset::Multiset;
use vstd::seq_lib::{to_multiset_build, to_multiset_remove, to_multiset_update, to_multiset_len};
use crate::frontier::Frontier;

verus! {

/// Mathematical model of a [`BucketQueue`].
pub struct BucketModel<T> {
    /// `buckets[p]` holds the items waiting at priority `p`, oldest first
    /// unless a removal moved the last one to the front.
    pub buckets: Seq<Seq<T>>,
    /// No bucket below the cursor holds an item.
    pub cursor: nat,
}

impl<T> BucketModel<T> {
    /// The model of a queue with `max_priority + 1` empty buckets.
    pub open spec fn empty(max_priority: nat) -> Self {
        BucketModel { buckets: Seq::new(max_priority + 1, |p: int| Seq::<T>::empty()), cursor: 0 }
    }

    /// Every bucket below the cursor is empty, and the cursor is a bucket.
    pub open spec fn wf(self) -> bool {
        &&& self.cursor < self.buckets.len()
        &&& forall|p: int| 0 <= p < self.cursor ==> (#[trigger] self.buckets[p]).len() == 0
    }

    /// Highest priority the queue can hold.
    pub open spec fn max_priority(self) -> nat {
        (self.buckets.len() - 1) as nat
    }

    /// Number of items waiting at priority `p` that equal `item`.
    pub open spec fn count(self, p: nat, item: T) -> nat {
        if p < self.buckets.len() {
            self.buckets[p as int].to_multiset().count(item)
        } else {
            0
        }
    }

    /// The first bucket at or above `from` that holds an item, or the number
    /// of buckets when there is none.
    pub open spec fn first_occupied(self, from: nat) -> nat
        decreases self.buckets.len() - from,
    {
        if from >= self.buckets.len() {
            self.buckets.len()
        } else if self.buckets[from as int].len() > 0 {
            from
        } else {
            self.first_occupied(from + 1)
        }
    }

    /// The model after `item` joined bucket `p`.
    pub open spec fn inserted(self, p: nat, item: T) -> Self {
        BucketModel {
            buckets: self.buckets.update(p as int, self.buckets[p as int].push(item)),
            cursor: self.cursor,
        }
    }

    /// The priority and item that the next removal yields.
    pub open spec fn front(self) -> Option<(nat, T)> {
        let p = self.first_occupied(self.cursor);
        if p < self.buckets.len() {
            Some((p, self.buckets[p as int][0]))
        } else {
            None
        }
    }

    /// The model after one removal: the first occupied bucket gives up its
    /// front item, its last item takes the vacated place, and the cursor
    /// moves to that bucket. Nothing changes when no item waits.
    pub open spec fn popped(self) -> Self {
        let p = self.first_occupied(self.cursor);
        if p < self.buckets.len() {
            let b = self.buckets[p as int];
            BucketModel {
                buckets: self.buckets.update(p as int, b.update(0, b.last()).drop_last()),
                cursor: p,
            }
        } else {
            self
        }
    }

    /// `first_occupied` finds an occupied bucket with only empty ones
    /// between `from` and it.
    pub proof fn lemma_first_occupied(self, from: nat)
        requires
            from <= self.buckets.len(),
        ensures
            from <= self.first_occupied(from) <= self.buckets.len(),
            self.first_occupied(from) < self.buckets.len() ==> self.buckets[self.first_occupied(
                from,
            ) as int].len() > 0,
            forall|p: int|
                from <= p < self.first_occupied(from) ==> (#[trigger] self.buckets[p]).len() == 0,
        decreases self.buckets.len() - from,
    {
        if from < self.buckets.len() && self.buckets[from as int].len() == 0 {
            self.lemma_first_occupied(from + 1);
        }
    }
}

/// One call on a queue: an insertion at a priority, or a removal.
pub enum QueueOp<T> {
    Insert(nat, T),
    Pop,
}

/// The model after one call.
pub open spec fn step<T>(m: BucketModel<T>, op: QueueOp<T>) -> BucketModel<T> {
    match op {
        QueueOp::Insert(p, item) => m.inserted(p, item),
        QueueOp::Pop => m.popped(),
    }
}

/// The model after the calls `ops`, made in order on a queue that began as
/// `start`.
pub open spec fn run<T>(start: BucketModel<T>, ops: Seq<QueueOp<T>>) -> BucketModel<T>
    decreases ops.len(),
{
    if ops.len() == 0 {
        start
    } else {
        step(run(start, ops.drop_last()), ops.last())
    }
}

/// Whether every insertion among `ops` respects the queue's bounds at the
/// moment it is made: not below the cursor, not above the highest priority.
pub open spec fn admissible<T>(start: BucketModel<T>, ops: Seq<QueueOp<T>>) -> bool
    decreases ops.len(),
{
    ops.len() == 0 || (admissible(start, ops.drop_last()) && match ops.last() {
        QueueOp::Insert(p, _) => run(start, ops.drop_last()).cursor <= p <= start.max_priority(),
        QueueOp::Pop => true,
    })
}

/// The entries that the insertions among `ops` put in, in call order.
pub open spec fn inserted_by<T>(ops: Seq<QueueOp<T>>) -> Seq<(nat, T)>
    decreases ops.len(),
{
    if ops.len() == 0 {
        Seq::empty()
    } else {
        match ops.last() {
            QueueOp::Insert(p, item) => inserted_by(ops.drop_last()).push((p, item)),
            QueueOp::Pop => inserted_by(ops.drop_last()),
        }
    }
}

/// The entries that the removals among `ops` hand out, in call order.
pub open spec fn popped_by<T>(start: BucketModel<T>, ops: Seq<QueueOp<T>>) -> Seq<(nat, T)>
    decreases ops.len(),
{
    if ops.len() == 0 {
        Seq::empty()
    } else {
        match (ops.last(), run(start, ops.drop_last()).front()) {
            (QueueOp::Pop, Some(e)) => popped_by(start, ops.drop_last()).push(e),
            _ => popped_by(start, ops.drop_last()),
        }
    }
}

impl<T> BucketModel<T> {
    /// In a well-formed queue the next removal yields an entry that is held
    /// and whose priority is lowest among the held ones; it yields nothing
    /// only when nothing is held.
    pub proof fn lemma_front_is_min(self)
        requires
            self.wf(),
        ensures
            match self.front() {
                Some(e) => {
                    &&& self.cursor <= e.0 <= self.max_priority()
                    &&& self.count(e.0, e.1) > 0
                    &&& forall|p: nat, item: T| #[trigger] self.count(p, item) > 0 ==> e.0 <= p
                },
                None => forall|p: nat, item: T| #[trigger] self.count(p, item) == 0,
            },
    {
        let f = self.first_occupied(self.cursor);
        self.lemma_first_occupied(self.cursor);
        assert forall|p: nat, item: T| p < f implies #[trigger] self.count(p, item) == 0 by {
            if p < self.buckets.len() {
                assert(self.buckets[p as int].len() == 0);
                to_multiset_len(self.buckets[p as int]);
                vstd::multiset::axiom_count_le_len(self.buckets[p as int].to_multiset(), item);
            }
        }
        if f < self.buckets.len() {
            let b = self.buckets[f as int];
            vstd::seq_lib::to_multiset_contains(b, b[0]);
            assert(b.contains(b[0]));
        }
    }

    /// An admissible insertion keeps the queue well formed and adds exactly
    /// one entry.
    pub proof fn lemma_inserted(self, p: nat, item: T)
        requires
            self.wf(),
            self.cursor <= p <= self.max_priority(),
        ensures
            self.inserted(p, item).wf(),
            self.inserted(p, item).max_priority() == self.max_priority(),
            forall|q: nat, x: T| #[trigger]
                self.inserted(p, item).count(q, x) == self.count(q, x) + if q == p && x == item {
                    1nat
                } else {
                    0nat
                },
    {
        broadcast use vstd::multiset::group_multiset_axioms;

        to_multiset_build(self.buckets[p as int], item);
    }

    /// A removal keeps the queue well formed, moves the cursor up to the
    /// priority it yields, and takes out exactly the entry it yields.
    pub proof fn lemma_popped(self)
        requires
            self.wf(),
        ensures
            self.popped().wf(),
            self.popped().max_priority() == self.max_priority(),
            self.cursor <= self.popped().cursor,
            self.front() matches Some(e) ==> self.popped().cursor == e.0,
            forall|q: nat, x: T| #[trigger]
                self.popped().count(q, x) + (if self.front() == Some((q, x)) {
                    1nat
                } else {
                    0nat
                }) == self.count(q, x),
    {
        broadcast use vstd::multiset::group_multiset_axioms;

        let f = self.first_occupied(self.cursor);
        self.lemma_first_occupied(self.cursor);
        self.lemma_front_is_min();
        if f < self.buckets.len() {
            let b = self.buckets[f as int];
            lemma_swap_remove_front(b);
            assert forall|p: int| 0 <= p < f implies (#[trigger] self.popped().buckets[p]).len()
                == 0 by {
                assert(self.buckets[p].len() == 0);
            }
        }
    }
}

/// However insertions and removals are interleaved, as long as every
/// insertion respects the queue's bounds at its moment: the queue stays well
/// formed, the removals hand out entries in non-decreasing order of
/// priority, and every entry that was in the queue at the start or was
/// inserted has either been handed out or is still held, as often as it
/// came in.
pub proof fn lemma_pops_sorted_and_complete<T>(start: BucketModel<T>, ops: Seq<QueueOp<T>>)
    requires
        start.wf(),
        admissible(start, ops),
    ensures
        run(start, ops).wf(),
        run(start, ops).max_priority() == start.max_priority(),
        start.cursor <= run(start, ops).cursor,
        forall|i: int, j: int|
            0 <= i <= j < popped_by(start, ops).len() ==> (#[trigger] popped_by(start, ops)[i]).0
                <= (#[trigger] popped_by(start, ops)[j]).0,
        forall|i: int|
            0 <= i < popped_by(start, ops).len() ==> start.cursor <= (#[trigger] popped_by(
                start,
                ops,
            )[i]).0 <= run(start, ops).cursor,
        forall|p: nat, item: T|
            start.count(p, item) + inserted_by(ops).to_multiset().count((p, item)) == popped_by(
                start,
                ops,
            ).to_multiset().count((p, item)) + #[trigger] run(start, ops).count(p, item),
    decreases ops.len(),
{
    broadcast use vstd::multiset::group_multiset_axioms;

    if ops.len() == 0 {
        assert(inserted_by(ops).to_multiset() =~= Multiset::<(nat, T)>::empty()) by {
            to_multiset_len(inserted_by(ops));
        }
        assert(popped_by(start, ops).to_multiset() =~= Multiset::<(nat, T)>::empty()) by {
            to_multiset_len(popped_by(start, ops));
        }
    } else {
        let before = ops.drop_last();
        let m = run(start, before);
        lemma_pops_sorted_and_complete(start, before);
        match ops.last() {
            QueueOp::Insert(p, item) => {
                m.lemma_inserted(p, item);
                to_multiset_build(inserted_by(before), (p, item));
            },
            QueueOp::Pop => {
                m.lemma_popped();
                m.lemma_front_is_min();
                match m.front() {
                    Some(e) => {
                        to_multiset_build(popped_by(start, before), e);
                        assert forall|q: nat, x: T|
                            start.count(q, x) + inserted_by(ops).to_multiset().count((q, x))
                                == popped_by(start, ops).to_multiset().count((q, x))
                                + #[trigger] run(start, ops).count(q, x) by {
                            assert(m.popped().count(q, x) + (if m.front() == Some((q, x)) {
                                1nat
                            } else {
                                0nat
                            }) == m.count(q, x));
                        }
                    },
                    None => {},
                }
            },
        }
    }
}

/// Removing the front of a sequence by moving its last item there takes
/// exactly the front item out of the multiset of items.
pub proof fn lemma_swap_remove_front<T>(s: Seq<T>)
    requires
        s.len() > 0,
    ensures
        s.update(0, s.last()).drop_last().to_multiset() =~= s.to_multiset().remove(s[0]),
{
    broadcast use vstd::multiset::group_multiset_axioms;

    let t = s.update(0, s.last());
    to_multiset_update(s, 0, s.last());
    assert(t.drop_last() =~= t.remove(t.len() - 1));
    to_multiset_remove(t, t.len() - 1);
    assert(t.last() == s.last());
}

/// A bucket queue over items of type `T`.
pub struct BucketQueue<T> {
    queue: Vec<Vec<T>>,
    last_bucket: usize,
    held: Ghost<Multiset<(u64, T)>>,
}

impl<T> View for BucketQueue<T> {
    type V = BucketModel<T>;

    closed spec fn view(&self) -> BucketModel<T> {
        BucketModel {
            buckets: Seq::new(self.queue@.len(), |p: int| self.queue@[p]@),
            cursor: self.last_bucket as nat,
        }
    }
}

impl<T> BucketQueue<T> {
    /// The entries held, each an item with the priority of its bucket.
    pub closed spec fn held(&self) -> Multiset<(u64, T)> {
        self.held@
    }

    /// Representation invariant: the model is well formed and the entries
    /// are exactly the items of the buckets.
    pub closed spec fn inv(&self) -> bool {
        &&& self@.wf()
        &&& self.queue@.len() <= usize::MAX
        &&& forall|p: u64, item: T| #[trigger]
            self.held@.count((p, item)) == self@.count(p as nat, item)
    }

    /// In a well-formed queue the entries are the items of the buckets.
    pub proof fn lemma_held_counts(&self, p: u64, item: T)
        requires
            self.inv(),
        ensures
            self@.wf(),
            self.held().count((p, item)) == self@.count(p as nat, item),
    {
    }

    /// Creates a queue for the priorities `0..=max_priority`.
    pub fn new(max_priority: usize) -> (q: BucketQueue<T>)
        requires
            max_priority < usize::MAX,
        ensures
            q.inv(),
            q@ == BucketModel::<T>::empty(max_priority as nat),
            q.held() == Multiset::<(u64, T)>::empty(),
    {
        let mut queue: Vec<Vec<T>> = Vec::new();
        let mut i: usize = 0;
        while i <= max_priority
            invariant
                i <= max_priority + 1,
                max_priority < usize::MAX,
                queue@.len() == i,
                forall|p: int| 0 <= p < i ==> (#[trigger] queue@[p])@ == Seq::<T>::empty(),
            decreases max_priority + 1 - i,
        {
            queue.push(Vec::new());
            i += 1;
        }
        let q = BucketQueue { queue, last_bucket: 0, held: Ghost(Multiset::empty()) };
        proof {
            broadcast use vstd::multiset::group_multiset_axioms;

            assert(q@.buckets =~= BucketModel::<T>::empty(max_priority as nat).buckets);
            assert forall|p: u64, item: T| #[trigger]
                q.held@.count((p, item)) == q@.count(p as nat, item) by {
                if p < q@.buckets.len() {
                    assert(q@.buckets[p as int] =~= Seq::<T>::empty());
                    to_multiset_len(q@.buckets[p as int]);
                    vstd::multiset::axiom_count_le_len(q@.buckets[p as int].to_multiset(), item);
                }
            }
        }
        q
    }

    /// Puts `item` into the bucket of priority `bucket`.
    ///
    /// The priority must not lie below the cursor: a queue that has handed
    /// out an item of some priority no longer takes lower ones.
    pub fn insert(&mut self, bucket: usize, item: T)
        requires
            old(self).inv(),
            old(self)@.cursor <= bucket <= old(self)@.max_priority(),
        ensures
            final(self).inv(),
            final(self)@ == old(self)@.inserted(bucket as nat, item),
            final(self).held() == old(self).held().insert((bucket as u64, item)),
    {
        let ghost before = self@;
        self.queue[bucket].push(item);
        self.held = Ghost(self.held@.insert((bucket as u64, item)));
        proof {
            broadcast use vstd::multiset::group_multiset_axioms;

            assert(self@.buckets =~= before.inserted(bucket as nat, item).buckets);
            assert forall|p: u64, x: T| #[trigger]
                self.held@.count((p, x)) == self@.count(p as nat, x) by {
                old(self).lemma_held_counts(p, x);
                if p == bucket {
                    to_multiset_build(before.buckets[bucket as int], item);
                }
            }
        }
    }

    /// Takes an item of lowest priority out of the queue, or returns `None`
    /// when the queue holds nothing. The cursor moves up to the bucket the
    /// item came from.
    pub fn pop(&mut self) -> (r: Option<T>)
        requires
            old(self).inv(),
        ensures
            final(self).inv(),
            final(self)@ == old(self)@.popped(),
            match (r, old(self)@.front()) {
                (Some(item), Some(f)) => item == f.1 && final(self).held() == old(
                    self,
                ).held().remove((f.0 as u64, item)) && old(self).held().count((f.0 as u64, item))
                    > 0,
                (None, None) => final(self).held() == old(self).held(),
                _ => false,
            },
            r.is_none() <==> old(self).held().len() == 0,
            forall|o: (u64, T)| #[trigger]
                old(self).held().count(o) > 0 ==> final(self)@.cursor <= o.0,
    {
        let ghost before = self@;
        let mut i: usize = self.last_bucket;
        while i < self.queue.len() && self.queue[i].len() == 0
            invariant
                self.last_bucket <= i <= self.queue.len(),
                *self == *old(self),
                before.first_occupied(self.last_bucket as nat) == before.first_occupied(i as nat),
                before == self@,
                forall|p: int| 0 <= p < i ==> (#[trigger] before.buckets[p]).len() == 0,
                self.inv(),
            decreases self.queue.len() - i,
        {
            i += 1;
        }
        proof {
            broadcast use vstd::multiset::group_multiset_axioms;

            assert forall|o: (u64, T)| #[trigger] self.held@.count(o) > 0 implies i <= o.0 by {
                self.lemma_held_counts(o.0, o.1);
                if o.0 < i {
                    to_multiset_len(before.buckets[o.0 as int]);
                    vstd::multiset::axiom_count_le_len(
                        before.buckets[o.0 as int].to_multiset(),
                        o.1,
                    );
                }
            }
        }
        if i == self.queue.len() {
            proof {
                broadcast use vstd::multiset::group_multiset_axioms;

                assert forall|o: (u64, T)| self.held@.count(o) == 0 by {
                    self.lemma_held_counts(o.0, o.1);
                }
                assert(self.held@ =~= Multiset::<(u64, T)>::empty());
            }
            None
        } else {
            let item = self.queue[i].swap_remove(0);
            self.last_bucket = i;
            self.held = Ghost(self.held@.remove((i as u64, item)));
            proof {
                broadcast use vstd::multiset::group_multiset_axioms;

                let b = before.buckets[i as int];
                lemma_swap_remove_front(b);
                assert(self@.buckets =~= before.popped().buckets);
                to_multiset_len(b);
                assert(b.to_multiset().count(b[0]) > 0) by {
                    vstd::seq_lib::to_multiset_contains(b, b[0]);
                    assert(b.contains(b[0]));
                }
                old(self).lemma_held_counts(i as u64, item);
                assert forall|p: u64, x: T| #[trigger]
                    self.held@.count((p, x)) == self@.count(p as nat, x) by {
                    old(self).lemma_held_counts(p, x);
                }
                assert(old(self).held@.len() > 0) by {
                    vstd::multiset::axiom_count_le_len(old(self).held@, (i as u64, item));
                }
            }
            Some(item)
        }
    }

    /// The cursor: the priority of the item handed out last, and the lowest
    /// priority that may still be inserted.
    pub fn cursor(&self) -> (c: usize)
        ensures
            c == self@.cursor,
    {
        self.last_bucket
    }

    /// Highest priority the queue can hold.
    pub fn max_priority(&self) -> (m: usize)
        requires
            self.inv(),
        ensures
            m == self@.max_priority(),
    {
        self.queue.len() - 1
    }
}

impl<T> Frontier<T> for BucketQueue<T> {
    open spec fn entries(&self) -> Multiset<(u64, T)> {
        self.held()
    }

    open spec fn wf(&self) -> bool {
        self.inv()
    }

    open spec fn is_monotone(&self) -> bool {
        true
    }

    open spec fn floor(&self) -> u64 {
        self@.cursor as u64
    }

    open spec fn ceiling(&self) -> u64 {
        self@.max_priority() as u64
    }

    fn limit(&self) -> (r: u64) {
        self.max_priority() as u64
    }

    fn push(&mut self, priority: u64, item: T) {
        self.insert(priority as usize, item);
    }

    fn pop_min(&mut self) -> (r: Option<(u64, T)>) {
        proof {
            self@.lemma_front_is_min();
            self@.lemma_popped();
        }
        match self.pop() {
            None => None,
            Some(item) => Some((self.last_bucket as u64, item)),
        }
    }
}

} // verus!
