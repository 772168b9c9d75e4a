//! The capability a search needs from its frontier: hold prioritised items
//! and hand back one of lowest priority.

use vstd::prelude::*;
use vstd::multiset::Multiset;

verus! {

/// A min-priority frontier of items of type `T`.
///
/// The model is the multiset of `(priority, item)` entries held. A frontier
/// may be *monotone*: it then only accepts priorities at or above its floor,
/// the priority of the entry it last handed out.
pub trait Frontier<T>: Sized {
    /// The entries held.
    spec fn entries(&self) -> Multiset<(u64, T)>;

    /// Representation invariant.
    spec fn wf(&self) -> bool;

    /// Whether pushes are restricted to priorities at or above the floor.
    spec fn is_monotone(&self) -> bool;

    /// Lowest priority a monotone frontier still accepts.
    spec fn floor(&self) -> u64;

    /// Highest priority the frontier can hold.
    spec fn ceiling(&self) -> u64;

    /// The highest priority the frontier can hold.
    fn limit(&self) -> (r: u64)
        requires
            self.wf(),
        ensures
            r == self.ceiling(),
    ;

    /// Adds the entry `(priority, item)`.
    fn push(&mut self, priority: u64, item: T)
        requires
            old(self).wf(),
            priority <= old(self).ceiling(),
            old(self).is_monotone() ==> old(self).floor() <= priority,
        ensures
            final(self).wf(),
            final(self).entries() == old(self).entries().insert((priority, item)),
            final(self).is_monotone() == old(self).is_monotone(),
            final(self).floor() == old(self).floor(),
            final(self).ceiling() == old(self).ceiling(),
    ;

    /// Removes and returns an entry of lowest priority, or `None` when no
    /// entry is held.
    fn pop_min(&mut self) -> (r: Option<(u64, T)>)
        requires
            old(self).wf(),
        ensures
            final(self).wf(),
            final(self).is_monotone() == old(self).is_monotone(),
            final(self).ceiling() == old(self).ceiling(),
            r.is_none() <==> old(self).entries().len() == 0,
            match r {
                None => {
                    &&& final(self).entries() == old(self).entries()
                    &&& final(self).floor() == old(self).floor()
                },
                Some(e) => {
                    &&& old(self).entries().count(e) > 0
                    &&& final(self).entries() == old(self).entries().remove(e)
                    &&& forall|o: (u64, T)| #[trigger]
                        old(self).entries().count(o) > 0 ==> e.0 <= o.0
                    &&& final(self).floor() <= e.0
                    &&& e.0 <= final(self).ceiling()
                },
            },
    ;
}

} // verus!
