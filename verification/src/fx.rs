//! Hash maps with the Fx hasher, as far as this crate uses them.
//!
//! The map type is std's `HashMap`; what comes from `rustc_hash` is the
//! hasher it is built with. The functions here are the boundary: their
//! contracts are taken on trust.

use vstd::prelude::*;
use rustc_hash::{FxBuildHasher, FxHashMap};

verus! {

/// `rustc_hash::FxBuildHasher`, the hasher factory of an `FxHashMap`.
#[verifier::external_type_specification]
#[verifier::external_body]
pub struct ExFxBuildHasher(FxBuildHasher);

/// The maps of this crate: from one `u64` to another.
pub type FxTable = FxHashMap<u64, u64>;

/// Calls `FxHashMap::default`. Trusted: the new map holds no entry.
#[verifier::external_body]
pub(crate) fn fx_new() -> (fresh: FxTable)
    ensures
        fresh@ =~= Map::empty(),
{
    FxHashMap::default()
}

/// Calls `HashMap::get` on an `FxHashMap`. Trusted: the result is the value
/// stored under `key`, or `None` when the map has no such key. This rests on
/// `FxBuildHasher` handing out hashers that hash equal keys alike, which its
/// source shows: every hasher starts from the same fixed state.
#[verifier::external_body]
pub(crate) fn fx_get(m: &FxTable, key: u64) -> (r: Option<u64>)
    ensures
        r == (if m@.contains_key(key) {
            Some(m@[key])
        } else {
            None
        }),
{
    m.get(&key).copied()
}

/// Calls `HashMap::insert` on an `FxHashMap`. Trusted: afterwards the map
/// holds `value` under `key` and is otherwise unchanged.
#[verifier::external_body]
pub(crate) fn fx_insert(m: &mut FxTable, key: u64, value: u64)
    ensures
        final(m)@ == old(m)@.insert(key, value),
{
    m.insert(key, value);
}

} // verus!
