//! The node store: a generational slot table of the `slotmap` crate, seen
//! through the map of handles to node descriptions that it holds.

use vstd::prelude::*;
use slotmap::{DefaultKey, Key, KeyData, SlotMap};
use crate::node::NodeInfo;
use crate::port::NodeKey;

verus! {

/// A `slotmap::SlotMap` of node descriptions. Verus is shown only the map of
/// key encodings to entries and the enumeration order, through the functions
/// below.
#[verifier::external_body]
pub struct NodeStore {
    map: SlotMap<DefaultKey, NodeInfo>,
}

/// The table's entries, keyed by the 64-bit encoding of their keys.
pub uninterp spec fn slot_contents(m: NodeStore) -> Map<u64, NodeInfo>;

/// The order in which the table enumerates its keys (by slot index).
pub uninterp spec fn slot_order(m: NodeStore) -> Seq<u64>;

pub open spec fn no_entries() -> Map<u64, NodeInfo> {
    Map::empty()
}

/// The encoding of a live key: an occupied slot's generation is odd, and the
/// generation is the high half of the encoding.
pub open spec fn key_wf(id: u64) -> bool {
    (id >> 32u64) & 1u64 == 1u64
}

/// Whether `id` is an encoding that a live key can have.
pub fn is_key_encoding(id: u64) -> (r: bool)
    ensures
        r == key_wf(id),
{
    (id >> 32u64) & 1u64 == 1u64
}

/// Relies on `SlotMap::with_key`: a new table is empty.
#[verifier::external_body]
pub(crate) fn store_new() -> (r: NodeStore)
    ensures
        slot_contents(r) == no_entries(),
{
    NodeStore { map: SlotMap::with_key() }
}

/// Relies on `SlotMap::insert` and `KeyData::as_ffi`: the value is stored under
/// a key that no live entry has, and that key's encoding is returned. Insertion
/// panics only when every one of the `u32::MAX` slots but the reserved first is
/// taken.
#[verifier::external_body]
pub(crate) fn store_insert(m: &mut NodeStore, v: NodeInfo) -> (r: NodeKey)
    requires
        slot_contents(*old(m)).dom().finite(),
        slot_contents(*old(m)).dom().len() < 4294967294,
    ensures
        key_wf(r.id),
        !slot_contents(*old(m)).contains_key(r.id),
        slot_contents(*final(m)) == slot_contents(*old(m)).insert(r.id, v),
{
    NodeKey { id: m.map.insert(v).data().as_ffi() }
}

/// Relies on `SlotMap::get` and `KeyData::from_ffi`: for a live key's
/// encoding, the entry stored under that key if there is one.
#[verifier::external_body]
pub(crate) fn store_get(m: &NodeStore, k: NodeKey) -> (r: Option<&NodeInfo>)
    ensures
        key_wf(k.id) ==> (r.is_some() <==> slot_contents(*m).contains_key(k.id)),
        key_wf(k.id) && r.is_some() ==> *r.unwrap() == slot_contents(*m)[k.id],
{
    let key: DefaultKey = KeyData::from_ffi(k.id).into();
    m.map.get(key)
}

/// Relies on `SlotMap::remove` and `KeyData::from_ffi`: for a live key's
/// encoding, the entry under that key, if any, leaves the table.
#[verifier::external_body]
pub(crate) fn store_remove(m: &mut NodeStore, k: NodeKey)
    ensures
        key_wf(k.id) ==> slot_contents(*final(m)) == slot_contents(*old(m)).remove(k.id),
{
    let key: DefaultKey = KeyData::from_ffi(k.id).into();
    m.map.remove(key);
}

/// Relies on `SlotMap::clear`: no entry is left.
#[verifier::external_body]
pub(crate) fn store_clear(m: &mut NodeStore)
    ensures
        slot_contents(*final(m)) == no_entries(),
{
    m.map.clear()
}

/// Relies on `SlotMap::keys` and `KeyData::as_ffi`: each live key once, in the
/// table's slot order.
#[verifier::external_body]
pub(crate) fn store_keys(m: &NodeStore) -> (r: Vec<NodeKey>)
    ensures
        r@.len() == slot_order(*m).len(),
        forall|i: int| 0 <= i < r@.len() ==> #[trigger] r@[i].id == slot_order(*m)[i],
        forall|i: int| 0 <= i < r@.len() ==> key_wf(#[trigger] r@[i].id),
        forall|i: int| 0 <= i < r@.len() ==> slot_contents(*m).contains_key(#[trigger] r@[i].id),
        forall|id: u64| #[trigger] slot_contents(*m).contains_key(id) ==> exists|i: int| 0 <= i < r@.len() && r@[i].id == id,
        forall|i: int, j: int| 0 <= i < j < r@.len() ==> #[trigger] r@[i].id != #[trigger] r@[j].id,
{
    m.map.keys().map(|k| NodeKey { id: k.data().as_ffi() }).collect()
}

} // verus!
