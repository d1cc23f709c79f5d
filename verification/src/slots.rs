//! The slot map that stores node records, seen through trusted wrappers.
use vstd::prelude::*;
use slotmap::{DefaultKey, Key, KeyData, SecondaryMap, SlotMap};
use crate::node::{NodeId, NodeRecord, key_bits_valid};
use crate::patches::{PropertyKeyDef, PropertyMeta};

verus! {

/// A `slotmap::SlotMap` of node records under default keys. Verus sees nothing of it but
/// what the wrappers below state.
#[verifier::external_body]
pub struct NodeSlots {
    inner: SlotMap<DefaultKey, NodeRecord>,
}

/// The records a slot map holds, by the handle (`KeyData::as_ffi`) of their key.
pub uninterp spec fn node_slots(m: NodeSlots) -> Map<NodeId, NodeRecord>;

/// `SlotMap::with_key`: a map that holds nothing.
#[verifier::external_body]
pub(crate) fn slots_new() -> (r: NodeSlots)
    ensures
        node_slots(r).dom().is_empty(),
{
    NodeSlots { inner: SlotMap::with_key() }
}

/// `SlotMap::len`: the number of records held.
#[verifier::external_body]
pub(crate) fn slots_len(m: &NodeSlots) -> (r: usize)
    ensures
        r == node_slots(*m).len(),
{
    m.inner.len()
}

/// `SlotMap::insert`: stores `v` under a key that was not in use and returns the key's handle,
/// whose version half is odd. It panics only when the map already holds 2^32 - 2 records, which the
/// `requires` rules out.
#[verifier::external_body]
pub(crate) fn slots_insert(m: &mut NodeSlots, v: NodeRecord) -> (r: u64)
    requires
        node_slots(*old(m)).len() + 2 <= u32::MAX,
    ensures
        key_bits_valid(r),
        !node_slots(*old(m)).dom().contains(NodeId { bits: r }),
        node_slots(*final(m)) == node_slots(*old(m)).insert(NodeId { bits: r }, v),
{
    m.inner.insert(v).data().as_ffi()
}

/// `SlotMap::get`: the record stored under `id`, if any.
#[verifier::external_body]
pub(crate) fn slots_get(m: &NodeSlots, id: NodeId) -> (r: Option<&NodeRecord>)
    ensures
        r is Some <==> node_slots(*m).dom().contains(id),
        r is Some ==> *r->0 == node_slots(*m)[id],
{
    m.inner.get(KeyData::from_ffi(id.bits).into())
}

/// `SlotMap` indexing for writing: the record stored under `id`, which must be there.
#[verifier::external_body]
pub(crate) fn slots_index_mut(m: &mut NodeSlots, id: NodeId) -> (r: &mut NodeRecord)
    requires
        node_slots(*old(m)).dom().contains(id),
    ensures
        *r == node_slots(*old(m))[id],
        node_slots(*final(m)) == node_slots(*old(m)).insert(id, *final(r)),
{
    &mut m.inner[KeyData::from_ffi(id.bits).into()]
}

/// `SlotMap::remove`: takes out the record stored under `id`, if any.
#[verifier::external_body]
pub(crate) fn slots_remove(m: &mut NodeSlots, id: NodeId) -> (r: Option<NodeRecord>)
    ensures
        r is Some <==> node_slots(*old(m)).dom().contains(id),
        r is Some ==> r->0 == node_slots(*old(m))[id] && node_slots(*final(m)) == node_slots(*old(m)).remove(id),
        r is None ==> node_slots(*final(m)) == node_slots(*old(m)),
{
    m.inner.remove(KeyData::from_ffi(id.bits).into())
}

/// The slot index half of a key handle (its low 32 bits).
pub open spec fn slot_index(bits: u64) -> int {
    (bits % 0x1_0000_0000) as int
}

/// A `slotmap::SlotMap` of property keys under default keys. Verus sees nothing of it but what
/// the wrappers below state.
#[verifier::external_body]
pub struct PropertySlots {
    inner: SlotMap<DefaultKey, PropertyKeyDef>,
}

/// The property keys a slot map holds, by the handle (`KeyData::as_ffi`) of their slot key.
pub uninterp spec fn property_keys(m: PropertySlots) -> Map<u64, PropertyKeyDef>;

/// `SlotMap::with_key`: a map of property keys that holds nothing.
#[verifier::external_body]
pub(crate) fn keys_new() -> (r: PropertySlots)
    ensures
        property_keys(r).dom().is_empty(),
{
    PropertySlots { inner: SlotMap::with_key() }
}

/// `SlotMap::insert`: stores `v` in a slot that no key in use occupies and returns the handle of
/// the new key: its version half is odd and its slot index is below `u32::MAX` (that index marks
/// the null key). It panics only when the map already holds 2^32 - 2 keys, which the `requires`
/// rules out.
#[verifier::external_body]
pub(crate) fn keys_insert(m: &mut PropertySlots, v: PropertyKeyDef) -> (r: u64)
    requires
        property_keys(*old(m)).len() + 2 <= u32::MAX,
    ensures
        key_bits_valid(r),
        slot_index(r) < u32::MAX,
        forall|k: u64| #[trigger] property_keys(*old(m)).contains_key(k) ==> slot_index(k) != slot_index(r),
        property_keys(*final(m)) == property_keys(*old(m)).insert(r, v),
{
    m.inner.insert(v).data().as_ffi()
}

/// `SlotMap::get`: the property key stored under the handle `id`, if any.
#[verifier::external_body]
pub(crate) fn keys_get(m: &PropertySlots, id: u64) -> (r: Option<&PropertyKeyDef>)
    requires
        key_bits_valid(id),
    ensures
        r is Some <==> property_keys(*m).contains_key(id),
        r is Some ==> *r->0 == property_keys(*m)[id],
{
    m.inner.get(KeyData::from_ffi(id).into())
}

/// A `slotmap::SecondaryMap` of property metadata under default keys. Verus sees nothing of it
/// but what the wrappers below state.
#[verifier::external_body]
pub struct MetaSlots {
    inner: SecondaryMap<DefaultKey, PropertyMeta>,
}

/// The metadata a secondary map holds, by the handle (`KeyData::as_ffi`) of its key.
pub uninterp spec fn property_metas(m: MetaSlots) -> Map<u64, PropertyMeta>;

/// `SecondaryMap::new`: a secondary map that holds nothing.
#[verifier::external_body]
pub(crate) fn metas_new() -> (r: MetaSlots)
    ensures
        property_metas(r).dom().is_empty(),
{
    MetaSlots { inner: SecondaryMap::new() }
}

/// `SecondaryMap::insert`: stores `v` under the key with handle `id`, replacing what that key held.
/// The key is not null, and no other key held in the map shares its slot index: the slot is then
/// either empty or already holds this very key, and the insert takes place in both cases.
#[verifier::external_body]
pub(crate) fn metas_insert(m: &mut MetaSlots, id: u64, v: PropertyMeta)
    requires
        key_bits_valid(id),
        slot_index(id) < u32::MAX,
        forall|k: u64| #[trigger] property_metas(*old(m)).contains_key(k) && slot_index(k) == slot_index(id) ==> k == id,
    ensures
        property_metas(*final(m)) == property_metas(*old(m)).insert(id, v),
{
    m.inner.insert(KeyData::from_ffi(id).into(), v);
}

/// `SecondaryMap::get`: the metadata held under the handle `id`, if any, copied out.
#[verifier::external_body]
pub(crate) fn metas_get(m: &MetaSlots, id: u64) -> (r: Option<PropertyMeta>)
    requires
        key_bits_valid(id),
    ensures
        r is Some <==> property_metas(*m).contains_key(id),
        r is Some ==> r->0 == property_metas(*m)[id],
{
    m.inner.get(KeyData::from_ffi(id).into()).copied()
}

} // verus!
