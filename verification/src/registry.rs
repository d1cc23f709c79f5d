//! The property registry: interned property keys with their value kind and dirty class.
use std::collections::HashMap;
use vstd::prelude::*;
use vstd::std_specs::hash::{axiom_spec_hash_map_iter, spec_hash_map_iter};
use vstd::std_specs::iter::IteratorSpec;
use crate::flags::{DirtyFlags, has_bit};
use crate::node::key_bits_valid;
use crate::patches::{CustomPropertyKey, PropertyKeyDef, PropertyKeyView, PropertyMeta, StateError, ValueKind, first_keys};
use crate::slots::{
    MetaSlots, PropertySlots, keys_get, keys_insert, keys_new, metas_get, metas_insert, metas_new,
    property_keys, property_metas, slot_index,
};

verus! {

broadcast use vstd::std_specs::hash::group_hash_axioms;

/// A copy of the key `k`, equal to it.
fn copy_key(k: &PropertyKeyDef) -> (r: PropertyKeyDef)
    ensures
        r == *k,
{
    match k {
        PropertyKeyDef::Node(p) => PropertyKeyDef::Node(*p),
        PropertyKeyDef::Div(p) => PropertyKeyDef::Div(*p),
        PropertyKeyDef::Text(p) => PropertyKeyDef::Text(*p),
        PropertyKeyDef::Img(p) => PropertyKeyDef::Img(*p),
        PropertyKeyDef::Custom(c) => PropertyKeyDef::Custom(
            CustomPropertyKey { namespace: c.namespace.clone(), name: c.name.clone() },
        ),
    }
}

/// Whether the keys `a` and `b` stand for the same property.
fn same_key(a: &PropertyKeyDef, b: &PropertyKeyDef) -> (r: bool)
    ensures
        r == (a@ == b@),
{
    match (a, b) {
        (PropertyKeyDef::Node(p), PropertyKeyDef::Node(q)) => *p == *q,
        (PropertyKeyDef::Div(p), PropertyKeyDef::Div(q)) => *p == *q,
        (PropertyKeyDef::Text(p), PropertyKeyDef::Text(q)) => *p == *q,
        (PropertyKeyDef::Img(p), PropertyKeyDef::Img(q)) => *p == *q,
        (PropertyKeyDef::Custom(c), PropertyKeyDef::Custom(d)) => c.namespace == d.namespace && c.name == d.name,
        _ => false,
    }
}

/// Whether `id` is a well-formed key handle (its version half is odd).
fn handle_is_valid(id: u64) -> (r: bool)
    ensures
        r == key_bits_valid(id),
{
    (id / 0x1_0000_0000u64) % 2 == 1
}

/// Interned property keys: each key gets one handle, under which the registry also keeps the
/// property's metadata.
pub struct PropertyRegistry {
    keys: PropertySlots,
    key_index: Vec<(PropertyKeyDef, u64)>,
    meta: MetaSlots,
}

impl PropertyRegistry {
    /// Whether some entry of the key index stands for the property `k`.
    spec fn indexed(&self, k: PropertyKeyView) -> bool {
        exists|i: int| 0 <= i < self.key_index@.len() && (#[trigger] self.key_index@[i]).0@ == k
    }

    /// The handle of each interned property.
    pub closed spec fn ids(&self) -> Map<PropertyKeyView, u64> {
        Map::new(
            |k: PropertyKeyView| self.indexed(k),
            |k: PropertyKeyView|
                self.key_index@[choose|i: int| 0 <= i < self.key_index@.len() && (#[trigger] self.key_index@[i]).0@ == k].1,
        )
    }

    /// The metadata kept under each handle.
    pub closed spec fn metas(&self) -> Map<u64, PropertyMeta> {
        property_metas(self.meta)
    }

    /// The key index lists each interned key once, under a distinct live handle of the slot map,
    /// and the slot map holds nothing else; metadata is kept only under live handles.
    pub closed spec fn wf(&self) -> bool {
        let ix = self.key_index@;
        let keys = property_keys(self.keys);
        &&& forall|i: int, j: int|
            0 <= i < ix.len() && 0 <= j < ix.len() && i != j ==> (#[trigger] ix[i]).0@ != (#[trigger] ix[j]).0@
        &&& forall|i: int| 0 <= i < ix.len() ==> keys.contains_key((#[trigger] ix[i]).1) && keys[ix[i].1]@ == ix[i].0@
        &&& forall|i: int, j: int|
            0 <= i < ix.len() && 0 <= j < ix.len() && i != j ==> (#[trigger] ix[i]).1 != (#[trigger] ix[j]).1
        &&& forall|id: u64| #[trigger] keys.contains_key(id) ==> exists|i: int| 0 <= i < ix.len() && (#[trigger] ix[i]).1 == id
        &&& forall|id: u64| #[trigger] keys.contains_key(id) ==> key_bits_valid(id) && slot_index(id) < u32::MAX
        &&& forall|a: u64, b: u64|
            #[trigger] keys.contains_key(a) && #[trigger] keys.contains_key(b) && slot_index(a) == slot_index(b) ==> a == b
        &&& forall|id: u64| #[trigger] self.metas().contains_key(id) ==> keys.contains_key(id)
        &&& keys.dom().finite()
        &&& keys.len() == ix.len()
        &&& self.ids().dom().finite()
        &&& self.ids().len() == ix.len()
    }

    /// The entry of the key index at `i` gives the handle of its key.
    proof fn lemma_entry(&self, i: int)
        requires
            self.wf(),
            0 <= i < self.key_index@.len(),
        ensures
            self.ids().contains_key(self.key_index@[i].0@),
            self.ids()[self.key_index@[i].0@] == self.key_index@[i].1,
    {
        let k = self.key_index@[i].0@;
        assert(self.indexed(k));
        let j = choose|j: int| 0 <= j < self.key_index@.len() && (#[trigger] self.key_index@[j]).0@ == k;
        assert(j == i);
    }

    /// Distinct interned properties have distinct handles.
    pub proof fn lemma_ids_injective(&self)
        requires
            self.wf(),
        ensures
            forall|a: PropertyKeyView, b: PropertyKeyView|
                #[trigger] self.ids().contains_key(a) && #[trigger] self.ids().contains_key(b) && a != b ==> self.ids()[a]
                    != self.ids()[b],
    {
        assert forall|a: PropertyKeyView, b: PropertyKeyView|
            #[trigger] self.ids().contains_key(a) && #[trigger] self.ids().contains_key(b) && a != b implies self.ids()[a]
                != self.ids()[b] by {
            let i = choose|i: int| 0 <= i < self.key_index@.len() && (#[trigger] self.key_index@[i]).0@ == a;
            let j = choose|j: int| 0 <= j < self.key_index@.len() && (#[trigger] self.key_index@[j]).0@ == b;
            assert(self.indexed(a) && self.indexed(b));
            self.lemma_entry(i);
            self.lemma_entry(j);
        }
    }

    /// A registry with no properties.
    pub fn new() -> (r: Self)
        ensures
            r.wf(),
            r.ids() == Map::<PropertyKeyView, u64>::empty(),
            r.metas() == Map::<u64, PropertyMeta>::empty(),
    {
        let r = PropertyRegistry { keys: keys_new(), key_index: Vec::new(), meta: metas_new() };
        proof {
            assert(r.ids() =~= Map::<PropertyKeyView, u64>::empty());
            assert(r.metas() =~= Map::<u64, PropertyMeta>::empty());
            assert(property_keys(r.keys) =~= Map::<u64, PropertyKeyDef>::empty());
        }
        r
    }

    /// The handle of `key`, interning it under a fresh handle if it is new; `meta` becomes the
    /// property's metadata either way.
    pub fn intern(&mut self, key: PropertyKeyDef, meta: PropertyMeta) -> (r: u64)
        requires
            old(self).wf(),
            old(self).ids().len() + 2 <= u32::MAX,
        ensures
            final(self).wf(),
            old(self).ids().contains_key(key@) ==> r == old(self).ids()[key@] && final(self).ids() == old(self).ids(),
            !old(self).ids().contains_key(key@) ==> (forall|k: PropertyKeyView|
                #[trigger] old(self).ids().contains_key(k) ==> old(self).ids()[k] != r) && final(self).ids()
                == old(self).ids().insert(key@, r),
            final(self).metas() == old(self).metas().insert(r, meta),
            final(self).ids().len() <= old(self).ids().len() + 1,
    {
        let ghost ix0 = self.key_index@;
        let ghost keys0 = property_keys(self.keys);
        let mut i: usize = 0;
        while i < self.key_index.len()
            invariant
                self.wf(),
                self.key_index@ == ix0,
                *self == *old(self),
                0 <= i <= self.key_index@.len(),
                forall|j: int| 0 <= j < i ==> (#[trigger] self.key_index@[j]).0@ != key@,
            decreases self.key_index@.len() - i,
        {
            if same_key(&self.key_index[i].0, &key) {
                let id = self.key_index[i].1;
                proof {
                    self.lemma_entry(i as int);
                    self.lemma_meta_slot(id);
                }
                let ghost before = *self;
                metas_insert(&mut self.meta, id, meta);
                proof {
                    assert(self.ids() == before.ids());
                    assert forall|x: u64| #[trigger] self.metas().contains_key(x) implies property_keys(self.keys).contains_key(x) by {
                        if x != id {
                            assert(before.metas().contains_key(x));
                        }
                    }
                }
                return id;
            }
            i += 1;
        }
        proof {
            assert(!old(self).ids().contains_key(key@));
        }
        let stored = copy_key(&key);
        let id = keys_insert(&mut self.keys, stored);
        self.key_index.push((key, id));
        proof {
            assert forall|k: u64| #[trigger] property_metas(self.meta).contains_key(k) && slot_index(k) == slot_index(id) implies k == id by {
                assert(old(self).metas().contains_key(k));
                assert(keys0.contains_key(k));
            }
        }
        metas_insert(&mut self.meta, id, meta);
        proof {
            let ix = self.key_index@;
            let n = ix0.len() as int;
            assert(ix[n] == (key, id));
            assert forall|k: PropertyKeyView| #[trigger] old(self).ids().contains_key(k) implies old(self).ids()[k] != id by {
                let j = choose|j: int| 0 <= j < n && (#[trigger] ix0[j]).0@ == k;
                old(self).lemma_entry(j);
            }
            assert forall|k: PropertyKeyView| self.indexed(k) == (old(self).indexed(k) || k == key@) by {
                if self.indexed(k) && k != key@ {
                    let j = choose|j: int| 0 <= j < ix.len() && (#[trigger] ix[j]).0@ == k;
                    assert(j < n);
                    assert(ix0[j] == ix[j]);
                }
                if old(self).indexed(k) {
                    let j = choose|j: int| 0 <= j < n && (#[trigger] ix0[j]).0@ == k;
                    assert(ix[j] == ix0[j]);
                }
                if k == key@ {
                    assert(ix[n].0@ == k);
                }
            }
            assert forall|a: int, b: int|
                0 <= a < ix.len() && 0 <= b < ix.len() && a != b implies (#[trigger] ix[a]).1 != (#[trigger] ix[b]).1 by {
                if a < n && b < n {
                    assert(ix[a] == ix0[a] && ix[b] == ix0[b]);
                } else if a == n {
                    assert(ix[b] == ix0[b]);
                    assert(keys0.contains_key(ix0[b].1));
                } else {
                    assert(ix[a] == ix0[a]);
                    assert(keys0.contains_key(ix0[a].1));
                }
            }
            assert forall|a: int, b: int|
                0 <= a < ix.len() && 0 <= b < ix.len() && a != b implies (#[trigger] ix[a]).0@ != (#[trigger] ix[b]).0@ by {
                if a < n && b < n {
                    assert(ix[a] == ix0[a] && ix[b] == ix0[b]);
                } else if a == n {
                    assert(ix[b] == ix0[b]);
                } else {
                    assert(ix[a] == ix0[a]);
                }
            }
            let keys = property_keys(self.keys);
            assert forall|a: int| 0 <= a < ix.len() implies keys.contains_key((#[trigger] ix[a]).1) && keys[ix[a].1]@ == ix[a].0@ by {
                if a < n {
                    assert(ix[a] == ix0[a]);
                    assert(keys0.contains_key(ix0[a].1));
                }
            }
            assert forall|x: u64| #[trigger] keys.contains_key(x) implies exists|a: int| 0 <= a < ix.len() && (#[trigger] ix[a]).1 == x by {
                if x == id {
                    assert(ix[n].1 == x);
                } else {
                    assert(keys0.contains_key(x));
                    let a = choose|a: int| 0 <= a < n && (#[trigger] ix0[a]).1 == x;
                    assert(ix[a] == ix0[a]);
                }
            }
            assert forall|k: PropertyKeyView| #[trigger] self.ids().contains_key(k) implies self.ids()[k] == old(self).ids().insert(key@, id)[k] by {
                let j = choose|j: int| 0 <= j < ix.len() && (#[trigger] ix[j]).0@ == k;
                assert(self.indexed(k));
                assert(0 <= j < ix.len() && ix[j].0@ == k);
                if k == key@ {
                    assert(j == n) by {
                        if j != n {
                            assert(ix[j].0@ != ix[n].0@);
                        }
                    }
                } else {
                    assert(j < n);
                    assert(ix0[j] == ix[j]);
                    old(self).lemma_entry(j);
                }
            }
            assert(self.ids() =~= old(self).ids().insert(key@, id));
            assert forall|x: u64| #[trigger] self.metas().contains_key(x) implies keys.contains_key(x) by {
                if x != id {
                    assert(old(self).metas().contains_key(x));
                    assert(keys0.contains_key(x));
                }
            }
        }
        id
    }

    /// The key stored under handle `id`, if `id` is the handle of an interned property.
    pub fn resolve_key(&self, id: u64) -> (r: Option<&PropertyKeyDef>)
        requires
            self.wf(),
        ensures
            r is Some <==> exists|k: PropertyKeyView| #[trigger] self.ids().contains_key(k) && self.ids()[k] == id,
            r is Some ==> self.ids().contains_key(r->0@) && self.ids()[r->0@] == id,
    {
        if !handle_is_valid(id) {
            proof {
                self.lemma_no_handle(id);
            }
            return None;
        }
        let r = keys_get(&self.keys, id);
        proof {
            let ix = self.key_index@;
            let keys = property_keys(self.keys);
            if keys.contains_key(id) {
                let a = choose|a: int| 0 <= a < ix.len() && (#[trigger] ix[a]).1 == id;
                self.lemma_entry(a);
            } else {
                self.lemma_no_handle(id);
            }
        }
        r
    }

    /// A live handle shares its slot index with no other handle that holds metadata.
    proof fn lemma_meta_slot(&self, id: u64)
        requires
            self.wf(),
            property_keys(self.keys).contains_key(id),
        ensures
            forall|k: u64| #[trigger] property_metas(self.meta).contains_key(k) && slot_index(k) == slot_index(id) ==> k == id,
    {
        assert forall|k: u64| #[trigger] property_metas(self.meta).contains_key(k) && slot_index(k) == slot_index(id) implies k == id by {
            assert(self.metas().contains_key(k));
            assert(property_keys(self.keys).contains_key(k));
        }
    }

    /// No interned property has a handle that is not live in the slot map.
    proof fn lemma_no_handle(&self, id: u64)
        requires
            self.wf(),
            !property_keys(self.keys).contains_key(id),
        ensures
            !exists|k: PropertyKeyView| #[trigger] self.ids().contains_key(k) && self.ids()[k] == id,
    {
        assert forall|k: PropertyKeyView| #[trigger] self.ids().contains_key(k) implies self.ids()[k] != id by {
            let a = choose|a: int| 0 <= a < self.key_index@.len() && (#[trigger] self.key_index@[a]).0@ == k;
            self.lemma_entry(a);
        }
    }

    /// The metadata kept under handle `id`, if any.
    pub fn meta(&self, id: u64) -> (r: Option<PropertyMeta>)
        requires
            self.wf(),
        ensures
            r == (if self.metas().contains_key(id) { Some(self.metas()[id]) } else { None::<PropertyMeta> }),
    {
        if !handle_is_valid(id) {
            return None;
        }
        metas_get(&self.meta, id)
    }

    /// The kind of values of the property with handle `id`, if its metadata is kept.
    pub fn kind(&self, id: u64) -> (r: Option<ValueKind>)
        requires
            self.wf(),
        ensures
            r == (if self.metas().contains_key(id) { Some(self.metas()[id].kind) } else { None::<ValueKind> }),
    {
        match self.meta(id) {
            Some(m) => Some(m.kind),
            None => None,
        }
    }
}

impl Default for PropertyRegistry {
    fn default() -> (r: Self)
        ensures
            r.wf(),
            r.ids() == Map::<PropertyKeyView, u64>::empty(),
            r.metas() == Map::<u64, PropertyMeta>::empty(),
    {
        PropertyRegistry::new()
    }
}

/// Whether some property of `keys` has flag `i` in its metadata `metas`.
pub open spec fn some_marks(keys: Set<u64>, metas: Map<u64, PropertyMeta>, i: int) -> bool {
    exists|k: u64| #[trigger] keys.contains(k) && has_bit(metas[k].dirty@, i)
}

/// Whether every entry of `patch` names a property with metadata whose kind is the entry's kind.
pub open spec fn patch_fits<V>(patch: Map<u64, (ValueKind, V)>, metas: Map<u64, PropertyMeta>) -> bool {
    forall|k: u64| #[trigger] patch.contains_key(k) ==> metas.contains_key(k) && metas[k].kind == patch[k].0
}

/// Whether every entry of `after` is the entry of `before` or a clone of the value `patch` gives.
pub open spec fn patched_from<V: Clone>(after: Map<u64, V>, before: Map<u64, V>, patch: Map<u64, (ValueKind, V)>) -> bool {
    forall|k: u64| #[trigger] after.contains_key(k) ==> (before.contains_key(k) && after[k] == before[k]) || (
    patch.contains_key(k) && cloned(patch[k].1, after[k]))
}

/// Whether a refused patch left `before` as it was outside the patch and at the refused property
/// `refused`: no property is lost, and every entry left is the one of `before` or a clone of the
/// value the patch gives.
pub open spec fn kept_outside<V: Clone>(after: Map<u64, V>, before: Map<u64, V>, patch: Map<u64, (ValueKind, V)>, refused: u64) -> bool {
    &&& before.dom().subset_of(after.dom())
    &&& forall|key: u64|
        (!patch.contains_key(key) || key == refused) ==> (#[trigger] after.contains_key(key)) == before.contains_key(key)
            && (before.contains_key(key) ==> after[key] == before[key])
    &&& patched_from(after, before, patch)
}

/// When the entry at `i` of the walk is refused, the entries before it were written and nothing
/// else: the style is [`kept_outside`] the patch and at the refused property.
proof fn lemma_refused_kept<V: Clone>(
    after: Map<u64, V>,
    before: Map<u64, V>,
    patch: Map<u64, (ValueKind, V)>,
    entries: Seq<(&u64, &(ValueKind, V))>,
    i: int,
)
    requires
        0 <= i < entries.len(),
        entries.no_duplicates(),
        forall|j: int| 0 <= j < entries.len() ==> patch.contains_key(*(#[trigger] entries[j]).0) && patch[*entries[j].0] == *entries[j].1,
        after.dom() == before.dom().union(first_keys(entries, i)),
        forall|key: u64| #[trigger] after.contains_key(key) ==> if first_keys(entries, i).contains(key) {
            cloned(patch[key].1, after[key])
        } else {
            after[key] == before[key]
        },
    ensures
        kept_outside(after, before, patch, *entries[i].0),
{
    let refused = *entries[i].0;
    assert forall|key: u64| (!patch.contains_key(key) || key == refused) implies !first_keys(entries, i).contains(key) by {
        if first_keys(entries, i).contains(key) {
            let j = choose|j: int| 0 <= j < i && #[trigger] entries[j].0 == key;
            assert(patch.contains_key(*entries[j].0));
            if key == refused {
                assert(entries[j] == entries[i]);
            }
        }
    }
    assert forall|key: u64| #[trigger] after.contains_key(key) implies (before.contains_key(key) && after[key] == before[key]) || (
    patch.contains_key(key) && cloned(patch[key].1, after[key])) by {
        if first_keys(entries, i).contains(key) {
            let j = choose|j: int| 0 <= j < i && #[trigger] entries[j].0 == key;
            assert(patch.contains_key(*entries[j].0));
        }
    }
}

/// Writes each value of `patch` into `style` after checking it against the registry: the
/// property must have metadata (else `UnknownProperty`), and the kind the entry gives its value
/// must be the property's kind (else `KindMismatch`). On success, returns the union of the dirty
/// classes of the patched properties. The entries are checked in the map's iteration order, and
/// those before a refused entry are already written.
pub fn apply_patch_checked<V: Clone>(
    style: &mut HashMap<u64, V>,
    patch: &HashMap<u64, (ValueKind, V)>,
    registry: &PropertyRegistry,
) -> (r: Result<DirtyFlags, StateError>)
    requires
        registry.wf(),
    ensures
        r is Ok <==> patch_fits(patch@, registry.metas()),
        r matches Ok(d) ==> {
            &&& final(style)@.dom() == old(style)@.dom().union(patch@.dom())
            &&& forall|k: u64| #[trigger] final(style)@.contains_key(k) ==> if patch@.contains_key(k) {
                cloned(patch@[k].1, final(style)@[k])
            } else {
                final(style)@[k] == old(style)@[k]
            }
            &&& forall|i: int| 0 <= i < 2 ==> has_bit(d@, i) == some_marks(patch@.dom(), registry.metas(), i)
            &&& d@ < 4
        },
        r matches Err(StateError::UnknownProperty(k)) ==> patch@.contains_key(k) && !registry.metas().contains_key(k),
        r matches Err(StateError::KindMismatch { property, expected, got }) ==> {
            &&& patch@.contains_key(property)
            &&& registry.metas().contains_key(property)
            &&& registry.metas()[property].kind == expected
            &&& patch@[property].0 == got
            &&& got != expected
        },
        !(r matches Err(StateError::NonInterpolableProperty(_))),
        r matches Err(StateError::UnknownProperty(k)) ==> kept_outside(final(style)@, old(style)@, patch@, k),
        r matches Err(StateError::KindMismatch { property, .. }) ==> kept_outside(final(style)@, old(style)@, patch@, property),
{
    proof {
        axiom_spec_hash_map_iter(patch);
    }
    let ghost s0 = style@;
    let ghost metas = registry.metas();
    let ghost entries = spec_hash_map_iter(patch).remaining();
    let mut dirty = DirtyFlags::empty();
    let entry_iter = patch.iter();
    assert(entries.no_duplicates());
    for (k, v) in it: entry_iter
        invariant
            entries.no_duplicates(),
            registry.wf(),
            metas == registry.metas(),
            s0 == old(style)@,
            it.seq() == entries,
            entries == spec_hash_map_iter(patch).remaining(),
            forall|j: int| 0 <= j < it.index() ==> metas.contains_key(*(#[trigger] entries[j]).0) && metas[*entries[j].0].kind == entries[j].1.0,
            style@.dom() == s0.dom().union(first_keys(entries, it.index() as int)),
            forall|key: u64| #[trigger] style@.contains_key(key) ==> if first_keys(entries, it.index() as int).contains(key) {
                cloned(patch@[key].1, style@[key])
            } else {
                style@[key] == s0[key]
            },
            forall|i: int| 0 <= i < 2 ==> has_bit(dirty@, i) == some_marks(first_keys(entries, it.index() as int), metas, i),
            dirty@ < 4,
    {
        let ghost i = it.index();
        assert(*entries[i as int].0 == *k);
        assert(patch@.contains_key(*k) && patch@[*k] == *v);
        let meta = match registry.meta(*k) {
            Some(m) => m,
            None => {
                proof {
                    lemma_refused_kept(style@, s0, patch@, entries, i as int);
                }
                return Err(StateError::UnknownProperty(*k));
            },
        };
        if meta.kind != v.0 {
            proof {
                lemma_refused_kept(style@, s0, patch@, entries, i as int);
            }
            return Err(StateError::KindMismatch { property: *k, expected: meta.kind, got: v.0 });
        }
        style.insert(*k, v.1.clone());
        let ghost before = dirty@;
        dirty = dirty.union(meta.dirty);
        proof {
            assert(first_keys(entries, i + 1) =~= first_keys(entries, i as int).insert(*k));
            assert forall|b: int| 0 <= b < 2 implies has_bit(dirty@, b) == some_marks(first_keys(entries, i + 1), metas, b) by {
                if has_bit(meta.dirty@, b) {
                    assert(first_keys(entries, i + 1).contains(*k));
                }
                if has_bit(before, b) {
                    let y = choose|y: u64| #[trigger] first_keys(entries, i as int).contains(y) && has_bit(metas[y].dirty@, b);
                    assert(first_keys(entries, i + 1).contains(y));
                }
                if some_marks(first_keys(entries, i + 1), metas, b) {
                    let x = choose|x: u64| #[trigger] first_keys(entries, i + 1).contains(x) && has_bit(metas[x].dirty@, b);
                    if x != *k {
                        assert(first_keys(entries, i as int).contains(x));
                    }
                }
            }
        }
    }
    proof {
        assert(first_keys(entries, entries.len() as int) =~= patch@.dom()) by {
            assert forall|key: u64| #[trigger] patch@.dom().contains(key) implies first_keys(entries, entries.len() as int).contains(key) by {
                assert(entries.contains((&key, &patch@[key])));
                let i = choose|i: int| 0 <= i < entries.len() && entries[i] == (&key, &patch@[key]);
                assert(entries[i].0 == key);
            }
        }
        assert forall|key: u64| #[trigger] patch@.contains_key(key) implies metas.contains_key(key) && metas[key].kind == patch@[key].0 by {
            assert(entries.contains((&key, &patch@[key])));
            let i = choose|i: int| 0 <= i < entries.len() && entries[i] == (&key, &patch@[key]);
            assert(*entries[i].0 == key);
        }
    }
    Ok(dirty)
}

/// Whether some property of `keys` has flag `i` in its class `classes`.
pub open spec fn some_classed(keys: Set<u64>, classes: Map<u64, DirtyFlags>, i: int) -> bool {
    exists|k: u64| #[trigger] keys.contains(k) && has_bit(classes[k]@, i)
}

/// Writes each value of `patch` into `style` without checking it, and returns the union of the
/// dirty classes that `classify_dirty` gives the patched properties (called once per entry).
pub fn apply_patch_fast<V: Clone>(
    style: &mut HashMap<u64, V>,
    patch: &HashMap<u64, V>,
    classify_dirty: impl Fn(u64) -> DirtyFlags,
) -> (r: DirtyFlags)
    requires
        forall|k: u64| #[trigger] classify_dirty.requires((k,)),
    ensures
        final(style)@.dom() == old(style)@.dom().union(patch@.dom()),
        forall|k: u64| #[trigger] final(style)@.contains_key(k) ==> if patch@.contains_key(k) {
            cloned(patch@[k], final(style)@[k])
        } else {
            final(style)@[k] == old(style)@[k]
        },
        exists|classes: Map<u64, DirtyFlags>| {
            &&& classes.dom() == patch@.dom()
            &&& forall|k: u64| #[trigger] classes.contains_key(k) ==> classify_dirty.ensures((k,), classes[k])
            &&& forall|i: int| 0 <= i < 2 ==> has_bit(r@, i) == some_classed(patch@.dom(), classes, i)
        },
        r@ < 4,
{
    proof {
        axiom_spec_hash_map_iter(patch);
    }
    let ghost s0 = style@;
    let ghost entries = spec_hash_map_iter(patch).remaining();
    let ghost mut classes = Map::<u64, DirtyFlags>::empty();
    let mut dirty = DirtyFlags::empty();
    let entry_iter = patch.iter();
    assert(entries.no_duplicates());
    for (k, v) in it: entry_iter
        invariant
            forall|k: u64| #[trigger] classify_dirty.requires((k,)),
            entries.no_duplicates(),
            s0 == old(style)@,
            it.seq() == entries,
            entries == spec_hash_map_iter(patch).remaining(),
            classes.dom() == first_keys(entries, it.index() as int),
            forall|key: u64| #[trigger] classes.contains_key(key) ==> classify_dirty.ensures((key,), classes[key]),
            style@.dom() == s0.dom().union(first_keys(entries, it.index() as int)),
            forall|key: u64| #[trigger] style@.contains_key(key) ==> if first_keys(entries, it.index() as int).contains(key) {
                cloned(patch@[key], style@[key])
            } else {
                style@[key] == s0[key]
            },
            forall|i: int| 0 <= i < 2 ==> has_bit(dirty@, i) == some_classed(first_keys(entries, it.index() as int), classes, i),
            dirty@ < 4,
    {
        let ghost i = it.index();
        assert(*entries[i as int].0 == *k);
        assert(patch@.contains_key(*k) && patch@[*k] == *v);
        style.insert(*k, v.clone());
        let class = classify_dirty(*k);
        let ghost before = dirty@;
        let ghost c0 = classes;
        dirty = dirty.union(class);
        proof {
            assert(!first_keys(entries, i as int).contains(*k)) by {
                if first_keys(entries, i as int).contains(*k) {
                    let j = choose|j: int| 0 <= j < i && #[trigger] entries[j].0 == *k;
                    assert(entries[j].0 == entries[i as int].0);
                    assert(entries[j] == entries[i as int]);
                }
            }
            classes = classes.insert(*k, class);
            assert(first_keys(entries, i + 1) =~= first_keys(entries, i as int).insert(*k));
            assert forall|b: int| 0 <= b < 2 implies has_bit(dirty@, b) == some_classed(first_keys(entries, i + 1), classes, b) by {
                if has_bit(class@, b) {
                    assert(first_keys(entries, i + 1).contains(*k));
                }
                if has_bit(before, b) {
                    let y = choose|y: u64| #[trigger] first_keys(entries, i as int).contains(y) && has_bit(c0[y]@, b);
                    assert(first_keys(entries, i + 1).contains(y));
                }
                if some_classed(first_keys(entries, i + 1), classes, b) {
                    let x = choose|x: u64| #[trigger] first_keys(entries, i + 1).contains(x) && has_bit(classes[x]@, b);
                    if x != *k {
                        assert(first_keys(entries, i as int).contains(x));
                    }
                }
            }
        }
    }
    proof {
        assert(first_keys(entries, entries.len() as int) =~= patch@.dom()) by {
            assert forall|key: u64| #[trigger] patch@.dom().contains(key) implies first_keys(entries, entries.len() as int).contains(key) by {
                assert(entries.contains((&key, &patch@[key])));
                let i = choose|i: int| 0 <= i < entries.len() && entries[i] == (&key, &patch@[key]);
                assert(entries[i].0 == key);
            }
        }
    }
    dirty
}

} // verus!
