//! Style patches per interaction state, keyed by property handle, and how they combine.
use std::collections::HashMap;
use vstd::prelude::*;
use vstd::std_specs::hash::{axiom_spec_hash_map_iter, spec_hash_map_iter};
use vstd::std_specs::iter::IteratorSpec;
use crate::flags::{DirtyFlags, InteractionState, has_state, states_of};
use crate::registry::PropertyRegistry;

verus! {

broadcast use vstd::std_specs::hash::group_hash_axioms;

/// The keys of the first `n` entries of `s`.
pub open spec fn first_keys<V>(s: Seq<(&u64, &V)>, n: int) -> Set<u64> {
    Set::new(|key: u64| exists|i: int| 0 <= i < n && #[trigger] s[i].0 == key)
}

/// Copies every entry of `src` into `dst`, replacing entries of `dst` under the same key.
fn merge_patch_into<V: Clone>(dst: &mut HashMap<u64, V>, src: &HashMap<u64, V>)
    ensures
        final(dst)@.dom() == old(dst)@.dom().union(src@.dom()),
        forall|k: u64| #[trigger] final(dst)@.contains_key(k) ==> if src@.contains_key(k) {
            cloned(src@[k], final(dst)@[k])
        } else {
            final(dst)@[k] == old(dst)@[k]
        },
{
    proof {
        axiom_spec_hash_map_iter(src);
    }
    let ghost d0 = dst@;
    let ghost entries = spec_hash_map_iter(src).remaining();
    for (k, v) in it: src.iter()
        invariant
            it.seq() == entries,
            entries == spec_hash_map_iter(src).remaining(),
            dst@.dom() == d0.dom().union(first_keys(entries, it.index() as int)),
            forall|key: u64| #[trigger] dst@.contains_key(key) ==> if first_keys(entries, it.index() as int).contains(key) {
                cloned(src@[key], dst@[key])
            } else {
                dst@[key] == d0[key]
            },
    {
        let ghost i = it.index();
        assert(*entries[i as int].0 == *k);
        assert(src@.contains_key(*k) && src@[*k] == *v);
        dst.insert(*k, v.clone());
        proof {
            assert(first_keys(entries, i + 1) =~= first_keys(entries, i as int).insert(*k));
        }
    }
    proof {
        assert(first_keys(entries, entries.len() as int) =~= src@.dom()) by {
            assert forall|key: u64| #[trigger] src@.dom().contains(key) implies first_keys(entries, entries.len() as int).contains(key) by {
                assert(entries.contains((&key, &src@[key])));
                let i = choose|i: int| 0 <= i < entries.len() && entries[i] == (&key, &src@[key]);
                assert(entries[i].0 == key);
            }
        }
    }
}

/// What a property handle stands for: a property of every node, of one element kind, or one
/// defined by the application.
#[derive(Debug, Clone, PartialEq, Eq, Hash)]
pub enum PropertyKeyDef {
    Node(NodeProperty),
    Div(DivProperty),
    Text(TextProperty),
    Img(ImgProperty),
    Custom(CustomPropertyKey),
}

/// What a property key stands for, with the names of an application's property as text.
pub enum PropertyKeyView {
    Node(NodeProperty),
    Div(DivProperty),
    Text(TextProperty),
    Img(ImgProperty),
    Custom(Seq<char>, Seq<char>),
}

impl View for PropertyKeyDef {
    type V = PropertyKeyView;

    open spec fn view(&self) -> PropertyKeyView {
        match self {
            PropertyKeyDef::Node(p) => PropertyKeyView::Node(*p),
            PropertyKeyDef::Div(p) => PropertyKeyView::Div(*p),
            PropertyKeyDef::Text(p) => PropertyKeyView::Text(*p),
            PropertyKeyDef::Img(p) => PropertyKeyView::Img(*p),
            PropertyKeyDef::Custom(c) => PropertyKeyView::Custom(c.namespace@, c.name@),
        }
    }
}

/// Properties every node has.
#[derive(Debug, Clone, Copy, PartialEq, Eq, Structural, Hash)]
pub enum NodeProperty {
    Opacity,
    Transform,
    TransformScale,
}

/// Properties of boxes.
#[derive(Debug, Clone, Copy, PartialEq, Eq, Structural, Hash)]
pub enum DivProperty {
    BackgroundColor,
    CornerRadius,
    Width,
    Height,
}

/// Properties of text.
#[derive(Debug, Clone, Copy, PartialEq, Eq, Structural, Hash)]
pub enum TextProperty {
    Content,
    Color,
    FontSize,
    FontFamily,
    FontWeight,
}

/// Properties of images.
#[derive(Debug, Clone, Copy, PartialEq, Eq, Structural, Hash)]
pub enum ImgProperty {
    Source,
    Tint,
    FitMode,
}

/// A property defined by the application, named within its namespace.
#[derive(Debug, Clone, PartialEq, Eq, Hash)]
pub struct CustomPropertyKey {
    pub namespace: String,
    pub name: String,
}

impl CustomPropertyKey {
    /// The property `name` of `namespace`.
    pub fn new(namespace: String, name: String) -> (r: Self)
        ensures
            r.namespace@ == namespace@,
            r.name@ == name@,
    {
        CustomPropertyKey { namespace, name }
    }
}

/// The kind of value a property holds.
#[derive(Debug, Clone, Copy, PartialEq, Eq, Structural)]
pub enum ValueKind {
    F32,
    I32,
    U16,
    Bool,
    Text,
    Color,
    Transform,
}

/// What is known of a property: the kind of its values and what a change of it makes dirty.
#[derive(Debug, Clone, Copy)]
pub struct PropertyMeta {
    pub kind: ValueKind,
    pub dirty: DirtyFlags,
}

/// Why a patch was refused.
#[derive(Debug, Clone, Copy, PartialEq, Eq, Structural)]
pub enum StateError {
    UnknownProperty(u64),
    KindMismatch { property: u64, expected: ValueKind, got: ValueKind },
    NonInterpolableProperty(u64),
}

/// Whether a property that cannot be interpolated is skipped or refused when transitions are
/// built.
#[derive(Debug, Clone, Copy, PartialEq, Eq, Structural)]
pub enum AnimationMode {
    BestEffort,
    Strict,
}

/// The handles of the built-in properties.
#[derive(Debug, Clone, Copy)]
pub struct LighterPropertyIds {
    pub node_opacity: u64,
    pub node_transform: u64,
    pub node_transform_scale: u64,
    pub div_background_color: u64,
    pub div_corner_radius: u64,
    pub text_content: u64,
    pub text_color: u64,
    pub text_font_size: u64,
    pub text_font_family: u64,
    pub text_font_weight: u64,
}

/// The four patches of a node, one per interaction state, each keyed by property handle.
#[derive(Debug, Clone)]
pub struct StatePatches<V> {
    pub hover: HashMap<u64, V>,
    pub active: HashMap<u64, V>,
    pub focus: HashMap<u64, V>,
    pub disabled: HashMap<u64, V>,
}

/// Where the value of property `k` comes from in the states `bits` of a node that is not
/// disabled: the active patch, else the hover patch, else the focus patch, each only while its
/// state holds.
pub open spec fn patch_source<V>(hover: Map<u64, V>, active: Map<u64, V>, focus: Map<u64, V>, bits: u8, k: u64) -> Option<V> {
    if has_state(bits, 1) && active.contains_key(k) {
        Some(active[k])
    } else if has_state(bits, 0) && hover.contains_key(k) {
        Some(hover[k])
    } else if has_state(bits, 2) && focus.contains_key(k) {
        Some(focus[k])
    } else {
        None
    }
}

/// Where the value of a property comes from in a state that is not disabled, case by case:
/// the pressed node takes the active patch's value; otherwise a hovered node takes the hover
/// patch's value; otherwise a focused node takes the focus patch's value, also while it is
/// pressed or hovered when those patches do not set the property; a property no applying patch
/// sets gets no value.
pub proof fn lemma_patch_precedence<V>(hover: Map<u64, V>, active: Map<u64, V>, focus: Map<u64, V>, bits: u8, k: u64)
    ensures
        (bits / 2) % 2 == 1 && active.contains_key(k) ==> patch_source(hover, active, focus, bits, k) == Some(active[k]),
        !((bits / 2) % 2 == 1 && active.contains_key(k)) && bits % 2 == 1 && hover.contains_key(k) ==> patch_source(
            hover,
            active,
            focus,
            bits,
            k,
        ) == Some(hover[k]),
        !((bits / 2) % 2 == 1 && active.contains_key(k)) && !(bits % 2 == 1 && hover.contains_key(k)) && (bits / 4) % 2 == 1
            && focus.contains_key(k) ==> patch_source(hover, active, focus, bits, k) == Some(focus[k]),
        !((bits / 2) % 2 == 1 && active.contains_key(k)) && !(bits % 2 == 1 && hover.contains_key(k)) && !((bits / 4) % 2 == 1
            && focus.contains_key(k)) ==> patch_source(hover, active, focus, bits, k) is None,
{
}

impl<V: Clone> StatePatches<V> {
    /// The patch that applies in the states `state`: the disabled patch alone while disabled;
    /// otherwise the focus, hover and active patches of the states that hold, a later one
    /// winning on a shared property (active over hover over focus).
    pub fn resolve(&self, state: InteractionState) -> (r: HashMap<u64, V>)
        ensures
            has_state(state@, 3) ==> r@ == self.disabled@,
            !has_state(state@, 3) ==> forall|k: u64|
                #![trigger r@.contains_key(k)]
                #![trigger patch_source(self.hover@, self.active@, self.focus@, state@, k)]
                r@.contains_key(k) == patch_source(self.hover@, self.active@, self.focus@, state@, k) is Some
                    && (r@.contains_key(k) ==> cloned(
                        patch_source(self.hover@, self.active@, self.focus@, state@, k)->Some_0,
                        r@[k],
                    )),
    {
        if state.contains(InteractionState::disabled()) {
            assert(set![3int].contains(3));
            return self.disabled.clone();
        }
        let focus = state.contains(InteractionState::focus());
        let hover = state.contains(InteractionState::hover());
        let active = state.contains(InteractionState::active());
        let mut cap: usize = 0;
        if focus {
            cap = cap.saturating_add(self.focus.len());
        }
        if hover {
            cap = cap.saturating_add(self.hover.len());
        }
        if active {
            cap = cap.saturating_add(self.active.len());
        }
        let mut out: HashMap<u64, V> = HashMap::with_capacity(cap);
        let ghost m0 = out@;
        if focus {
            merge_patch_into(&mut out, &self.focus);
        }
        let ghost m1 = out@;
        if hover {
            merge_patch_into(&mut out, &self.hover);
        }
        let ghost m2 = out@;
        if active {
            merge_patch_into(&mut out, &self.active);
        }
        proof {
            let bits = state@;
            let st = states_of(bits);
            assert(set![2int].contains(2) && set![0int].contains(0) && set![1int].contains(1) && set![3int].contains(3));
            assert(focus == st.contains(2));
            assert(hover == st.contains(0));
            assert(active == st.contains(1));
            assert(!st.contains(3));
            assert forall|k: u64| #[trigger] out@.contains_key(k) == patch_source(self.hover@, self.active@, self.focus@, bits, k) is Some
                && (out@.contains_key(k) ==> cloned(patch_source(self.hover@, self.active@, self.focus@, bits, k)->Some_0, out@[k])) by {
                assert(!m0.contains_key(k));
            }
        }
        out
    }
}

/// Whether `k` is one of the built-in properties that [`LighterPropertyIds::intern`] registers.
pub open spec fn is_builtin_key(k: PropertyKeyView) -> bool {
    ||| k == PropertyKeyView::Node(NodeProperty::Opacity)
    ||| k == PropertyKeyView::Node(NodeProperty::Transform)
    ||| k == PropertyKeyView::Node(NodeProperty::TransformScale)
    ||| k == PropertyKeyView::Div(DivProperty::BackgroundColor)
    ||| k == PropertyKeyView::Div(DivProperty::CornerRadius)
    ||| k == PropertyKeyView::Text(TextProperty::Content)
    ||| k == PropertyKeyView::Text(TextProperty::Color)
    ||| k == PropertyKeyView::Text(TextProperty::FontSize)
    ||| k == PropertyKeyView::Text(TextProperty::FontFamily)
    ||| k == PropertyKeyView::Text(TextProperty::FontWeight)
}

impl LighterPropertyIds {
    /// Interns the built-in properties with their value kinds and dirty classes: a change of
    /// text content, font size, font family or font weight makes layout and paint dirty, a change
    /// of any other built-in property makes paint dirty.
    pub fn intern(registry: &mut PropertyRegistry) -> (r: Self)
        requires
            old(registry).wf(),
            old(registry).ids().len() + 11 <= u32::MAX,
        ensures
            final(registry).wf(),
            final(registry).ids().contains_key(PropertyKeyView::Node(NodeProperty::Opacity)),
            final(registry).ids()[PropertyKeyView::Node(NodeProperty::Opacity)] == r.node_opacity,
            final(registry).metas().contains_key(r.node_opacity),
            final(registry).metas()[r.node_opacity].kind == ValueKind::F32 && final(registry).metas()[r.node_opacity].dirty@ == 2,
            final(registry).ids().contains_key(PropertyKeyView::Node(NodeProperty::Transform)),
            final(registry).ids()[PropertyKeyView::Node(NodeProperty::Transform)] == r.node_transform,
            final(registry).metas().contains_key(r.node_transform),
            final(registry).metas()[r.node_transform].kind == ValueKind::Transform && final(registry).metas()[r.node_transform].dirty@ == 2,
            final(registry).ids().contains_key(PropertyKeyView::Node(NodeProperty::TransformScale)),
            final(registry).ids()[PropertyKeyView::Node(NodeProperty::TransformScale)] == r.node_transform_scale,
            final(registry).metas().contains_key(r.node_transform_scale),
            final(registry).metas()[r.node_transform_scale].kind == ValueKind::F32 && final(registry).metas()[r.node_transform_scale].dirty@ == 2,
            final(registry).ids().contains_key(PropertyKeyView::Div(DivProperty::BackgroundColor)),
            final(registry).ids()[PropertyKeyView::Div(DivProperty::BackgroundColor)] == r.div_background_color,
            final(registry).metas().contains_key(r.div_background_color),
            final(registry).metas()[r.div_background_color].kind == ValueKind::Color && final(registry).metas()[r.div_background_color].dirty@ == 2,
            final(registry).ids().contains_key(PropertyKeyView::Div(DivProperty::CornerRadius)),
            final(registry).ids()[PropertyKeyView::Div(DivProperty::CornerRadius)] == r.div_corner_radius,
            final(registry).metas().contains_key(r.div_corner_radius),
            final(registry).metas()[r.div_corner_radius].kind == ValueKind::F32 && final(registry).metas()[r.div_corner_radius].dirty@ == 2,
            final(registry).ids().contains_key(PropertyKeyView::Text(TextProperty::Content)),
            final(registry).ids()[PropertyKeyView::Text(TextProperty::Content)] == r.text_content,
            final(registry).metas().contains_key(r.text_content),
            final(registry).metas()[r.text_content].kind == ValueKind::Text && final(registry).metas()[r.text_content].dirty@ == 3,
            final(registry).ids().contains_key(PropertyKeyView::Text(TextProperty::Color)),
            final(registry).ids()[PropertyKeyView::Text(TextProperty::Color)] == r.text_color,
            final(registry).metas().contains_key(r.text_color),
            final(registry).metas()[r.text_color].kind == ValueKind::Color && final(registry).metas()[r.text_color].dirty@ == 2,
            final(registry).ids().contains_key(PropertyKeyView::Text(TextProperty::FontSize)),
            final(registry).ids()[PropertyKeyView::Text(TextProperty::FontSize)] == r.text_font_size,
            final(registry).metas().contains_key(r.text_font_size),
            final(registry).metas()[r.text_font_size].kind == ValueKind::F32 && final(registry).metas()[r.text_font_size].dirty@ == 3,
            final(registry).ids().contains_key(PropertyKeyView::Text(TextProperty::FontFamily)),
            final(registry).ids()[PropertyKeyView::Text(TextProperty::FontFamily)] == r.text_font_family,
            final(registry).metas().contains_key(r.text_font_family),
            final(registry).metas()[r.text_font_family].kind == ValueKind::Text && final(registry).metas()[r.text_font_family].dirty@ == 3,
            final(registry).ids().contains_key(PropertyKeyView::Text(TextProperty::FontWeight)),
            final(registry).ids()[PropertyKeyView::Text(TextProperty::FontWeight)] == r.text_font_weight,
            final(registry).metas().contains_key(r.text_font_weight),
            final(registry).metas()[r.text_font_weight].kind == ValueKind::U16 && final(registry).metas()[r.text_font_weight].dirty@ == 3,
            forall|k: PropertyKeyView| !is_builtin_key(k) ==> (#[trigger] final(registry).ids().contains_key(k)) == old(registry).ids().contains_key(k)
                && (old(registry).ids().contains_key(k) ==> final(registry).ids()[k] == old(registry).ids()[k]),
            forall|id: u64| !r.holds(id) ==> (#[trigger] final(registry).metas().contains_key(id)) == old(registry).metas().contains_key(id)
                && (old(registry).metas().contains_key(id) ==> final(registry).metas()[id] == old(registry).metas()[id]),
    {
        let node_opacity = registry.intern(PropertyKeyDef::Node(NodeProperty::Opacity), PropertyMeta { kind: ValueKind::F32, dirty: DirtyFlags::paint() });
        proof {
            registry.lemma_ids_injective();
            assert(registry.ids().contains_key(PropertyKeyView::Node(NodeProperty::Opacity)) && registry.ids()[PropertyKeyView::Node(NodeProperty::Opacity)] == node_opacity);
            assert(registry.metas().contains_key(node_opacity) && registry.metas()[node_opacity].kind == ValueKind::F32 && registry.metas()[node_opacity].dirty@ == 2);
        }
        let node_transform = registry.intern(PropertyKeyDef::Node(NodeProperty::Transform), PropertyMeta { kind: ValueKind::Transform, dirty: DirtyFlags::paint() });
        proof {
            registry.lemma_ids_injective();
            assert(registry.ids().contains_key(PropertyKeyView::Node(NodeProperty::Opacity)) && registry.ids()[PropertyKeyView::Node(NodeProperty::Opacity)] == node_opacity);
            assert(registry.ids().contains_key(PropertyKeyView::Node(NodeProperty::Transform)) && registry.ids()[PropertyKeyView::Node(NodeProperty::Transform)] == node_transform);
            assert(node_opacity != node_transform);
            assert(registry.metas().contains_key(node_opacity) && registry.metas()[node_opacity].kind == ValueKind::F32 && registry.metas()[node_opacity].dirty@ == 2);
            assert(registry.metas().contains_key(node_transform) && registry.metas()[node_transform].kind == ValueKind::Transform && registry.metas()[node_transform].dirty@ == 2);
        }
        let node_transform_scale = registry.intern(PropertyKeyDef::Node(NodeProperty::TransformScale), PropertyMeta { kind: ValueKind::F32, dirty: DirtyFlags::paint() });
        proof {
            registry.lemma_ids_injective();
            assert(registry.ids().contains_key(PropertyKeyView::Node(NodeProperty::Opacity)) && registry.ids()[PropertyKeyView::Node(NodeProperty::Opacity)] == node_opacity);
            assert(registry.ids().contains_key(PropertyKeyView::Node(NodeProperty::Transform)) && registry.ids()[PropertyKeyView::Node(NodeProperty::Transform)] == node_transform);
            assert(registry.ids().contains_key(PropertyKeyView::Node(NodeProperty::TransformScale)) && registry.ids()[PropertyKeyView::Node(NodeProperty::TransformScale)] == node_transform_scale);
            assert(node_opacity != node_transform_scale);
            assert(node_transform != node_transform_scale);
            assert(registry.metas().contains_key(node_opacity) && registry.metas()[node_opacity].kind == ValueKind::F32 && registry.metas()[node_opacity].dirty@ == 2);
            assert(registry.metas().contains_key(node_transform) && registry.metas()[node_transform].kind == ValueKind::Transform && registry.metas()[node_transform].dirty@ == 2);
            assert(registry.metas().contains_key(node_transform_scale) && registry.metas()[node_transform_scale].kind == ValueKind::F32 && registry.metas()[node_transform_scale].dirty@ == 2);
        }
        let div_background_color = registry.intern(PropertyKeyDef::Div(DivProperty::BackgroundColor), PropertyMeta { kind: ValueKind::Color, dirty: DirtyFlags::paint() });
        proof {
            registry.lemma_ids_injective();
            assert(registry.ids().contains_key(PropertyKeyView::Node(NodeProperty::Opacity)) && registry.ids()[PropertyKeyView::Node(NodeProperty::Opacity)] == node_opacity);
            assert(registry.ids().contains_key(PropertyKeyView::Node(NodeProperty::Transform)) && registry.ids()[PropertyKeyView::Node(NodeProperty::Transform)] == node_transform);
            assert(registry.ids().contains_key(PropertyKeyView::Node(NodeProperty::TransformScale)) && registry.ids()[PropertyKeyView::Node(NodeProperty::TransformScale)] == node_transform_scale);
            assert(registry.ids().contains_key(PropertyKeyView::Div(DivProperty::BackgroundColor)) && registry.ids()[PropertyKeyView::Div(DivProperty::BackgroundColor)] == div_background_color);
            assert(node_opacity != div_background_color);
            assert(node_transform != div_background_color);
            assert(node_transform_scale != div_background_color);
            assert(registry.metas().contains_key(node_opacity) && registry.metas()[node_opacity].kind == ValueKind::F32 && registry.metas()[node_opacity].dirty@ == 2);
            assert(registry.metas().contains_key(node_transform) && registry.metas()[node_transform].kind == ValueKind::Transform && registry.metas()[node_transform].dirty@ == 2);
            assert(registry.metas().contains_key(node_transform_scale) && registry.metas()[node_transform_scale].kind == ValueKind::F32 && registry.metas()[node_transform_scale].dirty@ == 2);
            assert(registry.metas().contains_key(div_background_color) && registry.metas()[div_background_color].kind == ValueKind::Color && registry.metas()[div_background_color].dirty@ == 2);
        }
        let div_corner_radius = registry.intern(PropertyKeyDef::Div(DivProperty::CornerRadius), PropertyMeta { kind: ValueKind::F32, dirty: DirtyFlags::paint() });
        proof {
            registry.lemma_ids_injective();
            assert(registry.ids().contains_key(PropertyKeyView::Node(NodeProperty::Opacity)) && registry.ids()[PropertyKeyView::Node(NodeProperty::Opacity)] == node_opacity);
            assert(registry.ids().contains_key(PropertyKeyView::Node(NodeProperty::Transform)) && registry.ids()[PropertyKeyView::Node(NodeProperty::Transform)] == node_transform);
            assert(registry.ids().contains_key(PropertyKeyView::Node(NodeProperty::TransformScale)) && registry.ids()[PropertyKeyView::Node(NodeProperty::TransformScale)] == node_transform_scale);
            assert(registry.ids().contains_key(PropertyKeyView::Div(DivProperty::BackgroundColor)) && registry.ids()[PropertyKeyView::Div(DivProperty::BackgroundColor)] == div_background_color);
            assert(registry.ids().contains_key(PropertyKeyView::Div(DivProperty::CornerRadius)) && registry.ids()[PropertyKeyView::Div(DivProperty::CornerRadius)] == div_corner_radius);
            assert(node_opacity != div_corner_radius);
            assert(node_transform != div_corner_radius);
            assert(node_transform_scale != div_corner_radius);
            assert(div_background_color != div_corner_radius);
            assert(registry.metas().contains_key(node_opacity) && registry.metas()[node_opacity].kind == ValueKind::F32 && registry.metas()[node_opacity].dirty@ == 2);
            assert(registry.metas().contains_key(node_transform) && registry.metas()[node_transform].kind == ValueKind::Transform && registry.metas()[node_transform].dirty@ == 2);
            assert(registry.metas().contains_key(node_transform_scale) && registry.metas()[node_transform_scale].kind == ValueKind::F32 && registry.metas()[node_transform_scale].dirty@ == 2);
            assert(registry.metas().contains_key(div_background_color) && registry.metas()[div_background_color].kind == ValueKind::Color && registry.metas()[div_background_color].dirty@ == 2);
            assert(registry.metas().contains_key(div_corner_radius) && registry.metas()[div_corner_radius].kind == ValueKind::F32 && registry.metas()[div_corner_radius].dirty@ == 2);
        }
        let text_content = registry.intern(PropertyKeyDef::Text(TextProperty::Content), PropertyMeta { kind: ValueKind::Text, dirty: DirtyFlags::all() });
        proof {
            registry.lemma_ids_injective();
            assert(registry.ids().contains_key(PropertyKeyView::Node(NodeProperty::Opacity)) && registry.ids()[PropertyKeyView::Node(NodeProperty::Opacity)] == node_opacity);
            assert(registry.ids().contains_key(PropertyKeyView::Node(NodeProperty::Transform)) && registry.ids()[PropertyKeyView::Node(NodeProperty::Transform)] == node_transform);
            assert(registry.ids().contains_key(PropertyKeyView::Node(NodeProperty::TransformScale)) && registry.ids()[PropertyKeyView::Node(NodeProperty::TransformScale)] == node_transform_scale);
            assert(registry.ids().contains_key(PropertyKeyView::Div(DivProperty::BackgroundColor)) && registry.ids()[PropertyKeyView::Div(DivProperty::BackgroundColor)] == div_background_color);
            assert(registry.ids().contains_key(PropertyKeyView::Div(DivProperty::CornerRadius)) && registry.ids()[PropertyKeyView::Div(DivProperty::CornerRadius)] == div_corner_radius);
            assert(registry.ids().contains_key(PropertyKeyView::Text(TextProperty::Content)) && registry.ids()[PropertyKeyView::Text(TextProperty::Content)] == text_content);
            assert(node_opacity != text_content);
            assert(node_transform != text_content);
            assert(node_transform_scale != text_content);
            assert(div_background_color != text_content);
            assert(div_corner_radius != text_content);
            assert(registry.metas().contains_key(node_opacity) && registry.metas()[node_opacity].kind == ValueKind::F32 && registry.metas()[node_opacity].dirty@ == 2);
            assert(registry.metas().contains_key(node_transform) && registry.metas()[node_transform].kind == ValueKind::Transform && registry.metas()[node_transform].dirty@ == 2);
            assert(registry.metas().contains_key(node_transform_scale) && registry.metas()[node_transform_scale].kind == ValueKind::F32 && registry.metas()[node_transform_scale].dirty@ == 2);
            assert(registry.metas().contains_key(div_background_color) && registry.metas()[div_background_color].kind == ValueKind::Color && registry.metas()[div_background_color].dirty@ == 2);
            assert(registry.metas().contains_key(div_corner_radius) && registry.metas()[div_corner_radius].kind == ValueKind::F32 && registry.metas()[div_corner_radius].dirty@ == 2);
            assert(registry.metas().contains_key(text_content) && registry.metas()[text_content].kind == ValueKind::Text && registry.metas()[text_content].dirty@ == 3);
        }
        let text_color = registry.intern(PropertyKeyDef::Text(TextProperty::Color), PropertyMeta { kind: ValueKind::Color, dirty: DirtyFlags::paint() });
        proof {
            registry.lemma_ids_injective();
            assert(registry.ids().contains_key(PropertyKeyView::Node(NodeProperty::Opacity)) && registry.ids()[PropertyKeyView::Node(NodeProperty::Opacity)] == node_opacity);
            assert(registry.ids().contains_key(PropertyKeyView::Node(NodeProperty::Transform)) && registry.ids()[PropertyKeyView::Node(NodeProperty::Transform)] == node_transform);
            assert(registry.ids().contains_key(PropertyKeyView::Node(NodeProperty::TransformScale)) && registry.ids()[PropertyKeyView::Node(NodeProperty::TransformScale)] == node_transform_scale);
            assert(registry.ids().contains_key(PropertyKeyView::Div(DivProperty::BackgroundColor)) && registry.ids()[PropertyKeyView::Div(DivProperty::BackgroundColor)] == div_background_color);
            assert(registry.ids().contains_key(PropertyKeyView::Div(DivProperty::CornerRadius)) && registry.ids()[PropertyKeyView::Div(DivProperty::CornerRadius)] == div_corner_radius);
            assert(registry.ids().contains_key(PropertyKeyView::Text(TextProperty::Content)) && registry.ids()[PropertyKeyView::Text(TextProperty::Content)] == text_content);
            assert(registry.ids().contains_key(PropertyKeyView::Text(TextProperty::Color)) && registry.ids()[PropertyKeyView::Text(TextProperty::Color)] == text_color);
            assert(node_opacity != text_color);
            assert(node_transform != text_color);
            assert(node_transform_scale != text_color);
            assert(div_background_color != text_color);
            assert(div_corner_radius != text_color);
            assert(text_content != text_color);
            assert(registry.metas().contains_key(node_opacity) && registry.metas()[node_opacity].kind == ValueKind::F32 && registry.metas()[node_opacity].dirty@ == 2);
            assert(registry.metas().contains_key(node_transform) && registry.metas()[node_transform].kind == ValueKind::Transform && registry.metas()[node_transform].dirty@ == 2);
            assert(registry.metas().contains_key(node_transform_scale) && registry.metas()[node_transform_scale].kind == ValueKind::F32 && registry.metas()[node_transform_scale].dirty@ == 2);
            assert(registry.metas().contains_key(div_background_color) && registry.metas()[div_background_color].kind == ValueKind::Color && registry.metas()[div_background_color].dirty@ == 2);
            assert(registry.metas().contains_key(div_corner_radius) && registry.metas()[div_corner_radius].kind == ValueKind::F32 && registry.metas()[div_corner_radius].dirty@ == 2);
            assert(registry.metas().contains_key(text_content) && registry.metas()[text_content].kind == ValueKind::Text && registry.metas()[text_content].dirty@ == 3);
            assert(registry.metas().contains_key(text_color) && registry.metas()[text_color].kind == ValueKind::Color && registry.metas()[text_color].dirty@ == 2);
        }
        let text_font_size = registry.intern(PropertyKeyDef::Text(TextProperty::FontSize), PropertyMeta { kind: ValueKind::F32, dirty: DirtyFlags::all() });
        proof {
            registry.lemma_ids_injective();
            assert(registry.ids().contains_key(PropertyKeyView::Node(NodeProperty::Opacity)) && registry.ids()[PropertyKeyView::Node(NodeProperty::Opacity)] == node_opacity);
            assert(registry.ids().contains_key(PropertyKeyView::Node(NodeProperty::Transform)) && registry.ids()[PropertyKeyView::Node(NodeProperty::Transform)] == node_transform);
            assert(registry.ids().contains_key(PropertyKeyView::Node(NodeProperty::TransformScale)) && registry.ids()[PropertyKeyView::Node(NodeProperty::TransformScale)] == node_transform_scale);
            assert(registry.ids().contains_key(PropertyKeyView::Div(DivProperty::BackgroundColor)) && registry.ids()[PropertyKeyView::Div(DivProperty::BackgroundColor)] == div_background_color);
            assert(registry.ids().contains_key(PropertyKeyView::Div(DivProperty::CornerRadius)) && registry.ids()[PropertyKeyView::Div(DivProperty::CornerRadius)] == div_corner_radius);
            assert(registry.ids().contains_key(PropertyKeyView::Text(TextProperty::Content)) && registry.ids()[PropertyKeyView::Text(TextProperty::Content)] == text_content);
            assert(registry.ids().contains_key(PropertyKeyView::Text(TextProperty::Color)) && registry.ids()[PropertyKeyView::Text(TextProperty::Color)] == text_color);
            assert(registry.ids().contains_key(PropertyKeyView::Text(TextProperty::FontSize)) && registry.ids()[PropertyKeyView::Text(TextProperty::FontSize)] == text_font_size);
            assert(node_opacity != text_font_size);
            assert(node_transform != text_font_size);
            assert(node_transform_scale != text_font_size);
            assert(div_background_color != text_font_size);
            assert(div_corner_radius != text_font_size);
            assert(text_content != text_font_size);
            assert(text_color != text_font_size);
            assert(registry.metas().contains_key(node_opacity) && registry.metas()[node_opacity].kind == ValueKind::F32 && registry.metas()[node_opacity].dirty@ == 2);
            assert(registry.metas().contains_key(node_transform) && registry.metas()[node_transform].kind == ValueKind::Transform && registry.metas()[node_transform].dirty@ == 2);
            assert(registry.metas().contains_key(node_transform_scale) && registry.metas()[node_transform_scale].kind == ValueKind::F32 && registry.metas()[node_transform_scale].dirty@ == 2);
            assert(registry.metas().contains_key(div_background_color) && registry.metas()[div_background_color].kind == ValueKind::Color && registry.metas()[div_background_color].dirty@ == 2);
            assert(registry.metas().contains_key(div_corner_radius) && registry.metas()[div_corner_radius].kind == ValueKind::F32 && registry.metas()[div_corner_radius].dirty@ == 2);
            assert(registry.metas().contains_key(text_content) && registry.metas()[text_content].kind == ValueKind::Text && registry.metas()[text_content].dirty@ == 3);
            assert(registry.metas().contains_key(text_color) && registry.metas()[text_color].kind == ValueKind::Color && registry.metas()[text_color].dirty@ == 2);
            assert(registry.metas().contains_key(text_font_size) && registry.metas()[text_font_size].kind == ValueKind::F32 && registry.metas()[text_font_size].dirty@ == 3);
        }
        let text_font_family = registry.intern(PropertyKeyDef::Text(TextProperty::FontFamily), PropertyMeta { kind: ValueKind::Text, dirty: DirtyFlags::all() });
        proof {
            registry.lemma_ids_injective();
            assert(registry.ids().contains_key(PropertyKeyView::Node(NodeProperty::Opacity)) && registry.ids()[PropertyKeyView::Node(NodeProperty::Opacity)] == node_opacity);
            assert(registry.ids().contains_key(PropertyKeyView::Node(NodeProperty::Transform)) && registry.ids()[PropertyKeyView::Node(NodeProperty::Transform)] == node_transform);
            assert(registry.ids().contains_key(PropertyKeyView::Node(NodeProperty::TransformScale)) && registry.ids()[PropertyKeyView::Node(NodeProperty::TransformScale)] == node_transform_scale);
            assert(registry.ids().contains_key(PropertyKeyView::Div(DivProperty::BackgroundColor)) && registry.ids()[PropertyKeyView::Div(DivProperty::BackgroundColor)] == div_background_color);
            assert(registry.ids().contains_key(PropertyKeyView::Div(DivProperty::CornerRadius)) && registry.ids()[PropertyKeyView::Div(DivProperty::CornerRadius)] == div_corner_radius);
            assert(registry.ids().contains_key(PropertyKeyView::Text(TextProperty::Content)) && registry.ids()[PropertyKeyView::Text(TextProperty::Content)] == text_content);
            assert(registry.ids().contains_key(PropertyKeyView::Text(TextProperty::Color)) && registry.ids()[PropertyKeyView::Text(TextProperty::Color)] == text_color);
            assert(registry.ids().contains_key(PropertyKeyView::Text(TextProperty::FontSize)) && registry.ids()[PropertyKeyView::Text(TextProperty::FontSize)] == text_font_size);
            assert(registry.ids().contains_key(PropertyKeyView::Text(TextProperty::FontFamily)) && registry.ids()[PropertyKeyView::Text(TextProperty::FontFamily)] == text_font_family);
            assert(node_opacity != text_font_family);
            assert(node_transform != text_font_family);
            assert(node_transform_scale != text_font_family);
            assert(div_background_color != text_font_family);
            assert(div_corner_radius != text_font_family);
            assert(text_content != text_font_family);
            assert(text_color != text_font_family);
            assert(text_font_size != text_font_family);
            assert(registry.metas().contains_key(node_opacity) && registry.metas()[node_opacity].kind == ValueKind::F32 && registry.metas()[node_opacity].dirty@ == 2);
            assert(registry.metas().contains_key(node_transform) && registry.metas()[node_transform].kind == ValueKind::Transform && registry.metas()[node_transform].dirty@ == 2);
            assert(registry.metas().contains_key(node_transform_scale) && registry.metas()[node_transform_scale].kind == ValueKind::F32 && registry.metas()[node_transform_scale].dirty@ == 2);
            assert(registry.metas().contains_key(div_background_color) && registry.metas()[div_background_color].kind == ValueKind::Color && registry.metas()[div_background_color].dirty@ == 2);
            assert(registry.metas().contains_key(div_corner_radius) && registry.metas()[div_corner_radius].kind == ValueKind::F32 && registry.metas()[div_corner_radius].dirty@ == 2);
            assert(registry.metas().contains_key(text_content) && registry.metas()[text_content].kind == ValueKind::Text && registry.metas()[text_content].dirty@ == 3);
            assert(registry.metas().contains_key(text_color) && registry.metas()[text_color].kind == ValueKind::Color && registry.metas()[text_color].dirty@ == 2);
            assert(registry.metas().contains_key(text_font_size) && registry.metas()[text_font_size].kind == ValueKind::F32 && registry.metas()[text_font_size].dirty@ == 3);
            assert(registry.metas().contains_key(text_font_family) && registry.metas()[text_font_family].kind == ValueKind::Text && registry.metas()[text_font_family].dirty@ == 3);
        }
        let text_font_weight = registry.intern(PropertyKeyDef::Text(TextProperty::FontWeight), PropertyMeta { kind: ValueKind::U16, dirty: DirtyFlags::all() });
        proof {
            registry.lemma_ids_injective();
            assert(registry.ids().contains_key(PropertyKeyView::Node(NodeProperty::Opacity)) && registry.ids()[PropertyKeyView::Node(NodeProperty::Opacity)] == node_opacity);
            assert(registry.ids().contains_key(PropertyKeyView::Node(NodeProperty::Transform)) && registry.ids()[PropertyKeyView::Node(NodeProperty::Transform)] == node_transform);
            assert(registry.ids().contains_key(PropertyKeyView::Node(NodeProperty::TransformScale)) && registry.ids()[PropertyKeyView::Node(NodeProperty::TransformScale)] == node_transform_scale);
            assert(registry.ids().contains_key(PropertyKeyView::Div(DivProperty::BackgroundColor)) && registry.ids()[PropertyKeyView::Div(DivProperty::BackgroundColor)] == div_background_color);
            assert(registry.ids().contains_key(PropertyKeyView::Div(DivProperty::CornerRadius)) && registry.ids()[PropertyKeyView::Div(DivProperty::CornerRadius)] == div_corner_radius);
            assert(registry.ids().contains_key(PropertyKeyView::Text(TextProperty::Content)) && registry.ids()[PropertyKeyView::Text(TextProperty::Content)] == text_content);
            assert(registry.ids().contains_key(PropertyKeyView::Text(TextProperty::Color)) && registry.ids()[PropertyKeyView::Text(TextProperty::Color)] == text_color);
            assert(registry.ids().contains_key(PropertyKeyView::Text(TextProperty::FontSize)) && registry.ids()[PropertyKeyView::Text(TextProperty::FontSize)] == text_font_size);
            assert(registry.ids().contains_key(PropertyKeyView::Text(TextProperty::FontFamily)) && registry.ids()[PropertyKeyView::Text(TextProperty::FontFamily)] == text_font_family);
            assert(registry.ids().contains_key(PropertyKeyView::Text(TextProperty::FontWeight)) && registry.ids()[PropertyKeyView::Text(TextProperty::FontWeight)] == text_font_weight);
            assert(node_opacity != text_font_weight);
            assert(node_transform != text_font_weight);
            assert(node_transform_scale != text_font_weight);
            assert(div_background_color != text_font_weight);
            assert(div_corner_radius != text_font_weight);
            assert(text_content != text_font_weight);
            assert(text_color != text_font_weight);
            assert(text_font_size != text_font_weight);
            assert(text_font_family != text_font_weight);
            assert(registry.metas().contains_key(node_opacity) && registry.metas()[node_opacity].kind == ValueKind::F32 && registry.metas()[node_opacity].dirty@ == 2);
            assert(registry.metas().contains_key(node_transform) && registry.metas()[node_transform].kind == ValueKind::Transform && registry.metas()[node_transform].dirty@ == 2);
            assert(registry.metas().contains_key(node_transform_scale) && registry.metas()[node_transform_scale].kind == ValueKind::F32 && registry.metas()[node_transform_scale].dirty@ == 2);
            assert(registry.metas().contains_key(div_background_color) && registry.metas()[div_background_color].kind == ValueKind::Color && registry.metas()[div_background_color].dirty@ == 2);
            assert(registry.metas().contains_key(div_corner_radius) && registry.metas()[div_corner_radius].kind == ValueKind::F32 && registry.metas()[div_corner_radius].dirty@ == 2);
            assert(registry.metas().contains_key(text_content) && registry.metas()[text_content].kind == ValueKind::Text && registry.metas()[text_content].dirty@ == 3);
            assert(registry.metas().contains_key(text_color) && registry.metas()[text_color].kind == ValueKind::Color && registry.metas()[text_color].dirty@ == 2);
            assert(registry.metas().contains_key(text_font_size) && registry.metas()[text_font_size].kind == ValueKind::F32 && registry.metas()[text_font_size].dirty@ == 3);
            assert(registry.metas().contains_key(text_font_family) && registry.metas()[text_font_family].kind == ValueKind::Text && registry.metas()[text_font_family].dirty@ == 3);
            assert(registry.metas().contains_key(text_font_weight) && registry.metas()[text_font_weight].kind == ValueKind::U16 && registry.metas()[text_font_weight].dirty@ == 3);
        }
        let r = LighterPropertyIds { node_opacity, node_transform, node_transform_scale, div_background_color, div_corner_radius, text_content, text_color, text_font_size, text_font_family, text_font_weight };
        r
    }

    /// Whether `id` is one of the handles in `self`.
    pub open spec fn holds(&self, id: u64) -> bool {
        ||| id == self.node_opacity
        ||| id == self.node_transform
        ||| id == self.node_transform_scale
        ||| id == self.div_background_color
        ||| id == self.div_corner_radius
        ||| id == self.text_content
        ||| id == self.text_color
        ||| id == self.text_font_size
        ||| id == self.text_font_family
        ||| id == self.text_font_weight
    }
}

} // verus!
