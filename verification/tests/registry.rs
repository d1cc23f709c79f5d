use lighter::flags::DirtyFlags;
use lighter::patches::{
    CustomPropertyKey, DivProperty, LighterPropertyIds, NodeProperty, PropertyKeyDef, PropertyMeta, TextProperty,
    ValueKind,
};
use lighter::registry::{apply_patch_checked, apply_patch_fast, PropertyRegistry};
use lighter::patches::StateError;
use std::collections::HashMap;

fn paint(kind: ValueKind) -> PropertyMeta {
    PropertyMeta { kind, dirty: DirtyFlags::paint() }
}

#[test]
fn interning_a_key_twice_gives_one_handle() {
    let mut registry = PropertyRegistry::default();
    let a = registry.intern(PropertyKeyDef::Node(NodeProperty::Opacity), paint(ValueKind::F32));
    let b = registry.intern(PropertyKeyDef::Node(NodeProperty::Opacity), paint(ValueKind::Bool));
    assert_eq!(a, b);
    // the second call replaces the metadata
    assert_eq!(registry.kind(a), Some(ValueKind::Bool));
    assert_eq!(registry.resolve_key(a), Some(&PropertyKeyDef::Node(NodeProperty::Opacity)));
}

#[test]
fn distinct_keys_get_distinct_handles() {
    let mut registry = PropertyRegistry::new();
    let a = registry.intern(PropertyKeyDef::Div(DivProperty::Width), paint(ValueKind::F32));
    let b = registry.intern(PropertyKeyDef::Div(DivProperty::Height), paint(ValueKind::F32));
    let c = registry.intern(
        PropertyKeyDef::Custom(CustomPropertyKey::new("app".to_string(), "glow".to_string())),
        paint(ValueKind::Color),
    );
    let d = registry.intern(
        PropertyKeyDef::Custom(CustomPropertyKey::new("app".to_string(), "glow".to_string())),
        paint(ValueKind::F32),
    );
    assert_ne!(a, b);
    assert_ne!(a, c);
    assert_ne!(b, c);
    assert_eq!(c, d);
    assert_eq!(registry.kind(c), Some(ValueKind::F32));
    assert_eq!(registry.kind(a), Some(ValueKind::F32));
}

#[test]
fn unknown_handles_resolve_to_nothing() {
    let registry = PropertyRegistry::default();
    assert_eq!(registry.resolve_key(1u64 << 32), None);
    assert_eq!(registry.resolve_key(0), None);
    assert!(registry.meta(1u64 << 32).is_none());
    assert_eq!(registry.kind(5), None);
}

#[test]
fn builtin_properties_are_classified() {
    let mut registry = PropertyRegistry::default();
    let ids = LighterPropertyIds::intern(&mut registry);
    let all = [
        ids.node_opacity,
        ids.node_transform,
        ids.node_transform_scale,
        ids.div_background_color,
        ids.div_corner_radius,
        ids.text_content,
        ids.text_color,
        ids.text_font_size,
        ids.text_font_family,
        ids.text_font_weight,
    ];
    for i in 0..all.len() {
        for j in 0..all.len() {
            if i != j {
                assert_ne!(all[i], all[j]);
            }
        }
    }
    let opacity = registry.meta(ids.node_opacity).unwrap();
    assert_eq!(opacity.kind, ValueKind::F32);
    assert_eq!(opacity.dirty, DirtyFlags::paint());
    assert_eq!(registry.kind(ids.node_transform), Some(ValueKind::Transform));
    assert_eq!(registry.kind(ids.div_background_color), Some(ValueKind::Color));
    let weight = registry.meta(ids.text_font_weight).unwrap();
    assert_eq!(weight.kind, ValueKind::U16);
    assert_eq!(weight.dirty, DirtyFlags::all());
    assert_eq!(registry.meta(ids.text_content).unwrap().dirty, DirtyFlags::all());
    assert_eq!(registry.meta(ids.text_color).unwrap().dirty, DirtyFlags::paint());
    assert_eq!(registry.resolve_key(ids.text_font_size), Some(&PropertyKeyDef::Text(TextProperty::FontSize)));
    // interning again gives the same handles
    let again = LighterPropertyIds::intern(&mut registry);
    assert_eq!(again.node_opacity, ids.node_opacity);
    assert_eq!(again.text_font_weight, ids.text_font_weight);
}

#[derive(Debug, Clone, PartialEq)]
enum PropertyValue {
    F32(f32),
    Bool(bool),
}

impl PropertyValue {
    fn kind(&self) -> ValueKind {
        match self {
            PropertyValue::F32(_) => ValueKind::F32,
            PropertyValue::Bool(_) => ValueKind::Bool,
        }
    }
}

fn kinded(v: PropertyValue) -> (ValueKind, PropertyValue) {
    (v.kind(), v)
}

#[test]
fn checked_patch_validates_kind() {
    let mut registry = PropertyRegistry::default();
    let p = registry.intern(
        PropertyKeyDef::Node(NodeProperty::Opacity),
        PropertyMeta { kind: ValueKind::F32, dirty: DirtyFlags::paint() },
    );

    let mut style: HashMap<u64, PropertyValue> = HashMap::new();
    let mut patch = HashMap::new();
    patch.insert(p, kinded(PropertyValue::Bool(true)));

    let result = apply_patch_checked(&mut style, &patch, &registry);
    assert!(matches!(result, Err(StateError::KindMismatch { .. })));
}

#[test]
fn checked_patch_writes_values_and_collects_dirty_classes() {
    let mut registry = PropertyRegistry::default();
    let ids = LighterPropertyIds::intern(&mut registry);
    let mut style: HashMap<u64, PropertyValue> = HashMap::new();
    style.insert(ids.node_opacity, PropertyValue::F32(1.0));
    let mut patch = HashMap::new();
    patch.insert(ids.node_opacity, kinded(PropertyValue::F32(0.5)));
    let r = apply_patch_checked(&mut style, &patch, &registry);
    assert_eq!(r, Ok(DirtyFlags::paint()));
    assert_eq!(style.get(&ids.node_opacity), Some(&PropertyValue::F32(0.5)));
    patch.insert(ids.text_font_size, kinded(PropertyValue::F32(12.0)));
    let r = apply_patch_checked(&mut style, &patch, &registry);
    assert_eq!(r, Ok(DirtyFlags::all()));
    assert_eq!(style.len(), 2);
    let empty = HashMap::new();
    assert_eq!(apply_patch_checked(&mut style, &empty, &registry), Ok(DirtyFlags::empty()));
}

#[test]
fn checked_patch_refuses_unknown_properties() {
    let mut registry = PropertyRegistry::default();
    let known = registry.intern(PropertyKeyDef::Div(DivProperty::Width), paint(ValueKind::F32));
    let unknown = known ^ 0xffff;
    let mut style: HashMap<u64, PropertyValue> = HashMap::new();
    let mut patch = HashMap::new();
    patch.insert(unknown, kinded(PropertyValue::F32(3.0)));
    let r = apply_patch_checked(&mut style, &patch, &registry);
    assert_eq!(r, Err(StateError::UnknownProperty(unknown)));
    assert!(style.is_empty());
}

#[test]
fn fast_patch_classifies_without_checking() {
    let mut style: HashMap<u64, PropertyValue> = HashMap::new();
    let mut patch = HashMap::new();
    patch.insert(1u64, PropertyValue::Bool(false));
    patch.insert(2u64, PropertyValue::F32(2.0));
    let d = apply_patch_fast(&mut style, &patch, |k| if k == 2 { DirtyFlags::layout() } else { DirtyFlags::empty() });
    assert_eq!(d, DirtyFlags::layout());
    assert_eq!(style, patch);
}

#[test]
fn refused_patch_keeps_the_style_outside_it() {
    let mut registry = PropertyRegistry::default();
    let ids = LighterPropertyIds::intern(&mut registry);
    let mut style: HashMap<u64, PropertyValue> = HashMap::new();
    style.insert(ids.text_color, PropertyValue::F32(9.0));
    style.insert(ids.node_opacity, PropertyValue::F32(1.0));
    let mut patch = HashMap::new();
    patch.insert(ids.node_opacity, kinded(PropertyValue::Bool(true)));
    let r = apply_patch_checked(&mut style, &patch, &registry);
    assert_eq!(
        r,
        Err(StateError::KindMismatch { property: ids.node_opacity, expected: ValueKind::F32, got: ValueKind::Bool })
    );
    assert_eq!(style.len(), 2);
    assert_eq!(style.get(&ids.node_opacity), Some(&PropertyValue::F32(1.0)));
    assert_eq!(style.get(&ids.text_color), Some(&PropertyValue::F32(9.0)));
}
