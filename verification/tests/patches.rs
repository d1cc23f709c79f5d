use std::collections::HashMap;

use slotmap::Key;

use lighter::flags::InteractionState;
use lighter::patches::{CustomPropertyKey, StatePatches};

#[derive(Debug, Clone, PartialEq)]
enum PropertyValue {
    F32(f32),
}

fn empty_patches() -> StatePatches<PropertyValue> {
    StatePatches { hover: HashMap::new(), active: HashMap::new(), focus: HashMap::new(), disabled: HashMap::new() }
}

#[test]
fn state_precedence_active_over_hover() {
    let mut patches = empty_patches();
    let p = slotmap::DefaultKey::null().data().as_ffi();
    patches.hover.insert(p, PropertyValue::F32(1.0));
    patches.active.insert(p, PropertyValue::F32(2.0));

    let merged = patches.resolve(InteractionState::hover().union(InteractionState::active()));
    assert_eq!(merged.get(&p), Some(&PropertyValue::F32(2.0)));
}

#[test]
fn disabled_is_exclusive() {
    let mut patches = empty_patches();
    let p = slotmap::DefaultKey::null().data().as_ffi();
    patches.hover.insert(p, PropertyValue::F32(1.0));
    patches.disabled.insert(p, PropertyValue::F32(3.0));
    let merged = patches.resolve(InteractionState::hover().union(InteractionState::disabled()));
    assert_eq!(merged.get(&p), Some(&PropertyValue::F32(3.0)));
}

#[test]
fn hover_over_focus_and_only_active_states_apply() {
    let mut patches = empty_patches();
    patches.focus.insert(1, PropertyValue::F32(1.0));
    patches.focus.insert(2, PropertyValue::F32(1.5));
    patches.hover.insert(1, PropertyValue::F32(2.0));
    patches.active.insert(3, PropertyValue::F32(4.0));
    let merged = patches.resolve(InteractionState::hover().union(InteractionState::focus()));
    assert_eq!(merged.len(), 2);
    assert_eq!(merged.get(&1), Some(&PropertyValue::F32(2.0)));
    assert_eq!(merged.get(&2), Some(&PropertyValue::F32(1.5)));
    assert!(patches.resolve(InteractionState::empty()).is_empty());
}

#[test]
fn custom_property_key() {
    let k = CustomPropertyKey::new(String::from("app"), String::from("glow"));
    assert_eq!(k.namespace, "app");
    assert_eq!(k.name, "glow");
}
