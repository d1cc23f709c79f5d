use lighter::flags::{ComputedState, DirtyFlags, InteractionState};

#[test]
fn dirty_flag_sets() {
    let both = DirtyFlags::layout().union(DirtyFlags::paint());
    assert_eq!(both.bits(), 3);
    assert_eq!(both, DirtyFlags::all());
    assert_eq!(both.difference(DirtyFlags::layout()), DirtyFlags::paint());
    assert_eq!(both.intersection(DirtyFlags::paint()), DirtyFlags::paint());
    assert!(both.contains(DirtyFlags::layout()));
    assert!(!DirtyFlags::paint().contains(both));
    assert!(DirtyFlags::paint().intersects(both));
    assert!(!DirtyFlags::paint().intersects(DirtyFlags::layout()));
    assert!(DirtyFlags::empty().is_empty());
    assert_eq!(DirtyFlags::layout().complement(), DirtyFlags::paint());
    assert_eq!(DirtyFlags::from_bits_truncate(0xff), DirtyFlags::all());
    let mut f = DirtyFlags::empty();
    f.insert(DirtyFlags::paint());
    assert_eq!(f.bits(), 2);
    f.remove(DirtyFlags::all());
    assert!(f.is_empty());
}

#[test]
fn interaction_state_flags() {
    let mut s = InteractionState::empty();
    s.set_flag(InteractionState::hover(), true);
    assert!(s.is_hovered());
    assert!(!s.is_active());
    s.set_flag(InteractionState::active(), true);
    assert!(s.is_active());
    s.set_flag(InteractionState::hover(), false);
    assert!(!s.is_hovered());
    assert!(s.is_active());
    s.insert(InteractionState::focus());
    assert!(s.is_focused());
    s.insert(InteractionState::disabled());
    assert!(s.is_disabled());
    assert_eq!(s.bits(), 2 | 4 | 8);
    s.remove(InteractionState::focus().union(InteractionState::disabled()));
    assert_eq!(s.bits(), 2);
}

#[test]
fn pressed_wins_over_hovered() {
    let both = InteractionState::hover().union(InteractionState::active());
    assert_eq!(ComputedState::from_interaction(both), ComputedState::Active);
    assert_eq!(ComputedState::from_interaction(InteractionState::hover()), ComputedState::Hover);
    assert_eq!(ComputedState::from_interaction(InteractionState::focus()), ComputedState::Base);
    assert_eq!(ComputedState::from_interaction(InteractionState::empty()), ComputedState::Base);
}
