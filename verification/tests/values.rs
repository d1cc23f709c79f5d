use lighter::animation::{Duration, DurationExt, Easing, TransitionDir, TransitionSpec};
use lighter::dimension::{AutoValue, LengthUnit};
use lighter::event::{EventContext, EventPhase, MouseButton};
use lighter::flags::InteractionState;
use lighter::geometry::{Insets, Point, Rect, Size};
use lighter::state::{Property, PropertyValue, StateValue};
use lighter::text::{FontWeight, IntoTextContent};
use lighter::reactive::MaybeSignal;

#[test]
fn durations() {
    assert_eq!(Duration::from_millis(250).0, 250);
    assert_eq!(Duration::from_secs(2).0, 2000);
    assert_eq!(300u32.ms(), Duration(300));
    assert_eq!(3u32.s(), Duration(3000));
    assert_eq!(TransitionSpec::default(), TransitionSpec { enter: None, exit: None });
}

#[test]
fn font_weight_is_clamped() {
    assert_eq!(FontWeight::new(0), FontWeight(1));
    assert_eq!(FontWeight::new(700), FontWeight(700));
    assert_eq!(FontWeight::new(5000), FontWeight(1000));
    assert_eq!(FontWeight::new(1000), FontWeight(1000));
}

#[test]
fn insets_and_sizes() {
    assert_eq!(Insets::new(1, 2, 3, 4), Insets { top: 1, right: 2, bottom: 3, left: 4 });
    assert_eq!(Insets::uniform(5), Insets { top: 5, right: 5, bottom: 5, left: 5 });
    assert_eq!(Insets::xy(1, 2), Insets { top: 2, right: 1, bottom: 2, left: 1 });
    assert_eq!(Size::wh(3, 4), Size { width: 3, height: 4 });
    assert_eq!(Size::uniform(2), Size { width: 2, height: 2 });
    assert_eq!(Point::xy(1, 2), Point { x: 1, y: 2 });
    let r = Rect::xywh(1, 2, 3, 4);
    assert_eq!(r, Rect::new(Point::xy(1, 2), Size::wh(3, 4)));
    assert_eq!(lighter::dimension::auto(), AutoValue);
    assert_ne!(LengthUnit::Pixels, LengthUnit::Percent);
}

#[test]
fn event_context_stop() {
    let mut arena = lighter::arena::NodeArena::new();
    let n = arena.create_node(lighter::node::NodeKind::Div, None).unwrap();
    let mut cx: EventContext<(i32, i32)> = EventContext::new(n, n, Some((1, 2)), EventPhase::Target);
    assert!(!cx.is_propagation_stopped());
    cx.stop_propagation();
    assert!(cx.is_propagation_stopped());
    assert_eq!(cx.phase, EventPhase::Target);
    assert_ne!(MouseButton::Left, MouseButton::Right);
}

#[test]
fn property_resolves_by_state() {
    let p = Property::base(PropertyValue::Static(1))
        .hover(PropertyValue::Static(2))
        .transition(Duration(100), Easing::EaseOut)
        .active(PropertyValue::Static(3))
        .finalize();
    let value = |s: InteractionState| match p.resolve(s) {
        PropertyValue::Static(v) => *v,
    };
    assert_eq!(value(InteractionState::empty()), 1);
    assert_eq!(value(InteractionState::hover()), 2);
    assert_eq!(value(InteractionState::active()), 3);
    assert_eq!(value(InteractionState::hover().union(InteractionState::active())), 3);
    assert_eq!(p.hover.unwrap().transition.enter, Some(TransitionDir { duration: Duration(100), easing: Easing::EaseOut }));
}

#[test]
fn pressed_without_its_own_value_keeps_the_hovered_one() {
    let p = Property::base(PropertyValue::Static(1)).hover(PropertyValue::Static(2)).finalize();
    match p.resolve(InteractionState::active()) {
        PropertyValue::Static(v) => assert_eq!(*v, 2),
    }
    let only_base: Property<i32> = Property::base(PropertyValue::Static(9));
    match only_base.resolve(InteractionState::active()) {
        PropertyValue::Static(v) => assert_eq!(*v, 9),
    }
    let sv = StateValue::instant(PropertyValue::Static(4));
    assert_eq!(sv.transition.enter, None);
    assert_eq!(PropertyValue::Static(5).get(), 5);
}

#[test]
fn text_content() {
    match String::from("hi").into_text_content() {
        MaybeSignal::Static(s) => assert_eq!(s, "hi"),
        MaybeSignal::Signal(_) => panic!("fixed text stays fixed"),
    }
}
