use lighter::flags::DirtyFlags;
use lighter::node::NodeId;
use lighter::reactive::{bind_field, derived, signal, DeferredBinding, MaybeSignal, PendingUpdate, Runtime, Signal};

type Rt = Runtime<i64, u32, &'static str>;

#[test]
fn set_then_get_gives_the_value_back() {
    let mut rt: Rt = Runtime::new();
    let a = signal(&mut rt, 1);
    let b = signal(&mut rt, 2);
    assert_eq!(a.get(&mut rt), 1);
    a.set(&mut rt, 10);
    assert_eq!(a.get(&mut rt), 10);
    assert_eq!(b.get(&mut rt), 2);
    assert_eq!(b.id.index(), 1);
}

#[test]
fn set_hands_back_subscribers_in_order() {
    let mut rt: Rt = Runtime::new();
    let a = signal(&mut rt, 0);
    assert!(a.set(&mut rt, 1).is_empty());
    a.subscribe(&mut rt, 7);
    a.subscribe(&mut rt, 3);
    assert_eq!(a.set(&mut rt, 2), vec![7, 3]);
    assert_eq!(a.update(&mut rt, |v: &i64| v + 5), vec![7, 3]);
    assert_eq!(a.get(&mut rt), 7);
}

#[test]
fn reads_are_recorded_once_in_first_read_order() {
    let mut rt: Rt = Runtime::new();
    let a = signal(&mut rt, 1);
    let b = signal(&mut rt, 2);
    rt.track_begin();
    let sum = b.get(&mut rt) + a.get(&mut rt) + b.get(&mut rt);
    let deps = rt.track_end();
    assert_eq!(sum, 5);
    assert_eq!(deps, vec![b.id, a.id]);
    let _ = a.get(&mut rt);
    rt.track_begin();
    assert!(rt.track_end().is_empty());
}

#[test]
fn derived_signal_subscribes_to_each_dependency() {
    let mut rt: Rt = Runtime::new();
    let count = signal(&mut rt, 3);
    let other = signal(&mut rt, 4);
    rt.track_begin();
    let initial = count.get(&mut rt) * 2;
    let deps = rt.track_end();
    let doubled = derived(&mut rt, initial, deps, 99);
    assert_eq!(doubled.get(&mut rt), 6);
    assert_eq!(count.set(&mut rt, 5), vec![99]);
    assert!(other.set(&mut rt, 1).is_empty());
    let again = Signal::derive(&mut rt, 0, vec![], 1);
    assert_eq!(again.get(&mut rt), 0);
}

#[test]
fn pending_updates_drain_in_order() {
    let mut rt: Rt = Runtime::new();
    assert!(!rt.has_updates());
    let mut arena = lighter::arena::NodeArena::new();
    let n = arena.create_node(lighter::node::NodeKind::Div, None).unwrap();
    rt.push_update(PendingUpdate { node_id: n, flags: DirtyFlags::paint(), apply: "first" });
    rt.push_update(PendingUpdate { node_id: n, flags: DirtyFlags::layout(), apply: "second" });
    assert!(rt.has_updates());
    let drained = rt.drain_updates();
    assert_eq!(drained.iter().map(|u| u.apply).collect::<Vec<_>>(), vec!["first", "second"]);
    assert!(!rt.has_updates());
    let _: NodeId = drained[0].node_id;
}

#[test]
fn maybe_signal_get_and_map() {
    let mut rt: Rt = Runtime::new();
    let fixed: MaybeSignal<i64> = MaybeSignal::Static(4);
    assert_eq!(fixed.get(&mut rt), 4);
    match fixed.map(&mut rt, |x: i64| x * 10, 0) {
        MaybeSignal::Static(v) => assert_eq!(v, 40),
        MaybeSignal::Signal(_) => panic!("a fixed value stays fixed"),
    }
    let s = signal(&mut rt, 2);
    let mapped = MaybeSignal::Signal(s).map(&mut rt, |x: i64| x + 1, 5);
    assert_eq!(mapped.get(&mut rt), 3);
    assert_eq!(s.set(&mut rt, 8), vec![5]);
}

#[test]
fn bind_field_takes_the_value_and_records_signals() {
    let mut rt: Rt = Runtime::new();
    let mut current = 0i64;
    let mut bindings: Vec<DeferredBinding<u8>> = Vec::new();
    bind_field(&mut current, &mut bindings, MaybeSignal::Static(3), DirtyFlags::paint(), 1u8, &mut rt);
    assert_eq!(current, 3);
    assert!(bindings.is_empty());
    let s = signal(&mut rt, 9);
    bind_field(&mut current, &mut bindings, MaybeSignal::Signal(s), DirtyFlags::layout(), 2u8, &mut rt);
    assert_eq!(current, 9);
    assert_eq!(bindings.len(), 1);
    assert_eq!(bindings[0].signal, s);
    assert_eq!(bindings[0].apply, 2);
}

#[test]
fn mapped_signal_follows_later_sets() {
    let mut rt: Rt = Runtime::new();
    let s = signal(&mut rt, 4);
    let mapped = MaybeSignal::Signal(s).map(&mut rt, |x: i64| x + 1, 5);
    let d = match mapped {
        MaybeSignal::Signal(d) => d,
        MaybeSignal::Static(_) => panic!("a signal maps to a signal"),
    };
    assert_eq!(d.get(&mut rt), 5);
    assert_eq!(s.set(&mut rt, 9), vec![5]);
    d.recompute(s, &mut rt, |x: i64| x + 1);
    assert_eq!(d.get(&mut rt), 10);
}
