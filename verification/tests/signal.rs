use lighter::reactive::Runtime;
use lighter::flags::DirtyFlags;
use lighter::signal::{bind, signal, ReadBinding, Reactive, ReadSignal, Signal};

type Rt = Runtime<i64, u32, ()>;

#[test]
fn cell_set_and_read_view() {
    let mut rt: Rt = Runtime::new();
    let s = signal(&mut rt, 1);
    let r: ReadSignal = s.read();
    assert_eq!(r.get(&rt), 1);
    r.subscribe(&mut rt, 4);
    assert_eq!(s.set(&mut rt, 6), vec![4]);
    assert_eq!(r.get(&rt), 6);
    assert_eq!(s.get(&rt), 6);
    let t = Signal::new(&mut rt, 0);
    assert_eq!(t.get(&rt), 0);
}

#[test]
fn mapped_cell_subscribes_to_its_source() {
    let mut rt: Rt = Runtime::new();
    let s = signal(&mut rt, 2);
    let m = s.read().map(&mut rt, |x: i64| x * 3, 11);
    assert_eq!(m.get(&rt), 6);
    assert_eq!(s.set(&mut rt, 5), vec![11]);
}

#[test]
fn reactive_values() {
    let mut rt: Rt = Runtime::new();
    let fixed = Reactive::Static(7i64);
    assert_eq!(fixed.get(&rt), 7);
    match fixed.map(&mut rt, |x: i64| -x, 0) {
        Reactive::Static(v) => assert_eq!(v, -7),
        Reactive::Dynamic(_) => panic!("a fixed value stays fixed"),
    }
    let s = signal(&mut rt, 1);
    let d = Reactive::Dynamic(s.read()).map(&mut rt, |x: i64| x + 100, 2);
    assert_eq!(d.get(&rt), 101);
}

#[test]
fn bind_reads_the_current_value() {
    let mut rt: Rt = Runtime::new();
    let mut field = 0i64;
    let mut bindings: Vec<ReadBinding<char>> = Vec::new();
    bind(Reactive::Static(5), &mut field, &mut bindings, DirtyFlags::paint(), 'a', &rt);
    assert_eq!(field, 5);
    assert!(bindings.is_empty());
    let s = signal(&mut rt, 8);
    bind(Reactive::Dynamic(s.read()), &mut field, &mut bindings, DirtyFlags::layout(), 'b', &rt);
    assert_eq!(field, 8);
    assert_eq!(bindings.len(), 1);
    assert_eq!(bindings[0].signal, s.read());
    assert_eq!(bindings[0].apply, 'b');
}

#[test]
fn mapped_cell_follows_later_sets() {
    let mut rt: Rt = Runtime::new();
    let s = signal(&mut rt, 2);
    let m = s.read().map(&mut rt, |x: i64| x * 10, 11);
    assert_eq!(m.get(&rt), 20);
    let due = s.set(&mut rt, 3);
    assert_eq!(due, vec![11]);
    m.recompute(s.read(), &mut rt, |x: i64| x * 10);
    assert_eq!(m.get(&rt), 30);
}
