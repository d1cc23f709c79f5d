use lighter::arena::NodeArena;
use lighter::flags::DirtyFlags;
use lighter::node::NodeKind;
use lighter::propagation::Reactor;
use lighter::reactive::{Runtime, Signal, SignalId};

#[derive(Clone, Debug, PartialEq)]
enum Value {
    Num(i64),
    Text(String),
}

fn num(v: &Value) -> i64 {
    match v {
        Value::Num(n) => *n,
        Value::Text(_) => panic!("not a number"),
    }
}

/// The computations of the derived signals in these tests.
#[derive(Clone, Debug)]
enum Compute {
    Label(SignalId),
    Double(SignalId),
    Sum(SignalId, SignalId),
}

type Rt = Runtime<Value, usize, String>;

fn eval(c: &Compute, rt: &Rt) -> Value {
    match c {
        Compute::Label(s) => Value::Text(format!("count: {}", num(&rt.peek(*s)))),
        Compute::Double(s) => Value::Num(2 * num(&rt.peek(*s))),
        Compute::Sum(a, b) => Value::Num(num(&rt.peek(*a)) + num(&rt.peek(*b))),
    }
}

fn to_apply(v: &Value) -> String {
    match v {
        Value::Num(n) => n.to_string(),
        Value::Text(t) => t.clone(),
    }
}

fn derive(r: &mut Reactor<Value, String, Compute>, c: Compute) -> Signal {
    r.track_begin();
    let initial = {
        match &c {
            Compute::Label(s) => Value::Text(format!("count: {}", num(&r.get(*s)))),
            Compute::Double(s) => Value::Num(2 * num(&r.get(*s))),
            Compute::Sum(a, b) => {
                let x = num(&r.get(*a));
                Value::Num(x + num(&r.get(*b)))
            }
        }
    };
    let deps = r.track_end();
    r.derived(initial, deps, c)
}

#[test]
fn derived_label_follows_count() {
    let mut r: Reactor<Value, String, Compute> = Reactor::new();
    let count = r.signal(Value::Num(0));
    let label = derive(&mut r, Compute::Label(count.id));
    assert_eq!(r.peek(label.id), Value::Text("count: 0".to_string()));
    let next = Value::Num(num(&r.peek(count.id)) + 1);
    r.set(count.id, next, &eval, &to_apply);
    assert_eq!(r.peek(label.id), Value::Text("count: 1".to_string()));
    assert!(!r.has_updates());
}

#[test]
fn bound_field_queues_one_update_per_set() {
    let mut arena = NodeArena::new();
    let node = arena.create_node(NodeKind::Text, None).unwrap();
    let mut r: Reactor<Value, String, Compute> = Reactor::new();
    let s = r.signal(Value::Num(2));
    r.bind(s, node, DirtyFlags::paint());
    r.set(s.id, Value::Num(3), &eval, &to_apply);
    r.set(s.id, Value::Num(4), &eval, &to_apply);
    let updates = r.drain_updates();
    assert_eq!(updates.len(), 2);
    assert_eq!(updates[0].node_id, node);
    assert_eq!(updates[0].flags, DirtyFlags::paint());
    assert_eq!(updates[0].apply, "3");
    assert_eq!(updates[1].apply, "4");
    assert!(!r.has_updates());
}

#[test]
fn derived_chains_and_diamonds_recompute() {
    let mut arena = NodeArena::new();
    let node = arena.create_node(NodeKind::Text, None).unwrap();
    let mut r: Reactor<Value, String, Compute> = Reactor::new();
    let a = r.signal(Value::Num(1));
    let d = derive(&mut r, Compute::Double(a.id));
    let sum = derive(&mut r, Compute::Sum(a.id, d.id));
    r.bind(sum, node, DirtyFlags::layout());
    assert_eq!(r.peek(sum.id), Value::Num(3));
    r.set(a.id, Value::Num(5), &eval, &to_apply);
    assert_eq!(r.peek(d.id), Value::Num(10));
    assert_eq!(r.peek(sum.id), Value::Num(15));
    let updates = r.drain_updates();
    assert_eq!(updates.last().unwrap().apply, "15");
    assert_eq!(updates.last().unwrap().node_id, node);
}

#[test]
fn a_signal_with_no_dependents_changes_alone() {
    let mut r: Reactor<Value, String, Compute> = Reactor::new();
    let a = r.signal(Value::Num(1));
    let b = r.signal(Value::Num(7));
    r.set(a.id, Value::Num(9), &eval, &to_apply);
    assert_eq!(r.peek(a.id), Value::Num(9));
    assert_eq!(r.peek(b.id), Value::Num(7));
    assert_eq!(r.signal_count(), 2);
}
