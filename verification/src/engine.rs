//! The engine's decisions: interaction states on pointer events, the hover path, resizing and
//! the dirty bookkeeping of a frame. Hit testing, layout, painting and callbacks are done by the
//! caller, which hands the engine node paths and gets node lists back.
use vstd::prelude::*;
use crate::arena::{NodeArena, propagate, preorder, with_dirty, with_states, carries, flag_total, lemma_propagate_dom};
use crate::count::lemma_count_pos;
use crate::flags::{has_bit, lemma_bits_ops};
use crate::flags::{DirtyFlags, InteractionState, state_after, has_state};
use crate::geometry::Size;
use crate::node::{NodeId, NodeView, Error};

verus! {

/// One change of interaction state: turn `states` of `node` on (`on`) or off.
#[derive(Clone, Copy, Debug)]
pub struct StateChange {
    pub node: NodeId,
    pub states: InteractionState,
    pub on: bool,
}

impl View for StateChange {
    type V = (NodeId, u8, bool);

    open spec fn view(&self) -> (NodeId, u8, bool) {
        (self.node, self.states@, self.on)
    }
}

/// The values of a sequence of state changes.
pub open spec fn change_views(ops: Seq<StateChange>) -> Seq<(NodeId, u8, bool)> {
    ops.map_values(|c: StateChange| c@)
}

/// The values of a sequence of dirty markings.
pub open spec fn update_views(ups: Seq<(NodeId, DirtyFlags)>) -> Seq<(NodeId, u8)> {
    ups.map_values(|u: (NodeId, DirtyFlags)| (u.0, u.1@))
}

/// The leaf callbacks a pointer move calls: the leaf it left and the leaf it entered.
#[derive(Clone, Copy, Debug, PartialEq, Eq, Structural)]
pub struct HoverChange {
    pub leave: Option<NodeId>,
    pub enter: Option<NodeId>,
}

/// The nodes after turning states `s` of `id` on or off, and the outcome. A node whose states
/// change gains the paint flag.
pub open spec fn set_state_spec(m: Map<NodeId, NodeView>, id: NodeId, s: u8, on: bool) -> (Map<NodeId, NodeView>, Result<(), Error>) {
    if !m.dom().contains(id) {
        (m, Err(Error::NodeNotFound(id)))
    } else {
        let ns = state_after(m[id].states, s, on);
        if ns == m[id].states {
            (m, Ok(()))
        } else {
            let v = with_states(m[id], ns);
            (m.insert(id, with_dirty(v, v.dirty | 2)), Ok(()))
        }
    }
}

/// The nodes after applying the changes `ops` in order, stopping at the first that fails; the
/// outcome; and how many changes succeeded.
pub open spec fn run_ops(m: Map<NodeId, NodeView>, ops: Seq<(NodeId, u8, bool)>) -> (Map<NodeId, NodeView>, Result<(), Error>, nat)
    decreases ops.len(),
{
    if ops.len() == 0 {
        (m, Ok(()), 0)
    } else {
        let step = set_state_spec(m, ops[0].0, ops[0].1, ops[0].2);
        match step.1 {
            Err(e) => (step.0, Err(e), 0),
            Ok(_) => {
                let rest = run_ops(step.0, ops.drop_first());
                (rest.0, rest.1, rest.2 + 1)
            },
        }
    }
}

/// For each node of `s` in order: hover off, then active off.
pub open spec fn leave_ops(s: Seq<NodeId>) -> Seq<(NodeId, u8, bool)> {
    Seq::new(2 * s.len(), |k: int| (s[k / 2], if k % 2 == 0 { 1u8 } else { 2u8 }, false))
}

/// For each node of `s` in order: hover on.
pub open spec fn enter_ops(s: Seq<NodeId>) -> Seq<(NodeId, u8, bool)> {
    s.map_values(|x: NodeId| (x, 1u8, true))
}

/// The test "is not in `s`".
pub open spec fn not_in(s: Seq<NodeId>) -> spec_fn(NodeId) -> bool {
    |x: NodeId| !s.contains(x)
}

/// The changes of a move of the hover path from `old` to `new`: the nodes that left lose hover
/// and active, then the nodes that entered gain hover.
pub open spec fn hover_ops(old: Seq<NodeId>, new: Seq<NodeId>) -> Seq<(NodeId, u8, bool)> {
    leave_ops(old.filter(not_in(new))) + enter_ops(new.filter(not_in(old)))
}

/// Active on (`on`) or off for each node of `path`, from the last to the first.
pub open spec fn press_ops(path: Seq<NodeId>, on: bool) -> Seq<(NodeId, u8, bool)> {
    Seq::new(path.len(), |k: int| (path[path.len() - 1 - k], 2u8, on))
}

/// The last node of `s`, if any.
pub open spec fn leaf(s: Seq<NodeId>) -> Option<NodeId> {
    if s.len() == 0 {
        None
    } else {
        Some(s.last())
    }
}

/// The leaf callbacks of a hover move from `old` to `new` over the nodes `m`: none when the leaf
/// stays; otherwise the old leaf left and the new leaf entered, each when it is a live node.
pub open spec fn hover_change(m: Map<NodeId, NodeView>, old: Seq<NodeId>, new: Seq<NodeId>) -> HoverChange {
    if leaf(old) == leaf(new) {
        HoverChange { leave: None, enter: None }
    } else {
        HoverChange {
            leave: match leaf(old) {
                Some(n) => if m.dom().contains(n) { Some(n) } else { None },
                None => None,
            },
            enter: match leaf(new) {
                Some(n) => if m.dom().contains(n) { Some(n) } else { None },
                None => None,
            },
        }
    }
}

/// The nodes after marking each `(node, flags)` of `ups` dirty in order, whatever each marking
/// returns, and the nodes whose layout cache is to be cleared.
pub open spec fn mark_all(m: Map<NodeId, NodeView>, ups: Seq<(NodeId, u8)>) -> (Map<NodeId, NodeView>, Seq<NodeId>)
    decreases ups.len(),
{
    if ups.len() == 0 {
        (m, Seq::empty())
    } else {
        let before = mark_all(m, ups.drop_last());
        let p = propagate(before.0, ups.last().0, ups.last().1);
        (p.0, before.1 + p.2)
    }
}

/// The nodes `m` with the paint flag cleared on the nodes of `s`.
pub open spec fn clear_paint(m: Map<NodeId, NodeView>, s: Seq<NodeId>) -> Map<NodeId, NodeView> {
    m.map_entries(|k: NodeId, v: NodeView| if s.contains(k) { with_dirty(v, v.dirty & !2u8) } else { v })
}

/// The nodes `m` with the layout flag cleared on the nodes of `s`.
pub open spec fn clear_layout(m: Map<NodeId, NodeView>, s: Seq<NodeId>) -> Map<NodeId, NodeView> {
    m.map_entries(|k: NodeId, v: NodeView| if s.contains(k) { with_dirty(v, v.dirty & !1u8) } else { v })
}

/// Changing interaction states neither adds nor removes a node.
pub proof fn lemma_run_ops_dom(m: Map<NodeId, NodeView>, ops: Seq<(NodeId, u8, bool)>)
    ensures
        run_ops(m, ops).0.dom() == m.dom(),
    decreases ops.len(),
{
    if ops.len() > 0 {
        let step = set_state_spec(m, ops[0].0, ops[0].1, ops[0].2);
        assert(step.0.dom() =~= m.dom());
        if step.1 is Ok {
            lemma_run_ops_dom(step.0, ops.drop_first());
        }
    }
}

/// No more changes succeed than were asked for.
pub proof fn lemma_run_ops_count(m: Map<NodeId, NodeView>, ops: Seq<(NodeId, u8, bool)>)
    ensures
        run_ops(m, ops).2 <= ops.len(),
    decreases ops.len(),
{
    if ops.len() > 0 {
        let step = set_state_spec(m, ops[0].0, ops[0].1, ops[0].2);
        if step.1 is Ok {
            lemma_run_ops_count(step.0, ops.drop_first());
        }
    }
}

proof fn lemma_push_contains(s: Seq<NodeId>, x: NodeId, y: NodeId)
    ensures
        s.push(x).contains(y) == (s.contains(y) || y == x),
{
    if s.contains(y) {
        let k = choose|k: int| 0 <= k < s.len() && s[k] == y;
        assert(s.push(x)[k] == y);
    }
    if y == x {
        assert(s.push(x)[s.len() as int] == x);
    }
    if s.push(x).contains(y) {
        let k = choose|k: int| 0 <= k < s.len() + 1 && s.push(x)[k] == y;
        if k < s.len() {
            assert(s[k] == y);
        }
    }
}

/// The nodes after a hover move from `old` to `new` over `m`.
pub open spec fn hover_result(m: Map<NodeId, NodeView>, old: Seq<NodeId>, new: Seq<NodeId>) -> Map<NodeId, NodeView> {
    run_ops(m, hover_ops(old, new)).0
}

/// The nodes after a press (`on`) or a release over `path` on `m`.
pub open spec fn press_result(m: Map<NodeId, NodeView>, path: Seq<NodeId>, on: bool) -> Map<NodeId, NodeView> {
    run_ops(m, press_ops(path, on)).0
}

/// Whether some change of `ops` acts on state number `b` of node `n`.
pub open spec fn touches(ops: Seq<(NodeId, u8, bool)>, n: NodeId, b: int) -> bool {
    exists|k: int| 0 <= k < ops.len() && ops[k].0 == n && #[trigger] has_state(ops[k].1, b)
}

/// Whether every change of `ops` that acts on state number `b` of node `n` turns it to `v`.
pub open spec fn consistent(ops: Seq<(NodeId, u8, bool)>, n: NodeId, b: int, v: bool) -> bool {
    forall|k: int| 0 <= k < ops.len() && ops[k].0 == n && #[trigger] has_state(ops[k].1, b) ==> ops[k].2 == v
}

proof fn lemma_state_after_bits(x: u8, s: u8)
    ensures
        forall|i: int| #![trigger has_state(state_after(x, s, true), i)]
            has_state(state_after(x, s, true), i) == (has_state(x, i) || has_state(s, i)),
        forall|i: int| #![trigger has_state(state_after(x, s, false), i)]
            has_state(state_after(x, s, false), i) == (has_state(x, i) && !has_state(s, i)),
{
    let a = x | s;
    let c = x & !s;
    assert((a % 2 == 1) == (x % 2 == 1 || s % 2 == 1) && ((a / 2) % 2 == 1) == ((x / 2) % 2 == 1 || (s / 2) % 2 == 1)
        && ((a / 4) % 2 == 1) == ((x / 4) % 2 == 1 || (s / 4) % 2 == 1) && ((a / 8) % 2 == 1) == ((x / 8) % 2 == 1
        || (s / 8) % 2 == 1)) by (bit_vector)
        requires
            a == x | s,
    ;
    assert((c % 2 == 1) == (x % 2 == 1 && s % 2 != 1) && ((c / 2) % 2 == 1) == ((x / 2) % 2 == 1 && (s / 2) % 2 != 1)
        && ((c / 4) % 2 == 1) == ((x / 4) % 2 == 1 && (s / 4) % 2 != 1) && ((c / 8) % 2 == 1) == ((x / 8) % 2 == 1
        && (s / 8) % 2 != 1)) by (bit_vector)
        requires
            c == x & !s,
    ;
}

proof fn lemma_step(m: Map<NodeId, NodeView>, id: NodeId, s: u8, on: bool)
    requires
        set_state_spec(m, id, s, on).1 is Ok,
    ensures
        m.dom().contains(id),
        set_state_spec(m, id, s, on).0.dom() == m.dom(),
        set_state_spec(m, id, s, on).0[id].states == state_after(m[id].states, s, on),
        forall|n: NodeId| n != id ==> #[trigger] set_state_spec(m, id, s, on).0[n] == m[n],
{
    assert(set_state_spec(m, id, s, on).0.dom() =~= m.dom());
}

/// A run of changes that succeeds acted only on live nodes.
pub proof fn lemma_run_ops_live(m: Map<NodeId, NodeView>, ops: Seq<(NodeId, u8, bool)>)
    requires
        run_ops(m, ops).1 is Ok,
    ensures
        forall|k: int| 0 <= k < ops.len() ==> m.dom().contains(#[trigger] ops[k].0),
    decreases ops.len(),
{
    if ops.len() > 0 {
        let step = set_state_spec(m, ops[0].0, ops[0].1, ops[0].2);
        lemma_step(m, ops[0].0, ops[0].1, ops[0].2);
        lemma_run_ops_live(step.0, ops.drop_first());
        assert forall|k: int| 0 <= k < ops.len() implies m.dom().contains(#[trigger] ops[k].0) by {
            if k > 0 {
                assert(ops[k] == ops.drop_first()[k - 1]);
            }
        }
    }
}

/// Changes that never name node `n` leave it as it was.
pub proof fn lemma_run_ops_frame(m: Map<NodeId, NodeView>, ops: Seq<(NodeId, u8, bool)>, n: NodeId)
    requires
        m.dom().contains(n),
        forall|k: int| 0 <= k < ops.len() ==> #[trigger] ops[k].0 != n,
    ensures
        run_ops(m, ops).0[n] == m[n],
    decreases ops.len(),
{
    if ops.len() > 0 {
        let step = set_state_spec(m, ops[0].0, ops[0].1, ops[0].2);
        assert(ops[0].0 != n);
        assert(step.0.dom().contains(n));
        assert(step.0[n] == m[n]);
        if step.1 is Ok {
            assert forall|k: int| 0 <= k < ops.drop_first().len() implies #[trigger] ops.drop_first()[k].0 != n by {
                assert(ops.drop_first()[k] == ops[k + 1]);
            }
            lemma_run_ops_frame(step.0, ops.drop_first(), n);
        }
    }
}

/// After a run of changes that succeeds, state number `b` of a live node `n` is what the changes
/// acting on it turn it to, or what it was when none acts on it.
pub proof fn lemma_run_ops_bit(m: Map<NodeId, NodeView>, ops: Seq<(NodeId, u8, bool)>, n: NodeId, b: int, v: bool)
    requires
        run_ops(m, ops).1 is Ok,
        m.dom().contains(n),
        consistent(ops, n, b, v),
    ensures
        has_state(run_ops(m, ops).0[n].states, b) == if touches(ops, n, b) {
            v
        } else {
            has_state(m[n].states, b)
        },
    decreases ops.len(),
{
    if ops.len() > 0 {
        let (id, st, on) = ops[0];
        let step = set_state_spec(m, id, st, on);
        lemma_step(m, id, st, on);
        let rest = ops.drop_first();
        assert forall|k: int| 0 <= k < rest.len() && rest[k].0 == n && #[trigger] has_state(rest[k].1, b) implies rest[k].2 == v by {
            assert(rest[k] == ops[k + 1]);
        }
        lemma_run_ops_bit(step.0, rest, n, b, v);
        lemma_state_after_bits(m[id].states, st);
        if touches(rest, n, b) {
            let k = choose|k: int| 0 <= k < rest.len() && rest[k].0 == n && #[trigger] has_state(rest[k].1, b);
            assert(ops[k + 1] == rest[k]);
            assert(touches(ops, n, b));
        } else {
            if id == n && has_state(st, b) {
                assert(touches(ops, n, b));
            } else {
                assert(!touches(ops, n, b)) by {
                    if touches(ops, n, b) {
                        let k = choose|k: int| 0 <= k < ops.len() && ops[k].0 == n && #[trigger] has_state(ops[k].1, b);
                        if k > 0 {
                            assert(rest[k - 1] == ops[k]);
                        }
                    }
                }
            }
        }
    }
}

/// A hover move that succeeds leaves each node that entered the path hovered, each node that
/// left it neither hovered nor active, and every other node as it was.
pub proof fn lemma_hover_move(m: Map<NodeId, NodeView>, old: Seq<NodeId>, new: Seq<NodeId>)
    requires
        run_ops(m, hover_ops(old, new)).1 is Ok,
    ensures
        hover_result(m, old, new).dom() == m.dom(),
        forall|n: NodeId|
            new.contains(n) && !old.contains(n) ==> m.dom().contains(n) && has_state(
                (#[trigger] hover_result(m, old, new)[n]).states,
                0,
            ),
        forall|n: NodeId|
            old.contains(n) && !new.contains(n) ==> m.dom().contains(n) && !has_state(
                (#[trigger] hover_result(m, old, new)[n]).states,
                0,
            ) && !has_state(hover_result(m, old, new)[n].states, 1),
        forall|n: NodeId|
            m.dom().contains(n) && old.contains(n) == new.contains(n) ==> #[trigger] hover_result(m, old, new)[n] == m[n],
{
    let l = old.filter(not_in(new));
    let e = new.filter(not_in(old));
    let ops = hover_ops(old, new);
    let ll = 2 * l.len();
    assert(ops.len() == ll + e.len());
    assert forall|k: int| 0 <= k < ll implies #[trigger] ops[k] == (l[k / 2], if k % 2 == 0 { 1u8 } else { 2u8 }, false) by {}
    assert forall|k: int| ll <= k < ops.len() implies #[trigger] ops[k] == (e[k - ll], 1u8, true) by {}
    assert forall|j: int| 0 <= j < l.len() implies #[trigger] not_in(new)(l[j]) by {
        old.lemma_filter_pred(not_in(new), j);
    }
    assert forall|j: int| 0 <= j < e.len() implies #[trigger] not_in(old)(e[j]) by {
        new.lemma_filter_pred(not_in(old), j);
    }
    lemma_run_ops_dom(m, ops);
    lemma_run_ops_live(m, ops);
    assert(has_state(1u8, 0) && has_state(2u8, 1) && !has_state(2u8, 0) && !has_state(1u8, 1));
    assert forall|n: NodeId| new.contains(n) && !old.contains(n) implies m.dom().contains(n) && has_state(
        (#[trigger] hover_result(m, old, new)[n]).states, 0) by {
        let i = choose|i: int| 0 <= i < new.len() && new[i] == n;
        new.lemma_filter_contains(not_in(old), i);
        let j = choose|j: int| 0 <= j < e.len() && e[j] == n;
        assert(ops[ll + j].0 == n);
        assert(has_state(ops[ll + j].1, 0));
        assert forall|k: int| 0 <= k < ops.len() && ops[k].0 == n && #[trigger] has_state(ops[k].1, 0) implies ops[k].2 == true by {
            if k < ll {
                assert(ops[k].0 == l[k / 2]);
                assert(not_in(new)(l[k / 2]));
            }
        }
        lemma_run_ops_bit(m, ops, n, 0, true);
    }
    assert forall|n: NodeId| old.contains(n) && !new.contains(n) implies m.dom().contains(n) && !has_state(
        (#[trigger] hover_result(m, old, new)[n]).states, 0) && !has_state(hover_result(m, old, new)[n].states, 1) by {
        let i = choose|i: int| 0 <= i < old.len() && old[i] == n;
        old.lemma_filter_contains(not_in(new), i);
        let j = choose|j: int| 0 <= j < l.len() && l[j] == n;
        assert(ops[2 * j].0 == n && has_state(ops[2 * j].1, 0));
        assert(ops[2 * j + 1].0 == n && has_state(ops[2 * j + 1].1, 1));
        assert forall|k: int| 0 <= k < ops.len() && ops[k].0 == n implies ops[k].2 == false by {
            if k >= ll {
                assert(ops[k].0 == e[k - ll]);
                assert(not_in(old)(e[k - ll]));
            }
        }
        lemma_run_ops_bit(m, ops, n, 0, false);
        lemma_run_ops_bit(m, ops, n, 1, false);
    }
    assert forall|n: NodeId| m.dom().contains(n) && old.contains(n) == new.contains(n) implies #[trigger] hover_result(m, old, new)[n] == m[n] by {
        assert forall|k: int| 0 <= k < ops.len() implies #[trigger] ops[k].0 != n by {
            if k < ll {
                assert(ops[k].0 == l[k / 2]);
                old.lemma_filter_contains_rev(not_in(new), l[k / 2]);
                assert(not_in(new)(l[k / 2]));
            } else {
                assert(ops[k].0 == e[k - ll]);
                new.lemma_filter_contains_rev(not_in(old), e[k - ll]);
                assert(not_in(old)(e[k - ll]));
            }
        }
        lemma_run_ops_frame(m, ops, n);
    }
}

/// While every node of the hover path is live and hovered, a move that succeeds keeps it so.
pub proof fn lemma_hover_path_hovered(m: Map<NodeId, NodeView>, old: Seq<NodeId>, new: Seq<NodeId>)
    requires
        run_ops(m, hover_ops(old, new)).1 is Ok,
        forall|n: NodeId| #[trigger] old.contains(n) ==> m.dom().contains(n) && has_state(m[n].states, 0),
    ensures
        forall|n: NodeId| #[trigger] new.contains(n) ==> hover_result(m, old, new).dom().contains(n)
            && has_state(hover_result(m, old, new)[n].states, 0),
{
    lemma_hover_move(m, old, new);
    assert forall|n: NodeId| #[trigger] new.contains(n) implies hover_result(m, old, new).dom().contains(n)
        && has_state(hover_result(m, old, new)[n].states, 0) by {
        if old.contains(n) {
            assert(hover_result(m, old, new)[n] == m[n]);
        } else {
            assert(has_state(hover_result(m, old, new)[n].states, 0));
        }
    }
}

/// A press (`on`) that succeeds leaves every node of the path active; a release that succeeds
/// leaves none of them active. Nodes off the path are left as they were.
pub proof fn lemma_press(m: Map<NodeId, NodeView>, path: Seq<NodeId>, on: bool)
    requires
        run_ops(m, press_ops(path, on)).1 is Ok,
    ensures
        press_result(m, path, on).dom() == m.dom(),
        forall|n: NodeId| path.contains(n) ==> m.dom().contains(n) && has_state((#[trigger] press_result(m, path, on)[n]).states, 1) == on,
        forall|n: NodeId| m.dom().contains(n) && !path.contains(n) ==> #[trigger] press_result(m, path, on)[n] == m[n],
{
    let ops = press_ops(path, on);
    lemma_run_ops_dom(m, ops);
    lemma_run_ops_live(m, ops);
    assert(has_state(2u8, 1));
    assert forall|n: NodeId| path.contains(n) implies m.dom().contains(n) && has_state((#[trigger] press_result(m, path, on)[n]).states, 1) == on by {
        let i = choose|i: int| 0 <= i < path.len() && path[i] == n;
        let k = path.len() - 1 - i;
        assert(ops[k].0 == n && has_state(ops[k].1, 1));
        lemma_run_ops_bit(m, ops, n, 1, on);
    }
    assert forall|n: NodeId| m.dom().contains(n) && !path.contains(n) implies #[trigger] press_result(m, path, on)[n] == m[n] by {
        assert forall|k: int| 0 <= k < ops.len() implies #[trigger] ops[k].0 != n by {
            assert(ops[k].0 == path[path.len() - 1 - k]);
        }
        lemma_run_ops_frame(m, ops, n);
    }
}

/// Whether `x` is an element of `v`.
fn contains_id(v: &Vec<NodeId>, x: NodeId) -> (r: bool)
    ensures
        r == v@.contains(x),
{
    let mut i: usize = 0;
    while i < v.len()
        invariant
            i <= v.len(),
            forall|k: int| 0 <= k < i ==> v@[k] != x,
        decreases v.len() - i,
    {
        if v[i] == x {
            return true;
        }
        i = i + 1;
    }
    false
}

/// The elements of `v` that are not in `w`, in order.
fn not_in_vec(v: &Vec<NodeId>, w: &Vec<NodeId>) -> (r: Vec<NodeId>)
    ensures
        r@ == v@.filter(not_in(w@)),
{
    let mut r: Vec<NodeId> = Vec::new();
    let mut i: usize = 0;
    while i < v.len()
        invariant
            i <= v.len(),
            r@ == v@.take(i as int).filter(not_in(w@)),
        decreases v.len() - i,
    {
        proof {
            reveal_with_fuel(Seq::filter, 1);
            assert(v@.take(i + 1).drop_last() == v@.take(i as int));
        }
        if !contains_id(w, v[i]) {
            r.push(v[i]);
        }
        i = i + 1;
    }
    assert(v@.take(v.len() as int) == v@);
    r
}

/// Whether `a` and `b` hold the same nodes in the same order.
fn same_path(a: &Vec<NodeId>, b: &Vec<NodeId>) -> (r: bool)
    ensures
        r == (a@ == b@),
{
    if a.len() != b.len() {
        return false;
    }
    let mut i: usize = 0;
    while i < a.len()
        invariant
            i <= a.len(),
            a.len() == b.len(),
            forall|k: int| 0 <= k < i ==> a@[k] == b@[k],
        decreases a.len() - i,
    {
        if a[i] != b[i] {
            return false;
        }
        i = i + 1;
    }
    assert(a@ =~= b@);
    true
}

/// The node tree of one window and what the engine remembers between events: its root, its
/// size, and the path of nodes under the pointer.
pub struct Engine {
    arena: NodeArena,
    root: NodeId,
    size: Size<usize>,
    hover_path: Vec<NodeId>,
}

impl Engine {
    /// The nodes.
    pub closed spec fn nodes(&self) -> Map<NodeId, NodeView> {
        self.arena.nodes()
    }

    /// The root node.
    pub closed spec fn root_id(&self) -> NodeId {
        self.root
    }

    /// The window size.
    pub closed spec fn size_of(&self) -> Size<usize> {
        self.size
    }

    /// The path of nodes under the pointer, from the root to the leaf.
    pub closed spec fn hover(&self) -> Seq<NodeId> {
        self.hover_path@
    }

    /// The depth under which the tree of every node is explored in full.
    pub closed spec fn depth_bound(&self) -> nat {
        self.arena.fuel()
    }

    /// The engine's invariant: a well-formed arena whose counts are exact and which holds the
    /// root.
    pub closed spec fn wf(&self) -> bool {
        &&& self.arena.wf()
        &&& self.arena.counts_exact()
        &&& self.arena.nodes().dom().contains(self.root)
    }

    /// An engine over the tree `arena` rooted at `root`, for a window of size `size`, with nothing
    /// under the pointer.
    pub fn new(arena: NodeArena, root: NodeId, size: Size<usize>) -> (r: Engine)
        requires
            arena.wf(),
            arena.counts_exact(),
            arena.nodes().dom().contains(root),
        ensures
            r.wf(),
            r.nodes() == arena.nodes(),
            r.root_id() == root,
            r.size_of() == size,
            r.hover() == Seq::<NodeId>::empty(),
    {
        Engine { arena, root, size, hover_path: Vec::new() }
    }

    /// The node tree.
    pub fn arena(&self) -> (r: &NodeArena)
        ensures
            r.nodes() == self.nodes(),
            self.wf() ==> r.wf() && r.counts_exact(),
    {
        &self.arena
    }

    /// The root node.
    pub fn root(&self) -> (r: NodeId)
        ensures
            r == self.root_id(),
    {
        self.root
    }

    /// The window size.
    pub fn get_size(&self) -> (r: Size<usize>)
        ensures
            r == self.size_of(),
    {
        self.size
    }

    /// The path of nodes under the pointer.
    pub fn hover_path(&self) -> (r: &Vec<NodeId>)
        ensures
            r@ == self.hover(),
    {
        &self.hover_path
    }

    /// Turns the interaction states `state` of `node_id` on (`on`) or off; a node whose states
    /// change is marked for repaint.
    pub fn set_state(&mut self, node_id: NodeId, state: InteractionState, on: bool) -> (r: Result<(), Error>)
        requires
            old(self).wf(),
        ensures
            final(self).wf(),
            final(self).nodes() == set_state_spec(old(self).nodes(), node_id, state@, on).0,
            r == set_state_spec(old(self).nodes(), node_id, state@, on).1,
            final(self).root_id() == old(self).root_id(),
            final(self).size_of() == old(self).size_of(),
            final(self).hover() == old(self).hover(),
    {
        let ghost m0 = self.nodes();
        let current = match self.arena.get_data(node_id) {
            Ok(rec) => rec.interaction_state,
            Err(e) => return Err(e),
        };
        let mut next = current;
        next.set_flag(state, on);
        proof {
            crate::flags::lemma_state_view_eq(next, current);
        }
        if next != current {
            let _ = self.arena.replace_states(node_id, next);
            let ghost m1 = self.nodes();
            proof {
                self.arena.lemma_wf();
            }
            let mut cleared: Vec<NodeId> = Vec::new();
            let _ = self.arena.mark_dirty(node_id, DirtyFlags::paint(), &mut cleared);
            proof {
                lemma_propagate_dom(m1, node_id, 2);
                let v = with_states(m0[node_id], next@);
                assert(m1 == m0.insert(node_id, v));
                assert(m1[node_id] == v);
                if (v.dirty | 2) == v.dirty {
                    assert(m1.insert(node_id, with_dirty(v, v.dirty | 2)) =~= m1);
                }
            }
        }
        Ok(())
    }

    /// Applies the changes `ops` in order, stopping at the first that fails; returns its
    /// outcome and how many changes succeeded.
    pub fn apply_ops(&mut self, ops: &Vec<StateChange>) -> (r: (Result<(), Error>, usize))
        requires
            old(self).wf(),
        ensures
            final(self).wf(),
            final(self).nodes() == run_ops(old(self).nodes(), change_views(ops@)).0,
            r.0 == run_ops(old(self).nodes(), change_views(ops@)).1,
            r.1 == run_ops(old(self).nodes(), change_views(ops@)).2,
            final(self).root_id() == old(self).root_id(),
            final(self).size_of() == old(self).size_of(),
            final(self).hover() == old(self).hover(),
    {
        let ghost all = change_views(ops@);
        let ghost m0 = self.nodes();
        assert(all.skip(0) =~= all);
        let mut i: usize = 0;
        while i < ops.len()
            invariant
                self.wf(),
                i <= ops.len(),
                m0 == old(self).nodes(),
                all == change_views(ops@),
                run_ops(m0, all).0 == run_ops(self.nodes(), all.skip(i as int)).0,
                run_ops(m0, all).1 == run_ops(self.nodes(), all.skip(i as int)).1,
                run_ops(m0, all).2 == i + run_ops(self.nodes(), all.skip(i as int)).2,
                self.root_id() == old(self).root_id(),
                self.size_of() == old(self).size_of(),
                self.hover() == old(self).hover(),
            decreases ops.len() - i,
        {
            let c = ops[i];
            let ghost m = self.nodes();
            proof {
                assert(all.skip(i as int)[0] == c@);
                assert(all.skip(i as int).drop_first() == all.skip(i + 1));
            }
            let res = self.set_state(c.node, c.states, c.on);
            if let Err(e) = res {
                proof {
                    let step = set_state_spec(m, c.node, c.states@, c.on);
                    assert(step.1 == Err::<(), Error>(e));
                    assert(run_ops(m, all.skip(i as int)) == (step.0, step.1, 0nat));
                }
                return (Err(e), i);
            }
            i = i + 1;
        }
        (Ok(()), i)
    }

    /// The pointer moved onto `new_path` (root to leaf). When the path changed, the nodes that
    /// left it lose hover and active, the nodes that entered it gain hover, the path is
    /// remembered, and the leaves whose leave and enter callbacks are due are returned. A change
    /// that fails stops the move and leaves the remembered path as it was.
    pub fn pointer_move(&mut self, new_path: Vec<NodeId>) -> (r: Result<HoverChange, Error>)
        requires
            old(self).wf(),
        ensures
            final(self).wf(),
            final(self).root_id() == old(self).root_id(),
            final(self).size_of() == old(self).size_of(),
            old(self).hover() == new_path@ ==> final(self).nodes() == old(self).nodes()
                && final(self).hover() == old(self).hover()
                && r == Ok::<HoverChange, Error>(HoverChange { leave: None, enter: None }),
            old(self).hover() != new_path@ ==> {
                let res = run_ops(old(self).nodes(), hover_ops(old(self).hover(), new_path@));
                &&& final(self).nodes() == res.0
                &&& res.1 is Err ==> r == Err::<HoverChange, Error>(res.1->Err_0) && final(self).hover() == old(self).hover()
                &&& res.1 is Ok ==> final(self).hover() == new_path@ && r == Ok::<HoverChange, Error>(
                    hover_change(old(self).nodes(), old(self).hover(), new_path@))
            },
    {
        if same_path(&new_path, &self.hover_path) {
            return Ok(HoverChange { leave: None, enter: None });
        }
        let ghost m0 = self.nodes();
        let ghost old_path = self.hover_path@;
        let leaving = not_in_vec(&self.hover_path, &new_path);
        let entering = not_in_vec(&new_path, &self.hover_path);
        let mut ops: Vec<StateChange> = Vec::new();
        let mut i: usize = 0;
        while i < leaving.len()
            invariant
                i <= leaving.len(),
                change_views(ops@) == leave_ops(leaving@.take(i as int)),
            decreases leaving.len() - i,
        {
            let ghost prev = change_views(ops@);
            ops.push(StateChange { node: leaving[i], states: InteractionState::hover(), on: false });
            ops.push(StateChange { node: leaving[i], states: InteractionState::active(), on: false });
            proof {
                let x = leaving@[i as int];
                assert(change_views(ops@) =~= prev.push((x, 1u8, false)).push((x, 2u8, false)));
                assert(leave_ops(leaving@.take(i + 1)) =~= leave_ops(leaving@.take(i as int)).push((x, 1u8, false)).push((x, 2u8, false)));
            }
            i = i + 1;
        }
        assert(leaving@.take(leaving.len() as int) == leaving@);
        let ghost lops = change_views(ops@);
        let mut j: usize = 0;
        while j < entering.len()
            invariant
                j <= entering.len(),
                lops == leave_ops(leaving@),
                change_views(ops@) == lops + enter_ops(entering@.take(j as int)),
            decreases entering.len() - j,
        {
            let ghost prev = change_views(ops@);
            ops.push(StateChange { node: entering[j], states: InteractionState::hover(), on: true });
            proof {
                assert(change_views(ops@) =~= prev.push((entering@[j as int], 1u8, true)));
                assert(enter_ops(entering@.take(j + 1)) == enter_ops(entering@.take(j as int)).push((entering@[j as int], 1u8, true)));
                assert(change_views(ops@) =~= lops + enter_ops(entering@.take(j + 1)));
            }
            j = j + 1;
        }
        assert(entering@.take(entering.len() as int) == entering@);
        assert(change_views(ops@) == hover_ops(old_path, new_path@));
        let res = self.apply_ops(&ops);
        if let Err(e) = res.0 {
            return Err(e);
        }
        let old_leaf = if self.hover_path.len() == 0 {
            None
        } else {
            Some(self.hover_path[self.hover_path.len() - 1])
        };
        let new_leaf = if new_path.len() == 0 {
            None
        } else {
            Some(new_path[new_path.len() - 1])
        };
        proof {
            lemma_run_ops_dom(m0, hover_ops(old_path, new_path@));
        }
        let same_leaf = match (old_leaf, new_leaf) {
            (None, None) => true,
            (Some(a), Some(b)) => a == b,
            _ => false,
        };
        let mut change = HoverChange { leave: None, enter: None };
        if !same_leaf {
            if let Some(n) = old_leaf {
                if self.arena.get_data(n).is_ok() {
                    change.leave = Some(n);
                }
            }
            if let Some(n) = new_leaf {
                if self.arena.get_data(n).is_ok() {
                    change.enter = Some(n);
                }
            }
        }
        self.hover_path = new_path;
        Ok(change)
    }

    /// A press on `hit_path` (root to leaf): from the leaf up, each node becomes active and its
    /// handle is appended to `clicked`, target first; their click callbacks are then due, in that
    /// order, through a [`crate::event::ClickDispatch`], which ends the click when a callback
    /// stops it. A change that fails stops the press.
    pub fn pointer_down(&mut self, hit_path: &Vec<NodeId>, clicked: &mut Vec<NodeId>) -> (r: Result<(), Error>)
        requires
            old(self).wf(),
        ensures
            final(self).wf(),
            final(self).root_id() == old(self).root_id(),
            final(self).size_of() == old(self).size_of(),
            final(self).hover() == old(self).hover(),
            final(self).nodes() == run_ops(old(self).nodes(), press_ops(hit_path@, true)).0,
            r == run_ops(old(self).nodes(), press_ops(hit_path@, true)).1,
            final(clicked)@ == old(clicked)@ + hit_path@.reverse().take(
                run_ops(old(self).nodes(), press_ops(hit_path@, true)).2 as int,
            ),
    {
        let ops = Self::press(hit_path, true);
        let ghost m0 = self.nodes();
        let res = self.apply_ops(&ops);
        proof {
            lemma_run_ops_count(m0, press_ops(hit_path@, true));
        }
        let ghost start = clicked@;
        let mut k: usize = 0;
        while k < res.1
            invariant
                k <= res.1,
                res.1 <= hit_path.len(),
                clicked@ == start + hit_path@.reverse().take(k as int),
            decreases res.1 - k,
        {
            clicked.push(hit_path[hit_path.len() - 1 - k]);
            proof {
                assert(hit_path@.reverse().take(k + 1) =~= hit_path@.reverse().take(k as int).push(
                    hit_path@[hit_path.len() - 1 - k],
                ));
            }
            k = k + 1;
        }
        res.0
    }

    /// A release on `hit_path` (root to leaf): from the leaf up, each node stops being active.
    /// A change that fails stops the release.
    pub fn pointer_up(&mut self, hit_path: &Vec<NodeId>) -> (r: Result<(), Error>)
        requires
            old(self).wf(),
        ensures
            final(self).wf(),
            final(self).root_id() == old(self).root_id(),
            final(self).size_of() == old(self).size_of(),
            final(self).hover() == old(self).hover(),
            final(self).nodes() == run_ops(old(self).nodes(), press_ops(hit_path@, false)).0,
            r == run_ops(old(self).nodes(), press_ops(hit_path@, false)).1,
    {
        let ops = Self::press(hit_path, false);
        let res = self.apply_ops(&ops);
        res.0
    }

    /// The changes "active on (`on`) or off" for the nodes of `path`, from the last to the first.
    fn press(path: &Vec<NodeId>, on: bool) -> (r: Vec<StateChange>)
        ensures
            change_views(r@) == press_ops(path@, on),
    {
        let mut ops: Vec<StateChange> = Vec::new();
        let mut k: usize = 0;
        while k < path.len()
            invariant
                k <= path.len(),
                change_views(ops@) == press_ops(path@, on).take(k as int),
            decreases path.len() - k,
        {
            let ghost prev = change_views(ops@);
            ops.push(StateChange { node: path[path.len() - 1 - k], states: InteractionState::active(), on });
            proof {
                assert(change_views(ops@) =~= prev.push((path@[path.len() - 1 - k], 2u8, on)));
                assert(press_ops(path@, on)[k as int] == (path@[path.len() - 1 - k], 2u8, on));
                assert(press_ops(path@, on).take(k + 1) =~= press_ops(path@, on).take(k as int).push(press_ops(path@, on)[k as int]));
                assert(change_views(ops@) =~= press_ops(path@, on).take(k + 1));
            }
            k = k + 1;
        }
        assert(press_ops(path@, on).take(path.len() as int) == press_ops(path@, on));
        ops
    }

    /// The window now has size `size`: it is remembered and the root is marked for layout, the
    /// nodes whose layout cache is to be cleared being appended to `cleared`.
    pub fn resize(&mut self, size: Size<usize>, cleared: &mut Vec<NodeId>) -> (r: Result<(), Error>)
        requires
            old(self).wf(),
        ensures
            final(self).wf(),
            final(self).size_of() == size,
            final(self).root_id() == old(self).root_id(),
            final(self).hover() == old(self).hover(),
            final(self).nodes() == propagate(old(self).nodes(), old(self).root_id(), 1).0,
            r == propagate(old(self).nodes(), old(self).root_id(), 1).1,
            final(cleared)@ == old(cleared)@ + propagate(old(self).nodes(), old(self).root_id(), 1).2,
    {
        proof {
            self.arena.lemma_wf();
        }
        self.size = size;
        let r = self.arena.mark_dirty(self.root, DirtyFlags::layout(), cleared);
        proof {
            lemma_propagate_dom(old(self).nodes(), self.root, 1);
        }
        r
    }

    /// The nodes in the order they are drawn: the tree from the root, depth first, each node
    /// before its children.
    pub fn paint_order(&self) -> (r: Vec<NodeId>)
        requires
            self.wf(),
        ensures
            r@ == preorder(self.nodes(), self.root_id(), self.depth_bound()),
    {
        self.arena.traverse(self.root)
    }

    /// Whether a frame is due: updates are pending, a frame is forced, or some node is marked for
    /// layout or paint.
    pub fn needs_frame(&self, has_updates: bool, force: bool) -> (r: bool)
        requires
            self.wf(),
        ensures
            r == (has_updates || force || exists|k: NodeId|
                #[trigger] self.nodes().dom().contains(k) && self.nodes()[k].dirty != 0),
    {
        let all = DirtyFlags::paint().union(DirtyFlags::layout());
        let any = self.arena.is_any_dirty(all);
        proof {
            self.arena.lemma_wf();
            assert((2u8 | 1u8) == 3u8) by (bit_vector);
            assert forall|k: NodeId| #[trigger] self.nodes().dom().contains(k) implies (self.nodes()[k].dirty & all@) == self.nodes()[k].dirty by {
                let d = self.nodes()[k].dirty;
                assert(d < 4 ==> (d & 3u8) == d) by (bit_vector);
            }
        }
        has_updates || force || any
    }

    /// Whether some node is marked for layout, and whether some node is marked for paint.
    pub fn frame_flags(&self) -> (r: (bool, bool))
        requires
            self.wf(),
        ensures
            r.0 == exists|k: NodeId|
                #[trigger] self.nodes().dom().contains(k) && (self.nodes()[k].dirty & 1) != 0,
            r.1 == exists|k: NodeId|
                #[trigger] self.nodes().dom().contains(k) && (self.nodes()[k].dirty & 2) != 0,
    {
        let layout = self.arena.is_any_dirty(DirtyFlags::layout());
        let paint = self.arena.is_any_dirty(DirtyFlags::paint());
        (layout, paint)
    }

    /// Marks each `(node, flags)` of `updates` dirty in order, whatever each marking returns, and
    /// appends to `cleared` the nodes whose layout cache is to be cleared.
    pub fn apply_updates(&mut self, updates: &Vec<(NodeId, DirtyFlags)>, cleared: &mut Vec<NodeId>)
        requires
            old(self).wf(),
        ensures
            final(self).wf(),
            final(self).root_id() == old(self).root_id(),
            final(self).size_of() == old(self).size_of(),
            final(self).hover() == old(self).hover(),
            final(self).nodes() == mark_all(old(self).nodes(), update_views(updates@)).0,
            final(cleared)@ == old(cleared)@ + mark_all(old(self).nodes(), update_views(updates@)).1,
    {
        let ghost ups = update_views(updates@);
        let ghost m0 = self.nodes();
        let ghost c0 = cleared@;
        let mut i: usize = 0;
        while i < updates.len()
            invariant
                self.wf(),
                i <= updates.len(),
                ups == update_views(updates@),
                self.nodes() == mark_all(m0, ups.take(i as int)).0,
                cleared@ == c0 + mark_all(m0, ups.take(i as int)).1,
                self.root_id() == old(self).root_id(),
                self.size_of() == old(self).size_of(),
                self.hover() == old(self).hover(),
            decreases updates.len() - i,
        {
            let (node_id, flags) = updates[i];
            let ghost m = self.nodes();
            let ghost cl = cleared@;
            proof {
                self.arena.lemma_wf();
            }
            let _ = self.arena.mark_dirty(node_id, flags, cleared);
            proof {
                lemma_propagate_dom(m, node_id, flags@);
                assert(ups.take(i + 1).drop_last() == ups.take(i as int));
                assert(ups.take(i + 1).last() == (node_id, flags@));
                assert(cleared@ == c0 + mark_all(m0, ups.take(i + 1)).1);
            }
            i = i + 1;
        }
        assert(ups.take(updates.len() as int) == ups);
    }

    /// Clears the paint flag of each node of `redrawn` in order, stopping at the first that is
    /// not live with `NodeNotFound` of it.
    pub fn finish_paint(&mut self, redrawn: &Vec<NodeId>) -> (r: Result<(), Error>)
        requires
            old(self).wf(),
        ensures
            final(self).wf(),
            final(self).root_id() == old(self).root_id(),
            final(self).size_of() == old(self).size_of(),
            final(self).hover() == old(self).hover(),
            (forall|j: int| 0 <= j < redrawn.len() ==> old(self).nodes().dom().contains(#[trigger] redrawn@[j]))
                ==> r is Ok && final(self).nodes() == clear_paint(old(self).nodes(), redrawn@),
            r is Err ==> exists|j: int|
                {
                    &&& 0 <= j < redrawn.len()
                    &&& !old(self).nodes().dom().contains(redrawn@[j])
                    &&& forall|k: int| 0 <= k < j ==> old(self).nodes().dom().contains(#[trigger] redrawn@[k])
                    &&& r == Err::<(), Error>(Error::NodeNotFound(redrawn@[j]))
                    &&& final(self).nodes() == clear_paint(old(self).nodes(), redrawn@.take(j))
                },
    {
        let ghost m0 = self.nodes();
        let mut i: usize = 0;
        while i < redrawn.len()
            invariant
                self.wf(),
                i <= redrawn.len(),
                m0 == old(self).nodes(),
                forall|k: int| 0 <= k < i ==> m0.dom().contains(#[trigger] redrawn@[k]),
                self.nodes() == clear_paint(m0, redrawn@.take(i as int)),
                self.root_id() == old(self).root_id(),
                self.size_of() == old(self).size_of(),
                self.hover() == old(self).hover(),
            decreases redrawn.len() - i,
        {
            let id = redrawn[i];
            let ghost m = self.nodes();
            proof {
                self.arena.lemma_wf();
                assert(m.dom() == m0.dom());
                if m.dom().contains(id) {
                    let d = m[id].dirty;
                    lemma_bits_ops(d, 2);
                    if (d & !2u8) != d {
                        assert(has_bit(d, 1));
                        lemma_count_pos(m, id, carries(1));
                        assert((d | 2u8) == d);
                    }
                }
            }
            let res = self.arena.mark_clean(id, DirtyFlags::paint());
            if let Err(e) = res {
                proof {
                    assert(!m0.dom().contains(id));
                    assert(redrawn@[i as int] == id);
                    assert(!(forall|j: int| 0 <= j < redrawn.len() ==> m0.dom().contains(#[trigger] redrawn@[j])));
                    assert({
                        &&& 0 <= i < redrawn.len()
                        &&& !m0.dom().contains(redrawn@[i as int])
                        &&& forall|k: int| 0 <= k < i ==> m0.dom().contains(#[trigger] redrawn@[k])
                        &&& Err::<(), Error>(e) == Err::<(), Error>(Error::NodeNotFound(redrawn@[i as int]))
                        &&& self.nodes() == clear_paint(m0, redrawn@.take(i as int))
                    });
                }
                return Err(e);
            }
            proof {
                assert(m0.dom().contains(id));
                let s0 = redrawn@.take(i as int);
                let s1 = redrawn@.take(i + 1);
                assert(s1 == s0.push(id));
                assert forall|x: NodeId| #[trigger] s1.contains(x) == (s0.contains(x) || x == id) by {
                    lemma_push_contains(s0, id, x);
                }
                assert(self.nodes() =~= clear_paint(m0, s1)) by {
                    assert forall|k: NodeId| #[trigger] self.nodes().dom().contains(k) implies self.nodes()[k] == clear_paint(m0, s1)[k] by {
                        if k == id && s0.contains(id) {
                            let d = m0[k].dirty;
                            assert(((d & !2u8) & !2u8) == (d & !2u8)) by (bit_vector);
                        }
                    }
                }
            }
            i = i + 1;
        }
        assert(redrawn@.take(redrawn.len() as int) == redrawn@);
        Ok(())
    }

    /// After a layout pass over `laid_out`: clears the layout flag of each of these nodes, in
    /// order. `NodeNotFound` for the first one that is not live, the nodes before it cleared.
    pub fn finish_layout(&mut self, laid_out: &Vec<NodeId>) -> (r: Result<(), Error>)
        requires
            old(self).wf(),
        ensures
            final(self).wf(),
            final(self).root_id() == old(self).root_id(),
            final(self).size_of() == old(self).size_of(),
            final(self).hover() == old(self).hover(),
            (forall|j: int| 0 <= j < laid_out.len() ==> old(self).nodes().dom().contains(#[trigger] laid_out@[j]))
                ==> r is Ok && final(self).nodes() == clear_layout(old(self).nodes(), laid_out@),
            r is Err ==> exists|j: int|
                {
                    &&& 0 <= j < laid_out.len()
                    &&& !old(self).nodes().dom().contains(laid_out@[j])
                    &&& forall|k: int| 0 <= k < j ==> old(self).nodes().dom().contains(#[trigger] laid_out@[k])
                    &&& r == Err::<(), Error>(Error::NodeNotFound(laid_out@[j]))
                    &&& final(self).nodes() == clear_layout(old(self).nodes(), laid_out@.take(j))
                },
    {
        let ghost m0 = self.nodes();
        let mut i: usize = 0;
        while i < laid_out.len()
            invariant
                self.wf(),
                i <= laid_out.len(),
                m0 == old(self).nodes(),
                forall|k: int| 0 <= k < i ==> m0.dom().contains(#[trigger] laid_out@[k]),
                self.nodes() == clear_layout(m0, laid_out@.take(i as int)),
                self.root_id() == old(self).root_id(),
                self.size_of() == old(self).size_of(),
                self.hover() == old(self).hover(),
            decreases laid_out.len() - i,
        {
            let id = laid_out[i];
            let ghost m = self.nodes();
            proof {
                self.arena.lemma_wf();
                assert(m.dom() == m0.dom());
                if m.dom().contains(id) {
                    let d = m[id].dirty;
                    lemma_bits_ops(d, 1);
                    if (d & !1u8) != d {
                        assert(has_bit(d, 0));
                        lemma_count_pos(m, id, carries(0));
                        assert((d | 1u8) == d);
                    }
                }
            }
            let res = self.arena.mark_clean(id, DirtyFlags::layout());
            if let Err(e) = res {
                proof {
                    assert(!m0.dom().contains(id));
                    assert(laid_out@[i as int] == id);
                    assert(!(forall|j: int| 0 <= j < laid_out.len() ==> m0.dom().contains(#[trigger] laid_out@[j])));
                    assert({
                        &&& 0 <= i < laid_out.len()
                        &&& !m0.dom().contains(laid_out@[i as int])
                        &&& forall|k: int| 0 <= k < i ==> m0.dom().contains(#[trigger] laid_out@[k])
                        &&& Err::<(), Error>(e) == Err::<(), Error>(Error::NodeNotFound(laid_out@[i as int]))
                        &&& self.nodes() == clear_layout(m0, laid_out@.take(i as int))
                    });
                }
                return Err(e);
            }
            proof {
                assert(m0.dom().contains(id));
                let s0 = laid_out@.take(i as int);
                let s1 = laid_out@.take(i + 1);
                assert(s1 == s0.push(id));
                assert forall|x: NodeId| #[trigger] s1.contains(x) == (s0.contains(x) || x == id) by {
                    lemma_push_contains(s0, id, x);
                }
                assert(self.nodes() =~= clear_layout(m0, s1)) by {
                    assert forall|k: NodeId| #[trigger] self.nodes().dom().contains(k) implies self.nodes()[k] == clear_layout(m0, s1)[k] by {
                        if k == id && s0.contains(id) {
                            let d = m0[k].dirty;
                            assert(((d & !1u8) & !1u8) == (d & !1u8)) by (bit_vector);
                        }
                    }
                }
            }
            i = i + 1;
        }
        assert(laid_out@.take(laid_out.len() as int) == laid_out@);
        Ok(())
    }
}

} // verus!
