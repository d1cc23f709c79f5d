//! The node tree: records in a slot map, parent and child links, and dirty tracking.
use vstd::prelude::*;
use crate::count::{count_where, lemma_count_insert, lemma_count_remove, lemma_count_le_len, lemma_count_same, lemma_count_pos, lemma_count_zero};
use crate::dirty::{DirtyCounter, counts_after_decrement, counts_after_increment};
use crate::flags::{DirtyFlags, InteractionState, has_bit, dirty_bits_valid, lemma_bits_ops, lemma_bits_ext, lemma_dirty_view_eq, lemma_state_view_eq};
use crate::node::{NodeId, NodeKind, NodeRecord, NodeView, Error};
use crate::slots::{NodeSlots, node_slots, slots_new, slots_len, slots_insert, slots_get, slots_index_mut, slots_remove};

verus! {

/// The nodes of one tree, with a count of the nodes that carry each dirty flag.
pub struct NodeArena {
    data: NodeSlots,
    dirty_counter: DirtyCounter,
    birth: Ghost<Map<NodeId, nat>>,
    clock: Ghost<nat>,
}

/// The value of flag number `i` in a node view.
pub open spec fn carries(i: int) -> spec_fn(NodeView) -> bool {
    |v: NodeView| has_bit(v.dirty, i)
}

/// How many nodes of `m` carry flag number `i`.
pub open spec fn flag_total(m: Map<NodeId, NodeView>, i: int) -> nat {
    count_where(m, carries(i))
}

/// Every child listed by a node is a live node whose parent is that node.
pub open spec fn links_ok(m: Map<NodeId, NodeView>) -> bool {
    forall|p: NodeId, j: int|
        #![trigger m[p].children[j]]
        m.dom().contains(p) && 0 <= j < m[p].children.len() ==> m.dom().contains(
            m[p].children[j],
        ) && m[m[p].children[j]].parent == Some(p)
}

/// Every flag set in `m` is one of the two that exist.
pub open spec fn flags_ok(m: Map<NodeId, NodeView>) -> bool {
    forall|k: NodeId| #[trigger] m.dom().contains(k) ==> dirty_bits_valid(m[k].dirty)
}

/// The view of a node just created: both flags set, no state, no child.
pub open spec fn fresh_view(kind: NodeKind, parent: Option<NodeId>) -> NodeView {
    NodeView { kind, dirty: 3, states: 0, parent, children: Seq::empty() }
}

/// The view `v` with `child` appended to its children.
pub open spec fn with_child(v: NodeView, child: NodeId) -> NodeView {
    NodeView { children: v.children.push(child), ..v }
}

/// The nodes after creating node `k` under `parent`: the new node, and, when the parent is live
/// once the new node is stored (a stale handle equal to the new one counts), the new node
/// appended to the parent's children.
pub open spec fn after_create(
    m: Map<NodeId, NodeView>,
    k: NodeId,
    kind: NodeKind,
    parent: Option<NodeId>,
) -> Map<NodeId, NodeView> {
    let m1 = m.insert(k, fresh_view(kind, parent));
    match parent {
        Some(p) => if m1.dom().contains(p) {
            m1.insert(p, with_child(m1[p], k))
        } else {
            m1
        },
        None => m1,
    }
}

/// The view `v` with its dirty flags replaced by `dirty`.
pub open spec fn with_dirty(v: NodeView, dirty: u8) -> NodeView {
    NodeView { dirty, ..v }
}

/// The view `v` with its interaction states replaced by `states`.
pub open spec fn with_states(v: NodeView, states: u8) -> NodeView {
    NodeView { states, ..v }
}

/// Whether clearing flags `f` of node `id` keeps each count equal to the number of nodes
/// carrying its flag: the node is not live, loses no flag, or carries every flag of `f`.
pub open spec fn clean_keeps_counts(m: Map<NodeId, NodeView>, id: NodeId, f: u8) -> bool {
    !m.dom().contains(id) || (m[id].dirty & !f) == m[id].dirty || (m[id].dirty | f) == m[id].dirty
}

/// The test "is not `x`".
pub open spec fn other_than(x: NodeId) -> spec_fn(NodeId) -> bool {
    |c: NodeId| c != x
}

/// The view `v` with `child` taken out of its children.
pub open spec fn without_child(v: NodeView, child: NodeId) -> NodeView {
    NodeView { children: v.children.filter(other_than(child)), ..v }
}

/// The nodes after deleting the live node `k`: it is removed from its live parent's children,
/// then removed itself. Its own children keep their parent handle.
pub open spec fn after_delete(m: Map<NodeId, NodeView>, k: NodeId) -> Map<NodeId, NodeView> {
    let m1 = match m[k].parent {
        Some(p) => if m.dom().contains(p) {
            m.insert(p, without_child(m[p], k))
        } else {
            m
        },
        None => m,
    };
    m1.remove(k)
}

/// The test "lacks some flag of `f`".
pub open spec fn lacks(f: u8) -> spec_fn(NodeView) -> bool {
    |v: NodeView| (v.dirty | f) != v.dirty
}

/// How many nodes of `m` lack some flag of `f`.
pub open spec fn lacking(m: Map<NodeId, NodeView>, f: u8) -> nat {
    count_where(m, lacks(f))
}

proof fn lemma_total_after_create(
    m: Map<NodeId, NodeView>,
    k: NodeId,
    kind: NodeKind,
    parent: Option<NodeId>,
    i: int,
)
    requires
        m.dom().finite(),
        !m.dom().contains(k),
        0 <= i < 2,
    ensures
        flag_total(after_create(m, k, kind, parent), i) == flag_total(m, i) + 1,
{
    let v = fresh_view(kind, parent);
    let m1 = m.insert(k, v);
    lemma_count_insert(m, k, v, carries(i));
    assert(has_bit(3, i));
    assert(carries(i)(v));
    match parent {
        Some(p) => {
            if m1.dom().contains(p) {
                lemma_count_insert(m1, p, with_child(m1[p], k), carries(i));
                assert(carries(i)(with_child(m1[p], k)) == carries(i)(m1[p]));
            }
        },
        None => {},
    }
}

/// Adding the same flags twice adds nothing the second time.
pub proof fn lemma_or_idem(d: u8, f: u8)
    ensures
        ((d | f) | f) == (d | f),
{
    assert(((d | f) | f) == (d | f)) by (bit_vector);
}

/// What marking `id` dirty with `f` does to the nodes `m`: the node gains the flags; when `f`
/// holds the layout flag the marking goes on to the parent, until a node already holds them all,
/// a node has no parent, or a parent is not live (`NodeNotFound` of that parent). The third
/// part lists, in order, the nodes whose layout cache is cleared.
pub open spec fn propagate(m: Map<NodeId, NodeView>, id: NodeId, f: u8) -> (Map<NodeId, NodeView>, Result<(), Error>, Seq<NodeId>)
    decreases lacking(m, f),
    when m.dom().finite()
{
    if !m.dom().contains(id) {
        (m, Err(Error::NodeNotFound(id)), Seq::empty())
    } else if (m[id].dirty | f) == m[id].dirty {
        (m, Ok(()), Seq::empty())
    } else {
        let m2 = m.insert(id, with_dirty(m[id], m[id].dirty | f));
        if has_bit(f, 0) {
            match m[id].parent {
                None => (m2, Ok(()), seq![id]),
                Some(p) => {
                    proof {
                        lemma_count_insert(m, id, with_dirty(m[id], m[id].dirty | f), lacks(f));
                        lemma_or_idem(m[id].dirty, f);
                    }
                    let rest = propagate(m2, p, f);
                    (rest.0, rest.1, seq![id] + rest.2)
                },
            }
        } else {
            (m2, Ok(()), Seq::empty())
        }
    }
}

/// Keeping some elements of a sequence without repeats gives a sequence without repeats.
pub proof fn lemma_filter_no_duplicates(s: Seq<NodeId>, p: spec_fn(NodeId) -> bool)
    requires
        s.no_duplicates(),
    ensures
        s.filter(p).no_duplicates(),
    decreases s.len(),
{
    reveal_with_fuel(Seq::filter, 1);
    if s.len() > 0 {
        let t = s.drop_last();
        assert(t.no_duplicates()) by {
            assert forall|i: int, j: int| 0 <= i < t.len() && 0 <= j < t.len() && i != j implies t[i] != t[j] by {
                assert(t[i] == s[i] && t[j] == s[j]);
            }
        }
        lemma_filter_no_duplicates(t, p);
        if p(s.last()) && t.filter(p).contains(s.last()) {
            t.lemma_filter_contains_rev(p, s.last());
            let i = choose|i: int| 0 <= i < t.len() && t[i] == s.last();
            assert(s[i] == s[s.len() - 1]);
        }
    }
}

/// Marking nodes dirty neither adds nor removes a node.
pub proof fn lemma_propagate_dom(m: Map<NodeId, NodeView>, id: NodeId, f: u8)
    requires
        m.dom().finite(),
    ensures
        propagate(m, id, f).0.dom() == m.dom(),
    decreases lacking(m, f),
{
    if m.dom().contains(id) && (m[id].dirty | f) != m[id].dirty {
        let m2 = m.insert(id, with_dirty(m[id], m[id].dirty | f));
        assert(m2.dom() =~= m.dom());
        if has_bit(f, 0) {
            match m[id].parent {
                Some(p) => {
                    lemma_count_insert(m, id, with_dirty(m[id], m[id].dirty | f), lacks(f));
                    lemma_or_idem(m[id].dirty, f);
                    lemma_propagate_dom(m2, p, f);
                },
                None => {},
            }
        }
    }
}

/// The nodes of the subtree of `id` in depth-first order, each node before its children and the
/// children in order; `fuel` bounds the depth explored.
pub open spec fn preorder(m: Map<NodeId, NodeView>, id: NodeId, fuel: nat) -> Seq<NodeId>
    decreases fuel, 0nat, 0nat,
{
    if fuel == 0 || !m.dom().contains(id) {
        Seq::empty()
    } else {
        seq![id] + preorder_list(m, m[id].children, (fuel - 1) as nat)
    }
}

/// The [`preorder`] sequences of the nodes of `cs`, one after the other.
pub open spec fn preorder_list(m: Map<NodeId, NodeView>, cs: Seq<NodeId>, fuel: nat) -> Seq<NodeId>
    decreases fuel, 1nat, cs.len(),
{
    if cs.len() == 0 {
        Seq::empty()
    } else {
        preorder_list(m, cs.drop_last(), fuel) + preorder(m, cs.last(), fuel)
    }
}

/// Whether `x` is `id` or lies below it in the children lists of `m`, at most `fuel` levels
/// down.
pub open spec fn below(m: Map<NodeId, NodeView>, x: NodeId, id: NodeId, fuel: nat) -> bool
    decreases fuel, 0nat, 0nat,
{
    x == id || (fuel > 0 && m.dom().contains(id) && below_list(m, x, m[id].children, (fuel - 1) as nat))
}

/// Whether `x` lies [`below`] some node of `cs`.
pub open spec fn below_list(m: Map<NodeId, NodeView>, x: NodeId, cs: Seq<NodeId>, fuel: nat) -> bool
    decreases fuel, 1nat, cs.len(),
{
    cs.len() > 0 && (below_list(m, x, cs.drop_last(), fuel) || below(m, x, cs.last(), fuel))
}

/// [`below_list`] holds exactly when `x` lies below one of the nodes.
pub proof fn lemma_below_list(m: Map<NodeId, NodeView>, x: NodeId, cs: Seq<NodeId>, f: nat)
    ensures
        below_list(m, x, cs, f) == exists|j: int| 0 <= j < cs.len() && #[trigger] below(m, x, cs[j], f),
    decreases cs.len(),
{
    if cs.len() > 0 {
        let t = cs.drop_last();
        lemma_below_list(m, x, t, f);
        if below_list(m, x, t, f) {
            let j = choose|j: int| 0 <= j < t.len() && #[trigger] below(m, x, t[j], f);
            assert(cs[j] == t[j]);
        }
        if below(m, x, cs.last(), f) {
            assert(below(m, x, cs[cs.len() - 1], f));
        }
        if exists|j: int| 0 <= j < cs.len() && #[trigger] below(m, x, cs[j], f) {
            let j = choose|j: int| 0 <= j < cs.len() && #[trigger] below(m, x, cs[j], f);
            if j < cs.len() - 1 {
                assert(t[j] == cs[j]);
            }
        }
    }
}

/// The nodes after deleting the subtree of `id`: every node below it (within `fuel` levels) is
/// removed, and `id` leaves the children of its parent when that parent remains.
pub open spec fn after_delete_subtree(m: Map<NodeId, NodeView>, id: NodeId, fuel: nat) -> Map<NodeId, NodeView> {
    let m1 = m.restrict(m.dom().filter(|x: NodeId| !below(m, x, id, fuel)));
    match m[id].parent {
        Some(p) => if m1.dom().contains(p) {
            m1.insert(p, without_child(m1[p], id))
        } else {
            m1
        },
        None => m1,
    }
}

/// Every live node that holds the layout flag and names a parent has a live parent that holds
/// it too, except perhaps the children of `z`.
pub open spec fn layout_closed_except(m: Map<NodeId, NodeView>, z: Option<NodeId>) -> bool {
    forall|x: NodeId|
        #[trigger] m.dom().contains(x) && has_bit(m[x].dirty, 0) && m[x].parent is Some && Some(m[x].parent->0) != z ==> {
            let q = m[x].parent->0;
            m.dom().contains(q) && has_bit(m[q].dirty, 0)
        }
}

/// Every live node that holds the layout flag and names a parent has a live parent that holds
/// it too: a layout change of a node is seen all the way up.
pub open spec fn layout_closed(m: Map<NodeId, NodeView>) -> bool {
    layout_closed_except(m, None)
}

proof fn lemma_or_layout(d: u8, f: u8)
    requires
        f % 2 == 1,
    ensures
        (d | f) % 2 == 1,
        (d | f) == d ==> d % 2 == 1,
{
    assert((d | f) % 2 == 1) by (bit_vector)
        requires
            f % 2 == 1,
    ;
}

/// Marking a node with flags that include layout keeps the layout flag closed upward: when the
/// nodes were closed except perhaps below `id` and the marking succeeds, they are closed.
pub proof fn lemma_mark_layout_closed(m: Map<NodeId, NodeView>, id: NodeId, f: u8)
    requires
        m.dom().finite(),
        has_bit(f, 0),
        layout_closed_except(m, Some(id)),
    ensures
        propagate(m, id, f).1 is Ok ==> layout_closed(propagate(m, id, f).0),
    decreases lacking(m, f),
{
    if !m.dom().contains(id) {
    } else if (m[id].dirty | f) == m[id].dirty {
        lemma_or_layout(m[id].dirty, f);
        assert forall|x: NodeId|
            #[trigger] m.dom().contains(x) && has_bit(m[x].dirty, 0) && m[x].parent is Some && Some(m[x].parent->0) != None::<NodeId> implies {
                let q = m[x].parent->0;
                m.dom().contains(q) && has_bit(m[q].dirty, 0)
            } by {
        }
    } else {
        lemma_or_layout(m[id].dirty, f);
        let m2 = m.insert(id, with_dirty(m[id], m[id].dirty | f));
        match m[id].parent {
            None => {
                assert forall|x: NodeId|
                    #[trigger] m2.dom().contains(x) && has_bit(m2[x].dirty, 0) && m2[x].parent is Some && Some(m2[x].parent->0) != None::<NodeId> implies {
                        let q = m2[x].parent->0;
                        m2.dom().contains(q) && has_bit(m2[q].dirty, 0)
                    } by {
                    if x != id {
                        assert(m.dom().contains(x) && m[x] == m2[x]);
                    }
                }
            },
            Some(p) => {
                lemma_count_insert(m, id, with_dirty(m[id], m[id].dirty | f), lacks(f));
                lemma_or_idem(m[id].dirty, f);
                assert forall|x: NodeId|
                    #[trigger] m2.dom().contains(x) && has_bit(m2[x].dirty, 0) && m2[x].parent is Some && Some(m2[x].parent->0) != Some(p) implies {
                        let q = m2[x].parent->0;
                        m2.dom().contains(q) && has_bit(m2[q].dirty, 0)
                    } by {
                    if x != id {
                        assert(m.dom().contains(x) && m[x] == m2[x]);
                        let q = m[x].parent->0;
                        if q != id {
                            assert(m.dom().contains(q) && has_bit(m[q].dirty, 0));
                        }
                    }
                }
                lemma_mark_layout_closed(m2, p, f);
            },
        }
    }
}

/// Marking only ORs flags in: the nodes stay the same, and each keeps its view or gains `f`.
proof fn lemma_propagate_or(m: Map<NodeId, NodeView>, id: NodeId, f: u8)
    requires
        m.dom().finite(),
    ensures
        propagate(m, id, f).0.dom() == m.dom(),
        forall|x: NodeId| #[trigger] m.dom().contains(x) ==> propagate(m, id, f).0[x] == m[x]
            || propagate(m, id, f).0[x] == with_dirty(m[x], m[x].dirty | f),
        propagate(m, id, f).1 is Ok ==> m.dom().contains(id) && propagate(m, id, f).0[id].dirty == m[id].dirty | f,
    decreases lacking(m, f),
{
    if !m.dom().contains(id) {
    } else if (m[id].dirty | f) == m[id].dirty {
    } else {
        let m2 = m.insert(id, with_dirty(m[id], m[id].dirty | f));
        if has_bit(f, 0) {
            match m[id].parent {
                None => {},
                Some(p) => {
                    lemma_count_insert(m, id, with_dirty(m[id], m[id].dirty | f), lacks(f));
                    lemma_or_idem(m[id].dirty, f);
                    lemma_propagate_or(m2, p, f);
                    let r = propagate(m2, p, f).0;
                    assert forall|x: NodeId| #[trigger] m.dom().contains(x) implies r[x] == m[x] || r[x] == with_dirty(m[x], m[x].dirty | f) by {
                        assert(m2.dom().contains(x));
                        if x == id {
                            lemma_or_idem(m[id].dirty, f);
                        }
                    }
                    assert(r.dom() =~= m.dom());
                },
            }
        }
    }
}

proof fn lemma_or_keeps_layout_bit(d: u8, f: u8)
    requires
        f % 2 == 0,
    ensures
        ((d | f) % 2 == 1) == (d % 2 == 1),
{
    assert(((d | f) % 2 == 1) == (d % 2 == 1)) by (bit_vector)
        requires
            f % 2 == 0,
    ;
}

/// What marking does, in one statement: the nodes stay the same and each keeps its view or gains
/// the flags; a successful marking leaves the node with its old flags and `f`; a marking that adds
/// nothing changes nothing; without the layout flag no other node changes; and when the layout
/// flag was closed upward before, it still is after a successful marking (so with the layout
/// flag every ancestor of the node then holds it).
pub proof fn lemma_mark_dirty_law(m: Map<NodeId, NodeView>, id: NodeId, f: u8)
    requires
        m.dom().finite(),
        layout_closed(m),
    ensures
        propagate(m, id, f).0.dom() == m.dom(),
        forall|x: NodeId| #[trigger] m.dom().contains(x) ==> propagate(m, id, f).0[x] == m[x]
            || propagate(m, id, f).0[x] == with_dirty(m[x], m[x].dirty | f),
        propagate(m, id, f).1 is Ok ==> propagate(m, id, f).0[id].dirty == m[id].dirty | f,
        m.dom().contains(id) && (m[id].dirty | f) == m[id].dirty ==> propagate(m, id, f).0 == m && propagate(m, id, f).1 is Ok,
        !has_bit(f, 0) ==> forall|x: NodeId| x != id && #[trigger] m.dom().contains(x) ==> propagate(m, id, f).0[x] == m[x],
        propagate(m, id, f).1 is Ok ==> layout_closed(propagate(m, id, f).0),
{
    lemma_propagate_or(m, id, f);
    if has_bit(f, 0) {
        lemma_mark_layout_closed(m, id, f);
    } else if m.dom().contains(id) && (m[id].dirty | f) != m[id].dirty {
        lemma_or_keeps_layout_bit(m[id].dirty, f);
        let m2 = propagate(m, id, f).0;
        assert(m2 == m.insert(id, with_dirty(m[id], m[id].dirty | f)));
        assert forall|x: NodeId|
            #[trigger] m2.dom().contains(x) && has_bit(m2[x].dirty, 0) && m2[x].parent is Some && Some(m2[x].parent->0) != None::<NodeId> implies {
                let q = m2[x].parent->0;
                m2.dom().contains(q) && has_bit(m2[q].dirty, 0)
            } by {
            assert(m.dom().contains(x) && has_bit(m[x].dirty, 0));
            let q = m[x].parent->0;
            assert(m.dom().contains(q) && has_bit(m[q].dirty, 0));
        }
    }
}

/// The links of a tree whose nodes were created at times `b`, all before `clock`: each child
/// names its parent, children come after their parent, and no node is listed twice.
pub open spec fn tree_ok(m: Map<NodeId, NodeView>, b: Map<NodeId, nat>, clock: nat) -> bool {
    &&& links_ok(m)
    &&& forall|k: NodeId| #[trigger] m.dom().contains(k) ==> b.dom().contains(k) && b[k] < clock && m[k].children.no_duplicates()
    &&& forall|p: NodeId, j: int|
        #![trigger m[p].children[j]]
        m.dom().contains(p) && 0 <= j < m[p].children.len() ==> b[p] < b[m[p].children[j]]
}

proof fn lemma_below_live(m: Map<NodeId, NodeView>, b: Map<NodeId, nat>, clock: nat, x: NodeId, id: NodeId, f: nat)
    requires
        tree_ok(m, b, clock),
        m.dom().contains(id),
        below(m, x, id, f),
    ensures
        m.dom().contains(x),
        b[x] >= b[id],
    decreases f,
{
    if x != id {
        lemma_below_list(m, x, m[id].children, (f - 1) as nat);
        let j = choose|j: int| 0 <= j < m[id].children.len() && #[trigger] below(m, x, m[id].children[j], (f - 1) as nat);
        let c = m[id].children[j];
        lemma_below_live(m, b, clock, x, c, (f - 1) as nat);
    }
}

proof fn lemma_below_up(m: Map<NodeId, NodeView>, b: Map<NodeId, nat>, clock: nat, x: NodeId, id: NodeId, f: nat)
    requires
        tree_ok(m, b, clock),
        m.dom().contains(id),
        below(m, x, id, f),
        x != id,
    ensures
        m.dom().contains(x),
        m[x].parent is Some,
        m.dom().contains(m[x].parent->0),
        below(m, m[x].parent->0, id, f),
        b[m[x].parent->0] < b[x],
    decreases f,
{
    lemma_below_list(m, x, m[id].children, (f - 1) as nat);
    let j = choose|j: int| 0 <= j < m[id].children.len() && #[trigger] below(m, x, m[id].children[j], (f - 1) as nat);
    let c = m[id].children[j];
    if x == c {
        assert(m[c].parent == Some(id));
    } else {
        lemma_below_up(m, b, clock, x, c, (f - 1) as nat);
        let y = m[x].parent->0;
        assert(below(m, y, m[id].children[j], (f - 1) as nat));
        lemma_below_list(m, y, m[id].children, (f - 1) as nat);
    }
}

proof fn lemma_siblings_apart(m: Map<NodeId, NodeView>, b: Map<NodeId, nat>, clock: nat, id: NodeId, j: int, k: int, x: NodeId, f: nat)
    requires
        tree_ok(m, b, clock),
        m.dom().contains(id),
        0 <= j < m[id].children.len(),
        0 <= k < m[id].children.len(),
        j != k,
    ensures
        !(below(m, x, m[id].children[j], f) && below(m, x, m[id].children[k], f)),
    decreases b[x],
{
    let cj = m[id].children[j];
    let ck = m[id].children[k];
    assert(cj != ck);
    if below(m, x, cj, f) && below(m, x, ck, f) {
        if x == cj {
            lemma_below_up(m, b, clock, x, ck, f);
            assert(m[cj].parent == Some(id));
            lemma_below_live(m, b, clock, id, ck, f);
        } else if x == ck {
            lemma_below_up(m, b, clock, x, cj, f);
            assert(m[ck].parent == Some(id));
            lemma_below_live(m, b, clock, id, cj, f);
        } else {
            lemma_below_up(m, b, clock, x, cj, f);
            lemma_below_up(m, b, clock, x, ck, f);
            lemma_siblings_apart(m, b, clock, id, j, k, m[x].parent->0, f);
        }
    }
}

proof fn lemma_below_frame(m: Map<NodeId, NodeView>, m2: Map<NodeId, NodeView>, x: NodeId, c: NodeId, f: nat)
    requires
        forall|z: NodeId| #[trigger] below(m, z, c, f) ==> (m.dom().contains(z) == m2.dom().contains(z))
            && (m.dom().contains(z) ==> m2[z].children == m[z].children),
    ensures
        below(m, x, c, f) == below(m2, x, c, f),
    decreases f,
{
    if f > 0 && x != c {
        assert(below(m, c, c, f));
        if m.dom().contains(c) {
            let cs = m[c].children;
            let g = (f - 1) as nat;
            assert forall|i: int| 0 <= i < cs.len() implies below(m, x, cs[i], g) == below(m2, x, cs[i], g) by {
                assert forall|z: NodeId| #[trigger] below(m, z, cs[i], g) implies (m.dom().contains(z) == m2.dom().contains(z))
                    && (m.dom().contains(z) ==> m2[z].children == m[z].children) by {
                    lemma_below_list(m, z, cs, g);
                    assert(below(m, z, c, f));
                }
                lemma_below_frame(m, m2, x, cs[i], g);
            }
            lemma_below_list(m, x, cs, g);
            lemma_below_list(m2, x, cs, g);
        }
    }
}

proof fn lemma_below_fuel(m: Map<NodeId, NodeView>, b: Map<NodeId, nat>, clock: nat, x: NodeId, id: NodeId, f1: nat, f2: nat)
    requires
        tree_ok(m, b, clock),
        m.dom().contains(id),
        f1 >= clock - b[id],
        f2 >= clock - b[id],
    ensures
        below(m, x, id, f1) == below(m, x, id, f2),
    decreases clock - b[id],
{
    if x != id {
        let cs = m[id].children;
        let g1 = (f1 - 1) as nat;
        let g2 = (f2 - 1) as nat;
        assert forall|i: int| 0 <= i < cs.len() implies below(m, x, cs[i], g1) == below(m, x, cs[i], g2) by {
            assert(m[id].children[i] == cs[i]);
            lemma_below_fuel(m, b, clock, x, cs[i], g1, g2);
        }
        lemma_below_list(m, x, cs, g1);
        lemma_below_list(m, x, cs, g2);
    }
}

/// Taking `x` out of a sequence whose first element is `x` and whose other elements are not
/// leaves the rest.
proof fn lemma_filter_first(s: Seq<NodeId>, x: NodeId)
    requires
        s.len() > 0,
        s[0] == x,
        forall|i: int| 0 < i < s.len() ==> s[i] != x,
    ensures
        s.filter(other_than(x)) == s.drop_first(),
    decreases s.len(),
{
    reveal_with_fuel(Seq::filter, 1);
    if s.len() == 1 {
        assert(s.drop_last().filter(other_than(x)) =~= Seq::<NodeId>::empty()) by {
            reveal_with_fuel(Seq::filter, 1);
        }
        assert(s.drop_first() =~= Seq::<NodeId>::empty());
    } else {
        let t = s.drop_last();
        lemma_filter_first(t, x);
        assert(s.last() != x);
        assert(s.drop_first() =~= t.drop_first().push(s.last()));
    }
}

/// Whether `x` lies below one of the first `k` nodes of `cs`.
pub open spec fn below_prefix(m: Map<NodeId, NodeView>, x: NodeId, cs: Seq<NodeId>, k: int, f: nat) -> bool {
    exists|j: int| 0 <= j < k && #[trigger] below(m, x, cs[j], f)
}

/// The nodes `m0` after deleting the subtrees of the first `k` children `cs` of `id`.
pub open spec fn removed_prefix(m0: Map<NodeId, NodeView>, id: NodeId, cs: Seq<NodeId>, k: int, f: nat) -> Map<NodeId, NodeView> {
    m0.restrict(m0.dom().filter(|x: NodeId| !below_prefix(m0, x, cs, k, f))).insert(
        id,
        NodeView { children: cs.skip(k), ..m0[id] },
    )
}

/// A copy of `v`.
fn copy_ids(v: &Vec<NodeId>) -> (r: Vec<NodeId>)
    ensures
        r@ == v@,
{
    let mut r: Vec<NodeId> = Vec::new();
    let mut i: usize = 0;
    while i < v.len()
        invariant
            i <= v.len(),
            r@ == v@.take(i as int),
        decreases v.len() - i,
    {
        r.push(v[i]);
        assert(r@ =~= v@.take(i + 1));
        i = i + 1;
    }
    assert(v@.take(v.len() as int) =~= v@);
    r
}

proof fn lemma_preorder_below(m: Map<NodeId, NodeView>, x: NodeId, id: NodeId, f: nat)
    requires
        links_ok(m),
        m.dom().contains(id),
    ensures
        preorder(m, id, f + 1).contains(x) == below(m, x, id, f),
    decreases f, 0nat, 0nat,
{
    let cs = m[id].children;
    assert forall|j: int| 0 <= j < cs.len() implies m.dom().contains(#[trigger] cs[j]) by {
        assert(m[id].children[j] == cs[j]);
    }
    vstd::seq_lib::lemma_seq_concat_contains_all_elements(seq![id], preorder_list(m, cs, f), x);
    assert(seq![id].contains(x) == (x == id)) by {
        if x == id {
            assert(seq![id][0] == x);
        }
    }
    if f == 0 {
        assert(preorder_list(m, cs, 0).contains(x) == false) by {
            lemma_preorder_list_empty(m, cs);
        }
    } else {
        lemma_preorder_list_below(m, x, cs, (f - 1) as nat);
    }
}

proof fn lemma_preorder_list_empty(m: Map<NodeId, NodeView>, cs: Seq<NodeId>)
    ensures
        preorder_list(m, cs, 0) == Seq::<NodeId>::empty(),
    decreases cs.len(),
{
    if cs.len() > 0 {
        lemma_preorder_list_empty(m, cs.drop_last());
        assert(preorder(m, cs.last(), 0) == Seq::<NodeId>::empty());
        assert(Seq::<NodeId>::empty() + Seq::<NodeId>::empty() =~= Seq::<NodeId>::empty());
    }
}

proof fn lemma_preorder_list_below(m: Map<NodeId, NodeView>, x: NodeId, cs: Seq<NodeId>, f: nat)
    requires
        links_ok(m),
        forall|j: int| 0 <= j < cs.len() ==> m.dom().contains(#[trigger] cs[j]),
    ensures
        preorder_list(m, cs, f + 1).contains(x) == below_list(m, x, cs, f),
    decreases f, 1nat, cs.len(),
{
    if cs.len() == 0 {
        assert(!Seq::<NodeId>::empty().contains(x));
    } else {
        let t = cs.drop_last();
        assert forall|j: int| 0 <= j < t.len() implies m.dom().contains(#[trigger] t[j]) by {
            assert(t[j] == cs[j]);
        }
        lemma_preorder_list_below(m, x, t, f);
        assert(m.dom().contains(cs[cs.len() - 1]));
        lemma_preorder_below(m, x, cs.last(), f);
        vstd::seq_lib::lemma_seq_concat_contains_all_elements(preorder_list(m, t, f + 1), preorder(m, cs.last(), f + 1), x);
    }
}

/// The elements of `v` other than `x`, in order.
fn without(v: &Vec<NodeId>, x: NodeId) -> (r: Vec<NodeId>)
    ensures
        r@ == v@.filter(other_than(x)),
{
    let mut r: Vec<NodeId> = Vec::new();
    let mut i: usize = 0;
    while i < v.len()
        invariant
            i <= v.len(),
            r@ == v@.take(i as int).filter(other_than(x)),
        decreases v.len() - i,
    {
        proof {
            reveal_with_fuel(Seq::filter, 1);
            assert(v@.take(i + 1).drop_last() == v@.take(i as int));
        }
        if v[i] != x {
            r.push(v[i]);
        }
        i = i + 1;
    }
    assert(v@.take(v.len() as int) == v@);
    r
}

impl NodeArena {
    /// The nodes, by handle.
    pub closed spec fn nodes(&self) -> Map<NodeId, NodeView> {
        node_slots(self.data).map_values(|r: NodeRecord| r@)
    }

    /// The counts kept per flag: layout first, paint second.
    pub closed spec fn counts(&self) -> Seq<usize> {
        self.dirty_counter@
    }

    /// The arena's invariant: finitely many nodes, consistent links, and counts that never
    /// exceed the number of nodes carrying their flag.
    pub closed spec fn wf(&self) -> bool {
        let m = self.nodes();
        &&& m.dom().finite()
        &&& m.len() < u32::MAX
        &&& links_ok(m)
        &&& flags_ok(m)
        &&& self.counts().len() == 2
        &&& forall|i: int| 0 <= i < 2 ==> self.counts()[i] <= flag_total(m, i)
        &&& forall|k: NodeId| #[trigger] m.dom().contains(k) ==> self.birth@.dom().contains(k)
        &&& forall|k: NodeId| #[trigger] self.birth@.dom().contains(k) ==> self.birth@[k] < self.clock@
        &&& forall|p: NodeId, j: int|
            #![trigger m[p].children[j]]
            m.dom().contains(p) && 0 <= j < m[p].children.len() ==> self.birth@[p]
                < self.birth@[m[p].children[j]]
        &&& forall|p: NodeId| #[trigger] m.dom().contains(p) ==> m[p].children.no_duplicates()
    }

    /// The counts are exactly the numbers of nodes carrying each flag.
    pub open spec fn counts_exact(&self) -> bool {
        &&& self.counts().len() == 2
        &&& forall|i: int| 0 <= i < 2 ==> self.counts()[i] == flag_total(self.nodes(), i)
    }

    /// What the invariant says of the nodes: finitely many, consistent links, known flags.
    pub proof fn lemma_wf(&self)
        requires
            self.wf(),
        ensures
            self.nodes().dom().finite(),
            self.nodes().len() < u32::MAX,
            links_ok(self.nodes()),
            flags_ok(self.nodes()),
            self.counts().len() == 2,
    {
    }

    proof fn lemma_dom(&self)
        ensures
            self.nodes().dom() == node_slots(self.data).dom(),
            self.nodes().len() == node_slots(self.data).len(),
    {
        assert(self.nodes().dom() =~= node_slots(self.data).dom());
    }

    proof fn lemma_view_insert(&self, old_data: NodeSlots, id: NodeId, r: NodeRecord)
        requires
            node_slots(self.data) == node_slots(old_data).insert(id, r),
        ensures
            self.nodes() == node_slots(old_data).map_values(|r: NodeRecord| r@).insert(id, r@),
    {
        assert(self.nodes() =~= node_slots(old_data).map_values(|r: NodeRecord| r@).insert(id, r@));
    }

    proof fn lemma_view_remove(&self, old_data: NodeSlots, id: NodeId)
        requires
            node_slots(self.data) == node_slots(old_data).remove(id),
        ensures
            self.nodes() == node_slots(old_data).map_values(|r: NodeRecord| r@).remove(id),
    {
        assert(self.nodes() =~= node_slots(old_data).map_values(|r: NodeRecord| r@).remove(id));
    }

    /// An arena with no node.
    pub fn new() -> (r: NodeArena)
        ensures
            r.wf(),
            r.nodes() == Map::<NodeId, NodeView>::empty(),
            r.counts() == seq![0usize, 0usize],
    {
        let r = NodeArena {
            data: slots_new(),
            dirty_counter: DirtyCounter::new(),
            birth: Ghost(Map::empty()),
            clock: Ghost(0),
        };
        assert(r.nodes() =~= Map::<NodeId, NodeView>::empty());
        assert(r.nodes().dom() =~= Set::<NodeId>::empty());
        r
    }

    /// The number of nodes.
    pub fn len(&self) -> (r: usize)
        ensures
            r == self.nodes().len(),
    {
        let r = slots_len(&self.data);
        assert(self.nodes().dom() =~= node_slots(self.data).dom());
        r
    }

    /// Creates a node of kind `kind` under `parent` and returns its handle. The node is created
    /// with both dirty flags set. When `parent` names no live node the new node stays in the
    /// arena, with that parent recorded, and `NodeNotFound(parent)` is returned. A stale parent
    /// handle that happens to equal the new node's handle makes the node its own child; that is
    /// the one outcome after which the invariant is not promised.
    pub fn create_node(&mut self, kind: NodeKind, parent: Option<NodeId>) -> (r: Result<NodeId, Error>)
        requires
            old(self).wf(),
            old(self).nodes().len() + 2 <= u32::MAX,
        ensures
            final(self).wf() || (r is Ok && parent == Some(r->Ok_0)),
            exists|k: NodeId|
                {
                    &&& !old(self).nodes().dom().contains(k)
                    &&& final(self).nodes() == after_create(old(self).nodes(), k, kind, parent)
                    &&& (match parent {
                        Some(p) => if old(self).nodes().dom().contains(p) || p == k {
                            r == Ok::<NodeId, Error>(k)
                        } else {
                            r == Err::<NodeId, Error>(Error::NodeNotFound(p))
                        },
                        None => r == Ok::<NodeId, Error>(k),
                    })
                },
            forall|i: int| 0 <= i < 2 ==> final(self).counts()[i] == old(self).counts()[i] + 1,
            final(self).counts().len() == 2,
            old(self).counts_exact() ==> final(self).counts_exact(),
    {
        let ghost m0 = self.nodes();
        let record = NodeRecord {
            kind,
            dirty: DirtyFlags::all(),
            interaction_state: InteractionState::empty(),
            parent,
            children: Vec::new(),
        };
        let ghost old_data = self.data;
        proof {
            self.lemma_dom();
        }
        let bits = slots_insert(&mut self.data, record);
        let id = NodeId::from_bits(bits);
        proof {
            assert forall|i: int| 0 <= i < 2 implies #[trigger] flag_total(after_create(m0, id, kind, parent), i)
                == flag_total(m0, i) + 1 by {
                lemma_total_after_create(m0, id, kind, parent, i);
            }
            self.lemma_view_insert(old_data, id, record);
            assert(record@ == fresh_view(kind, parent));
            assert(self.nodes() == m0.insert(id, fresh_view(kind, parent)));
            assert forall|i: int| 0 <= i < 2 implies self.dirty_counter@[i] < usize::MAX by {
                lemma_count_le_len(m0, carries(i));
                assert(self.dirty_counter@[i] == old(self).counts()[i]);
                assert(old(self).counts()[i] <= flag_total(m0, i));
            }
        }
        self.dirty_counter.increment(DirtyFlags::all());
        proof {
            let b = self.clock@;
            self.birth@ = self.birth@.insert(id, b);
            self.clock@ = b + 1;
            let m1 = self.nodes();
            assert forall|i: int| 0 <= i < 2 implies self.counts()[i] == old(self).counts()[i] + 1
                && self.counts()[i] <= flag_total(m1, i) by {
                lemma_count_insert(m0, id, fresh_view(kind, parent), carries(i));
                assert(has_bit(3, i));
                assert(carries(i)(fresh_view(kind, parent)));
                assert(old(self).counts()[i] <= flag_total(m0, i));
                assert(flag_total(m1, i) == flag_total(m0, i) + 1);
            }
        }
        if parent.is_none() {
            assert(self.nodes() == after_create(m0, id, kind, parent));
        }
        if let Some(parent_id) = parent {
            if slots_get(&self.data, parent_id).is_none() {
                proof {
                    assert(self.nodes() == after_create(m0, id, kind, parent));
                    assert(links_ok(self.nodes()));
                }
                return Err(Error::NodeNotFound(parent_id));
            }
            let ghost m1 = self.nodes();
            let ghost c1 = self.counts();
            assert(forall|i: int| 0 <= i < 2 ==> c1[i] <= flag_total(m1, i));
            let ghost mid_data = self.data;
            let rec = slots_index_mut(&mut self.data, parent_id);
            rec.children.push(id);
            proof {
                self.lemma_view_insert(mid_data, parent_id, *rec);
                assert(self.nodes() == m1.insert(parent_id, with_child(m1[parent_id], id)));
                assert forall|i: int| 0 <= i < 2 implies self.counts()[i] <= flag_total(self.nodes(), i) by {
                    lemma_count_insert(m1, parent_id, with_child(m1[parent_id], id), carries(i));
                    assert(carries(i)(with_child(m1[parent_id], id)) == carries(i)(m1[parent_id]));
                    assert(flag_total(self.nodes(), i) == flag_total(m1, i));
                    assert(self.counts() == c1);
                    assert(c1[i] <= flag_total(m1, i));
                }
                assert(self.nodes() == after_create(m0, id, kind, parent));
            }
        }
        Ok(id)
    }

    /// Clears the flags `flags` of `node_id`. When that changes the node's flags, one is taken
    /// from the count of each flag of `flags`, whether or not the node carried it.
    pub fn mark_clean(&mut self, node_id: NodeId, flags: DirtyFlags) -> (r: Result<(), Error>)
        requires
            old(self).wf(),
            old(self).nodes().dom().contains(node_id) && (old(self).nodes()[node_id].dirty & !flags@)
                != old(self).nodes()[node_id].dirty ==> forall|i: int|
                has_bit(flags@, i) ==> old(self).counts()[i] > 0,
        ensures
            final(self).wf(),
            final(self).counts().len() == 2,
            !old(self).nodes().dom().contains(node_id) ==> r == Err::<(), Error>(
                Error::NodeNotFound(node_id),
            ) && final(self).nodes() == old(self).nodes() && final(self).counts() == old(self).counts(),
            old(self).nodes().dom().contains(node_id) ==> r is Ok,
            old(self).nodes().dom().contains(node_id) ==> {
                let d = old(self).nodes()[node_id].dirty;
                if (d & !flags@) == d {
                    final(self).nodes() == old(self).nodes() && final(self).counts() == old(self).counts()
                } else {
                    &&& final(self).nodes() == old(self).nodes().insert(node_id, with_dirty(old(self).nodes()[node_id], d & !flags@))
                    &&& forall|i: int| 0 <= i < 2 ==> final(self).counts()[i] == counts_after_decrement(old(self).counts(), flags@, i)
                }
            },
            old(self).counts_exact() && clean_keeps_counts(old(self).nodes(), node_id, flags@)
                ==> final(self).counts_exact(),
    {
        let ghost m0 = self.nodes();
        if slots_get(&self.data, node_id).is_none() {
            return Err(Error::NodeNotFound(node_id));
        }
        let ghost old_data = self.data;
        let rec = slots_index_mut(&mut self.data, node_id);
        proof {
            use_type_invariant(&flags);
            use_type_invariant(&rec.dirty);
        }
        let new_dirty = rec.dirty.difference(flags);
        proof {
            lemma_dirty_view_eq(new_dirty, rec.dirty);
        }
        if new_dirty == rec.dirty {
            proof {
                self.lemma_view_insert(old_data, node_id, *rec);
                assert(self.nodes() =~= m0);
            }
            return Ok(());
        }
        let ghost d = rec.dirty@;
        rec.dirty = new_dirty;
        proof {
            self.lemma_view_insert(old_data, node_id, *rec);
            assert(self.nodes() == m0.insert(node_id, with_dirty(m0[node_id], d & !flags@)));
            lemma_bits_ops(d, flags@);
            assert(forall|i: int| has_bit(flags@, i) ==> old(self).counts()[i] > 0);
        }
        let ghost c0 = self.counts();
        self.dirty_counter.decrement(flags);
        proof {
            assert forall|i: int| #![trigger self.counts()[i]] 0 <= i < 2 implies self.counts()[i] <= flag_total(self.nodes(), i)
                && (old(self).counts_exact() && clean_keeps_counts(m0, node_id, flags@) ==> self.counts()[i] == flag_total(self.nodes(), i)) by {
                lemma_count_insert(m0, node_id, with_dirty(m0[node_id], d & !flags@), carries(i));
                assert(c0[i] <= flag_total(m0, i));
                if old(self).counts_exact() && clean_keeps_counts(m0, node_id, flags@) {
                    assert(c0[i] == flag_total(m0, i));
                    assert((d | flags@) == d);
                    assert(has_bit(flags@, i) ==> has_bit(d, i));
                }
            }
        }
        Ok(())
    }

    /// Deletes `node_id`: it leaves its parent's children, one is taken from the count of each
    /// flag it carries, and its record is removed. Its children are left in the arena.
    pub fn delete_node(&mut self, node_id: NodeId) -> (r: Result<(), Error>)
        requires
            old(self).wf(),
            old(self).nodes().dom().contains(node_id) ==> forall|i: int|
                has_bit(old(self).nodes()[node_id].dirty, i) ==> old(self).counts()[i] > 0,
        ensures
            final(self).wf(),
            final(self).counts().len() == 2,
            !old(self).nodes().dom().contains(node_id) ==> r == Err::<(), Error>(
                Error::NodeNotFound(node_id),
            ) && final(self).nodes() == old(self).nodes() && final(self).counts() == old(self).counts(),
            old(self).nodes().dom().contains(node_id) ==> {
                &&& r is Ok
                &&& final(self).nodes() == after_delete(old(self).nodes(), node_id)
                &&& forall|i: int| 0 <= i < 2 ==> final(self).counts()[i] == counts_after_decrement(old(self).counts(), old(self).nodes()[node_id].dirty, i)
            },
            old(self).counts_exact() ==> final(self).counts_exact(),
            final(self).history() == old(self).history(),
            final(self).fuel() == old(self).fuel(),
    {
        let ghost m0 = self.nodes();
        let parent = match slots_get(&self.data, node_id) {
            Some(rec) => rec.parent,
            None => None,
        };
        if let Some(parent_id) = parent {
            if slots_get(&self.data, parent_id).is_some() {
                let ghost old_data = self.data;
                let rec = slots_index_mut(&mut self.data, parent_id);
                let kept = without(&rec.children, node_id);
                rec.children = kept;
                proof {
                    self.lemma_view_insert(old_data, parent_id, *rec);
                    assert(self.nodes() == m0.insert(parent_id, without_child(m0[parent_id], node_id)));
                }
            }
        }
        let ghost m1 = self.nodes();
        assert(m1.dom() == m0.dom());
        assert(forall|k: NodeId| m0.dom().contains(k) ==> m1[k].dirty == m0[k].dirty);
        let ghost c0 = self.counts();
        match slots_get(&self.data, node_id) {
            Some(rec) => {
                if !rec.dirty.is_empty() {
                    let d = rec.dirty;
                    proof {
                        assert(d@ == m0[node_id].dirty);
                    }
                    self.dirty_counter.decrement(d);
                }
            }
            None => {}
        }
        let ghost old_data = self.data;
        match slots_remove(&mut self.data, node_id) {
            None => {
                proof {
                    assert(self.nodes() == m0);
                    assert(self.counts() == c0);
                    assert(self.wf());
                }
                return Err(Error::NodeNotFound(node_id));
            }
            Some(_) => {}
        }
        proof {
            self.lemma_view_remove(old_data, node_id);
            let m2 = self.nodes();
            assert(m2 == after_delete(m0, node_id));
            let d = m0[node_id].dirty;
            assert forall|i: int| #![trigger self.counts()[i]] 0 <= i < 2 implies self.counts()[i] == counts_after_decrement(c0, d, i)
                && self.counts()[i] <= flag_total(m2, i)
                && flag_total(m2, i) + (if has_bit(d, i) { 1int } else { 0int }) == flag_total(m0, i) by {
                lemma_count_same(m0, m1, carries(i));
                lemma_count_remove(m1, node_id, carries(i));
                assert(flag_total(m1, i) == flag_total(m0, i));
                assert(c0[i] <= flag_total(m0, i));
                if d == 0 {
                    assert(!has_bit(d, i));
                }
            }
            assert forall|q: NodeId, j: int|
                m2.dom().contains(q) && 0 <= j < m2[q].children.len() implies m2.dom().contains(
                m2[q].children[j]) && m2[m2[q].children[j]].parent == Some(q) by {
                if parent == Some(q) && m0.dom().contains(q) {
                    let c = m2[q].children[j];
                    m0[q].children.filter_lemma(other_than(node_id));
                    assert(m2[q].children.contains(c));
                    m0[q].children.lemma_filter_contains_rev(other_than(node_id), c);
                    let k = choose|k: int| 0 <= k < m0[q].children.len() && m0[q].children[k] == c;
                    assert(m0[m0[q].children[k]].parent == Some(q));
                } else {
                    let c = m0[q].children[j];
                    assert(m0[c].parent == Some(q));
                }
            }
            assert forall|q: NodeId| #[trigger] m2.dom().contains(q) implies m2[q].children.no_duplicates() by {
                if parent == Some(q) && m0.dom().contains(q) {
                    lemma_filter_no_duplicates(m0[q].children, other_than(node_id));
                }
            }
            assert forall|q: NodeId, j: int|
                m2.dom().contains(q) && 0 <= j < m2[q].children.len() implies self.birth@[q]
                < self.birth@[m2[q].children[j]] by {
                if parent == Some(q) && m0.dom().contains(q) {
                    let c = m2[q].children[j];
                    m0[q].children.filter_lemma(other_than(node_id));
                    assert(m2[q].children.contains(c));
                    m0[q].children.lemma_filter_contains_rev(other_than(node_id), c);
                    let k = choose|k: int| 0 <= k < m0[q].children.len() && m0[q].children[k] == c;
                    assert(self.birth@[q] < self.birth@[m0[q].children[k]]);
                }
            }
        }
        Ok(())
    }

    /// Marks `node_id` dirty with `flags`. When that adds flags to the node, one is added to the
    /// count of each flag it gains; when `flags` holds the layout flag, the node's handle is
    /// appended to `cleared` (its layout cache is to be cleared) and the parent is marked in turn.
    /// The outcome is [`propagate`] of the nodes before the call.
    pub fn mark_dirty(&mut self, node_id: NodeId, flags: DirtyFlags, cleared: &mut Vec<NodeId>) -> (r: Result<(), Error>)
        requires
            old(self).wf(),
        ensures
            final(self).wf(),
            final(self).counts().len() == 2,
            final(self).nodes() == propagate(old(self).nodes(), node_id, flags@).0,
            r == propagate(old(self).nodes(), node_id, flags@).1,
            final(cleared)@ == old(cleared)@ + propagate(old(self).nodes(), node_id, flags@).2,
            forall|i: int|
                0 <= i < 2 ==> final(self).counts()[i] + flag_total(old(self).nodes(), i)
                    == old(self).counts()[i] + flag_total(final(self).nodes(), i),
            old(self).counts_exact() ==> final(self).counts_exact(),
        decreases lacking(old(self).nodes(), flags@),
    {
        let ghost m0 = self.nodes();
        let ghost c0 = self.counts();
        proof {
            use_type_invariant(&flags);
        }
        if slots_get(&self.data, node_id).is_none() {
            return Err(Error::NodeNotFound(node_id));
        }
        let ghost old_data = self.data;
        let rec = slots_index_mut(&mut self.data, node_id);
        proof {
            use_type_invariant(&rec.dirty);
        }
        let new_dirty = rec.dirty.union(flags);
        proof {
            lemma_dirty_view_eq(new_dirty, rec.dirty);
        }
        if new_dirty == rec.dirty {
            proof {
                self.lemma_view_insert(old_data, node_id, *rec);
                assert(self.nodes() =~= m0);
            }
            return Ok(());
        }
        let ghost d = rec.dirty@;
        let newly_set = flags.intersection(rec.dirty.complement());
        rec.dirty = new_dirty;
        let parent = rec.parent;
        proof {
            self.lemma_view_insert(old_data, node_id, *rec);
            assert(self.nodes() == m0.insert(node_id, with_dirty(m0[node_id], d | flags@)));
            lemma_bits_ops(d, flags@);
            assert forall|i: int| has_bit(newly_set@, i) implies self.dirty_counter@[i] < usize::MAX by {
                crate::flags::lemma_bits_cases(newly_set@);
                lemma_count_le_len(m0, carries(i));
                assert(c0[i] <= flag_total(m0, i));
            }
        }
        self.dirty_counter.increment(newly_set);
        let ghost m1 = self.nodes();
        proof {
            assert forall|i: int| #![trigger self.counts()[i]] 0 <= i < 2 implies self.counts()[i] + flag_total(m0, i) == c0[i] + flag_total(m1, i) by {
                lemma_count_insert(m0, node_id, with_dirty(m0[node_id], d | flags@), carries(i));
            }
            assert(flags_ok(m1));
        }
        if flags.contains(DirtyFlags::layout()) {
            cleared.push(node_id);
            if let Some(parent_id) = parent {
                proof {
                    lemma_count_insert(m0, node_id, with_dirty(m0[node_id], d | flags@), lacks(flags@));
                    lemma_or_idem(d, flags@);
                    assert(lacking(m1, flags@) < lacking(m0, flags@));
                }
                let ghost c1 = self.counts();
                let ghost cl1 = cleared@;
                let r = self.mark_dirty(parent_id, flags, cleared);
                proof {
                    assert forall|i: int| #![trigger self.counts()[i]] 0 <= i < 2 implies self.counts()[i] + flag_total(m0, i) == c0[i] + flag_total(self.nodes(), i) by {
                        assert(c1[i] + flag_total(m0, i) == c0[i] + flag_total(m1, i));
                    }
                }
                return r;
            }
        }
        Ok(())
    }

    /// When each node was created, and the time now.
    pub closed spec fn history(&self) -> (Map<NodeId, nat>, nat) {
        (self.birth@, self.clock@)
    }

    /// The depth bound under which [`preorder`] of every live node is complete.
    pub closed spec fn fuel(&self) -> nat {
        self.clock@
    }

    proof fn lemma_preorder_fuel(&self, x: NodeId, f1: nat, f2: nat)
        requires
            self.wf(),
            self.nodes().dom().contains(x),
            f1 >= self.clock@ - self.birth@[x],
            f2 >= self.clock@ - self.birth@[x],
        ensures
            preorder(self.nodes(), x, f1) == preorder(self.nodes(), x, f2),
        decreases self.clock@ - self.birth@[x], 1nat, 0nat,
    {
        let m = self.nodes();
        let cs = m[x].children;
        assert forall|j: int| 0 <= j < cs.len() implies m.dom().contains(#[trigger] cs[j]) && self.birth@[x] < self.birth@[cs[j]] by {
            assert(m[x].children[j] == cs[j]);
        }
        self.lemma_preorder_list_fuel(x, cs, (f1 - 1) as nat, (f2 - 1) as nat);
    }

    proof fn lemma_preorder_list_fuel(&self, parent: NodeId, cs: Seq<NodeId>, f1: nat, f2: nat)
        requires
            self.wf(),
            self.nodes().dom().contains(parent),
            forall|j: int| 0 <= j < cs.len() ==> self.nodes().dom().contains(#[trigger] cs[j]) && self.birth@[parent] < self.birth@[cs[j]],
            f1 + 1 >= self.clock@ - self.birth@[parent],
            f2 + 1 >= self.clock@ - self.birth@[parent],
        ensures
            preorder_list(self.nodes(), cs, f1) == preorder_list(self.nodes(), cs, f2),
        decreases self.clock@ - self.birth@[parent], 0nat, cs.len(),
    {
        if cs.len() > 0 {
            let last = cs.last();
            assert(cs.last() == cs[cs.len() - 1]);
            assert forall|j: int| 0 <= j < cs.drop_last().len() implies self.nodes().dom().contains(#[trigger] cs.drop_last()[j]) && self.birth@[parent] < self.birth@[cs.drop_last()[j]] by {
                assert(cs.drop_last()[j] == cs[j]);
            }
            self.lemma_preorder_list_fuel(parent, cs.drop_last(), f1, f2);
            assert(self.birth@.dom().contains(last));
            self.lemma_preorder_fuel(last, f1, f2);
        }
    }

    /// Appends the nodes of the subtree of `node_id` in depth-first order to `out`.
    fn traverse_into(&self, node_id: NodeId, out: &mut Vec<NodeId>)
        requires
            self.wf(),
            self.nodes().dom().contains(node_id),
        ensures
            final(out)@ == old(out)@ + preorder(self.nodes(), node_id, (self.clock@ - self.birth@[node_id]) as nat),
        decreases self.clock@ - self.birth@[node_id],
    {
        let ghost m = self.nodes();
        let ghost f = (self.clock@ - self.birth@[node_id]) as nat;
        let ghost start = out@;
        out.push(node_id);
        if let Some(rec) = slots_get(&self.data, node_id) {
            let children = &rec.children;
            assert(children@ == m[node_id].children);
            let mut k: usize = 0;
            while k < children.len()
                invariant
                    self.wf(),
                    m == self.nodes(),
                    m.dom().contains(node_id),
                    f == self.clock@ - self.birth@[node_id],
                    f >= 1,
                    children@ == m[node_id].children,
                    k <= children.len(),
                    out@ == start + seq![node_id] + preorder_list(m, children@.take(k as int), (f - 1) as nat),
                decreases children.len() - k,
            {
                let c = children[k];
                proof {
                    assert(m[node_id].children[k as int] == c);
                    assert(self.birth@.dom().contains(c));
                }
                self.traverse_into(c, out);
                proof {
                    self.lemma_preorder_fuel(c, (self.clock@ - self.birth@[c]) as nat, (f - 1) as nat);
                    let t = children@.take(k + 1);
                    assert(t.drop_last() == children@.take(k as int));
                    assert(t.last() == c);
                }
                k = k + 1;
            }
            assert(children@.take(children.len() as int) == children@);
        }
    }

    /// The nodes of the subtree of `node_id` in depth-first order: each node before its
    /// children, the children in order.
    pub fn traverse(&self, node_id: NodeId) -> (r: Vec<NodeId>)
        requires
            self.wf(),
            self.nodes().dom().contains(node_id),
        ensures
            r@ == preorder(self.nodes(), node_id, self.fuel()),
    {
        let mut out: Vec<NodeId> = Vec::new();
        self.traverse_into(node_id, &mut out);
        proof {
            self.lemma_preorder_fuel(node_id, (self.clock@ - self.birth@[node_id]) as nat, self.clock@);
        }
        out
    }

    /// The traversal from a live node lists exactly the nodes below it, which are the nodes that
    /// [`NodeArena::delete_subtree`] removes.
    pub proof fn lemma_traversal_is_subtree(&self, node_id: NodeId)
        requires
            self.wf(),
            self.nodes().dom().contains(node_id),
        ensures
            forall|x: NodeId| #[trigger] preorder(self.nodes(), node_id, self.fuel()).contains(x)
                == below(self.nodes(), x, node_id, self.fuel()),
    {
        self.lemma_preorder_fuel(node_id, self.clock@ + 1, self.clock@);
        assert forall|x: NodeId| #[trigger] preorder(self.nodes(), node_id, self.fuel()).contains(x)
            == below(self.nodes(), x, node_id, self.fuel()) by {
            lemma_preorder_below(self.nodes(), x, node_id, self.clock@);
        }
    }

    /// The depth bound is enough: more of it finds no further node.
    pub proof fn lemma_fuel_enough(&self, node_id: NodeId, f: nat)
        requires
            self.wf(),
            self.nodes().dom().contains(node_id),
            f >= self.fuel(),
        ensures
            preorder(self.nodes(), node_id, f) == preorder(self.nodes(), node_id, self.fuel()),
    {
        self.lemma_preorder_fuel(node_id, f, self.clock@);
    }

    proof fn lemma_tree_ok(&self)
        requires
            self.wf(),
        ensures
            tree_ok(self.nodes(), self.birth@, self.clock@),
    {
    }

    /// A live node `p` that lists `id` among its children is `id`'s parent and does not lie below
    /// `id`: deleting the subtree of `id` keeps `p`, which loses `id` from its children and nothing
    /// else.
    pub proof fn lemma_delete_subtree_keeps_parent(&self, id: NodeId, p: NodeId)
        requires
            self.wf(),
            self.nodes().dom().contains(p),
            self.nodes()[p].children.contains(id),
        ensures
            self.nodes().dom().contains(id),
            self.nodes()[id].parent == Some(p),
            !below(self.nodes(), p, id, self.fuel()),
            after_delete_subtree(self.nodes(), id, self.fuel()).dom().contains(p),
            after_delete_subtree(self.nodes(), id, self.fuel())[p] == without_child(self.nodes()[p], id),
    {
        let m = self.nodes();
        let j = choose|j: int| 0 <= j < m[p].children.len() && m[p].children[j] == id;
        assert(m[p].children[j] == id);
        self.lemma_tree_ok();
        if below(m, p, id, self.fuel()) {
            lemma_below_live(m, self.birth@, self.clock@, p, id, self.fuel());
        }
        let m1 = m.restrict(m.dom().filter(|x: NodeId| !below(m, x, id, self.fuel())));
        assert(m1.dom().contains(p));
    }

    /// Deletes `node_id` and every node below it, each node's children before the node itself;
    /// `node_id` leaves its parent's children. `NodeNotFound` when no such node is live.
    pub fn delete_subtree(&mut self, node_id: NodeId) -> (r: Result<(), Error>)
        requires
            old(self).wf(),
            old(self).counts_exact(),
        ensures
            final(self).wf(),
            final(self).counts_exact(),
            final(self).history() == old(self).history(),
            final(self).fuel() == old(self).fuel(),
            !old(self).nodes().dom().contains(node_id) ==> r == Err::<(), Error>(
                Error::NodeNotFound(node_id),
            ) && final(self).nodes() == old(self).nodes(),
            old(self).nodes().dom().contains(node_id) ==> r is Ok && final(self).nodes()
                == after_delete_subtree(old(self).nodes(), node_id, old(self).fuel()),
        decreases (if old(self).nodes().dom().contains(node_id) {
            old(self).history().1 - old(self).history().0[node_id]
        } else {
            0int
        }),
    {
        let ghost m0 = self.nodes();
        let ghost b = self.birth@;
        let ghost clock = self.clock@;
        let ghost f = self.clock@;
        if slots_get(&self.data, node_id).is_none() {
            return self.delete_node(node_id);
        }
        let children = match slots_get(&self.data, node_id) {
            Some(rec) => copy_ids(&rec.children),
            None => Vec::new(),
        };
        let ghost cs = children@;
        proof {
            self.lemma_tree_ok();
            assert(removed_prefix(m0, node_id, cs, 0, f) =~= m0) by {
                assert(cs.skip(0) =~= cs);
                assert forall|x: NodeId| !below_prefix(m0, x, cs, 0, f) by {}
            }
        }
        let mut k: usize = 0;
        while k < children.len()
            invariant
                self.wf(),
                self.counts_exact(),
                self.history() == (b, clock),
                old(self).history() == (b, clock),
                old(self).nodes() == m0,
                tree_ok(m0, b, clock),
                m0.dom().contains(node_id),
                cs == m0[node_id].children,
                children@ == cs,
                f == clock,
                k <= children.len(),
                self.nodes() == removed_prefix(m0, node_id, cs, k as int, f),
            decreases children.len() - k,
        {
            let c = children[k];
            let ghost cur = self.nodes();
            let ghost kk = k as int;
            proof {
                assert(m0[node_id].children[kk] == c);
                assert(m0.dom().contains(c));
                assert(b[node_id] < b[c]);
                assert(below(m0, c, c, f));
                assert forall|j: int| 0 <= j < kk implies !below(m0, c, #[trigger] cs[j], f) by {
                    lemma_siblings_apart(m0, b, clock, node_id, j, kk, c, f);
                }
                assert(!below_prefix(m0, c, cs, kk, f));
                assert(cur.dom().contains(c));
                assert forall|z: NodeId| #[trigger] below(m0, z, c, f) implies (m0.dom().contains(z) == cur.dom().contains(z))
                    && (m0.dom().contains(z) ==> cur[z].children == m0[z].children) by {
                    lemma_below_live(m0, b, clock, z, c, f);
                    assert forall|j: int| 0 <= j < kk implies !below(m0, z, #[trigger] cs[j], f) by {
                        lemma_siblings_apart(m0, b, clock, node_id, j, kk, z, f);
                    }
                }
            }
            let res = self.delete_subtree(c);
            proof {
                let m1 = cur.restrict(cur.dom().filter(|x: NodeId| !below(cur, x, c, f)));
                lemma_below_frame(m0, cur, node_id, c, f);
                if below(m0, node_id, c, f) {
                    lemma_below_live(m0, b, clock, node_id, c, f);
                }
                assert(m1.dom().contains(node_id));
                assert(m0[c].parent == Some(node_id));
                let s0 = cs.skip(kk);
                assert(s0[0] == c);
                assert forall|i: int| 0 < i < s0.len() implies s0[i] != c by {
                    assert(s0[i] == cs[kk + i]);
                }
                lemma_filter_first(s0, c);
                assert(s0.drop_first() =~= cs.skip(kk + 1));
                let target = removed_prefix(m0, node_id, cs, kk + 1, f);
                assert forall|x: NodeId| #[trigger] self.nodes().dom().contains(x) == target.dom().contains(x) by {
                    if x != node_id {
                        lemma_below_frame(m0, cur, x, c, f);
                    }
                }
                assert forall|x: NodeId| #[trigger] self.nodes().dom().contains(x) implies self.nodes()[x] == target[x] by {
                    if x != node_id {
                        lemma_below_frame(m0, cur, x, c, f);
                    }
                }
                assert(self.nodes() =~= target);
            }
            match res {
                Ok(()) => {},
                Err(e) => {
                    return Err(e);
                },
            }
            k = k + 1;
        }
        let ghost cur = self.nodes();
        proof {
            assert(cs.skip(cs.len() as int) =~= Seq::<NodeId>::empty());
            let d = cur[node_id].dirty;
            if exists|i: int| has_bit(d, i) && self.counts()[i] == 0 {
                let i = choose|i: int| has_bit(d, i) && self.counts()[i] == 0;
                crate::flags::lemma_bits_cases(d);
                lemma_count_pos(cur, node_id, carries(i));
            }
        }
        let r = self.delete_node(node_id);
        proof {
            let target = after_delete_subtree(m0, node_id, f);
            assert forall|x: NodeId| x != node_id implies #[trigger] below(m0, x, node_id, f) == below_prefix(m0, x, cs, cs.len() as int, f) by {
                lemma_below_list(m0, x, cs, (f - 1) as nat);
                assert forall|j: int| 0 <= j < cs.len() implies below(m0, x, #[trigger] cs[j], (f - 1) as nat) == below(m0, x, cs[j], f) by {
                    assert(m0[node_id].children[j] == cs[j]);
                    lemma_below_fuel(m0, b, clock, x, cs[j], (f - 1) as nat, f);
                }
            }
            assert(below(m0, node_id, node_id, f));
            assert forall|x: NodeId| #[trigger] self.nodes().dom().contains(x) == target.dom().contains(x) by {}
            assert forall|x: NodeId| #[trigger] self.nodes().dom().contains(x) implies self.nodes()[x] == target[x] by {}
            assert(self.nodes() =~= target);
        }
        r
    }

    /// Whether some node is counted as carrying a flag of `flags`. While the counts are exact,
    /// that is whether some live node carries a flag of `flags`.
    pub fn is_any_dirty(&self, flags: DirtyFlags) -> (r: bool)
        requires
            self.wf(),
        ensures
            r == (exists|i: int| 0 <= i < 2 && has_bit(flags@, i) && self.counts()[i] > 0),
            self.counts_exact() ==> (r <==> exists|k: NodeId|
                #[trigger] self.nodes().dom().contains(k) && (self.nodes()[k].dirty & flags@) != 0),
    {
        let r = self.dirty_counter.is_any_dirty(flags);
        proof {
            use_type_invariant(&flags);
            let m = self.nodes();
            let f = flags@;
            if self.counts_exact() {
                if r {
                    let i = choose|i: int| 0 <= i < 2 && has_bit(f, i) && self.counts()[i] > 0;
                    if forall|k: NodeId| m.dom().contains(k) ==> !carries(i)(m[k]) {
                        lemma_count_zero(m, carries(i));
                    }
                    let k = choose|k: NodeId| m.dom().contains(k) && carries(i)(m[k]);
                    lemma_bits_ops(m[k].dirty, f);
                    assert(has_bit(m[k].dirty & f, i));
                    assert(m.dom().contains(k) && (m[k].dirty & f) != 0);
                }
                if exists|k: NodeId| m.dom().contains(k) && (m[k].dirty & f) != 0 {
                    let k = choose|k: NodeId| m.dom().contains(k) && (m[k].dirty & f) != 0;
                    lemma_bits_ops(m[k].dirty, f);
                    crate::flags::lemma_bits_cases(m[k].dirty & f);
                    let i: int = if has_bit(m[k].dirty & f, 0) { 0 } else { 1 };
                    assert(has_bit(m[k].dirty & f, i));
                    lemma_count_pos(m, k, carries(i));
                    assert(0 <= i < 2 && has_bit(f, i) && self.counts()[i] > 0);
                }
            }
        }
        r
    }

    /// Replaces the interaction states of `node_id` and returns the states it had, or
    /// `NodeNotFound` when no such node is live.
    pub fn replace_states(&mut self, node_id: NodeId, states: InteractionState) -> (r: Result<InteractionState, Error>)
        requires
            old(self).wf(),
        ensures
            final(self).wf(),
            final(self).counts() == old(self).counts(),
            old(self).counts_exact() ==> final(self).counts_exact(),
            old(self).nodes().dom().contains(node_id) ==> r is Ok && r->Ok_0@ == old(self).nodes()[node_id].states
                && final(self).nodes() == old(self).nodes().insert(node_id, with_states(old(self).nodes()[node_id], states@)),
            !old(self).nodes().dom().contains(node_id) ==> r == Err::<InteractionState, Error>(
                Error::NodeNotFound(node_id),
            ) && final(self).nodes() == old(self).nodes(),
    {
        let ghost m0 = self.nodes();
        if slots_get(&self.data, node_id).is_none() {
            return Err(Error::NodeNotFound(node_id));
        }
        let ghost old_data = self.data;
        let rec = slots_index_mut(&mut self.data, node_id);
        let before = rec.interaction_state;
        rec.interaction_state = states;
        proof {
            self.lemma_view_insert(old_data, node_id, *rec);
            assert(self.nodes() == m0.insert(node_id, with_states(m0[node_id], states@)));
            assert(self.nodes().dom() == m0.dom());
            assert forall|p: NodeId| #[trigger] self.nodes().dom().contains(p) implies self.nodes()[p].children == m0[p].children
                && self.nodes()[p].parent == m0[p].parent && self.nodes()[p].dirty == m0[p].dirty by {}
            assert(links_ok(self.nodes()));
            assert(flags_ok(self.nodes()));
            assert forall|i: int| #![trigger self.counts()[i]] 0 <= i < 2 implies self.counts()[i] <= flag_total(self.nodes(), i)
                && flag_total(self.nodes(), i) == flag_total(m0, i) by {
                lemma_count_insert(m0, node_id, with_states(m0[node_id], states@), carries(i));
                assert(carries(i)(with_states(m0[node_id], states@)) == carries(i)(m0[node_id]));
                assert(self.counts()[i] == old(self).counts()[i]);
                assert(old(self).counts()[i] <= flag_total(m0, i));
            }
        }
        Ok(before)
    }

    /// The record of `node_id`, or `NodeNotFound` when no such node is live.
    pub fn get_data(&self, node_id: NodeId) -> (r: Result<&NodeRecord, Error>)
        ensures
            self.nodes().dom().contains(node_id) ==> r is Ok && r->Ok_0@ == self.nodes()[node_id],
            !self.nodes().dom().contains(node_id) ==> r == Err::<&NodeRecord, Error>(
                Error::NodeNotFound(node_id),
            ),
    {
        match slots_get(&self.data, node_id) {
            Some(r) => Ok(r),
            None => Err(Error::NodeNotFound(node_id)),
        }
    }

    /// The parent of `node_id`, or `NodeNotFound` when no such node is live.
    pub fn get_parent(&self, node_id: NodeId) -> (r: Result<Option<NodeId>, Error>)
        ensures
            self.nodes().dom().contains(node_id) ==> r == Ok::<Option<NodeId>, Error>(
                self.nodes()[node_id].parent,
            ),
            !self.nodes().dom().contains(node_id) ==> r == Err::<Option<NodeId>, Error>(
                Error::NodeNotFound(node_id),
            ),
    {
        match slots_get(&self.data, node_id) {
            Some(r) => Ok(r.parent),
            None => Err(Error::NodeNotFound(node_id)),
        }
    }

    /// The children of `node_id` in order, or `NodeNotFound` when no such node is live.
    pub fn get_children(&self, node_id: NodeId) -> (r: Result<&Vec<NodeId>, Error>)
        ensures
            self.nodes().dom().contains(node_id) ==> r is Ok && r->Ok_0@
                == self.nodes()[node_id].children,
            !self.nodes().dom().contains(node_id) ==> r == Err::<&Vec<NodeId>, Error>(
                Error::NodeNotFound(node_id),
            ),
    {
        match slots_get(&self.data, node_id) {
            Some(r) => Ok(&r.children),
            None => Err(Error::NodeNotFound(node_id)),
        }
    }
}

} // verus!
