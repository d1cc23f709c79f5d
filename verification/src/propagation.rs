//! What happens when a signal changes: each subscriber reacts in subscription order, a derived
//! signal is computed again (and its own subscribers react in turn), a bound field queues an
//! update of its node with the new value.
use vstd::prelude::*;
use crate::flags::DirtyFlags;
use crate::node::NodeId;
use crate::reactive::{DeferredBinding, MaybeSignal, PendingUpdate, Runtime, Signal, SignalId, bind_field, mentions, subscribed_all};

verus! {

/// What a subscriber does when the signal it follows changes.
#[derive(Debug)]
pub enum Reaction<C> {
    /// Computes the derived signal `target` again with the caller's computation `compute`.
    Derive { target: SignalId, compute: C },
    /// Queues an update of `node` with `flags`, carrying the new value of `source`.
    Bind { source: SignalId, node: NodeId, flags: DirtyFlags },
}

/// Whether reaction `r`, subscribed to signal `j` of a runtime with `n` signals, is in place: a
/// derived signal is newer than the signals it follows, a binding follows its own source.
pub open spec fn reaction_fits<C>(r: Reaction<C>, j: int, n: int) -> bool {
    match r {
        Reaction::Derive { target, .. } => j < target@ < n,
        Reaction::Bind { source, .. } => source@ == j,
    }
}

/// Whether `u` is an update of `node` with `flags` whose payload `to_apply` made from a clone of
/// `v`.
pub open spec fn update_from<V: Clone, A, G: Fn(&V) -> A>(u: PendingUpdate<A>, node: NodeId, flags: DirtyFlags, v: V, to_apply: G) -> bool {
    &&& u.node_id == node
    &&& u.flags == flags
    &&& exists|c: V| cloned(v, c) && #[trigger] to_apply.ensures((&c,), u.apply)
}

/// Whether `rt` is the runtime as it stands right after signal `id` of `before` was set to `v`,
/// as far as the signals up to `id` go: same number of signals, `v` at `id`, the values of
/// `before` below it.
pub open spec fn seen_after<V, A>(rt: Runtime<V, usize, A>, before: Runtime<V, usize, A>, id: int, v: V) -> bool {
    &&& rt.values().len() == before.values().len()
    &&& rt.values()[id] == v
    &&& forall|j: int| 0 <= j < id ==> rt.values()[j] == before.values()[j]
}

/// Whether `x` is what the computation `compute` gave on a runtime that holds the new value `v`
/// of signal `id` of `before` and the values of `before` below it.
pub open spec fn computed_after<V, A, C, F: Fn(&C, &Runtime<V, usize, A>) -> V>(
    compute: C,
    before: Runtime<V, usize, A>,
    id: int,
    v: V,
    x: V,
    eval: F,
) -> bool {
    exists|rt: Runtime<V, usize, A>| seen_after(rt, before, id, v) && #[trigger] eval.ensures((&compute, &rt), x)
}

/// Whether reaction `r` has reacted to the change of signal `id` to `v`, going from `before` to
/// `after`: a derived signal holds what its computation gave from the new value, a binding has
/// queued an update of its node with the new value.
pub open spec fn reacted<V: Clone, A, C, F: Fn(&C, &Runtime<V, usize, A>) -> V, G: Fn(&V) -> A>(
    r: Reaction<C>,
    id: int,
    before: Runtime<V, usize, A>,
    after: Runtime<V, usize, A>,
    v: V,
    eval: F,
    to_apply: G,
) -> bool {
    match r {
        Reaction::Derive { target, compute } => computed_after(compute, before, id, v, after.values()[target@ as int], eval),
        Reaction::Bind { node, flags, .. } => exists|q: int|
            before.pending().len() <= q < after.pending().len() && #[trigger] update_from(after.pending()[q], node, flags, v, to_apply),
    }
}

/// Whether the derived signal of reaction `r`, if it is newer than signal `id`, kept its value
/// from `before` or holds what its computation gave from the new value `v` of `id`.
pub open spec fn derived_kept_or_computed<V, A, C, F: Fn(&C, &Runtime<V, usize, A>) -> V>(
    r: Reaction<C>,
    id: int,
    before: Runtime<V, usize, A>,
    after: Runtime<V, usize, A>,
    v: V,
    eval: F,
) -> bool {
    match r {
        Reaction::Derive { target, compute } => target@ > id ==> (after.values()[target@ as int]
            == before.values()[target@ as int] || computed_after(compute, before, id, v, after.values()[target@ as int], eval)),
        Reaction::Bind { .. } => true,
    }
}

/// A value computed from the runtime right after a later signal `t` changed was also computed
/// from a runtime right after the earlier signal `id` changed, when the signals up to `id` were
/// not touched in between.
proof fn lemma_computed_lift<V, A, C, F: Fn(&C, &Runtime<V, usize, A>) -> V>(
    compute: C,
    inner: Runtime<V, usize, A>,
    t: int,
    nv: V,
    outer: Runtime<V, usize, A>,
    id: int,
    v: V,
    x: V,
    eval: F,
)
    requires
        computed_after(compute, inner, t, nv, x, eval),
        0 <= id < t,
        inner.values().len() == outer.values().len(),
        inner.values()[id] == v,
        forall|j: int| 0 <= j < id ==> inner.values()[j] == outer.values()[j],
    ensures
        computed_after(compute, outer, id, v, x, eval),
{
    let rt = choose|rt: Runtime<V, usize, A>| seen_after(rt, inner, t, nv) && #[trigger] eval.ensures((&compute, &rt), x);
    assert(seen_after(rt, outer, id, v));
}

/// Whether `b` cuts the updates of `after` past the first `start` into one stretch per handle of
/// `subs`, in order, such that the stretch of each binding is exactly one update of its node with
/// its flags and a payload made from a clone of `v` (the stretch of a derived signal holds what
/// its own subscribers queued).
pub open spec fn stretches<V: Clone, A, C, G: Fn(&V) -> A>(
    b: Seq<int>,
    reactions: Seq<Reaction<C>>,
    subs: Seq<usize>,
    start: int,
    after: Seq<PendingUpdate<A>>,
    v: V,
    to_apply: G,
) -> bool {
    &&& b.len() == subs.len() + 1
    &&& b[0] == start
    &&& b[subs.len() as int] == after.len()
    &&& forall|p: int| 0 <= p < b.len() ==> start <= #[trigger] b[p]
    &&& forall|p: int| 0 <= p < subs.len() ==> #[trigger] b[p] <= b[p + 1]
    &&& forall|p: int|
        0 <= p < subs.len() && (#[trigger] reactions[subs[p] as int]) is Bind ==> b[p + 1] == b[p] + 1 && update_from(
            after[b[p]],
            reactions[subs[p] as int]->Bind_node,
            reactions[subs[p] as int]->Bind_flags,
            v,
            to_apply,
        )
}

/// In a sequence of bounds that never decreases over its first `m` steps, each bound before the
/// last is below the last.
proof fn lemma_bounds_below(b: Seq<int>, m: int, p: int)
    requires
        b.len() == m + 1,
        0 <= p < m,
        forall|x: int| 0 <= x < m ==> #[trigger] b[x] <= b[x + 1],
    ensures
        b[p] <= b[m],
    decreases m - p,
{
    if p + 1 < m {
        lemma_bounds_below(b, m, p + 1);
    }
}

/// Adding one handle `k` to `pre` extends the stretches by the updates queued since, which for a
/// binding are exactly one of its node.
proof fn lemma_stretch_push<V: Clone, A, C, G: Fn(&V) -> A>(
    b: Seq<int>,
    reactions: Seq<Reaction<C>>,
    pre: Seq<usize>,
    post: Seq<usize>,
    k: usize,
    start: int,
    before: Seq<PendingUpdate<A>>,
    after: Seq<PendingUpdate<A>>,
    v: V,
    to_apply: G,
)
    requires
        stretches(b, reactions, pre, start, before, v, to_apply),
        0 <= start,
        post == pre.push(k),
        before.len() <= after.len(),
        after.take(before.len() as int) == before,
        reactions[k as int] is Bind ==> after.len() == before.len() + 1 && update_from(
            after[before.len() as int],
            reactions[k as int]->Bind_node,
            reactions[k as int]->Bind_flags,
            v,
            to_apply,
        ),
    ensures
        stretches(b.push(after.len() as int), reactions, post, start, after, v, to_apply),
{
    let b2 = b.push(after.len() as int);
    let m = pre.len() as int;
    assert forall|p: int| 0 <= p < b2.len() implies start <= #[trigger] b2[p] by {
        if p < b.len() {
            assert(start <= b[p]);
        } else {
            assert(start <= b[m]);
        }
    }
    assert forall|p: int| 0 <= p < post.len() implies #[trigger] b2[p] <= b2[p + 1] by {
        if p < m {
            assert(pre[p] == post[p]);
            assert(b[p] <= b[p + 1]);
        }
    }
    assert forall|p: int| 0 <= p < post.len() && (#[trigger] reactions[post[p] as int]) is Bind implies b2[p + 1] == b2[p] + 1 && update_from(
        after[b2[p]],
        reactions[post[p] as int]->Bind_node,
        reactions[post[p] as int]->Bind_flags,
        v,
        to_apply,
    ) by {
        if p < m {
            assert(pre[p] == post[p]);
            assert(reactions[pre[p] as int] is Bind);
            assert(b[p + 1] == b[p] + 1);
            if p + 1 < m {
                lemma_bounds_below(b, m, p + 1);
            }
            assert(b[p] + 1 <= b[m]);
            assert(b2[p] == b[p] && b2[p + 1] == b[p + 1]);
            assert(start <= b[p]);
            assert(after.take(before.len() as int)[b[p]] == before[b[p]]);
            assert(after[b[p]] == before[b[p]]);
        } else {
            assert(post[p] == k);
            assert(b2[p] == before.len());
        }
    }
}

/// Whether every handle of `subs` names a binding among `reactions`.
pub open spec fn binds_only<C>(reactions: Seq<Reaction<C>>, subs: Seq<usize>) -> bool {
    forall|p: int| 0 <= p < subs.len() ==> (#[trigger] reactions[subs[p] as int]) is Bind
}

/// Whether the updates of `after` past those of `before` are one per binding of `subs`, in
/// order, each of the binding's node with its flags and a payload made from a clone of `v`.
pub open spec fn queued_one_each<V: Clone, A, C, G: Fn(&V) -> A>(
    reactions: Seq<Reaction<C>>,
    subs: Seq<usize>,
    before: Seq<PendingUpdate<A>>,
    after: Seq<PendingUpdate<A>>,
    v: V,
    to_apply: G,
) -> bool {
    &&& after.len() == before.len() + subs.len()
    &&& forall|p: int|
        0 <= p < subs.len() ==> #[trigger] update_from(
            after[before.len() + p],
            reactions[subs[p] as int]->Bind_node,
            reactions[subs[p] as int]->Bind_flags,
            v,
            to_apply,
        )
}

/// Signals with their subscribers' reactions: subscriber handles are indices into the reactions.
pub struct Reactor<V, A, C> {
    rt: Runtime<V, usize, A>,
    reactions: Vec<Reaction<C>>,
}

impl<V, A, C> Reactor<V, A, C> {
    /// The runtime holding the signals and the pending updates.
    pub closed spec fn runtime(&self) -> Runtime<V, usize, A> {
        self.rt
    }

    /// The reactions, by subscriber handle.
    pub closed spec fn reactions(&self) -> Seq<Reaction<C>> {
        self.reactions@
    }

    /// Every subscriber handle names a reaction that is in place.
    pub closed spec fn wf(&self) -> bool {
        let subs = self.rt.subscribers();
        let n = self.rt.values().len() as int;
        &&& self.rt.wf()
        &&& forall|k: int| 0 <= k < self.reactions@.len() ==> (#[trigger] self.reactions@[k] matches Reaction::Derive { target, .. } ==> target@ < n)
        &&& forall|k1: int, k2: int|
            0 <= k1 < self.reactions@.len() && 0 <= k2 < self.reactions@.len() && (#[trigger] self.reactions@[k1]) is Derive
                && (#[trigger] self.reactions@[k2]) is Derive && self.reactions@[k1]->Derive_target == self.reactions@[k2]->Derive_target
                ==> k1 == k2
        &&& forall|j: int, p: int|
            #![trigger subs[j][p]]
            0 <= j < n && 0 <= p < subs[j].len() ==> subs[j][p] < self.reactions@.len() && reaction_fits(
                self.reactions@[subs[j][p] as int],
                j,
                n,
            )
    }

    /// No signal and no reaction.
    pub fn new() -> (r: Self)
        ensures
            r.wf(),
            r.runtime().values() == Seq::<V>::empty(),
            r.runtime().pending() == Seq::<PendingUpdate<A>>::empty(),
            r.reactions() == Seq::<Reaction<C>>::empty(),
    {
        Reactor { rt: Runtime::new(), reactions: Vec::new() }
    }

    /// A new signal holding `value`, followed by nothing.
    pub fn signal(&mut self, value: V) -> (r: Signal)
        requires
            old(self).wf(),
            old(self).runtime().values().len() < usize::MAX,
        ensures
            final(self).wf(),
            r.id@ == old(self).runtime().values().len(),
            final(self).runtime().values() == old(self).runtime().values().push(value),
            final(self).runtime().pending() == old(self).runtime().pending(),
            final(self).reactions() == old(self).reactions(),
    {
        let ghost subs0 = self.rt.subscribers();
        let r = crate::reactive::signal(&mut self.rt, value);
        proof {
            old(self).rt.lemma_lengths();
            self.rt.lemma_lengths();
            let subs = self.rt.subscribers();
            let n = self.rt.values().len() as int;
            assert forall|j: int, p: int|
                #![trigger subs[j][p]]
                0 <= j < n && 0 <= p < subs[j].len() implies subs[j][p] < self.reactions@.len() && reaction_fits(
                    self.reactions@[subs[j][p] as int],
                    j,
                    n,
                ) by {
                if j < n - 1 {
                    assert(subs[j] == subs0[j]);
                } else {
                    assert(subs[j].len() == 0);
                }
            }
        }
        r
    }

    /// A derived signal: a new signal holding `initial`, the value computed while the signals
    /// `deps` were read, followed by a reaction that computes it again with `compute` whenever
    /// one of them changes.
    pub fn derived(&mut self, initial: V, deps: Vec<SignalId>, compute: C) -> (r: Signal)
        requires
            old(self).wf(),
            old(self).runtime().values().len() < usize::MAX,
            deps@.no_duplicates(),
            forall|k: int| 0 <= k < deps.len() ==> old(self).runtime().live(#[trigger] deps@[k]),
        ensures
            final(self).wf(),
            r.id@ == old(self).runtime().values().len(),
            final(self).runtime().values() == old(self).runtime().values().push(initial),
            final(self).runtime().subscribers() == subscribed_all(
                old(self).runtime().subscribers(),
                deps@,
                old(self).reactions().len() as usize,
            ).push(Seq::<usize>::empty()),
            final(self).runtime().pending() == old(self).runtime().pending(),
            final(self).reactions() == old(self).reactions().push(Reaction::Derive { target: r.id, compute }),
    {
        let ghost subs0 = self.rt.subscribers();
        let ghost n = self.rt.values().len() as int;
        let key = self.reactions.len();
        let r = Signal::derive(&mut self.rt, initial, deps, key);
        self.reactions.push(Reaction::Derive { target: r.id, compute });
        proof {
            old(self).rt.lemma_lengths();
            self.rt.lemma_lengths();
            let subs = self.rt.subscribers();
            assert forall|j: int, p: int|
                #![trigger subs[j][p]]
                0 <= j < n + 1 && 0 <= p < subs[j].len() implies subs[j][p] < self.reactions@.len() && reaction_fits(
                    self.reactions@[subs[j][p] as int],
                    j,
                    n + 1,
                ) by {
                if j < n {
                    if p < subs0[j].len() {
                        assert(subs[j][p] == subs0[j][p]);
                    } else {
                        assert(mentions(deps@, j));
                        assert(subs[j][p] == key);
                        let w = choose|w: int| 0 <= w < deps@.len() && (#[trigger] deps@[w])@ == j;
                        assert(old(self).runtime().live(deps@[w]));
                    }
                } else {
                    assert(subs[j].len() == 0);
                }
            }
        }
        r
    }

    /// Makes the field of `node` follow `source`: whenever `source` changes, an update of `node`
    /// with `flags` and the new value is queued.
    pub fn bind(&mut self, source: Signal, node: NodeId, flags: DirtyFlags)
        requires
            old(self).wf(),
            old(self).runtime().live(source.id),
        ensures
            final(self).wf(),
            final(self).runtime().values() == old(self).runtime().values(),
            final(self).runtime().subscribers() == old(self).runtime().subscribers().update(
                source.id@ as int,
                old(self).runtime().subscribers()[source.id@ as int].push(old(self).reactions().len() as usize),
            ),
            final(self).runtime().pending() == old(self).runtime().pending(),
            final(self).reactions() == old(self).reactions().push(Reaction::Bind { source: source.id, node, flags }),
    {
        let ghost subs0 = self.rt.subscribers();
        let key = self.reactions.len();
        self.reactions.push(Reaction::Bind { source: source.id, node, flags });
        self.rt.subscribe(source.id, key);
        proof {
            old(self).rt.lemma_lengths();
            self.rt.lemma_lengths();
            let subs = self.rt.subscribers();
            let n = self.rt.values().len() as int;
            assert forall|j: int, p: int|
                #![trigger subs[j][p]]
                0 <= j < n && 0 <= p < subs[j].len() implies subs[j][p] < self.reactions@.len() && reaction_fits(
                    self.reactions@[subs[j][p] as int],
                    j,
                    n,
                ) by {
                if j != source.id@ || p < subs0[j].len() {
                    assert(subs[j][p] == subs0[j][p]);
                }
            }
        }
    }

    /// Sets signal `id` to `value`; then each subscriber of `id` reacts, in subscription order: a
    /// derived signal is computed again by `eval` from the runtime as it stands and set in the
    /// same way (so its own subscribers react in turn), a binding queues an update of its node
    /// whose payload `to_apply` makes from the new value.
    pub fn set<F: Fn(&C, &Runtime<V, usize, A>) -> V, G: Fn(&V) -> A>(&mut self, id: SignalId, value: V, eval: &F, to_apply: &G)
        where V: Clone,
        requires
            old(self).wf(),
            old(self).runtime().live(id),
            forall|c: &C, rt: &Runtime<V, usize, A>| #[trigger] eval.requires((c, rt)),
            forall|v: &V| #[trigger] to_apply.requires((v,)),
        ensures
            final(self).wf(),
            final(self).reactions() == old(self).reactions(),
            final(self).runtime().subscribers() == old(self).runtime().subscribers(),
            final(self).runtime().frames() == old(self).runtime().frames(),
            final(self).runtime().values().len() == old(self).runtime().values().len(),
            final(self).runtime().values()[id@ as int] == value,
            forall|j: int| 0 <= j < id@ ==> final(self).runtime().values()[j] == old(self).runtime().values()[j],
            old(self).runtime().pending().len() <= final(self).runtime().pending().len(),
            final(self).runtime().pending().take(old(self).runtime().pending().len() as int) == old(self).runtime().pending(),
            forall|k: int| 0 <= k < old(self).reactions().len() ==> derived_kept_or_computed(
                #[trigger] old(self).reactions()[k],
                id@ as int,
                old(self).runtime(),
                final(self).runtime(),
                value,
                *eval,
            ),
            forall|p: int| 0 <= p < old(self).runtime().subscribers()[id@ as int].len() ==> reacted(
                old(self).reactions()[#[trigger] old(self).runtime().subscribers()[id@ as int][p] as int],
                id@ as int,
                old(self).runtime(),
                final(self).runtime(),
                value,
                *eval,
                *to_apply,
            ),
            exists|b: Seq<int>| stretches(
                b,
                old(self).reactions(),
                old(self).runtime().subscribers()[id@ as int],
                old(self).runtime().pending().len() as int,
                final(self).runtime().pending(),
                value,
                *to_apply,
            ),
            binds_only(old(self).reactions(), old(self).runtime().subscribers()[id@ as int]) ==> {
                &&& final(self).runtime().values() == old(self).runtime().values().update(id@ as int, value)
                &&& queued_one_each(
                    old(self).reactions(),
                    old(self).runtime().subscribers()[id@ as int],
                    old(self).runtime().pending(),
                    final(self).runtime().pending(),
                    value,
                    *to_apply,
                )
            },
        decreases old(self).runtime().values().len() - id@,
    {
        let ghost rt0 = self.rt;
        let ghost n = self.rt.values().len() as int;
        let subs = self.rt.set(id, value);
        let ghost v0 = self.rt.values()[id@ as int];
        assert(subs@.take(0) =~= Seq::<usize>::empty());
        let ghost mut bounds: Seq<int> = seq![rt0.pending().len() as int];
        let mut i: usize = 0;
        while i < subs.len()
            invariant
                self.wf(),
                0 <= i <= subs.len(),
                subs@ == rt0.subscribers()[id@ as int],
                self.reactions@ == old(self).reactions@,
                self.rt.subscribers() == rt0.subscribers(),
                self.rt.frames() == rt0.frames(),
                self.rt.values().len() == n,
                n == rt0.values().len(),
                rt0 == old(self).rt,
                rt0.live(id),
                self.rt.values()[id@ as int] == v0,
                v0 == value,
                forall|j: int| 0 <= j < id@ ==> self.rt.values()[j] == rt0.values()[j],
                rt0.pending().len() <= self.rt.pending().len(),
                self.rt.pending().take(rt0.pending().len() as int) == rt0.pending(),
                forall|c: &C, rt: &Runtime<V, usize, A>| #[trigger] eval.requires((c, rt)),
                forall|v: &V| #[trigger] to_apply.requires((v,)),
                forall|k: int| 0 <= k < self.reactions@.len() ==> derived_kept_or_computed(
                    #[trigger] self.reactions@[k],
                    id@ as int,
                    rt0,
                    self.rt,
                    value,
                    *eval,
                ),
                forall|p: int| 0 <= p < i ==> reacted(
                    self.reactions@[#[trigger] subs@[p] as int],
                    id@ as int,
                    rt0,
                    self.rt,
                    value,
                    *eval,
                    *to_apply,
                ),
                stretches(bounds, self.reactions@, subs@.take(i as int), rt0.pending().len() as int, self.rt.pending(), value, *to_apply),
                binds_only(self.reactions@, subs@.take(i as int)) ==> {
                    &&& self.rt.values() == rt0.values().update(id@ as int, value)
                    &&& queued_one_each(self.reactions@, subs@.take(i as int), rt0.pending(), self.rt.pending(), value, *to_apply)
                },
            decreases subs.len() - i,
        {
            let k = subs[i];
            proof {
                assert(subs@[i as int] == self.rt.subscribers()[id@ as int][i as int]);
            }
            let ghost before = self.rt;
            match &self.reactions[k] {
                Reaction::Bind { source, node, flags } => {
                    let cur = self.rt.peek(*source);
                    let a = to_apply(&cur);
                    self.rt.push_update(PendingUpdate { node_id: *node, flags: *flags, apply: a });
                    proof {
                        let q = before.pending().len() as int;
                        crate::reactive::lemma_signal_id_eq(*source, id);
                        assert(*source == id);
                        assert(cloned(value, cur));
                        assert(to_apply.ensures((&cur,), self.rt.pending()[q].apply));
                        assert(update_from(self.rt.pending()[q], *node, *flags, value, *to_apply));
                        let b0 = bounds;
                        bounds = bounds.push(q + 1);
                        assert(self.rt.pending().take(before.pending().len() as int) =~= before.pending());
                        assert(subs@.take(i + 1) =~= subs@.take(i as int).push(k));
                        lemma_stretch_push(b0, self.reactions@, subs@.take(i as int), subs@.take(i + 1), k, rt0.pending().len() as int, before.pending(), self.rt.pending(), value, *to_apply);
                        let pre = subs@.take(i as int);
                        let post = subs@.take(i + 1);
                        assert(post == pre.push(k));
                        if binds_only(self.reactions@, post) {
                            assert forall|p: int| 0 <= p < pre.len() implies (#[trigger] self.reactions@[pre[p] as int]) is Bind by {
                                assert(pre[p] == post[p]);
                            }
                            assert forall|p: int| 0 <= p < post.len() implies #[trigger] update_from(
                                self.rt.pending()[rt0.pending().len() + p],
                                self.reactions@[post[p] as int]->Bind_node,
                                self.reactions@[post[p] as int]->Bind_flags,
                                value,
                                *to_apply,
                            ) by {
                                if p < pre.len() {
                                    assert(pre[p] == post[p]);
                                    assert(update_from(
                                        before.pending()[rt0.pending().len() + p],
                                        self.reactions@[pre[p] as int]->Bind_node,
                                        self.reactions@[pre[p] as int]->Bind_flags,
                                        value,
                                        *to_apply,
                                    ));
                                    assert(self.rt.pending()[rt0.pending().len() + p] == before.pending()[rt0.pending().len() + p]);
                                } else {
                                    assert(p == i);
                                    assert(rt0.pending().len() + p == q);
                                }
                            }
                        }
                        assert(self.rt.pending().take(rt0.pending().len() as int) =~= rt0.pending()) by {
                            assert(before.pending().take(rt0.pending().len() as int) == rt0.pending());
                        }
                        assert forall|p: int| 0 <= p < i + 1 implies reacted(
                            self.reactions@[#[trigger] subs@[p] as int],
                            id@ as int,
                            rt0,
                            self.rt,
                            value,
                            *eval,
                            *to_apply,
                        ) by {
                            if p < i {
                                assert(reacted(self.reactions@[subs@[p] as int], id@ as int, rt0, before, value, *eval, *to_apply));
                                if self.reactions@[subs@[p] as int] is Bind {
                                    let q2 = choose|q2: int| rt0.pending().len() <= q2 < before.pending().len() && #[trigger] update_from(
                                        before.pending()[q2],
                                        self.reactions@[subs@[p] as int]->Bind_node,
                                        self.reactions@[subs@[p] as int]->Bind_flags,
                                        value,
                                        *to_apply,
                                    );
                                    assert(self.rt.pending()[q2] == before.pending()[q2]);
                                }
                            }
                        }
                        assert forall|k2: int| 0 <= k2 < self.reactions@.len() implies derived_kept_or_computed(
                            #[trigger] self.reactions@[k2],
                            id@ as int,
                            rt0,
                            self.rt,
                            value,
                            *eval,
                        ) by {
                            assert(derived_kept_or_computed(self.reactions@[k2], id@ as int, rt0, before, value, *eval));
                        }
                    }
                },
                Reaction::Derive { target, compute } => {
                    let t = *target;
                    let nv = eval(compute, &self.rt);
                    let ghost c = *compute;
                    proof {
                        assert(eval.ensures((&c, &before), nv));
                    }
                    self.set(t, nv, eval, to_apply);
                    proof {
                        let b0 = bounds;
                        bounds = bounds.push(self.rt.pending().len() as int);
                        assert(subs@.take(i + 1) =~= subs@.take(i as int).push(k));
                        lemma_stretch_push(b0, self.reactions@, subs@.take(i as int), subs@.take(i + 1), k, rt0.pending().len() as int, before.pending(), self.rt.pending(), value, *to_apply);
                        let post = subs@.take(i + 1);
                        assert(post[i as int] == k);
                        assert(!binds_only(self.reactions@, post));
                        assert(self.rt.values()[t@ as int] == nv);
                        assert(self.rt.pending().take(rt0.pending().len() as int) =~= rt0.pending()) by {
                            assert(self.rt.pending().take(before.pending().len() as int) == before.pending());
                            assert(before.pending().take(rt0.pending().len() as int) == rt0.pending());
                        }
                        assert forall|k2: int| 0 <= k2 < self.reactions@.len() implies derived_kept_or_computed(
                            #[trigger] self.reactions@[k2],
                            id@ as int,
                            rt0,
                            self.rt,
                            value,
                            *eval,
                        ) by {
                            assert(derived_kept_or_computed(self.reactions@[k2], id@ as int, rt0, before, value, *eval));
                            if self.reactions@[k2] is Derive {
                                let t2 = self.reactions@[k2]->Derive_target;
                                let c2 = self.reactions@[k2]->Derive_compute;
                                if t2@ > t@ {
                                    assert(derived_kept_or_computed(self.reactions@[k2], t@ as int, before, self.rt, nv, *eval));
                                    if self.rt.values()[t2@ as int] != before.values()[t2@ as int] {
                                        lemma_computed_lift(c2, before, t@ as int, nv, rt0, id@ as int, value, self.rt.values()[t2@ as int], *eval);
                                    }
                                } else if t2@ == t@ {
                                    crate::reactive::lemma_signal_id_eq(t2, t);
                                    assert(self.reactions@[k as int] is Derive);
                                    assert(k2 == k);
                                    assert(eval.ensures((&c, &before), self.rt.values()[t@ as int]));
                                    assert(seen_after(before, rt0, id@ as int, value));
                                } else {
                                    assert(self.rt.values()[t2@ as int] == before.values()[t2@ as int]);
                                }
                            }
                        }
                        assert forall|p: int| 0 <= p < i + 1 implies reacted(
                            self.reactions@[#[trigger] subs@[p] as int],
                            id@ as int,
                            rt0,
                            self.rt,
                            value,
                            *eval,
                            *to_apply,
                        ) by {
                            let r = self.reactions@[subs@[p] as int];
                            if p < i {
                                assert(reacted(r, id@ as int, rt0, before, value, *eval, *to_apply));
                                if r is Bind {
                                    let q2 = choose|q2: int| rt0.pending().len() <= q2 < before.pending().len() && #[trigger] update_from(
                                        before.pending()[q2],
                                        r->Bind_node,
                                        r->Bind_flags,
                                        value,
                                        *to_apply,
                                    );
                                    assert(self.rt.pending().take(before.pending().len() as int)[q2] == before.pending()[q2]);
                                } else {
                                    let t2 = r->Derive_target;
                                    assert(subs@[p] == self.rt.subscribers()[id@ as int][p]);
                                    assert(id@ < t2@);
                                    let c2 = r->Derive_compute;
                                    if t2@ > t@ {
                                        assert(derived_kept_or_computed(r, t@ as int, before, self.rt, nv, *eval));
                                        if self.rt.values()[t2@ as int] != before.values()[t2@ as int] {
                                            lemma_computed_lift(c2, before, t@ as int, nv, rt0, id@ as int, value, self.rt.values()[t2@ as int], *eval);
                                        }
                                    } else if t2@ == t@ {
                                        crate::reactive::lemma_signal_id_eq(t2, t);
                                        assert(self.reactions@[k as int] is Derive);
                                        assert(subs@[p] as int == k);
                                        assert(eval.ensures((&c, &before), self.rt.values()[t@ as int]));
                                        assert(seen_after(before, rt0, id@ as int, value));
                                    } else {
                                        assert(self.rt.values()[t2@ as int] == before.values()[t2@ as int]);
                                    }
                                }
                            } else {
                                assert(p == i);
                                assert(eval.ensures((&c, &before), self.rt.values()[t@ as int]));
                                assert(seen_after(before, rt0, id@ as int, value));
                            }
                        }
                    }
                },
            }
            i = i + 1;
        }
        proof {
            assert(subs@.take(subs.len() as int) =~= subs@);
        }
    }

    /// The value of `id`; while a value is being derived, `id` is noted as read (see
    /// [`Runtime::get`]).
    pub fn get(&mut self, id: SignalId) -> (r: V) where V: Clone
        requires
            old(self).wf(),
            old(self).runtime().live(id),
        ensures
            final(self).wf(),
            cloned(old(self).runtime().values()[id@ as int], r),
            final(self).runtime().values() == old(self).runtime().values(),
            final(self).runtime().subscribers() == old(self).runtime().subscribers(),
            final(self).runtime().pending() == old(self).runtime().pending(),
            final(self).reactions() == old(self).reactions(),
    {
        self.rt.get(id)
    }

    /// The value of `id`, not noted as read.
    pub fn peek(&self, id: SignalId) -> (r: V) where V: Clone
        requires
            self.runtime().live(id),
        ensures
            cloned(self.runtime().values()[id@ as int], r),
    {
        self.rt.peek(id)
    }

    /// The runtime, for reading.
    pub fn runtime_ref(&self) -> (r: &Runtime<V, usize, A>)
        ensures
            *r == self.runtime(),
    {
        &self.rt
    }

    /// Opens a read record (see [`Runtime::track_begin`]).
    pub fn track_begin(&mut self)
        requires
            old(self).wf(),
        ensures
            final(self).wf(),
            final(self).runtime().frames() == old(self).runtime().frames().push(Seq::<SignalId>::empty()),
            final(self).runtime().values() == old(self).runtime().values(),
            final(self).runtime().subscribers() == old(self).runtime().subscribers(),
            final(self).runtime().pending() == old(self).runtime().pending(),
            final(self).reactions() == old(self).reactions(),
    {
        self.rt.track_begin()
    }

    /// Closes the innermost read record and returns the signals it noted (see
    /// [`Runtime::track_end`]).
    pub fn track_end(&mut self) -> (r: Vec<SignalId>)
        requires
            old(self).wf(),
            old(self).runtime().frames().len() > 0,
        ensures
            final(self).wf(),
            r@ == old(self).runtime().frames().last(),
            r@.no_duplicates(),
            forall|k: int| 0 <= k < r.len() ==> old(self).runtime().live(#[trigger] r@[k]),
            final(self).runtime().frames() == old(self).runtime().frames().drop_last(),
            final(self).runtime().values() == old(self).runtime().values(),
            final(self).runtime().subscribers() == old(self).runtime().subscribers(),
            final(self).runtime().pending() == old(self).runtime().pending(),
            final(self).reactions() == old(self).reactions(),
    {
        self.rt.track_end()
    }

    /// Takes out the pending updates, oldest first.
    pub fn drain_updates(&mut self) -> (r: Vec<PendingUpdate<A>>)
        requires
            old(self).wf(),
        ensures
            final(self).wf(),
            r@ == old(self).runtime().pending(),
            final(self).runtime().pending() == Seq::<PendingUpdate<A>>::empty(),
            final(self).runtime().values() == old(self).runtime().values(),
            final(self).runtime().subscribers() == old(self).runtime().subscribers(),
            final(self).reactions() == old(self).reactions(),
    {
        self.rt.drain_updates()
    }

    /// Whether some update is pending.
    pub fn has_updates(&self) -> (r: bool)
        ensures
            r == (self.runtime().pending().len() > 0),
    {
        self.rt.has_updates()
    }

    /// The number of signals.
    pub fn signal_count(&self) -> (r: usize)
        ensures
            r == self.runtime().values().len(),
    {
        self.rt.signal_count()
    }

    /// [`bind_field`] on the signals of this reactor.
    pub fn bind_field<B>(&mut self, current: &mut V, bindings: &mut Vec<DeferredBinding<B>>, value: MaybeSignal<V>, flags: DirtyFlags, apply: B)
        where V: Clone,
        requires
            old(self).wf(),
            value matches MaybeSignal::Signal(s) ==> old(self).runtime().live(s.id),
        ensures
            final(self).wf(),
            final(self).runtime().values() == old(self).runtime().values(),
            final(self).runtime().subscribers() == old(self).runtime().subscribers(),
            final(self).runtime().pending() == old(self).runtime().pending(),
            final(self).reactions() == old(self).reactions(),
            match value {
                MaybeSignal::Static(v) => *final(current) == v && final(bindings)@ == old(bindings)@,
                MaybeSignal::Signal(s) => cloned(old(self).runtime().values()[s.id@ as int], *final(current))
                    && final(bindings)@ == old(bindings)@.push(DeferredBinding { signal: s, flags, apply }),
            },
    {
        bind_field(current, bindings, value, flags, apply, &mut self.rt)
    }
}

} // verus!
