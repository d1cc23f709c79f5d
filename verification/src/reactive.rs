//! Signals: values held by a runtime that hand back their subscribers when they change, the
//! record of the signals read while a value is being derived, and the queue of node updates
//! that bindings produce. The runtime stores and returns the caller's subscriber handles `S`
//! and update payloads `A`; [`crate::propagation`] gives the handles their reactions.
use vstd::prelude::*;
use crate::flags::DirtyFlags;
use crate::node::NodeId;

verus! {

/// The handle of a signal in a [`Runtime`]; signals are never removed, so a handle stays valid.
#[derive(Clone, Copy, Debug, PartialEq, Eq, Structural, Hash)]
pub struct SignalId {
    pub(crate) index: usize,
}

impl View for SignalId {
    type V = usize;

    closed spec fn view(&self) -> usize {
        self.index
    }
}

impl SignalId {
    /// The position of the signal in its runtime.
    pub fn index(&self) -> (r: usize)
        ensures
            r == self@,
    {
        self.index
    }
}

/// What a runtime keeps of one signal: its value and its subscribers in subscription order.
#[derive(Debug)]
pub struct SignalData<V, S> {
    value: V,
    subscribers: Vec<S>,
}

/// A change to apply to a node once the frame begins: the node, the dirty flags the change
/// brings, and the caller's payload that performs it.
#[derive(Debug)]
pub struct PendingUpdate<A> {
    pub node_id: NodeId,
    pub flags: DirtyFlags,
    pub apply: A,
}

/// The signals, the pending node updates, and a stack of read records, one per value being
/// derived.
#[derive(Debug)]
pub struct Runtime<V, S, A> {
    signals: Vec<SignalData<V, S>>,
    pending_updates: Vec<PendingUpdate<A>>,
    tracking_stack: Vec<Vec<SignalId>>,
}

/// Whether `s` holds `x`.
fn contains_signal(s: &Vec<SignalId>, x: SignalId) -> (r: bool)
    ensures
        r == s@.contains(x),
{
    let mut i: usize = 0;
    while i < s.len()
        invariant
            i <= s.len(),
            forall|k: int| 0 <= k < i ==> s@[k] != x,
        decreases s.len() - i,
    {
        if s[i] == x {
            return true;
        }
        i = i + 1;
    }
    false
}

impl<V, S: Copy, A> Runtime<V, S, A> {
    /// The value of each signal, by index.
    pub closed spec fn values(&self) -> Seq<V> {
        self.signals@.map_values(|d: SignalData<V, S>| d.value)
    }

    /// The subscribers of each signal, by index, in subscription order.
    pub closed spec fn subscribers(&self) -> Seq<Seq<S>> {
        self.signals@.map_values(|d: SignalData<V, S>| d.subscribers@)
    }

    /// The pending node updates, oldest first.
    pub closed spec fn pending(&self) -> Seq<PendingUpdate<A>> {
        self.pending_updates@
    }

    /// The read records, innermost last.
    pub closed spec fn frames(&self) -> Seq<Seq<SignalId>> {
        self.tracking_stack@.map_values(|f: Vec<SignalId>| f@)
    }

    /// There is one subscriber list per signal.
    pub proof fn lemma_lengths(&self)
        ensures
            self.values().len() == self.subscribers().len(),
    {
    }

    /// Whether `id` names a signal of this runtime.
    pub open spec fn live(&self, id: SignalId) -> bool {
        id@ < self.values().len()
    }

    /// The runtime's invariant: each read record names live signals, each at most once.
    pub closed spec fn wf(&self) -> bool {
        forall|i: int|
            0 <= i < self.tracking_stack@.len() ==> {
                let f = #[trigger] self.tracking_stack@[i]@;
                &&& f.no_duplicates()
                &&& forall|k: int| 0 <= k < f.len() ==> (#[trigger] f[k])@ < self.signals@.len()
            }
    }

    /// A runtime with no signal, no pending update and no read record.
    pub fn new() -> (r: Self)
        ensures
            r.wf(),
            r.values() == Seq::<V>::empty(),
            r.subscribers() == Seq::<Seq<S>>::empty(),
            r.pending() == Seq::<PendingUpdate<A>>::empty(),
            r.frames() == Seq::<Seq<SignalId>>::empty(),
    {
        let r = Runtime { signals: Vec::new(), pending_updates: Vec::new(), tracking_stack: Vec::new() };
        assert(r.values() =~= Seq::<V>::empty());
        assert(r.subscribers() =~= Seq::<Seq<S>>::empty());
        assert(r.frames() =~= Seq::<Seq<SignalId>>::empty());
        r
    }

    /// Creates a signal holding `value`, with no subscriber.
    pub fn create_signal(&mut self, value: V) -> (r: SignalId)
        requires
            old(self).wf(),
            old(self).values().len() < usize::MAX,
        ensures
            final(self).wf(),
            r@ == old(self).values().len(),
            final(self).values() == old(self).values().push(value),
            final(self).subscribers() == old(self).subscribers().push(Seq::<S>::empty()),
            final(self).pending() == old(self).pending(),
            final(self).frames() == old(self).frames(),
    {
        let r = SignalId { index: self.signals.len() };
        self.signals.push(SignalData { value, subscribers: Vec::new() });
        assert(self.values() =~= old(self).values().push(value));
        assert(self.subscribers() =~= old(self).subscribers().push(Seq::<S>::empty()));
        r
    }

    /// The value of `id`. While a value is being derived, `id` is added to the innermost read
    /// record unless already there.
    pub fn get(&mut self, id: SignalId) -> (r: V) where V: Clone
        requires
            old(self).wf(),
            old(self).live(id),
        ensures
            final(self).wf(),
            cloned(old(self).values()[id@ as int], r),
            final(self).values() == old(self).values(),
            final(self).subscribers() == old(self).subscribers(),
            final(self).pending() == old(self).pending(),
            old(self).frames().len() == 0 ==> final(self).frames() == old(self).frames(),
            old(self).frames().len() > 0 ==> {
                let top = old(self).frames().last();
                final(self).frames() == old(self).frames().update(
                    old(self).frames().len() - 1,
                    if top.contains(id) { top } else { top.push(id) },
                )
            },
    {
        let n = self.tracking_stack.len();
        if n > 0 {
            let ghost frames0 = self.frames();
            let mut top = self.tracking_stack.pop().unwrap();
            assert(top@ == frames0.last());
            if !contains_signal(&top, id) {
                top.push(id);
            }
            self.tracking_stack.push(top);
            proof {
                let fs = self.frames();
                let expected = frames0.update(frames0.len() - 1, top@);
                assert(fs =~= expected);
                assert forall|i: int| 0 <= i < self.tracking_stack@.len() implies {
                    let f = #[trigger] self.tracking_stack@[i]@;
                    &&& f.no_duplicates()
                    &&& forall|k: int| 0 <= k < f.len() ==> (#[trigger] f[k])@ < self.signals@.len()
                } by {
                    if i == n - 1 {
                        assert(old(self).tracking_stack@[i]@ == frames0.last());
                    } else {
                        assert(self.tracking_stack@[i] == old(self).tracking_stack@[i]);
                    }
                }
            }
        }
        self.signals[id.index].value.clone()
    }

    /// The value of `id`, read without being noted in any read record.
    pub fn peek(&self, id: SignalId) -> (r: V) where V: Clone
        requires
            self.live(id),
        ensures
            cloned(self.values()[id@ as int], r),
    {
        self.signals[id.index].value.clone()
    }

    /// Replaces the value of `id` with `value` and returns its subscribers in subscription
    /// order, which are now due to run.
    pub fn set(&mut self, id: SignalId, value: V) -> (r: Vec<S>)
        requires
            old(self).wf(),
            old(self).live(id),
        ensures
            final(self).wf(),
            final(self).values() == old(self).values().update(id@ as int, value),
            final(self).subscribers() == old(self).subscribers(),
            final(self).pending() == old(self).pending(),
            final(self).frames() == old(self).frames(),
            r@ == old(self).subscribers()[id@ as int],
    {
        let subs = copy_all(&self.signals[id.index].subscribers);
        let ghost old_subs = self.signals@[id.index as int].subscribers;
        let mut data = self.signals.remove(id.index);
        data.value = value;
        self.signals.insert(id.index, data);
        proof {
            assert(self.values() =~= old(self).values().update(id@ as int, value));
            assert(self.subscribers() =~= old(self).subscribers());
        }
        subs
    }

    /// Replaces the value of `id` with `f` of it and returns its subscribers in subscription
    /// order, which are now due to run.
    pub fn update(&mut self, id: SignalId, f: impl FnOnce(&V) -> V) -> (r: Vec<S>)
        requires
            old(self).wf(),
            old(self).live(id),
            f.requires((&old(self).values()[id@ as int],)),
        ensures
            final(self).wf(),
            final(self).values().len() == old(self).values().len(),
            f.ensures((&old(self).values()[id@ as int],), final(self).values()[id@ as int]),
            forall|j: int| 0 <= j < old(self).values().len() && j != id@ ==> final(self).values()[j] == old(self).values()[j],
            final(self).subscribers() == old(self).subscribers(),
            final(self).pending() == old(self).pending(),
            final(self).frames() == old(self).frames(),
            r@ == old(self).subscribers()[id@ as int],
    {
        let next = f(&self.signals[id.index].value);
        self.set(id, next)
    }

    /// Adds `s` to the subscribers of `id`, after those already there.
    pub fn subscribe(&mut self, id: SignalId, s: S)
        requires
            old(self).wf(),
            old(self).live(id),
        ensures
            final(self).wf(),
            final(self).values() == old(self).values(),
            final(self).subscribers() == old(self).subscribers().update(
                id@ as int,
                old(self).subscribers()[id@ as int].push(s),
            ),
            final(self).pending() == old(self).pending(),
            final(self).frames() == old(self).frames(),
    {
        let mut data = self.signals.remove(id.index);
        data.subscribers.push(s);
        self.signals.insert(id.index, data);
        proof {
            assert(self.values() =~= old(self).values());
            assert(self.subscribers() =~= old(self).subscribers().update(
                id@ as int,
                old(self).subscribers()[id@ as int].push(s),
            ));
        }
    }

    /// Queues `update` after the updates already pending.
    pub fn push_update(&mut self, update: PendingUpdate<A>)
        requires
            old(self).wf(),
        ensures
            final(self).wf(),
            final(self).values() == old(self).values(),
            final(self).subscribers() == old(self).subscribers(),
            final(self).pending() == old(self).pending().push(update),
            final(self).frames() == old(self).frames(),
    {
        self.pending_updates.push(update);
    }

    /// Takes out all pending updates, oldest first.
    pub fn drain_updates(&mut self) -> (r: Vec<PendingUpdate<A>>)
        requires
            old(self).wf(),
        ensures
            final(self).wf(),
            r@ == old(self).pending(),
            final(self).pending() == Seq::<PendingUpdate<A>>::empty(),
            final(self).values() == old(self).values(),
            final(self).subscribers() == old(self).subscribers(),
            final(self).frames() == old(self).frames(),
    {
        let mut taken: Vec<PendingUpdate<A>> = Vec::new();
        std::mem::swap(&mut taken, &mut self.pending_updates);
        taken
    }

    /// The number of signals.
    pub fn signal_count(&self) -> (r: usize)
        ensures
            r == self.values().len(),
    {
        self.signals.len()
    }

    /// Whether some update is pending.
    pub fn has_updates(&self) -> (r: bool)
        ensures
            r == (self.pending().len() > 0),
    {
        self.pending_updates.len() > 0
    }

    /// Opens a read record: the signals read from now on are noted in it.
    pub fn track_begin(&mut self)
        requires
            old(self).wf(),
        ensures
            final(self).wf(),
            final(self).frames() == old(self).frames().push(Seq::<SignalId>::empty()),
            final(self).values() == old(self).values(),
            final(self).subscribers() == old(self).subscribers(),
            final(self).pending() == old(self).pending(),
    {
        self.tracking_stack.push(Vec::new());
        assert(self.frames() =~= old(self).frames().push(Seq::<SignalId>::empty()));
    }

    /// Closes the innermost read record and returns the signals it noted, in the order they
    /// were first read, each once.
    pub fn track_end(&mut self) -> (r: Vec<SignalId>)
        requires
            old(self).wf(),
            old(self).frames().len() > 0,
        ensures
            final(self).wf(),
            r@ == old(self).frames().last(),
            r@.no_duplicates(),
            forall|k: int| 0 <= k < r.len() ==> old(self).live(#[trigger] r@[k]),
            final(self).frames() == old(self).frames().drop_last(),
            final(self).values() == old(self).values(),
            final(self).subscribers() == old(self).subscribers(),
            final(self).pending() == old(self).pending(),
    {
        let ghost n = self.tracking_stack.len();
        let r = self.tracking_stack.pop().unwrap();
        proof {
            assert(old(self).tracking_stack@[n - 1] == r);
            assert(self.frames() =~= old(self).frames().drop_last());
            assert forall|k: int| 0 <= k < r.len() implies old(self).live(#[trigger] r@[k]) by {
                assert(old(self).values().len() == old(self).signals@.len());
            }
        }
        r
    }
}

/// A read gives back what the last write wrote: after [`Runtime::set`] of `v` on signal `id`,
/// the value of `id` is `v`, every other signal keeps its value, and a [`Runtime::get`] of `id`
/// returns a clone of `v`.
pub proof fn lemma_read_after_write<V: Clone>(before: Seq<V>, after: Seq<V>, id: int, v: V, read: V)
    requires
        0 <= id < before.len(),
        after == before.update(id, v),
        cloned(after[id], read),
    ensures
        after.len() == before.len(),
        after[id] == v,
        cloned(v, read),
        forall|j: int| 0 <= j < before.len() && j != id ==> after[j] == before[j],
{
}

/// Two signal handles are the same exactly when their indices are.
pub proof fn lemma_signal_id_eq(a: SignalId, b: SignalId)
    ensures
        (a@ == b@) == (a == b),
{
}

/// A handle to a signal of a [`Runtime`].
#[derive(Clone, Copy, Debug, PartialEq, Eq, Structural)]
pub struct Signal {
    pub id: SignalId,
}

/// Whether `deps` holds the signal of index `j`.
pub open spec fn mentions(deps: Seq<SignalId>, j: int) -> bool {
    exists|k: int| 0 <= k < deps.len() && (#[trigger] deps[k])@ == j
}

/// The subscribers after subscribing `s` once to each signal of `deps`.
pub open spec fn subscribed_all<S>(subs: Seq<Seq<S>>, deps: Seq<SignalId>, s: S) -> Seq<Seq<S>> {
    Seq::new(subs.len(), |j: int| if mentions(deps, j) {
        subs[j].push(s)
    } else {
        subs[j]
    })
}

impl Signal {
    /// The value of the signal; while a value is being derived the signal is noted as read.
    pub fn get<V: Clone, S: Copy, A>(self, rt: &mut Runtime<V, S, A>) -> (r: V)
        requires
            old(rt).wf(),
            old(rt).live(self.id),
        ensures
            final(rt).wf(),
            cloned(old(rt).values()[self.id@ as int], r),
            final(rt).values() == old(rt).values(),
            final(rt).subscribers() == old(rt).subscribers(),
            final(rt).pending() == old(rt).pending(),
            old(rt).frames().len() == 0 ==> final(rt).frames() == old(rt).frames(),
            old(rt).frames().len() > 0 ==> {
                let top = old(rt).frames().last();
                final(rt).frames() == old(rt).frames().update(
                    old(rt).frames().len() - 1,
                    if top.contains(self.id) { top } else { top.push(self.id) },
                )
            },
    {
        rt.get(self.id)
    }

    /// Sets the value and returns the subscribers now due to run, in subscription order.
    pub fn set<V, S: Copy, A>(self, rt: &mut Runtime<V, S, A>, value: V) -> (r: Vec<S>)
        requires
            old(rt).wf(),
            old(rt).live(self.id),
        ensures
            final(rt).wf(),
            final(rt).values() == old(rt).values().update(self.id@ as int, value),
            final(rt).subscribers() == old(rt).subscribers(),
            final(rt).pending() == old(rt).pending(),
            final(rt).frames() == old(rt).frames(),
            r@ == old(rt).subscribers()[self.id@ as int],
    {
        rt.set(self.id, value)
    }

    /// Replaces the value with `f` of it and returns the subscribers now due to run.
    pub fn update<V, S: Copy, A>(self, rt: &mut Runtime<V, S, A>, f: impl FnOnce(&V) -> V) -> (r: Vec<S>)
        requires
            old(rt).wf(),
            old(rt).live(self.id),
            f.requires((&old(rt).values()[self.id@ as int],)),
        ensures
            final(rt).wf(),
            final(rt).values().len() == old(rt).values().len(),
            f.ensures((&old(rt).values()[self.id@ as int],), final(rt).values()[self.id@ as int]),
            forall|j: int| 0 <= j < old(rt).values().len() && j != self.id@ ==> final(rt).values()[j] == old(rt).values()[j],
            final(rt).subscribers() == old(rt).subscribers(),
            final(rt).pending() == old(rt).pending(),
            final(rt).frames() == old(rt).frames(),
            r@ == old(rt).subscribers()[self.id@ as int],
    {
        rt.update(self.id, f)
    }

    /// Adds `s` to the subscribers of the signal.
    pub fn subscribe<V, S: Copy, A>(self, rt: &mut Runtime<V, S, A>, s: S)
        requires
            old(rt).wf(),
            old(rt).live(self.id),
        ensures
            final(rt).wf(),
            final(rt).values() == old(rt).values(),
            final(rt).subscribers() == old(rt).subscribers().update(
                self.id@ as int,
                old(rt).subscribers()[self.id@ as int].push(s),
            ),
            final(rt).pending() == old(rt).pending(),
            final(rt).frames() == old(rt).frames(),
    {
        rt.subscribe(self.id, s)
    }

    /// Computes this mapped cell again from `source`: it becomes `f` of a copy of the current
    /// value of `source`; returns this cell's subscribers, now due to run. This is what the
    /// subscriber that a `map` put on `source` does when `source` changes.
    pub fn recompute<V: Clone, S: Copy, A>(self, source: Signal, rt: &mut Runtime<V, S, A>, f: impl Fn(V) -> V) -> (r: Vec<S>)
        requires
            old(rt).wf(),
            old(rt).live(self.id),
            old(rt).live(source.id),
            forall|x: V| #[trigger] f.requires((x,)),
        ensures
            final(rt).wf(),
            exists|x: V| cloned(old(rt).values()[source.id@ as int], x) && #[trigger] f.ensures((x,), final(rt).values()[self.id@ as int]),
            final(rt).values() == old(rt).values().update(self.id@ as int, final(rt).values()[self.id@ as int]),
            final(rt).subscribers() == old(rt).subscribers(),
            final(rt).pending() == old(rt).pending(),
            final(rt).frames() == old(rt).frames(),
            r@ == old(rt).subscribers()[self.id@ as int],
    {
        let v = rt.peek(source.id);
        let mapped = f(v);
        let r = rt.set(self.id, mapped);
        proof {
            assert(f.ensures((v,), rt.values()[self.id@ as int]));
        }
        r
    }

    /// A derived signal: a new signal holding `initial`, the value computed while the signals
    /// `deps` were read, with `recompute` subscribed once to each of them.
    pub fn derive<V, S: Copy, A>(rt: &mut Runtime<V, S, A>, initial: V, deps: Vec<SignalId>, recompute: S) -> (r: Signal)
        requires
            old(rt).wf(),
            old(rt).values().len() < usize::MAX,
            deps@.no_duplicates(),
            forall|k: int| 0 <= k < deps.len() ==> old(rt).live(#[trigger] deps@[k]),
        ensures
            final(rt).wf(),
            r.id@ == old(rt).values().len(),
            final(rt).values() == old(rt).values().push(initial),
            final(rt).subscribers() == subscribed_all(old(rt).subscribers(), deps@, recompute).push(Seq::<S>::empty()),
            final(rt).pending() == old(rt).pending(),
            final(rt).frames() == old(rt).frames(),
    {
        let ghost subs0 = rt.subscribers();
        let id = rt.create_signal(initial);
        let ghost n = subs0.len();
        assert(old(rt).values().len() == n);
        let mut k: usize = 0;
        while k < deps.len()
            invariant
                rt.wf(),
                k <= deps.len(),
                deps@.no_duplicates(),
                forall|i: int| 0 <= i < deps.len() ==> (#[trigger] deps@[i])@ < n,
                n == subs0.len(),
                old(rt).values().len() == n,
                id@ == n,
                rt.values() == old(rt).values().push(initial),
                rt.pending() == old(rt).pending(),
                rt.frames() == old(rt).frames(),
                rt.subscribers() == subscribed_all(subs0, deps@.take(k as int), recompute).push(Seq::<S>::empty()),
            decreases deps.len() - k,
        {
            let d = deps[k];
            assert(d@ < n);
            let ghost before = rt.subscribers();
            rt.subscribe(d, recompute);
            proof {
                let t0 = deps@.take(k as int);
                let t1 = deps@.take(k + 1);
                assert(t1 == t0.push(d));
                assert(!mentions(t0, d@ as int)) by {
                    if mentions(t0, d@ as int) {
                        let i = choose|i: int| 0 <= i < t0.len() && (#[trigger] t0[i])@ == d@;
                        lemma_signal_id_eq(t0[i], d);
                        assert(deps@[i] == deps@[k as int]);
                    }
                }
                assert forall|j: int| 0 <= j < n implies #[trigger] mentions(t1, j) == (mentions(t0, j) || j == d@) by {
                    if j == d@ {
                        assert(t1[k as int] == d);
                    }
                    if mentions(t1, j) {
                        let i = choose|i: int| 0 <= i < t1.len() && (#[trigger] t1[i])@ == j;
                        if i < k {
                            assert(t0[i] == t1[i]);
                        }
                    }
                    if mentions(t0, j) {
                        let i = choose|i: int| 0 <= i < t0.len() && (#[trigger] t0[i])@ == j;
                        assert(t1[i] == t0[i]);
                    }
                }
                assert(rt.subscribers() =~= subscribed_all(subs0, t1, recompute).push(Seq::<S>::empty()));
            }
            k = k + 1;
        }
        assert(deps@.take(deps.len() as int) == deps@);
        Signal { id }
    }
}

/// A new signal holding `value`.
pub fn signal<V, S: Copy, A>(rt: &mut Runtime<V, S, A>, value: V) -> (r: Signal)
    requires
        old(rt).wf(),
        old(rt).values().len() < usize::MAX,
    ensures
        final(rt).wf(),
        r.id@ == old(rt).values().len(),
        final(rt).values() == old(rt).values().push(value),
        final(rt).subscribers() == old(rt).subscribers().push(Seq::<S>::empty()),
        final(rt).pending() == old(rt).pending(),
        final(rt).frames() == old(rt).frames(),
{
    Signal { id: rt.create_signal(value) }
}

/// A derived signal; see [`Signal::derive`].
pub fn derived<V, S: Copy, A>(rt: &mut Runtime<V, S, A>, initial: V, deps: Vec<SignalId>, recompute: S) -> (r: Signal)
    requires
        old(rt).wf(),
        old(rt).values().len() < usize::MAX,
        deps@.no_duplicates(),
        forall|k: int| 0 <= k < deps.len() ==> old(rt).live(#[trigger] deps@[k]),
    ensures
        final(rt).wf(),
        r.id@ == old(rt).values().len(),
        final(rt).values() == old(rt).values().push(initial),
        final(rt).subscribers() == subscribed_all(old(rt).subscribers(), deps@, recompute).push(Seq::<S>::empty()),
        final(rt).pending() == old(rt).pending(),
        final(rt).frames() == old(rt).frames(),
{
    Signal::derive(rt, initial, deps, recompute)
}

/// A value given either once and for all or by a signal.
#[derive(Debug)]
pub enum MaybeSignal<V> {
    Static(V),
    Signal(Signal),
}

/// Whether the runtime views of `a` and `b` are the same.
pub open spec fn same_runtime<V, S: Copy, A>(a: Runtime<V, S, A>, b: Runtime<V, S, A>) -> bool {
    &&& a.values() == b.values()
    &&& a.subscribers() == b.subscribers()
    &&& a.pending() == b.pending()
    &&& a.frames() == b.frames()
}

impl<V: Clone> MaybeSignal<V> {
    /// The value: a copy of the static value, or the signal's value read as by [`Signal::get`].
    pub fn get<S: Copy, A>(&self, rt: &mut Runtime<V, S, A>) -> (r: V)
        requires
            old(rt).wf(),
            self matches MaybeSignal::Signal(s) ==> old(rt).live(s.id),
        ensures
            final(rt).wf(),
            match self {
                MaybeSignal::Static(v) => cloned(*v, r) && same_runtime(*final(rt), *old(rt)),
                MaybeSignal::Signal(s) => {
                    &&& cloned(old(rt).values()[s.id@ as int], r)
                    &&& final(rt).values() == old(rt).values()
                    &&& final(rt).subscribers() == old(rt).subscribers()
                    &&& final(rt).pending() == old(rt).pending()
                },
            },
    {
        match self {
            MaybeSignal::Static(v) => v.clone(),
            MaybeSignal::Signal(s) => s.get(rt),
        }
    }

    /// The value mapped through `f`: a static value is mapped at once; a signal gives a derived
    /// signal holding `f` of its current value, with `recompute` subscribed to it.
    pub fn map<S: Copy, A>(self, rt: &mut Runtime<V, S, A>, f: impl Fn(V) -> V, recompute: S) -> (r: MaybeSignal<V>)
        requires
            old(rt).wf(),
            forall|x: V| #[trigger] f.requires((x,)),
            self matches MaybeSignal::Signal(s) ==> old(rt).live(s.id) && old(rt).values().len() < usize::MAX,
        ensures
            final(rt).wf(),
            final(rt).pending() == old(rt).pending(),
            final(rt).frames() == old(rt).frames(),
            match self {
                MaybeSignal::Static(v) => (r matches MaybeSignal::Static(u) && f.ensures((v,), u))
                    && same_runtime(*final(rt), *old(rt)),
                MaybeSignal::Signal(s) => r matches MaybeSignal::Signal(t) && {
                    &&& t.id@ == old(rt).values().len()
                    &&& final(rt).values().drop_last() == old(rt).values()
                    &&& final(rt).values().len() == old(rt).values().len() + 1
                    &&& exists|x: V| cloned(old(rt).values()[s.id@ as int], x) && #[trigger] f.ensures((x,), final(rt).values()[t.id@ as int])
                    &&& final(rt).subscribers() == old(rt).subscribers().update(
                        s.id@ as int,
                        old(rt).subscribers()[s.id@ as int].push(recompute),
                    ).push(Seq::<S>::empty())
                },
            },
    {
        match self {
            MaybeSignal::Static(v) => MaybeSignal::Static(f(v)),
            MaybeSignal::Signal(sig) => {
                let ghost subs0 = rt.subscribers();
                rt.track_begin();
                let v = sig.get(rt);
                let deps = rt.track_end();
                assert(deps@ == seq![sig.id]);
                let initial = f(v);
                let d = Signal::derive(rt, initial, deps, recompute);
                proof {
                    assert forall|j: int| #[trigger] mentions(deps@, j) == (j == sig.id@) by {
                        if j == sig.id@ {
                            assert(deps@[0] == sig.id);
                        }
                    }
                    assert(subscribed_all(subs0, deps@, recompute) =~= subs0.update(sig.id@ as int, subs0[sig.id@ as int].push(recompute)));
                    assert(rt.values().drop_last() =~= old(rt).values());
                    assert(f.ensures((v,), rt.values()[d.id@ as int]));
                }
                MaybeSignal::Signal(d)
            },
        }
    }
}

/// A field bound to a signal, waiting for its node: once the node exists, the caller subscribes
/// to `signal` something that queues an update of the node with `flags` and `apply`.
#[derive(Debug)]
pub struct DeferredBinding<B> {
    pub signal: Signal,
    pub flags: DirtyFlags,
    pub apply: B,
}

/// Gives `current` the value of `value`; when `value` is a signal, also records in `bindings`
/// that the field follows it, with the dirty flags `flags` and the caller's `apply`.
pub fn bind_field<V: Clone, S: Copy, A, B>(
    current: &mut V,
    bindings: &mut Vec<DeferredBinding<B>>,
    value: MaybeSignal<V>,
    flags: DirtyFlags,
    apply: B,
    rt: &mut Runtime<V, S, A>,
)
    requires
        old(rt).wf(),
        value matches MaybeSignal::Signal(s) ==> old(rt).live(s.id),
    ensures
        final(rt).wf(),
        final(rt).values() == old(rt).values(),
        final(rt).subscribers() == old(rt).subscribers(),
        final(rt).pending() == old(rt).pending(),
        match value {
            MaybeSignal::Static(v) => *final(current) == v && final(bindings)@ == old(bindings)@ && same_runtime(*final(rt), *old(rt)),
            MaybeSignal::Signal(s) => cloned(old(rt).values()[s.id@ as int], *final(current))
                && final(bindings)@ == old(bindings)@.push(DeferredBinding { signal: s, flags, apply }),
        },
{
    match value {
        MaybeSignal::Static(v) => {
            *current = v;
        },
        MaybeSignal::Signal(sig) => {
            *current = sig.get(rt);
            bindings.push(DeferredBinding { signal: sig, flags, apply });
        },
    }
}

/// A copy of `v`.
fn copy_all<S: Copy>(v: &Vec<S>) -> (r: Vec<S>)
    ensures
        r@ == v@,
{
    let mut r: Vec<S> = Vec::new();
    let mut i: usize = 0;
    while i < v.len()
        invariant
            i <= v.len(),
            r@ == v@.take(i as int),
        decreases v.len() - i,
    {
        r.push(v[i]);
        assert(r@ =~= v@.take(i + 1));
        i = i + 1;
    }
    assert(v@.take(v.len() as int) =~= v@);
    r
}

} // verus!
