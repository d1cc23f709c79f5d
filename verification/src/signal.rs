//! Shared cells with subscribers: a writable [`Signal`], its read-only view [`ReadSignal`], and
//! [`Reactive`] values that are either fixed or read from a signal. Reads here are never noted
//! in a read record; setting a cell hands back its subscribers, which are due to run.
use vstd::prelude::*;
use crate::flags::DirtyFlags;
use crate::reactive::{Runtime, SignalId, same_runtime};

verus! {

/// A writable cell of a [`Runtime`].
#[derive(Clone, Copy, Debug, PartialEq, Eq, Structural)]
pub struct Signal {
    pub id: SignalId,
}

/// A read-only view of a cell.
#[derive(Clone, Copy, Debug, PartialEq, Eq, Structural)]
pub struct ReadSignal {
    pub id: SignalId,
}

impl Signal {
    /// A new cell holding `value`, with no subscriber.
    pub fn new<V, S: Copy, A>(rt: &mut Runtime<V, S, A>, value: V) -> (r: Signal)
        requires
            old(rt).wf(),
            old(rt).values().len() < usize::MAX,
        ensures
            final(rt).wf(),
            r.id@ == old(rt).values().len(),
            final(rt).values() == old(rt).values().push(value),
            final(rt).subscribers() == old(rt).subscribers().push(Seq::<S>::empty()),
            final(rt).pending() == old(rt).pending(),
            final(rt).frames() == old(rt).frames(),
    {
        Signal { id: rt.create_signal(value) }
    }

    /// A copy of the value.
    pub fn get<V: Clone, S: Copy, A>(&self, rt: &Runtime<V, S, A>) -> (r: V)
        requires
            rt.live(self.id),
        ensures
            cloned(rt.values()[self.id@ as int], r),
    {
        rt.peek(self.id)
    }

    /// Replaces the value and returns the subscribers now due to run, in subscription order.
    pub fn set<V, S: Copy, A>(&self, rt: &mut Runtime<V, S, A>, value: V) -> (r: Vec<S>)
        requires
            old(rt).wf(),
            old(rt).live(self.id),
        ensures
            final(rt).wf(),
            final(rt).values() == old(rt).values().update(self.id@ as int, value),
            final(rt).subscribers() == old(rt).subscribers(),
            final(rt).pending() == old(rt).pending(),
            final(rt).frames() == old(rt).frames(),
            r@ == old(rt).subscribers()[self.id@ as int],
    {
        rt.set(self.id, value)
    }

    /// A read-only view of the same cell.
    pub fn read(&self) -> (r: ReadSignal)
        ensures
            r.id == self.id,
    {
        ReadSignal { id: self.id }
    }
}

impl ReadSignal {
    /// A copy of the value.
    pub fn get<V: Clone, S: Copy, A>(&self, rt: &Runtime<V, S, A>) -> (r: V)
        requires
            rt.live(self.id),
        ensures
            cloned(rt.values()[self.id@ as int], r),
    {
        rt.peek(self.id)
    }

    /// A new cell holding `f` of the current value, with `on_change` subscribed to this cell so
    /// that the new one can follow it.
    pub fn map<V: Clone, S: Copy, A>(self, rt: &mut Runtime<V, S, A>, f: impl Fn(V) -> V, on_change: S) -> (r: ReadSignal)
        requires
            old(rt).wf(),
            old(rt).live(self.id),
            old(rt).values().len() < usize::MAX,
            forall|x: V| #[trigger] f.requires((x,)),
        ensures
            final(rt).wf(),
            r.id@ == old(rt).values().len(),
            final(rt).values().drop_last() == old(rt).values(),
            final(rt).values().len() == old(rt).values().len() + 1,
            exists|x: V| cloned(old(rt).values()[self.id@ as int], x) && #[trigger] f.ensures((x,), final(rt).values()[r.id@ as int]),
            final(rt).subscribers() == old(rt).subscribers().update(
                self.id@ as int,
                old(rt).subscribers()[self.id@ as int].push(on_change),
            ).push(Seq::<S>::empty()),
            final(rt).pending() == old(rt).pending(),
            final(rt).frames() == old(rt).frames(),
    {
        proof {
            rt.lemma_lengths();
        }
        let v = rt.peek(self.id);
        let mapped = f(v);
        let ghost subs0 = rt.subscribers();
        let ghost values0 = rt.values();
        let id = rt.create_signal(mapped);
        rt.subscribe(self.id, on_change);
        proof {
            assert(rt.values().drop_last() =~= values0);
            assert(rt.subscribers() =~= subs0.update(self.id@ as int, subs0[self.id@ as int].push(on_change)).push(Seq::<S>::empty()));
            assert(f.ensures((v,), rt.values()[id@ as int]));
        }
        ReadSignal { id }
    }

    /// Computes this mapped cell again from `source`: it becomes `f` of a copy of the current
    /// value of `source`; returns this cell's subscribers, now due to run. This is what the
    /// subscriber that a `map` put on `source` does when `source` changes.
    pub fn recompute<V: Clone, S: Copy, A>(self, source: ReadSignal, rt: &mut Runtime<V, S, A>, f: impl Fn(V) -> V) -> (r: Vec<S>)
        requires
            old(rt).wf(),
            old(rt).live(self.id),
            old(rt).live(source.id),
            forall|x: V| #[trigger] f.requires((x,)),
        ensures
            final(rt).wf(),
            exists|x: V| cloned(old(rt).values()[source.id@ as int], x) && #[trigger] f.ensures((x,), final(rt).values()[self.id@ as int]),
            final(rt).values() == old(rt).values().update(self.id@ as int, final(rt).values()[self.id@ as int]),
            final(rt).subscribers() == old(rt).subscribers(),
            final(rt).pending() == old(rt).pending(),
            final(rt).frames() == old(rt).frames(),
            r@ == old(rt).subscribers()[self.id@ as int],
    {
        let v = rt.peek(source.id);
        let mapped = f(v);
        let r = rt.set(self.id, mapped);
        proof {
            assert(f.ensures((v,), rt.values()[self.id@ as int]));
        }
        r
    }

    /// Adds `s` to the subscribers of the cell.
    pub fn subscribe<V, S: Copy, A>(&self, rt: &mut Runtime<V, S, A>, s: S)
        requires
            old(rt).wf(),
            old(rt).live(self.id),
        ensures
            final(rt).wf(),
            final(rt).values() == old(rt).values(),
            final(rt).subscribers() == old(rt).subscribers().update(
                self.id@ as int,
                old(rt).subscribers()[self.id@ as int].push(s),
            ),
            final(rt).pending() == old(rt).pending(),
            final(rt).frames() == old(rt).frames(),
    {
        rt.subscribe(self.id, s)
    }
}

/// A value that is either fixed or read from a cell.
#[derive(Debug)]
pub enum Reactive<V> {
    Static(V),
    Dynamic(ReadSignal),
}

impl<V: Clone> Reactive<V> {
    /// A copy of the value.
    pub fn get<S: Copy, A>(&self, rt: &Runtime<V, S, A>) -> (r: V)
        requires
            self matches Reactive::Dynamic(s) ==> rt.live(s.id),
        ensures
            match self {
                Reactive::Static(v) => cloned(*v, r),
                Reactive::Dynamic(s) => cloned(rt.values()[s.id@ as int], r),
            },
    {
        match self {
            Reactive::Static(v) => v.clone(),
            Reactive::Dynamic(s) => s.get(rt),
        }
    }

    /// The value mapped through `f`: a fixed value is mapped at once; a cell gives a new cell
    /// as by [`ReadSignal::map`].
    pub fn map<S: Copy, A>(self, rt: &mut Runtime<V, S, A>, f: impl Fn(V) -> V, on_change: S) -> (r: Reactive<V>)
        requires
            old(rt).wf(),
            forall|x: V| #[trigger] f.requires((x,)),
            self matches Reactive::Dynamic(s) ==> old(rt).live(s.id) && old(rt).values().len() < usize::MAX,
        ensures
            final(rt).wf(),
            final(rt).pending() == old(rt).pending(),
            final(rt).frames() == old(rt).frames(),
            match self {
                Reactive::Static(v) => (r matches Reactive::Static(u) && f.ensures((v,), u))
                    && same_runtime(*final(rt), *old(rt)),
                Reactive::Dynamic(s) => r matches Reactive::Dynamic(t) && {
                    &&& t.id@ == old(rt).values().len()
                    &&& final(rt).values().drop_last() == old(rt).values()
                    &&& exists|x: V| cloned(old(rt).values()[s.id@ as int], x) && #[trigger] f.ensures((x,), final(rt).values()[t.id@ as int])
                    &&& final(rt).subscribers() == old(rt).subscribers().update(
                        s.id@ as int,
                        old(rt).subscribers()[s.id@ as int].push(on_change),
                    ).push(Seq::<S>::empty())
                },
            },
    {
        match self {
            Reactive::Static(v) => Reactive::Static(f(v)),
            Reactive::Dynamic(s) => Reactive::Dynamic(s.map(rt, f, on_change)),
        }
    }
}

/// A new writable cell holding `value`.
pub fn signal<V, S: Copy, A>(rt: &mut Runtime<V, S, A>, value: V) -> (r: Signal)
    requires
        old(rt).wf(),
        old(rt).values().len() < usize::MAX,
    ensures
        final(rt).wf(),
        r.id@ == old(rt).values().len(),
        final(rt).values() == old(rt).values().push(value),
        final(rt).subscribers() == old(rt).subscribers().push(Seq::<S>::empty()),
        final(rt).pending() == old(rt).pending(),
        final(rt).frames() == old(rt).frames(),
{
    Signal::new(rt, value)
}

/// A field read from a cell, waiting for its node: once the node exists, the caller subscribes
/// to `signal` something that queues an update of the node with `flags` and `apply`.
#[derive(Debug)]
pub struct ReadBinding<B> {
    pub signal: ReadSignal,
    pub flags: DirtyFlags,
    pub apply: B,
}

/// Gives `current` the value of `value`; when `value` is read from a cell, also records in
/// `bindings` that the field follows it, with the dirty flags `flags` and the caller's `apply`.
pub fn bind<V: Clone, S: Copy, A, B>(
    value: Reactive<V>,
    current: &mut V,
    bindings: &mut Vec<ReadBinding<B>>,
    flags: DirtyFlags,
    apply: B,
    rt: &Runtime<V, S, A>,
)
    requires
        value matches Reactive::Dynamic(s) ==> rt.live(s.id),
    ensures
        match value {
            Reactive::Static(v) => *final(current) == v && final(bindings)@ == old(bindings)@,
            Reactive::Dynamic(s) => cloned(rt.values()[s.id@ as int], *final(current))
                && final(bindings)@ == old(bindings)@.push(ReadBinding { signal: s, flags, apply }),
        },
{
    match value {
        Reactive::Static(v) => {
            *current = v;
        },
        Reactive::Dynamic(s) => {
            *current = s.get(rt);
            bindings.push(ReadBinding { signal: s, flags, apply });
        },
    }
}

} // verus!
