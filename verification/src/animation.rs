//! Durations in milliseconds and the transition settings of a state change. How an easing
//! curve maps progress to output is floating point and left to the caller.
use vstd::prelude::*;

verus! {

/// A length of time in milliseconds.
#[derive(Debug, Clone, Copy, PartialEq, Eq, Structural)]
pub struct Duration(pub u32);

impl Duration {
    /// `duration` milliseconds.
    pub fn from_millis(duration: u32) -> (r: Self)
        ensures
            r.0 == duration,
    {
        Duration(duration)
    }

    /// `duration` seconds.
    pub fn from_secs(duration: u32) -> (r: Self)
        requires
            duration * 1000 <= u32::MAX,
        ensures
            r.0 == duration * 1000,
    {
        Duration(duration * 1000)
    }
}

/// Durations written after a number: `300.ms()`, `2.s()`.
pub trait DurationExt: Sized {
    /// The number as a count.
    spec fn count(self) -> int;

    /// That many milliseconds.
    fn ms(self) -> (r: Duration)
        requires
            0 <= self.count() <= u32::MAX,
        ensures
            r.0 == self.count(),
    ;

    /// That many seconds.
    fn s(self) -> (r: Duration)
        requires
            0 <= self.count() * 1000 <= u32::MAX,
        ensures
            r.0 == self.count() * 1000,
    ;
}

impl DurationExt for u32 {
    open spec fn count(self) -> int {
        self as int
    }

    fn ms(self) -> (r: Duration) {
        Duration::from_millis(self)
    }

    fn s(self) -> (r: Duration) {
        Duration::from_secs(self)
    }
}

/// The easing curves a transition can follow.
#[derive(Debug, Clone, Copy, PartialEq, Eq, Structural)]
pub enum Easing {
    Linear,
    EaseIn,
    EaseOut,
    EaseInOut,
}

/// How long one direction of a transition takes and which curve it follows.
#[derive(Debug, Clone, Copy, PartialEq, Eq, Structural)]
pub struct TransitionDir {
    pub duration: Duration,
    pub easing: Easing,
}

/// The transitions into a state and out of it; none means an instant change.
#[derive(Debug, Clone, Copy, PartialEq, Eq, Structural)]
pub struct TransitionSpec {
    pub enter: Option<TransitionDir>,
    pub exit: Option<TransitionDir>,
}

impl Default for TransitionSpec {
    fn default() -> (r: Self)
        ensures
            r.enter is None,
            r.exit is None,
    {
        TransitionSpec { enter: None, exit: None }
    }
}

/// The animation of one property from one value to another: how long it runs, after what delay,
/// along which curve, and how much time has passed.
#[derive(Debug, Clone)]
pub struct AnimationTrack<V> {
    pub property: u64,
    pub from: V,
    pub to: V,
    pub duration: Duration,
    pub delay: Duration,
    pub easing: Easing,
    pub elapsed: Duration,
}

/// The track `t` after `dt` more milliseconds.
pub open spec fn ticked<V>(t: AnimationTrack<V>, dt: Duration) -> AnimationTrack<V> {
    AnimationTrack { elapsed: Duration((t.elapsed.0 + dt.0) as u32), ..t }
}

/// Whether the track `t` has run its delay and its duration.
pub open spec fn track_complete<V>(t: AnimationTrack<V>) -> bool {
    t.elapsed.0 >= t.duration.0 + t.delay.0
}

impl<V> AnimationTrack<V> {
    /// Lets `dt` more time pass.
    pub fn tick(&mut self, dt: Duration)
        requires
            old(self).elapsed.0 + dt.0 <= u32::MAX,
        ensures
            *final(self) == ticked(*old(self), dt),
    {
        self.elapsed = Duration(self.elapsed.0 + dt.0);
    }

    /// Whether the delay and the duration have both passed.
    pub fn is_complete(&self) -> (r: bool)
        ensures
            r == track_complete(*self),
    {
        self.elapsed.0 as u64 >= self.duration.0 as u64 + self.delay.0 as u64
    }
}

/// The running animations of a node, at most one per property.
#[derive(Debug, Clone)]
pub struct AnimationState<V> {
    pub tracks: Vec<AnimationTrack<V>>,
}

/// The tracks `s` after `dt` more milliseconds, without those that are then complete, in order.
pub open spec fn after_tick<V>(s: Seq<AnimationTrack<V>>, dt: Duration) -> Seq<AnimationTrack<V>>
    decreases s.len(),
{
    if s.len() == 0 {
        Seq::empty()
    } else {
        let rest = after_tick(s.drop_last(), dt);
        let t = ticked(s.last(), dt);
        if track_complete(t) {
            rest
        } else {
            rest.push(t)
        }
    }
}

impl<V> AnimationState<V> {
    /// No running animation.
    pub fn new() -> (r: Self)
        ensures
            r.tracks@ == Seq::<AnimationTrack<V>>::empty(),
    {
        AnimationState { tracks: Vec::new() }
    }

    /// Whether some animation is running.
    pub fn is_animating(&self) -> (r: bool)
        ensures
            r == (self.tracks@.len() > 0),
    {
        self.tracks.len() > 0
    }

    /// Lets `dt` more time pass on every track, drops the tracks that are then complete, and
    /// returns whether some animation is still running.
    pub fn tick(&mut self, dt: Duration) -> (r: bool)
        requires
            forall|i: int| 0 <= i < old(self).tracks@.len() ==> (#[trigger] old(self).tracks@[i]).elapsed.0 + dt.0 <= u32::MAX,
        ensures
            final(self).tracks@ == after_tick(old(self).tracks@, dt),
            r == (final(self).tracks@.len() > 0),
    {
        let mut old_tracks: Vec<AnimationTrack<V>> = Vec::new();
        std::mem::swap(&mut old_tracks, &mut self.tracks);
        let ghost s = old_tracks@;
        let mut kept: Vec<AnimationTrack<V>> = Vec::new();
        let mut rest: Vec<AnimationTrack<V>> = Vec::new();
        // reverse the tracks once, so that popping then gives them first to last
        while old_tracks.len() > 0
            invariant
                rest@ == s.subrange(old_tracks@.len() as int, s.len() as int).reverse(),
                old_tracks@ == s.subrange(0, old_tracks@.len() as int),
                old_tracks@.len() <= s.len(),
            decreases old_tracks@.len(),
        {
            let t = old_tracks.pop().unwrap();
            rest.push(t);
            proof {
                let n = old_tracks@.len() as int;
                assert(rest@ =~= s.subrange(n, s.len() as int).reverse());
                assert(old_tracks@ =~= s.subrange(0, n));
            }
        }
        proof {
            assert(rest@ =~= s.reverse());
            assert(s.subrange(0, 0) =~= Seq::<AnimationTrack<V>>::empty());
        }
        while rest.len() > 0
            invariant
                0 <= s.len() - rest@.len() <= s.len(),
                rest@ == s.subrange(s.len() - rest@.len(), s.len() as int).reverse(),
                kept@ == after_tick(s.subrange(0, s.len() - rest@.len()), dt),
                forall|i: int| 0 <= i < s.len() ==> (#[trigger] s[i]).elapsed.0 + dt.0 <= u32::MAX,
            decreases rest@.len(),
        {
            let ghost j = s.len() - rest@.len();
            let mut t = rest.pop().unwrap();
            proof {
                assert(t == s[j]);
            }
            t.tick(dt);
            if !t.is_complete() {
                kept.push(t);
            }
            proof {
                let pre = s.subrange(0, j);
                let post = s.subrange(0, j + 1);
                assert(post.drop_last() =~= pre);
                assert(post.last() == s[j]);
                assert(rest@ =~= s.subrange(j + 1, s.len() as int).reverse());
            }
        }
        proof {
            assert(s.subrange(0, s.len() as int) =~= s);
        }
        self.tracks = kept;
        self.tracks.len() > 0
    }
}

/// The track `t` with its elapsed time advanced by `dt`, written out field by field.
pub open spec fn advanced<V>(t: AnimationTrack<V>, dt: Duration) -> AnimationTrack<V> {
    AnimationTrack {
        property: t.property,
        from: t.from,
        to: t.to,
        duration: t.duration,
        delay: t.delay,
        easing: t.easing,
        elapsed: Duration((t.elapsed.0 + dt.0) as u32),
    }
}

/// The tracks a tick leaves are the last ones' ticked form pushed on what the earlier ones leave,
/// unless that form is complete.
proof fn lemma_after_tick_step<V>(s: Seq<AnimationTrack<V>>, dt: Duration)
    requires
        s.len() > 0,
    ensures
        after_tick(s, dt) == (if track_complete(ticked(s.last(), dt)) {
            after_tick(s.drop_last(), dt)
        } else {
            after_tick(s.drop_last(), dt).push(ticked(s.last(), dt))
        }),
{
}

/// Every track a tick leaves has run less than its delay plus its duration.
pub proof fn lemma_tick_leaves_only_running<V>(s: Seq<AnimationTrack<V>>, dt: Duration, j: int)
    requires
        0 <= j < after_tick(s, dt).len(),
    ensures
        after_tick(s, dt)[j].elapsed.0 < after_tick(s, dt)[j].duration.0 + after_tick(s, dt)[j].delay.0,
    decreases s.len(),
{
    lemma_after_tick_step(s, dt);
    let rest = after_tick(s.drop_last(), dt);
    if j < rest.len() {
        lemma_tick_leaves_only_running(s.drop_last(), dt, j);
    }
}

/// Every track a tick leaves is one of the tracks before, advanced by `dt`.
pub proof fn lemma_tick_leaves_advanced<V>(s: Seq<AnimationTrack<V>>, dt: Duration, j: int) -> (i: int)
    requires
        0 <= j < after_tick(s, dt).len(),
    ensures
        0 <= i < s.len(),
        after_tick(s, dt)[j] == advanced(s[i], dt),
    decreases s.len(),
{
    lemma_after_tick_step(s, dt);
    let rest = after_tick(s.drop_last(), dt);
    if j < rest.len() {
        let i = lemma_tick_leaves_advanced(s.drop_last(), dt, j);
        assert(s.drop_last()[i] == s[i]);
        i
    } else {
        (s.len() - 1) as int
    }
}

/// Every track that, advanced by `dt`, has still not run its delay plus its duration is left by
/// the tick, advanced by `dt`: a track is dropped only when its delay and duration have passed.
pub proof fn lemma_tick_keeps_running<V>(s: Seq<AnimationTrack<V>>, dt: Duration, i: int) -> (j: int)
    requires
        0 <= i < s.len(),
        s[i].elapsed.0 + dt.0 < s[i].duration.0 + s[i].delay.0,
    ensures
        0 <= j < after_tick(s, dt).len(),
        after_tick(s, dt)[j] == advanced(s[i], dt),
    decreases s.len(),
{
    lemma_after_tick_step(s, dt);
    let rest = after_tick(s.drop_last(), dt);
    if i < s.len() - 1 {
        assert(s.drop_last()[i] == s[i]);
        lemma_tick_keeps_running(s.drop_last(), dt, i)
    } else {
        assert(!track_complete(ticked(s.last(), dt)));
        rest.len() as int
    }
}

} // verus!
