//! Pointer buttons and what an event callback is told about its event.
use vstd::prelude::*;
use crate::node::NodeId;

verus! {

/// A pointer button.
#[derive(Debug, Clone, Copy, PartialEq, Eq, Structural)]
pub enum MouseButton {
    Left,
    Right,
    Middle,
}

/// Whether a callback runs on the node the event is aimed at or on one of its ancestors.
#[derive(Debug, Clone, Copy, PartialEq, Eq, Structural)]
pub enum EventPhase {
    Target,
    Bubble,
}

/// What a callback is told about its event: the node it is aimed at, the node whose callback
/// runs, the pointer position `P` when there is one, and the phase; a callback may stop the
/// event from going further up.
#[derive(Debug, Clone, Copy)]
pub struct EventContext<P> {
    pub target: NodeId,
    pub current: NodeId,
    pub position: Option<P>,
    pub phase: EventPhase,
    stop: bool,
}

impl<P> View for EventContext<P> {
    type V = (NodeId, NodeId, Option<P>, EventPhase, bool);

    /// Target, current node, position, phase, and whether a callback stopped the event.
    closed spec fn view(&self) -> (NodeId, NodeId, Option<P>, EventPhase, bool) {
        (self.target, self.current, self.position, self.phase, self.stop)
    }
}

impl<P> EventContext<P> {
    /// The context of an event that no callback has stopped yet.
    pub fn new(target: NodeId, current: NodeId, position: Option<P>, phase: EventPhase) -> (r: Self)
        ensures
            r@ == (target, current, position, phase, false),
    {
        EventContext { target, current, position, phase, stop: false }
    }

    /// Stops the event from going further up.
    pub fn stop_propagation(&mut self)
        ensures
            final(self)@ == (old(self)@.0, old(self)@.1, old(self)@.2, old(self)@.3, true),
    {
        self.stop = true;
    }

    /// Whether a callback stopped the event.
    pub fn is_propagation_stopped(&self) -> (r: bool)
        ensures
            r == self@.4,
    {
        self.stop
    }
}

/// The delivery of a click along the nodes it reached, target first and then each ancestor up
/// to the root: one callback at a time, until the path ends or a callback stops the event.
pub struct ClickDispatch<P> {
    order: Vec<NodeId>,
    next: usize,
    position: Option<P>,
    stopped: bool,
}

impl<P> View for ClickDispatch<P> {
    type V = (Seq<NodeId>, int, Option<P>, bool);

    /// The nodes in delivery order, how many callbacks were handed out, the pointer position,
    /// and whether a callback stopped the event.
    closed spec fn view(&self) -> (Seq<NodeId>, int, Option<P>, bool) {
        (self.order@, self.next as int, self.position, self.stopped)
    }
}

impl<P> ClickDispatch<P> {
    #[verifier::type_invariant]
    spec fn inv(self) -> bool {
        self.next <= self.order.len()
    }
}

impl<P: Copy> ClickDispatch<P> {
    /// A click that reached `order` (target first, root last) at `position`.
    pub fn new(order: Vec<NodeId>, position: Option<P>) -> (r: Self)
        ensures
            r@ == (order@, 0int, position, false),
    {
        ClickDispatch { order, next: 0, position, stopped: false }
    }

    /// The context of the next callback that is due, or `None` once the path has ended or a
    /// callback stopped the event. The first context is aimed at the target in the target phase,
    /// the others at their node in the bubble phase.
    pub fn next_context(&mut self) -> (r: Option<EventContext<P>>)
        ensures
            0 <= final(self)@.1 <= final(self)@.0.len(),
            old(self)@.3 || old(self)@.1 == old(self)@.0.len() ==> r is None && final(self)@ == old(self)@,
            !old(self)@.3 && old(self)@.1 < old(self)@.0.len() ==> r is Some && r->0@ == (
                old(self)@.0[0],
                old(self)@.0[old(self)@.1],
                old(self)@.2,
                if old(self)@.1 == 0 { EventPhase::Target } else { EventPhase::Bubble },
                false,
            ) && final(self)@ == (old(self)@.0, old(self)@.1 + 1, old(self)@.2, false),
    {
        proof {
            use_type_invariant(&*self);
        }
        if self.stopped || self.next >= self.order.len() {
            return None;
        }
        let phase = if self.next == 0 { EventPhase::Target } else { EventPhase::Bubble };
        let ctx = EventContext::new(self.order[0], self.order[self.next], self.position, phase);
        self.next = self.next + 1;
        Some(ctx)
    }

    /// Takes back the context a callback was handed: when it stopped the event, no further
    /// callback is due.
    pub fn finish(&mut self, ctx: &EventContext<P>)
        ensures
            final(self)@ == (old(self)@.0, old(self)@.1, old(self)@.2, old(self)@.3 || ctx@.4),
    {
        proof {
            use_type_invariant(&*self);
        }
        if ctx.is_propagation_stopped() {
            self.stopped = true;
        }
    }
}

} // verus!
