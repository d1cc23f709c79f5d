//! Node identifiers and the per-node record kept in the arena.
use vstd::prelude::*;
use crate::flags::{DirtyFlags, InteractionState, has_bit};

verus! {

/// Whether bits `bits` are the handle of a live slot key: the version half of a key is always odd.
pub open spec fn key_bits_valid(bits: u64) -> bool {
    (bits / 0x1_0000_0000u64) % 2 == 1
}

/// The handle of a node in a [`crate::arena::NodeArena`].
#[derive(Clone, Copy, PartialEq, Eq, Structural, Debug, Hash)]
pub struct NodeId {
    pub(crate) bits: u64,
}

impl View for NodeId {
    type V = u64;

    closed spec fn view(&self) -> u64 {
        self.bits
    }
}

impl NodeId {
    #[verifier::type_invariant]
    spec fn inv(self) -> bool {
        key_bits_valid(self.bits)
    }

    /// The node handle with the given bits.
    pub(crate) fn from_bits(bits: u64) -> (r: NodeId)
        requires
            key_bits_valid(bits),
        ensures
            r == (NodeId { bits }),
    {
        NodeId { bits }
    }

    /// The handle as a 64-bit integer (stable for the life of the node).
    pub fn as_u64(&self) -> (r: u64)
        ensures
            r == self@,
    {
        self.bits
    }
}

/// The kind of element a node was built from.
#[derive(Clone, Copy, PartialEq, Eq, Structural, Debug)]
pub enum NodeKind {
    Div,
    Text,
}

impl NodeKind {
    /// `Ok` when the node is of kind `expected`, else `NodeKindMismatch` naming both kinds.
    pub fn expect(&self, expected: NodeKind) -> (r: Result<(), Error>)
        ensures
            *self == expected ==> r is Ok,
            *self != expected ==> r == Err::<(), Error>(Error::NodeKindMismatch { expected, found: *self }),
    {
        match (self, expected) {
            (NodeKind::Div, NodeKind::Div) => Ok(()),
            (NodeKind::Text, NodeKind::Text) => Ok(()),
            _ => Err(Error::NodeKindMismatch { expected, found: *self }),
        }
    }

    /// The name of the kind, as used in error messages.
    pub fn kind_name(&self) -> (r: &'static str)
        ensures
            *self == NodeKind::Div ==> r@ == "Div"@,
            *self == NodeKind::Text ==> r@ == "Text"@,
    {
        match self {
            NodeKind::Div => "Div",
            NodeKind::Text => "Text",
        }
    }
}

/// What the arena keeps of one node: its kind, flags, interaction states and links.
#[derive(Debug)]
pub struct NodeRecord {
    pub kind: NodeKind,
    pub dirty: DirtyFlags,
    pub interaction_state: InteractionState,
    pub parent: Option<NodeId>,
    pub children: Vec<NodeId>,
}

/// The mathematical value of a [`NodeRecord`].
pub struct NodeView {
    pub kind: NodeKind,
    pub dirty: u8,
    pub states: u8,
    pub parent: Option<NodeId>,
    pub children: Seq<NodeId>,
}

impl View for NodeRecord {
    type V = NodeView;

    open spec fn view(&self) -> NodeView {
        NodeView {
            kind: self.kind,
            dirty: self.dirty@,
            states: self.interaction_state@,
            parent: self.parent,
            children: self.children@,
        }
    }
}

impl NodeRecord {
    /// Adds `flags` to the node's dirty flags.
    pub fn mark_dirty(&mut self, flags: DirtyFlags)
        ensures
            final(self)@ == (NodeView { dirty: old(self)@.dirty | flags@, ..old(self)@ }),
    {
        self.dirty.insert(flags);
    }

    /// Removes `flags` from the node's dirty flags.
    pub fn mark_clean(&mut self, flags: DirtyFlags)
        ensures
            final(self)@ == (NodeView { dirty: old(self)@.dirty & !flags@, ..old(self)@ }),
    {
        self.dirty.remove(flags);
    }

    /// Whether the node carries every flag of `flags`.
    pub fn has_dirty_flags(&self, flags: DirtyFlags) -> (r: bool)
        ensures
            r == (forall|i: int| has_bit(flags@, i) ==> has_bit(self@.dirty, i)),
    {
        self.dirty.contains(flags)
    }
}

/// Errors of the node tree.
#[derive(Debug, PartialEq, Eq, Structural)]
pub enum Error {
    NodeNotFound(NodeId),
    NodeKindMismatch { expected: NodeKind, found: NodeKind },
}

} // verus!
