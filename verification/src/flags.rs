//! Bit sets used by the node tree: dirty flags and interaction states.
use vstd::prelude::*;

verus! {

/// The parts of a node that must be recomputed: its layout, its paint, or both.
#[derive(Clone, Copy, PartialEq, Eq, Structural, Debug)]
pub struct DirtyFlags {
    pub(crate) bits: u8,
}

impl View for DirtyFlags {
    type V = u8;

    closed spec fn view(&self) -> u8 {
        self.bits
    }
}

/// True when `bits` holds only the two flags that exist.
pub open spec fn dirty_bits_valid(bits: u8) -> bool {
    bits < 4
}

/// Whether the flag set `bits` holds flag number `i` (0 is layout, 1 is paint).
pub open spec fn has_bit(bits: u8, i: int) -> bool {
    if i == 0 {
        bits % 2 == 1
    } else if i == 1 {
        (bits / 2) % 2 == 1
    } else {
        false
    }
}

impl DirtyFlags {
    /// The layout flag alone.
    pub fn layout() -> (r: DirtyFlags)
        ensures
            r@ == 1,
    {
        DirtyFlags { bits: 1 }
    }

    /// The paint flag alone.
    pub fn paint() -> (r: DirtyFlags)
        ensures
            r@ == 2,
    {
        DirtyFlags { bits: 2 }
    }

    #[verifier::type_invariant]
    pub(crate) open spec fn inv(self) -> bool {
        dirty_bits_valid(self@)
    }

    /// The empty set.
    pub fn empty() -> (r: DirtyFlags)
        ensures
            r@ == 0,
    {
        DirtyFlags { bits: 0 }
    }

    /// Both flags.
    pub fn all() -> (r: DirtyFlags)
        ensures
            r@ == 3,
    {
        DirtyFlags { bits: 3 }
    }

    /// The raw bits.
    pub fn bits(&self) -> (r: u8)
        ensures
            r == self@,
            dirty_bits_valid(r),
    {
        proof {
            use_type_invariant(self);
        }
        self.bits
    }

    /// The set made of the known flags among `bits`; other bits are dropped.
    pub fn from_bits_truncate(bits: u8) -> (r: DirtyFlags)
        ensures
            r@ == bits % 4,
    {
        DirtyFlags { bits: bits % 4 }
    }

    pub fn is_empty(&self) -> (r: bool)
        ensures
            r == (self@ == 0),
    {
        self.bits == 0
    }

    /// Whether every flag of `other` is in `self`.
    pub fn contains(&self, other: DirtyFlags) -> (r: bool)
        ensures
            r == (forall|i: int| has_bit(other@, i) ==> has_bit(self@, i)),
    {
        proof {
            use_type_invariant(self);
            use_type_invariant(&other);
            lemma_bits_cases(self.bits);
            lemma_bits_cases(other.bits);
        }
        let a = self.bits;
        let b = other.bits;
        let r = (a & b) == b;
        proof {
            assert(a < 4 && b < 4 ==> ((a & b) == b <==> ((b % 2 == 1 ==> a % 2 == 1) && ((b / 2)
                % 2 == 1 ==> (a / 2) % 2 == 1)))) by (bit_vector);
            if r {
                assert forall|i: int| has_bit(other@, i) implies has_bit(self@, i) by {
                    if i == 0 {
                    } else if i == 1 {
                    }
                }
            } else {
                assert(!(has_bit(other@, 0) ==> has_bit(self@, 0)) || !(has_bit(other@, 1) ==> has_bit(self@, 1)));
            }
        }
        r
    }

    /// Whether `self` and `other` share a flag.
    pub fn intersects(&self, other: DirtyFlags) -> (r: bool)
        ensures
            r == (exists|i: int| has_bit(other@, i) && has_bit(self@, i)),
    {
        proof {
            use_type_invariant(self);
            use_type_invariant(&other);
            lemma_bits_cases(self.bits);
            lemma_bits_cases(other.bits);
        }
        let a = self.bits;
        let b = other.bits;
        let r = (a & b) != 0;
        proof {
            assert(a < 4 && b < 4 ==> ((a & b) != 0 <==> ((b % 2 == 1 && a % 2 == 1) || ((b / 2)
                % 2 == 1 && (a / 2) % 2 == 1)))) by (bit_vector);
            if r {
                if b % 2 == 1 && a % 2 == 1 {
                    assert(has_bit(other@, 0) && has_bit(self@, 0));
                } else {
                    assert(has_bit(other@, 1) && has_bit(self@, 1));
                }
            } else {
                assert forall|i: int| !(has_bit(other@, i) && has_bit(self@, i)) by {
                    if i == 0 {
                    } else if i == 1 {
                    }
                }
            }
        }
        r
    }

    /// The flags in either set.
    pub fn union(self, other: DirtyFlags) -> (r: DirtyFlags)
        ensures
            r@ == (self@ | other@),
            forall|i: int| has_bit(r@, i) == (has_bit(self@, i) || has_bit(other@, i)),
            dirty_bits_valid(r@),
    {
        proof {
            use_type_invariant(&self);
            use_type_invariant(&other);
        }
        let a = self.bits;
        let b = other.bits;
        let c = a | b;
        proof {
            assert(a < 4 && b < 4 ==> (c < 4 && (c % 2 == 1 <==> (a % 2 == 1 || b % 2 == 1)) && (
            (c / 2) % 2 == 1 <==> ((a / 2) % 2 == 1 || (b / 2) % 2 == 1)))) by (bit_vector)
                requires
                    c == a | b,
            ;
        }
        DirtyFlags { bits: c }
    }

    /// The flags in both sets.
    pub fn intersection(self, other: DirtyFlags) -> (r: DirtyFlags)
        ensures
            r@ == (self@ & other@),
            forall|i: int| has_bit(r@, i) == (has_bit(self@, i) && has_bit(other@, i)),
            dirty_bits_valid(r@),
    {
        proof {
            use_type_invariant(&self);
            use_type_invariant(&other);
        }
        let a = self.bits;
        let b = other.bits;
        let c = a & b;
        proof {
            assert(a < 4 && b < 4 ==> (c < 4 && (c % 2 == 1 <==> (a % 2 == 1 && b % 2 == 1)) && (
            (c / 2) % 2 == 1 <==> ((a / 2) % 2 == 1 && (b / 2) % 2 == 1)))) by (bit_vector)
                requires
                    c == a & b,
            ;
        }
        DirtyFlags { bits: c }
    }

    /// The flags of `self` that are not in `other`.
    pub fn difference(self, other: DirtyFlags) -> (r: DirtyFlags)
        ensures
            r@ == (self@ & !other@),
            forall|i: int| has_bit(r@, i) == (has_bit(self@, i) && !has_bit(other@, i)),
            dirty_bits_valid(r@),
    {
        proof {
            use_type_invariant(&self);
            use_type_invariant(&other);
        }
        let a = self.bits;
        let b = other.bits;
        let c = a & !b;
        proof {
            assert(a < 4 && b < 4 ==> (c < 4 && (c % 2 == 1 <==> (a % 2 == 1 && b % 2 != 1)) && (
            (c / 2) % 2 == 1 <==> ((a / 2) % 2 == 1 && (b / 2) % 2 != 1)))) by (bit_vector)
                requires
                    c == a & !b,
            ;
        }
        DirtyFlags { bits: c }
    }

    /// The known flags that are not in `self`.
    pub fn complement(self) -> (r: DirtyFlags)
        ensures
            forall|i: int| 0 <= i < 2 ==> has_bit(r@, i) == !has_bit(self@, i),
            dirty_bits_valid(r@),
    {
        proof {
            use_type_invariant(&self);
        }
        let a = self.bits;
        let c = !a & 3;
        proof {
            assert(a < 4 ==> (c < 4 && (c % 2 == 1 <==> a % 2 != 1) && ((c / 2) % 2 == 1 <==> (a
                / 2) % 2 != 1))) by (bit_vector)
                requires
                    c == !a & 3,
            ;
        }
        DirtyFlags { bits: c }
    }

    /// Adds the flags of `other`.
    pub fn insert(&mut self, other: DirtyFlags)
        ensures
            final(self)@ == (old(self)@ | other@),
            forall|i: int| has_bit(final(self)@, i) == (has_bit(old(self)@, i) || has_bit(other@, i)),
    {
        *self = self.union(other);
    }

    /// Removes the flags of `other`.
    pub fn remove(&mut self, other: DirtyFlags)
        ensures
            final(self)@ == (old(self)@ & !other@),
            forall|i: int| has_bit(final(self)@, i) == (has_bit(old(self)@, i) && !has_bit(other@, i)),
    {
        *self = self.difference(other);
    }
}

/// Flag sets are equal exactly when their bits are.
pub proof fn lemma_dirty_view_eq(a: DirtyFlags, b: DirtyFlags)
    ensures
        (a@ == b@) == (a == b),
{
}

/// State sets are equal exactly when their bits are.
pub proof fn lemma_state_view_eq(a: InteractionState, b: InteractionState)
    ensures
        (a@ == b@) == (a == b),
{
}

/// A valid flag set is determined by the flags it holds.
pub proof fn lemma_bits_cases(b: u8)
    requires
        dirty_bits_valid(b),
    ensures
        b == 0 ==> !has_bit(b, 0) && !has_bit(b, 1),
        b == 1 ==> has_bit(b, 0) && !has_bit(b, 1),
        b == 2 ==> !has_bit(b, 0) && has_bit(b, 1),
        b == 3 ==> has_bit(b, 0) && has_bit(b, 1),
        forall|i: int| has_bit(b, i) ==> 0 <= i < 2,
{
}

/// The flags of a union, an intersection and a difference of valid flag sets.
pub proof fn lemma_bits_ops(a: u8, b: u8)
    requires
        dirty_bits_valid(a),
        dirty_bits_valid(b),
    ensures
        dirty_bits_valid(a | b),
        dirty_bits_valid(a & b),
        dirty_bits_valid(a & !b),
        forall|i: int| #![trigger has_bit(a | b, i)] has_bit(a | b, i) == (has_bit(a, i) || has_bit(b, i)),
        forall|i: int| #![trigger has_bit(a & b, i)] has_bit(a & b, i) == (has_bit(a, i) && has_bit(b, i)),
        forall|i: int| #![trigger has_bit(a & !b, i)] has_bit(a & !b, i) == (has_bit(a, i) && !has_bit(b, i)),
        (a | b) == a <==> (forall|i: int| has_bit(b, i) ==> has_bit(a, i)),
        (a & !b) == a <==> (forall|i: int| !(has_bit(b, i) && has_bit(a, i))),
{
    let c = a | b;
    let d = a & b;
    let e = a & !b;
    assert(a < 4 && b < 4 ==> (c < 4 && (c % 2 == 1 <==> (a % 2 == 1 || b % 2 == 1)) && ((c / 2)
        % 2 == 1 <==> ((a / 2) % 2 == 1 || (b / 2) % 2 == 1)))) by (bit_vector)
        requires
            c == a | b,
    ;
    assert(a < 4 && b < 4 ==> (d < 4 && (d % 2 == 1 <==> (a % 2 == 1 && b % 2 == 1)) && ((d / 2)
        % 2 == 1 <==> ((a / 2) % 2 == 1 && (b / 2) % 2 == 1)))) by (bit_vector)
        requires
            d == a & b,
    ;
    assert(a < 4 && b < 4 ==> (e < 4 && (e % 2 == 1 <==> (a % 2 == 1 && b % 2 != 1)) && ((e / 2)
        % 2 == 1 <==> ((a / 2) % 2 == 1 && (b / 2) % 2 != 1)))) by (bit_vector)
        requires
            e == a & !b,
    ;
    assert(a < 4 && b < 4 ==> ((a | b) == a <==> ((b % 2 == 1 ==> a % 2 == 1) && ((b / 2) % 2
        == 1 ==> (a / 2) % 2 == 1)))) by (bit_vector);
    assert(a < 4 && b < 4 ==> ((a & !b) == a <==> (!(b % 2 == 1 && a % 2 == 1) && !((b / 2) % 2
        == 1 && (a / 2) % 2 == 1)))) by (bit_vector);
    if (a | b) == a {
        assert forall|i: int| has_bit(b, i) implies has_bit(a, i) by {
            if i == 0 {
            } else if i == 1 {
            }
        }
    } else {
        assert(!(has_bit(b, 0) ==> has_bit(a, 0)) || !(has_bit(b, 1) ==> has_bit(a, 1)));
    }
    if (a & !b) == a {
        assert forall|i: int| !(has_bit(b, i) && has_bit(a, i)) by {
            if i == 0 {
            } else if i == 1 {
            }
        }
    } else {
        assert((has_bit(b, 0) && has_bit(a, 0)) || (has_bit(b, 1) && has_bit(a, 1)));
    }
}

/// Two valid flag sets that hold the same flags are equal.
pub proof fn lemma_bits_ext(a: u8, b: u8)
    requires
        dirty_bits_valid(a),
        dirty_bits_valid(b),
        has_bit(a, 0) == has_bit(b, 0),
        has_bit(a, 1) == has_bit(b, 1),
    ensures
        a == b,
{
}

/// The interaction states a node can be in at once: hovered, active, focused, disabled.
#[derive(Clone, Copy, PartialEq, Eq, Structural, Debug)]
pub struct InteractionState {
    pub(crate) bits: u8,
}

impl View for InteractionState {
    type V = u8;

    closed spec fn view(&self) -> u8 {
        self.bits
    }
}

/// True when `bits` holds only the four states that exist.
pub open spec fn state_bits_valid(bits: u8) -> bool {
    bits < 16
}

/// Whether the state set `bits` holds state number `i`
/// (0 hover, 1 active, 2 focus, 3 disabled).
pub open spec fn has_state(bits: u8, i: int) -> bool {
    if i == 0 {
        bits % 2 == 1
    } else if i == 1 {
        (bits / 2) % 2 == 1
    } else if i == 2 {
        (bits / 4) % 2 == 1
    } else if i == 3 {
        (bits / 8) % 2 == 1
    } else {
        false
    }
}

/// The state bits after turning the states `flag` on (`on`) or off.
pub open spec fn state_after(bits: u8, flag: u8, on: bool) -> u8 {
    if on {
        bits | flag
    } else {
        bits & !flag
    }
}

/// The state numbers held by `bits`.
pub open spec fn states_of(bits: u8) -> Set<int> {
    Set::new(|i: int| has_state(bits, i))
}

/// How union and removal act on state numbers, and when one state set includes another.
pub proof fn lemma_state_bits(a: u8, b: u8, c: u8)
    requires
        a < 16,
        b < 16,
    ensures
        c == a | b ==> c < 16 && forall|i: int|
            #![trigger has_state(c, i)]
            has_state(c, i) == (has_state(a, i) || has_state(b, i)),
        c == a & !b ==> c < 16 && forall|i: int|
            #![trigger has_state(c, i)]
            has_state(c, i) == (has_state(a, i) && !has_state(b, i)),
        (a & b == b) == (forall|i: int| has_state(b, i) ==> has_state(a, i)),
{
    assert(a < 16 && b < 16 && c == a | b ==> (c < 16 && (c % 2 == 1 <==> (a % 2 == 1 || b % 2
        == 1)) && ((c / 2) % 2 == 1 <==> ((a / 2) % 2 == 1 || (b / 2) % 2 == 1)) && ((c / 4) % 2
        == 1 <==> ((a / 4) % 2 == 1 || (b / 4) % 2 == 1)) && ((c / 8) % 2 == 1 <==> ((a / 8) % 2
        == 1 || (b / 8) % 2 == 1)))) by (bit_vector);
    assert(a < 16 && b < 16 && c == a & !b ==> (c < 16 && (c % 2 == 1 <==> (a % 2 == 1 && b % 2
        != 1)) && ((c / 2) % 2 == 1 <==> ((a / 2) % 2 == 1 && (b / 2) % 2 != 1)) && ((c / 4) % 2
        == 1 <==> ((a / 4) % 2 == 1 && (b / 4) % 2 != 1)) && ((c / 8) % 2 == 1 <==> ((a / 8) % 2
        == 1 && (b / 8) % 2 != 1)))) by (bit_vector);
    assert(a < 16 && b < 16 ==> ((a & b == b) <==> ((b % 2 == 1 ==> a % 2 == 1) && ((b / 2) % 2
        == 1 ==> (a / 2) % 2 == 1) && ((b / 4) % 2 == 1 ==> (a / 4) % 2 == 1) && ((b / 8) % 2 == 1
        ==> (a / 8) % 2 == 1)))) by (bit_vector);
    if a & b == b {
        assert forall|i: int| has_state(b, i) implies has_state(a, i) by {
            if i == 0 {
            } else if i == 1 {
            } else if i == 2 {
            } else if i == 3 {
            }
        }
    } else {
        assert(!(has_state(b, 0) ==> has_state(a, 0)) || !(has_state(b, 1) ==> has_state(a, 1))
            || !(has_state(b, 2) ==> has_state(a, 2)) || !(has_state(b, 3) ==> has_state(a, 3)));
    }
    assert forall|i: int| #![trigger has_state(c, i)] c == a | b && !(0 <= i < 4) implies !has_state(c, i) by {}
}

impl InteractionState {
    #[verifier::type_invariant]
    spec fn inv(self) -> bool {
        state_bits_valid(self.bits)
    }

    /// No state.
    pub fn empty() -> (r: InteractionState)
        ensures
            r@ == 0,
            states_of(r@) == Set::<int>::empty(),
    {
        let r = InteractionState { bits: 0 };
        assert(states_of(r@) =~= Set::<int>::empty());
        r
    }

    /// The hovered state alone.
    pub fn hover() -> (r: InteractionState)
        ensures
            states_of(r@) == set![0int],
            r@ == 1,
    {
        let r = InteractionState { bits: 1 };
        assert(states_of(r@) =~= set![0int]);
        r
    }

    /// The active (pressed) state alone.
    pub fn active() -> (r: InteractionState)
        ensures
            states_of(r@) == set![1int],
            r@ == 2,
    {
        let r = InteractionState { bits: 2 };
        assert(states_of(r@) =~= set![1int]);
        r
    }

    /// The focused state alone.
    pub fn focus() -> (r: InteractionState)
        ensures
            states_of(r@) == set![2int],
            r@ == 4,
    {
        let r = InteractionState { bits: 4 };
        assert(states_of(r@) =~= set![2int]);
        r
    }

    /// The disabled state alone.
    pub fn disabled() -> (r: InteractionState)
        ensures
            states_of(r@) == set![3int],
            r@ == 8,
    {
        let r = InteractionState { bits: 8 };
        assert(states_of(r@) =~= set![3int]);
        r
    }

    /// The raw bits.
    pub fn bits(&self) -> (r: u8)
        ensures
            r == self@,
            state_bits_valid(r),
    {
        proof {
            use_type_invariant(self);
        }
        self.bits
    }

    /// Whether every state of `other` is in `self`.
    pub fn contains(&self, other: InteractionState) -> (r: bool)
        ensures
            r == states_of(other@).subset_of(states_of(self@)),
    {
        proof {
            use_type_invariant(self);
            use_type_invariant(&other);
            lemma_state_bits(self.bits, other.bits, 0);
        }
        let r = (self.bits & other.bits) == other.bits;
        proof {
            if r {
                assert(states_of(other@).subset_of(states_of(self@)));
            } else {
                let i = choose|i: int| has_state(other.bits, i) && !has_state(self.bits, i);
                assert(states_of(other@).contains(i));
            }
        }
        r
    }

    /// The states in either set.
    pub fn union(self, other: InteractionState) -> (r: InteractionState)
        ensures
            states_of(r@) == states_of(self@).union(states_of(other@)),
            r@ == self@ | other@,
    {
        proof {
            use_type_invariant(&self);
            use_type_invariant(&other);
        }
        let c = self.bits | other.bits;
        proof {
            lemma_state_bits(self.bits, other.bits, c);
        }
        let r = InteractionState { bits: c };
        assert(states_of(r@) =~= states_of(self@).union(states_of(other@)));
        r
    }

    /// Adds the states of `other`.
    pub fn insert(&mut self, other: InteractionState)
        ensures
            states_of(final(self)@) == states_of(old(self)@).union(states_of(other@)),
            final(self)@ == old(self)@ | other@,
    {
        *self = self.union(other);
    }

    /// Removes the states of `other`.
    pub fn remove(&mut self, other: InteractionState)
        ensures
            states_of(final(self)@) == states_of(old(self)@).difference(states_of(other@)),
            final(self)@ == old(self)@ & !other@,
    {
        proof {
            use_type_invariant(&*self);
            use_type_invariant(&other);
        }
        let c = self.bits & !other.bits;
        proof {
            lemma_state_bits(self.bits, other.bits, c);
        }
        let ghost before = states_of(self@);
        *self = InteractionState { bits: c };
        assert(states_of(self@) =~= before.difference(states_of(other@)));
    }

    /// Turns the states of `flag` on when `on` holds, off otherwise.
    pub fn set_flag(&mut self, flag: InteractionState, on: bool)
        ensures
            on ==> states_of(final(self)@) == states_of(old(self)@).union(states_of(flag@)),
            !on ==> states_of(final(self)@) == states_of(old(self)@).difference(states_of(flag@)),
            final(self)@ == state_after(old(self)@, flag@, on),
    {
        if on {
            self.insert(flag);
        } else {
            self.remove(flag);
        }
    }

    pub fn is_hovered(self) -> (r: bool)
        ensures
            r == states_of(self@).contains(0),
    {
        self.contains(InteractionState::hover())
    }

    pub fn is_active(self) -> (r: bool)
        ensures
            r == states_of(self@).contains(1),
    {
        self.contains(InteractionState::active())
    }

    pub fn is_focused(self) -> (r: bool)
        ensures
            r == states_of(self@).contains(2),
    {
        self.contains(InteractionState::focus())
    }

    pub fn is_disabled(self) -> (r: bool)
        ensures
            r == states_of(self@).contains(3),
    {
        self.contains(InteractionState::disabled())
    }
}

/// The state a node's style resolves against: pressed wins over hovered.
#[derive(Clone, Copy, PartialEq, Eq, Structural, Debug)]
pub enum ComputedState {
    Base,
    Hover,
    Active,
}

/// The computed state of a set of interaction states.
pub open spec fn computed_state_of(states: Set<int>) -> ComputedState {
    if states.contains(1) {
        ComputedState::Active
    } else if states.contains(0) {
        ComputedState::Hover
    } else {
        ComputedState::Base
    }
}

impl ComputedState {
    /// Active when pressed, else Hover when hovered, else Base.
    pub fn from_interaction(value: InteractionState) -> (r: ComputedState)
        ensures
            r == computed_state_of(states_of(value@)),
    {
        if value.is_active() {
            ComputedState::Active
        } else if value.is_hovered() {
            ComputedState::Hover
        } else {
            ComputedState::Base
        }
    }
}

} // verus!
