//! How many nodes carry each dirty flag.
use vstd::prelude::*;
use vstd::std_specs::bits::{u8_trailing_zeros, axiom_u8_trailing_zeros};
use crate::flags::{DirtyFlags, has_bit, dirty_bits_valid};

verus! {

/// One count per dirty flag: how many nodes carry the layout flag, and how many the paint flag.
#[derive(Debug)]
pub struct DirtyCounter {
    counts: [usize; 2],
}

impl View for DirtyCounter {
    type V = Seq<usize>;

    closed spec fn view(&self) -> Seq<usize> {
        self.counts@
    }
}

/// The count of flag `i` after adding one for each flag of `flags`.
pub open spec fn counts_after_increment(before: Seq<usize>, flags: u8, i: int) -> int {
    before[i] + if has_bit(flags, i) { 1int } else { 0int }
}

/// The count of flag `i` after taking one away for each flag of `flags`.
pub open spec fn counts_after_decrement(before: Seq<usize>, flags: u8, i: int) -> int {
    before[i] - if has_bit(flags, i) { 1int } else { 0int }
}

proof fn lemma_low_bit(bits: u8)
    requires
        0 < bits < 4,
    ensures
        (bits & ((bits - 1) as u8)) < bits,
        u8_trailing_zeros(bits) < 2,
        has_bit(bits, u8_trailing_zeros(bits) as int),
        forall|i: int|
            #![trigger has_bit(bits & ((bits - 1) as u8), i)]
            has_bit(bits & ((bits - 1) as u8), i) == (has_bit(bits, i) && i != u8_trailing_zeros(
                bits,
            )),
{
    axiom_u8_trailing_zeros(bits);
    let t = u8_trailing_zeros(bits) as u8;
    if t >= 1 {
        assert((bits >> 0u8) & 1u8 == 0u8);
    }
    let c = bits & ((bits - 1) as u8);
    assert(0 < bits < 4 && t <= 8 && (bits >> t) & 1u8 == 1u8 && (t >= 1 ==> (bits >> 0u8) & 1u8
        == 0u8) ==> ((t == 0 && bits % 2 == 1) || (t == 1 && (bits / 2) % 2 == 1 && bits % 2 == 0)))
        by (bit_vector);
    assert(0 < bits < 4 && c == bits & ((bits - 1) as u8) ==> (c < bits && c % 2 == 0 && ((c / 2)
        % 2 == 1 <==> (bits == 3)))) by (bit_vector);
}

impl DirtyCounter {
    /// All counts at zero.
    pub fn new() -> (r: DirtyCounter)
        ensures
            r@ == seq![0usize, 0usize],
    {
        let r = DirtyCounter { counts: [0, 0] };
        assert(r@ =~= seq![0usize, 0usize]);
        r
    }

    /// The count of flag number `i`.
    pub fn count(&self, i: usize) -> (r: usize)
        requires
            i < 2,
        ensures
            r == self@[i as int],
    {
        self.counts[i]
    }

    /// Adds one to the count of each flag in `flags`.
    pub fn increment(&mut self, flags: DirtyFlags)
        requires
            forall|i: int| has_bit(flags@, i) ==> old(self)@[i] < usize::MAX,
        ensures
            final(self)@.len() == 2,
            forall|i: int| 0 <= i < 2 ==> final(self)@[i] == counts_after_increment(old(self)@, flags@, i),
    {
        let mut bits = flags.bits();
        let mut counts = self.counts;
        let ghost start = counts@;
        assert(start == old(self)@);
        while bits != 0
            invariant
                start.len() == 2,
                counts@.len() == 2,
                dirty_bits_valid(bits),
                forall|i: int| has_bit(bits, i) ==> has_bit(flags@, i),
                forall|i: int| has_bit(flags@, i) ==> start[i] < usize::MAX,
                forall|i: int|
                    #![trigger counts@[i]]
                    0 <= i < 2 ==> counts@[i] == start[i] + if has_bit(flags@, i) && !has_bit(
                        bits,
                        i,
                    ) {
                        1int
                    } else {
                        0int
                    },
            decreases bits,
        {
            proof {
                lemma_low_bit(bits);
            }
            let idx = bits.trailing_zeros() as usize;
            let ghost prev = counts@;
            let ghost old_bits = bits;
            assert(prev[idx as int] == start[idx as int] + if has_bit(flags@, idx as int) && !has_bit(old_bits, idx as int) { 1int } else { 0int });
            counts[idx] = counts[idx] + 1;
            let next = bits & (bits - 1);
            proof {
                assert(next == bits & ((bits - 1) as u8));
                assert forall|i: int| has_bit(next, i) == (has_bit(bits, i) && i != idx) by {
                    assert(has_bit(bits & ((bits - 1) as u8), i) == (has_bit(bits, i) && i
                        != u8_trailing_zeros(bits)));
                }
            }
            bits = next;
            assert forall|i: int| 0 <= i < 2 implies counts@[i] == start[i] + if has_bit(flags@, i) && !has_bit(bits, i) { 1int } else { 0int } by {
                assert(prev[i] == start[i] + if has_bit(flags@, i) && !has_bit(old_bits, i) { 1int } else { 0int });
                if i == idx {
                    assert(has_bit(old_bits, i) && has_bit(flags@, i) && !has_bit(bits, i));
                } else {
                    assert(has_bit(old_bits, i) == has_bit(bits, i));
                }
            }
        }
        assert forall|i: int| 0 <= i < 2 implies !has_bit(bits, i) by {}
        self.counts = counts;
    }

    /// Takes one away from the count of each flag in `flags`.
    pub fn decrement(&mut self, flags: DirtyFlags)
        requires
            forall|i: int| has_bit(flags@, i) ==> old(self)@[i] > 0,
        ensures
            final(self)@.len() == 2,
            forall|i: int| 0 <= i < 2 ==> final(self)@[i] == counts_after_decrement(old(self)@, flags@, i),
    {
        let mut bits = flags.bits();
        let mut counts = self.counts;
        let ghost start = counts@;
        assert(start == old(self)@);
        while bits != 0
            invariant
                start.len() == 2,
                counts@.len() == 2,
                dirty_bits_valid(bits),
                forall|i: int| has_bit(bits, i) ==> has_bit(flags@, i),
                forall|i: int| has_bit(flags@, i) ==> start[i] > 0,
                forall|i: int|
                    #![trigger counts@[i]]
                    0 <= i < 2 ==> counts@[i] == start[i] - if has_bit(flags@, i) && !has_bit(
                        bits,
                        i,
                    ) {
                        1int
                    } else {
                        0int
                    },
            decreases bits,
        {
            proof {
                lemma_low_bit(bits);
            }
            let idx = bits.trailing_zeros() as usize;
            let ghost prev = counts@;
            let ghost old_bits = bits;
            assert(prev[idx as int] == start[idx as int] - if has_bit(flags@, idx as int) && !has_bit(old_bits, idx as int) { 1int } else { 0int });
            counts[idx] = counts[idx] - 1;
            let next = bits & (bits - 1);
            proof {
                assert(next == bits & ((bits - 1) as u8));
                assert forall|i: int| has_bit(next, i) == (has_bit(bits, i) && i != idx) by {
                    assert(has_bit(bits & ((bits - 1) as u8), i) == (has_bit(bits, i) && i
                        != u8_trailing_zeros(bits)));
                }
            }
            bits = next;
            assert forall|i: int| 0 <= i < 2 implies counts@[i] == start[i] - if has_bit(flags@, i) && !has_bit(bits, i) { 1int } else { 0int } by {
                assert(prev[i] == start[i] - if has_bit(flags@, i) && !has_bit(old_bits, i) { 1int } else { 0int });
                if i == idx {
                    assert(has_bit(old_bits, i) && has_bit(flags@, i) && !has_bit(bits, i));
                } else {
                    assert(has_bit(old_bits, i) == has_bit(bits, i));
                }
            }
        }
        assert forall|i: int| 0 <= i < 2 implies !has_bit(bits, i) by {}
        self.counts = counts;
    }

    /// Whether some flag of `flags` has a count above zero.
    pub fn is_any_dirty(&self, flags: DirtyFlags) -> (r: bool)
        ensures
            r == (exists|i: int| 0 <= i < 2 && has_bit(flags@, i) && self@[i] > 0),
    {
        let mut bits = flags.bits();
        assert(self@.len() == 2);
        while bits != 0
            invariant
                dirty_bits_valid(bits),
                self@.len() == 2,
                forall|i: int| has_bit(bits, i) ==> has_bit(flags@, i),
                forall|i: int|
                    0 <= i < 2 && has_bit(flags@, i) && !has_bit(bits, i) ==> self@[i] == 0,
            decreases bits,
        {
            proof {
                lemma_low_bit(bits);
            }
            let idx = bits.trailing_zeros() as usize;
            if self.counts[idx] > 0 {
                assert(has_bit(flags@, idx as int) && self@[idx as int] > 0);
                return true;
            }
            let next = bits & (bits - 1);
            proof {
                assert(next == bits & ((bits - 1) as u8));
                assert forall|i: int| has_bit(next, i) == (has_bit(bits, i) && i != idx) by {
                    assert(has_bit(bits & ((bits - 1) as u8), i) == (has_bit(bits, i) && i
                        != u8_trailing_zeros(bits)));
                }
            }
            bits = next;
        }
        assert forall|i: int| !(0 <= i < 2 && has_bit(flags@, i) && self@[i] > 0) by {
            assert(!has_bit(bits, i));
        }
        false
    }
}

impl Default for DirtyCounter {
    fn default() -> (r: DirtyCounter)
        ensures
            r@ == seq![0usize, 0usize],
    {
        DirtyCounter::new()
    }
}

/// Taking away the flags just added gives every count back.
pub proof fn lemma_decrement_undoes_increment(before: Seq<usize>, after: Seq<usize>, flags: u8)
    requires
        before.len() == 2,
        after.len() == 2,
        forall|i: int| 0 <= i < 2 ==> after[i] == counts_after_increment(before, flags, i),
    ensures
        forall|i: int| 0 <= i < 2 ==> counts_after_decrement(after, flags, i) == before[i],
{
}

} // verus!
