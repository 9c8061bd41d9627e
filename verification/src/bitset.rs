use ez_bitset::bitset::BitSet;
use vstd::prelude::*;

verus! {

/// The type `ez_bitset::bitset::BitSet`: a set of bits of a fixed length.
#[verifier::external_type_specification]
#[verifier::external_body]
pub struct ExBitSet(ez_bitset::bitset::BitSet);

/// The bits that a `BitSet` holds, from index `0` on.
pub uninterp spec fn bits_of(b: BitSet) -> Seq<bool>;

/// The count that a `BitSet` keeps of its set bits.
pub uninterp spec fn cardinality_of(b: BitSet) -> nat;

/// `BitSet::new`: a set of `n` bits, none of them set, with the count `0`.
#[verifier::external_body]
pub(crate) fn new_unset(n: usize) -> (b: BitSet)
    ensures
        bits_of(b) == Seq::new(n as nat, |i: int| false),
        cardinality_of(b) == 0,
{
    BitSet::new(n)
}

/// `BitSet::new_all_set`: a set of `n` bits, all of them set, with the count `n`.
#[verifier::external_body]
pub(crate) fn new_all_set(n: usize) -> (b: BitSet)
    ensures
        bits_of(b) == Seq::new(n as nat, |i: int| true),
        cardinality_of(b) == n,
{
    BitSet::new_all_set(n)
}

/// `BitSet::set_bit`: sets the bit at `idx` and returns what it was before; the count grows
/// by one if the bit was not set. The method panics on an index beyond the length.
#[verifier::external_body]
pub(crate) fn set_bit(b: &mut BitSet, idx: usize) -> (was: bool)
    requires
        idx < bits_of(*old(b)).len(),
    ensures
        was == bits_of(*old(b))[idx as int],
        bits_of(*final(b)) == bits_of(*old(b)).update(idx as int, true),
        cardinality_of(*final(b)) == cardinality_of(*old(b)) + if was {
            0nat
        } else {
            1nat
        },
{
    b.set_bit(idx)
}

/// `BitSet::unset_bit`: clears the bit at `idx` and returns what it was before; the count
/// shrinks by one if the bit was set. The method panics on an index beyond the length.
#[verifier::external_body]
pub(crate) fn unset_bit(b: &mut BitSet, idx: usize) -> (was: bool)
    requires
        idx < bits_of(*old(b)).len(),
    ensures
        was == bits_of(*old(b))[idx as int],
        bits_of(*final(b)) == bits_of(*old(b)).update(idx as int, false),
        cardinality_of(*final(b)) + (if was {
            1nat
        } else {
            0nat
        }) == cardinality_of(*old(b)),
{
    b.unset_bit(idx)
}

/// `BitSet::unset_all`: clears every bit and sets the count to `0`; the length stays.
#[verifier::external_body]
pub(crate) fn unset_all(b: &mut BitSet)
    ensures
        bits_of(*final(b)) == Seq::new(bits_of(*old(b)).len(), |i: int| false),
        cardinality_of(*final(b)) == 0,
{
    b.unset_all()
}

/// `BitSet::cardinality`: the count that the set keeps of its set bits.
#[verifier::external_body]
pub(crate) fn cardinality(b: &BitSet) -> (c: usize)
    ensures
        c == cardinality_of(*b),
{
    b.cardinality()
}

} // verus!
