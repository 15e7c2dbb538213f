//! The fixed-size bit sets of the `fixedbitset` crate, as the recognizer uses them.
use fixedbitset::FixedBitSet;
use vstd::prelude::*;

verus! {

#[verifier::external_type_specification]
#[verifier::external_body]
pub struct ExFixedBitSet(FixedBitSet);

/// The indices of the bits that are set.
pub uninterp spec fn bitset_ones(s: FixedBitSet) -> Set<int>;

/// The number of bits the set was made with (its length).
pub uninterp spec fn bitset_len(s: FixedBitSet) -> nat;

/// Relies on `FixedBitSet::with_capacity`: `bits` bits, all clear.
pub assume_specification[ FixedBitSet::with_capacity ](bits: usize) -> (r: FixedBitSet)
    ensures
        bitset_len(r) == bits,
        bitset_ones(r) == Set::<int>::empty(),
;

/// Relies on `FixedBitSet::contains`: whether the bit is set (false past the end).
pub assume_specification[ FixedBitSet::contains ](s: &FixedBitSet, bit: usize) -> (r: bool)
    ensures
        r == (bit < bitset_len(*s) && bitset_ones(*s).contains(bit as int)),
;

/// Relies on `FixedBitSet::insert`, which panics on a bit past the end.
pub assume_specification[ FixedBitSet::insert ](s: &mut FixedBitSet, bit: usize)
    requires
        bit < bitset_len(*old(s)),
    ensures
        bitset_len(*final(s)) == bitset_len(*old(s)),
        bitset_ones(*final(s)) == bitset_ones(*old(s)).insert(bit as int),
;

/// Relies on `FixedBitSet::clear`: every bit cleared, the length kept.
pub assume_specification[ FixedBitSet::clear ](s: &mut FixedBitSet)
    ensures
        bitset_len(*final(s)) == bitset_len(*old(s)),
        bitset_ones(*final(s)) == Set::<int>::empty(),
;

/// Relies on `FixedBitSet::union_with`: grows to the longer length, then ors the bits.
pub assume_specification[ FixedBitSet::union_with ](s: &mut FixedBitSet, other: &FixedBitSet)
    ensures
        bitset_len(*final(s)) == if bitset_len(*other) > bitset_len(*old(s)) {
            bitset_len(*other)
        } else {
            bitset_len(*old(s))
        },
        bitset_ones(*final(s)) == bitset_ones(*old(s)).union(bitset_ones(*other)),
;

/// Relies on `FixedBitSet`'s `Clone`: the same blocks and length.
pub assume_specification[ <FixedBitSet as Clone>::clone ](s: &FixedBitSet) -> (r: FixedBitSet)
    ensures
        bitset_len(r) == bitset_len(*s),
        bitset_ones(r) == bitset_ones(*s),
;

} // verus!
