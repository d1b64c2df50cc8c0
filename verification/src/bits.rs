//! What this crate assumes of `fixedbitset::FixedBitSet`.
//!
//! The contracts given to the methods of the bit set are assumed, not
//! proved. Each restates what the method's source does, over the sequence
//! of bits that the set holds. Only `bits_from` at the end is verified.

use fixedbitset::FixedBitSet;
use vstd::prelude::*;

verus! {

/// `fixedbitset::FixedBitSet`, an opaque value to the verifier.
#[verifier::external_type_specification]
#[verifier::external_body]
pub struct ExFixedBitSet(fixedbitset::FixedBitSet);

/// The bits of a `FixedBitSet` in index order: one entry per bit of its
/// length, `true` where the bit is enabled.
pub uninterp spec fn bits_of(set: FixedBitSet) -> Seq<bool>;

/// `FixedBitSet::with_capacity`: a set of exactly `bits` bits, all clear.
pub assume_specification[ FixedBitSet::with_capacity ](bits: usize) -> (set: FixedBitSet)
    ensures
        bits_of(set) == Seq::new(bits as nat, |i: int| false),
;

/// `FixedBitSet::len`: the number of bits, set or not.
pub assume_specification[ FixedBitSet::len ](set: &FixedBitSet) -> (n: usize)
    ensures
        n == bits_of(*set).len(),
;

/// `FixedBitSet::contains`: for a bit below the length, whether it is
/// enabled. Nothing is claimed of a bit at or past the length: the method
/// then reads whatever the last storage block holds there.
pub assume_specification[ FixedBitSet::contains ](set: &FixedBitSet, bit: usize) -> (on: bool)
    ensures
        bit < bits_of(*set).len() ==> on == bits_of(*set)[bit as int],
;

/// `FixedBitSet::set`: writes `enabled` to `bit` and leaves every other bit
/// and the length as they were. It panics when `bit` is out of bounds, which
/// the precondition rules out.
pub assume_specification[ FixedBitSet::set ](set: &mut FixedBitSet, bit: usize, enabled: bool)
    requires
        bit < bits_of(*old(set)).len(),
    ensures
        bits_of(*final(set)) == bits_of(*old(set)).update(bit as int, enabled),
;

/// A fresh bit set holding exactly `cells`.
pub fn bits_from(cells: &Vec<bool>) -> (set: FixedBitSet)
    ensures
        bits_of(set) == cells@,
{
    let mut set = FixedBitSet::with_capacity(cells.len());
    let mut i: usize = 0;
    while i < cells.len()
        invariant
            i <= cells.len(),
            bits_of(set).len() == cells.len(),
            forall|k: int| 0 <= k < i ==> bits_of(set)[k] == cells@[k],
            forall|k: int| i <= k < cells.len() ==> !bits_of(set)[k],
        decreases cells.len() - i,
    {
        if cells[i] {
            set.set(i, true);
        }
        i += 1;
    }
    assert(bits_of(set) =~= cells@);
    set
}

} // verus!
