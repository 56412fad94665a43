//! The simulation tape: a bi-infinite two-symbol tape realized as a fixed
//! window of bits, stored in a `bit_set::BitSet`. A set member at position
//! `i` means the tape holds symbol one there; absence means blank.
//!
//! Verus refuses a declaration of `BitSet` itself (its generic parameter
//! carries a foreign trait bound), so the set is held in a private field of
//! an opaque struct, reached only through the trusted wrappers below.

use vstd::prelude::*;
use bit_set::BitSet;

verus! {

/// One simulation tape. Opaque to the verifier; its contents are named by
/// `tape_set`.
#[verifier::external_body]
pub struct Tape {
    bits: BitSet,
}

/// The set of positions at which the tape holds a one bit.
pub uninterp spec fn tape_set(t: Tape) -> Set<int>;

/// Relies on bit_set::BitSet::with_capacity: the set it creates is empty,
/// whatever capacity was reserved.
#[verifier::external_body]
pub(crate) fn tape_new(nbits: usize) -> (t: Tape)
    ensures
        tape_set(t) == Set::<int>::empty(),
{
    Tape { bits: BitSet::with_capacity(nbits) }
}

/// Relies on bit_set::BitSet::contains: reports whether `i` is a member.
#[verifier::external_body]
pub(crate) fn tape_get(t: &Tape, i: usize) -> (r: bool)
    ensures
        r == tape_set(*t).contains(i as int),
{
    t.bits.contains(i)
}

/// Relies on bit_set::BitSet::insert: adds `i` to the set, growing the
/// underlying storage as needed. Inserting `usize::MAX` is excluded: the
/// grown storage would need to count `usize::MAX + 1` bits, on which the
/// growth arithmetic aborts.
#[verifier::external_body]
pub(crate) fn tape_insert(t: &mut Tape, i: usize)
    requires
        i < usize::MAX,
    ensures
        tape_set(*final(t)) == tape_set(*old(t)).insert(i as int),
{
    t.bits.insert(i);
}

/// Relies on bit_set::BitSet::remove: removes `i` from the set; a no-op
/// when `i` is absent.
#[verifier::external_body]
pub(crate) fn tape_remove(t: &mut Tape, i: usize)
    ensures
        tape_set(*final(t)) == tape_set(*old(t)).remove(i as int),
{
    t.bits.remove(i);
}

} // verus!
