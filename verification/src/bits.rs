//! Bit sets used for the match sets and the access masks.
//!
//! The sets are `fixedbitset::FixedBitSet` values. The crate is used through
//! the trusted declarations below: `bit_set_bits` names the set of enabled
//! bit positions, `bit_set_len` the capacity in bits, and each wrapper states
//! what the wrapped method does to those two.

use vstd::prelude::*;

verus! {

#[verifier::external_type_specification]
#[verifier::external_body]
pub struct ExFixedBitSet(fixedbitset::FixedBitSet);

/// The positions of the enabled bits of `s`.
pub uninterp spec fn bit_set_bits(s: fixedbitset::FixedBitSet) -> Set<int>;

/// The capacity of `s` in bits; positions at or above it are disabled.
pub uninterp spec fn bit_set_len(s: fixedbitset::FixedBitSet) -> int;

/// Relies on fixedbitset::FixedBitSet::new: an empty set with zero capacity.
#[verifier::external_body]
pub fn bit_set_new() -> (r: fixedbitset::FixedBitSet)
    ensures
        bit_set_bits(r) == Set::<int>::empty(),
        bit_set_len(r) == 0,
{
    fixedbitset::FixedBitSet::new()
}

/// Relies on fixedbitset::FixedBitSet::grow: capacity becomes at least
/// `bits`, every new bit starts disabled, enabled bits are kept.
#[verifier::external_body]
pub fn bit_set_grow(s: &mut fixedbitset::FixedBitSet, bits: usize)
    ensures
        bit_set_bits(*final(s)) == bit_set_bits(*old(s)),
        bit_set_len(*final(s)) == if bits > bit_set_len(*old(s)) {
            bits as int
        } else {
            bit_set_len(*old(s))
        },
{
    s.grow(bits);
}

/// Relies on fixedbitset::FixedBitSet::contains: whether `bit` is enabled
/// (positions at or above the capacity are disabled).
#[verifier::external_body]
pub fn bit_set_contains(s: &fixedbitset::FixedBitSet, bit: usize) -> (r: bool)
    ensures
        r == bit_set_bits(*s).contains(bit as int),
{
    s.contains(bit)
}

/// Relies on fixedbitset::FixedBitSet::set: enables `bit`; panics iff `bit`
/// is out of capacity, which the precondition excludes.
#[verifier::external_body]
pub fn bit_set_put(s: &mut fixedbitset::FixedBitSet, bit: usize)
    requires
        bit < bit_set_len(*old(s)),
    ensures
        bit_set_bits(*final(s)) == bit_set_bits(*old(s)).insert(bit as int),
        bit_set_len(*final(s)) == bit_set_len(*old(s)),
{
    s.set(bit, true);
}

} // verus!
