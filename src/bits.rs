//! Trusted boundary to the `fixedbitset` and `rand` crates.

use fixedbitset::FixedBitSet;
use rand::Rng;
use vstd::prelude::*;

verus! {

#[verifier::external_type_specification]
#[verifier::external_body]
pub struct ExFixedBitSet(FixedBitSet);

/// The bits a `FixedBitSet` holds, in index order.
pub uninterp spec fn bits_of(b: FixedBitSet) -> Seq<bool>;

/// Relies on `FixedBitSet::with_capacity`: `n` bits, all cleared.
#[verifier::external_body]
pub(crate) fn bitset_with_capacity(n: usize) -> (r: FixedBitSet)
    ensures
        bits_of(r) == Seq::new(n as nat, |i: int| false),
{
    FixedBitSet::with_capacity(n)
}

/// Relies on `FixedBitSet::len`: the number of bits.
#[verifier::external_body]
pub(crate) fn bitset_len(b: &FixedBitSet) -> (r: usize)
    ensures
        r == bits_of(*b).len(),
{
    b.len()
}

/// Relies on `FixedBitSet::contains`: the bit at `i`.
#[verifier::external_body]
pub(crate) fn bitset_contains(b: &FixedBitSet, i: usize) -> (r: bool)
    requires
        i < bits_of(*b).len(),
    ensures
        r == bits_of(*b)[i as int],
{
    b.contains(i)
}

/// Relies on `FixedBitSet::set`: writes the bit at `i`; it panics past the length.
#[verifier::external_body]
pub(crate) fn bitset_set(b: &mut FixedBitSet, i: usize, v: bool)
    requires
        i < bits_of(*old(b)).len(),
    ensures
        bits_of(*final(b)) == bits_of(*old(b)).update(i as int, v),
{
    b.set(i, v)
}

/// Relies on `FixedBitSet::as_slice`: the 32-bit blocks, bit `k` stored in
/// block `k / 32` at position `k % 32`.
#[verifier::external_body]
pub(crate) fn bitset_blocks(b: &FixedBitSet) -> (r: &[u32])
    ensures
        r@.len() == (bits_of(*b).len() + 31) / 32,
        forall|k: int|
            0 <= k < bits_of(*b).len() ==> #[trigger] bits_of(*b)[k] == ((r@[k / 32] >> ((k % 32) as u32))
                & 1u32 == 1u32),
{
    b.as_slice()
}

/// Relies on `rand::thread_rng` and `Rng::gen_range(0..100)`: a draw below 100.
#[verifier::external_body]
pub(crate) fn draw_percent() -> (r: u32)
    ensures
        r < 100,
{
    rand::thread_rng().gen_range(0..100)
}

/// Relies on `String`'s `FromIterator<char>`: the characters in order.
#[verifier::external_body]
pub(crate) fn string_of_chars(v: Vec<char>) -> (r: String)
    ensures
        r@ == v@,
{
    v.into_iter().collect()
}

} // verus!
