//! The fixed-size bit sets of the `fixedbitset` crate, as far as this library
//! uses them.
use vstd::prelude::*;
use fixedbitset::FixedBitSet;

verus! {

#[verifier::external_type_specification]
#[verifier::external_body]
pub struct ExFixedBitSet(FixedBitSet);

/// Every bit that the set's blocks of 32 hold, in order: bit `k` is bit
/// `k % 32` of block `k / 32`. The set's length may end before the last
/// block does.
pub uninterp spec fn bitset_bits(s: FixedBitSet) -> Seq<bool>;

/// The number of bits the set was made with.
pub uninterp spec fn bitset_len(s: FixedBitSet) -> nat;

/// The number of blocks of 32 that hold `n` bits.
pub open spec fn blocks_for(n: int) -> int {
    n / 32 + if n % 32 != 0 {
        1int
    } else {
        0int
    }
}

/// Bit `k` of a sequence of blocks of 32, bit `k % 32` of block `k / 32`.
pub open spec fn block_bit(blocks: Seq<u32>, k: int) -> bool {
    (blocks[k / 32] >> ((k % 32) as u32)) & 1u32 == 1u32
}

/// Calls `FixedBitSet::with_capacity`, which allocates as many zeroed
/// blocks as `bits` bits need and records `bits` as the length.
#[verifier::external_body]
pub(crate) fn bitset_with_capacity(bits: usize) -> (s: FixedBitSet)
    ensures
        bitset_len(s) == bits,
        bitset_bits(s) == Seq::new((blocks_for(bits as int) * 32) as nat, |k: int| false),
{
    FixedBitSet::with_capacity(bits)
}

/// Calls `FixedBitSet::set`, which panics unless `bit` is below the length,
/// and otherwise sets or clears that one bit.
#[verifier::external_body]
pub(crate) fn bitset_set(s: &mut FixedBitSet, bit: usize, enabled: bool)
    requires
        bit < bitset_len(*old(s)),
    ensures
        bitset_len(*final(s)) == bitset_len(*old(s)),
        bitset_bits(*final(s)) == bitset_bits(*old(s)).update(bit as int, enabled),
{
    s.set(bit, enabled)
}

/// Calls `FixedBitSet`'s indexing, which gives the bit when its block exists
/// and `false` past the last block.
#[verifier::external_body]
pub(crate) fn bitset_get(s: &FixedBitSet, bit: usize) -> (b: bool)
    ensures
        b == (bit < bitset_bits(*s).len() && bitset_bits(*s)[bit as int]),
{
    s[bit]
}

/// Calls `FixedBitSet::as_slice`, which gives the blocks themselves.
#[verifier::external_body]
pub(crate) fn bitset_blocks(s: &FixedBitSet) -> (r: &[u32])
    ensures
        r@.len() * 32 == bitset_bits(*s).len(),
        forall|k: int| 0 <= k < bitset_bits(*s).len() ==> #[trigger] block_bit(r@, k) == bitset_bits(*s)[k],
{
    s.as_slice()
}

} // verus!
