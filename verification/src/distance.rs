use vstd::prelude::*;

verus! {

/// The place of a 32-bit float, given by its bits, in the total order on
/// floats: negative values below positive ones, a larger magnitude further
/// from zero, negative zero just below positive zero.
pub open spec fn rank_of_bits(bits: u32) -> int {
    if bits < 0x8000_0000 {
        bits as int
    } else {
        0x7fff_ffff - bits as int
    }
}

/// The rank of the float with the bits `bits`. Ranks compare as the floats do
/// in their total order, so a rank can stand for a distance.
pub fn total_order_rank(bits: u32) -> (rank: i32)
    ensures
        rank == rank_of_bits(bits),
{
    if bits < 0x8000_0000 {
        bits as i32
    } else {
        let below: i64 = 0x7fff_ffff - (bits as i64);
        below as i32
    }
}

/// Ranks tell floats apart: two bit patterns have the same rank only if they
/// are the same, and among floats of one sign the rank follows the magnitude.
pub proof fn lemma_rank_orders(a: u32, b: u32)
    ensures
        rank_of_bits(a) == rank_of_bits(b) <==> a == b,
        a < 0x8000_0000 && b < 0x8000_0000 ==> (rank_of_bits(a) < rank_of_bits(b) <==> a < b),
        a >= 0x8000_0000 && b >= 0x8000_0000 ==> (rank_of_bits(a) < rank_of_bits(b) <==> a > b),
        a >= 0x8000_0000 && b < 0x8000_0000 ==> rank_of_bits(a) < rank_of_bits(b),
{
}

} // verus!
