//! Bit masks over `u64`: membership of single bits, and the few
//! bit-vector facts on which the board representation rests.

use vstd::prelude::*;

verus! {

/// Whether bit `i` of `m` is set.
pub open spec fn is_set(m: u64, i: u64) -> bool {
    i < 64 && (m & (1u64 << i)) != 0
}

/// `m` with bit `i` set.
pub open spec fn with_bit(m: u64, i: u64) -> u64 {
    m | (1u64 << i)
}

/// `m` with bit `i` cleared.
pub open spec fn without_bit(m: u64, i: u64) -> u64 {
    m ^ (m & (1u64 << i))
}

/// The mask of the bits below `n`.
pub open spec fn low(n: u64) -> u64 {
    !(0xFFFF_FFFF_FFFF_FFFFu64 << n)
}

/// Setting a bit of a field sets that bit and leaves the others and what
/// lies beyond the fields.
pub proof fn lemma_with_bit(m: u64, i: u64)
    by (bit_vector)
    requires
        i < 50,
    ensures
        forall|j: u64| j < 64 ==> (#[trigger] is_set(with_bit(m, i), j) == (j == i || is_set(m, j))),
        with_bit(m, i) >> 50 == m >> 50,
{
}

/// Clearing a bit of a field clears that bit and leaves the others and what
/// lies beyond the fields.
pub proof fn lemma_without_bit(m: u64, i: u64)
    by (bit_vector)
    requires
        i < 50,
    ensures
        forall|j: u64| j < 64 ==> (#[trigger] is_set(without_bit(m, i), j) == (j != i && is_set(m, j))),
        without_bit(m, i) >> 50 == m >> 50,
{
}

/// Flipping bit 50 changes that bit and no other.
pub proof fn lemma_flip_high(m: u64)
    by (bit_vector)
    ensures
        forall|j: u64|
            j < 64 ==> (#[trigger] is_set(m ^ 0x4_0000_0000_0000u64, j) == (if j == 50 {
                !is_set(m, j)
            } else {
                is_set(m, j)
            })),
        m >> 50 <= 1 ==> (m ^ 0x4_0000_0000_0000u64) >> 50 <= 1,
{
}

/// The bits of the constant masks.
pub proof fn lemma_constants()
    by (bit_vector)
    ensures
        forall|j: u64| j < 64 ==> (#[trigger] is_set(0x3_FFFF_FFFF_FFFFu64, j) == (j < 50)),
        forall|j: u64| j < 64 ==> !(#[trigger] is_set(0u64, j)),
        0x3_FFFF_FFFF_FFFFu64 >> 50 == 0,
        0u64 >> 50 == 0,
{
}

/// What the high part of a mask says of bit 50 and of the bits above it.
pub proof fn lemma_high(m: u64)
    by (bit_vector)
    ensures
        m >> 50 == 0 ==> !is_set(m, 50),
        m >> 50 <= 1 ==> m & low(51) == m,
        m & low(0) == 0,
        is_set(m, 50) <==> (m & 0x4_0000_0000_0000u64) != 0,
{
}

/// The low bits of a mask, one bit more at a time.
pub proof fn lemma_low_step(m: u64, i: u64)
    by (bit_vector)
    requires
        i < 63,
    ensures
        m & low((i + 1) as u64) == (m & low(i)) | (m & (1u64 << i)),
        is_set(m, i) ==> (m & (1u64 << i)) == (1u64 << i),
        !is_set(m, i) ==> (m & (1u64 << i)) == 0,
{
}

/// Masks that agree on every bit below `n` agree on their low `n` bits.
pub proof fn lemma_low_bits_equal(x: u64, y: u64, n: u64)
    requires
        n <= 51,
        forall|i: u64| i < n ==> is_set(x, i) == is_set(y, i),
    ensures
        x & low(n) == y & low(n),
    decreases n,
{
    if n == 0 {
        lemma_high(x);
        lemma_high(y);
    } else {
        let i = (n - 1) as u64;
        lemma_low_bits_equal(x, y, i);
        lemma_low_step(x, i);
        lemma_low_step(y, i);
        assert(is_set(x, i) == is_set(y, i));
    }
}

/// Masks of at most 51 bits that agree on each of these bits are equal.
pub proof fn lemma_mask_equal(x: u64, y: u64)
    requires
        x >> 50 <= 1,
        y >> 50 <= 1,
        forall|i: u64| i < 51 ==> is_set(x, i) == is_set(y, i),
    ensures
        x == y,
{
    lemma_low_bits_equal(x, y, 51);
    lemma_high(x);
    lemma_high(y);
}

} // verus!
