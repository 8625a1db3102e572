use vstd::prelude::*;

verus! {

/// Clearing bit `c` of a mask turns off LED `c` and leaves every other bit as it was.
pub proof fn lemma_clear_bit(d: u32, c: u32, k: u32)
    requires
        c < 8,
        k < 32,
    ensures
        ((d & !(1u32 << c)) >> k) & 1 == 1 <==> ((d >> k) & 1 == 1 && k != c),
        d < 256 ==> (d & !(1u32 << c)) < 256,
{
    assert(((d & !(1u32 << c)) >> k) & 1 == 1 <==> ((d >> k) & 1 == 1 && k != c))
        by (bit_vector)
        requires
            c < 8,
            k < 32,
    ;
    assert(d < 256 ==> (d & !(1u32 << c)) < 256) by (bit_vector)
        requires
            c < 8,
    ;
}

/// The mask with the eight low bits set has each of LEDs `0..8` on.
pub proof fn lemma_full_mask(k: u32)
    requires
        k < 8,
    ensures
        (255u32 >> k) & 1 == 1,
{
    assert((255u32 >> k) & 1 == 1) by (bit_vector)
        requires
            k < 8,
    ;
}

/// The empty mask has every LED off.
pub proof fn lemma_empty_mask(k: u32)
    ensures
        (0u32 >> k) & 1 == 0,
{
    assert((0u32 >> k) & 1 == 0) by (bit_vector);
}

/// Shifting a mask of eight bits into the top byte of a word is a multiplication by 2^24.
pub proof fn lemma_top_byte(d: u32)
    requires
        d < 256,
    ensures
        d << 24u32 == d * 0x100_0000,
{
    assert(d << 24u32 == d * 0x100_0000) by (bit_vector)
        requires
            d < 256,
    ;
}

} // verus!
