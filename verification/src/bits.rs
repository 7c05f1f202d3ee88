//! Single bits and bit masks of a 64-bit value.

use vstd::prelude::*;

verus! {

/// Number of cells in the bit grid, one for each bit of the value.
pub const GRID_CELLS: usize = 64;

/// The value with the one bit at `bit_index` flipped and every other bit kept.
pub open spec fn toggled(value: u64, bit_index: u32) -> u64
    recommends
        bit_index < 64,
{
    value ^ (1u64 << bit_index)
}

/// The all-ones pattern of `width` bits: `2^width - 1`, which for a width of
/// 64 is every bit of the word.
pub open spec fn mask_of(width: u32) -> u64
    recommends
        width <= 64,
{
    if width >= 64 {
        u64::MAX
    } else {
        ((1u64 << width) - 1) as u64
    }
}

/// Flips the bit at `bit_index` and leaves the other sixty-three alone.
pub fn toggle(value: u64, bit_index: u32) -> (r: u64)
    requires
        bit_index < 64,
    ensures
        r == toggled(value, bit_index),
        r != value,
        forall|j: u32| j < 64 && j != bit_index ==> (#[trigger] (r >> j)) & 1 == (value >> j) & 1,
        (r >> bit_index) & 1 == 1 - ((value >> bit_index) & 1),
{
    let r: u64 = value ^ (1u64 << bit_index);
    proof {
        assert(value ^ (1u64 << bit_index) != value) by (bit_vector)
            requires
                bit_index < 64,
        ;
        assert(((value ^ (1u64 << bit_index)) >> bit_index) & 1 == 1 - ((value >> bit_index) & 1))
            by (bit_vector)
            requires
                bit_index < 64,
        ;
        assert forall|j: u32| j < 64 && j != bit_index implies (#[trigger] (r >> j)) & 1 == (value
            >> j) & 1 by {
            assert(((value ^ (1u64 << bit_index)) >> j) & 1 == (value >> j) & 1) by (bit_vector)
                requires
                    j < 64,
                    bit_index < 64,
                    j != bit_index,
            ;
        }
    }
    r
}

/// Whether the bit at `bit_index` is one.
pub fn bit_is_set(value: u64, bit_index: u32) -> (r: bool)
    requires
        bit_index < 64,
    ensures
        r == ((value >> bit_index) & 1 == 1),
{
    ((value >> bit_index) & 1) == 1
}

/// The bit shown in grid cell `index`. The grid runs from the most significant
/// bit in cell 0 down to bit 0 in the last cell.
pub fn bit_position(index: usize) -> (r: u32)
    requires
        index < GRID_CELLS,
    ensures
        r == 63 - index,
{
    63 - (index as u32)
}

/// The mask that keeps the low `width` bits of a word.
pub fn field_mask(width: u32) -> (r: u64)
    requires
        width <= 64,
    ensures
        r == mask_of(width),
        width < 64 ==> r == vstd::arithmetic::power2::pow2(width as nat) - 1,
        width == 64 ==> r == u64::MAX,
{
    if width == 64 {
        u64::MAX
    } else {
        proof {
            lemma_low_mask(width);
        }
        (1u64 << width) - 1
    }
}

/// Below 64, shifting one left by `width` gives `2^width`, at least one.
pub proof fn lemma_low_mask(width: u32)
    requires
        width < 64,
    ensures
        (1u64 << width) == vstd::arithmetic::power2::pow2(width as nat),
        (1u64 << width) >= 1,
{
    vstd::bits::lemma_u64_pow2_no_overflow(width as nat);
    vstd::bits::lemma_u64_shl_is_mul(1u64, width as u64);
    vstd::arithmetic::power2::lemma_pow2_pos(width as nat);
}

/// Flipping the same bit twice gives the value back.
pub proof fn lemma_toggle_twice(value: u64, bit_index: u32)
    requires
        bit_index < 64,
    ensures
        toggled(toggled(value, bit_index), bit_index) == value,
{
    assert((value ^ (1u64 << bit_index)) ^ (1u64 << bit_index) == value) by (bit_vector);
}

} // verus!
