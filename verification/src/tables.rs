//! The length table: for each 12-bit group of four length codes, how many
//! data bytes the four values take together.

use vstd::prelude::*;
use crate::code::width_of_code;
use crate::layout::{code_in, lemma_code_in_bound};

verus! {

/// The number of entries of the table: one for each 12-bit group.
pub const GROUPS: u32 = 4096;

/// The entry for `group`: the sum of `code + 1` over its four codes.
pub open spec fn length_spec(group: u32) -> nat {
    width_of_code(code_in(group, 0)) + width_of_code(code_in(group, 1)) + width_of_code(
        code_in(group, 2),
    ) + width_of_code(code_in(group, 3))
}

/// Returns the table entry for `group`, a value from 4 to 32.
pub fn length(group: u32) -> (len: u8)
    requires
        group < GROUPS,
    ensures
        len == length_spec(group),
        4 <= len <= 32,
{
    let c0: u32 = group & 7;
    let c1: u32 = (group >> 3) & 7;
    let c2: u32 = (group >> 6) & 7;
    let c3: u32 = (group >> 9) & 7;
    proof {
        lemma_code_in_bound(group, 0);
        lemma_code_in_bound(group, 1);
        lemma_code_in_bound(group, 2);
        lemma_code_in_bound(group, 3);
        assert(group & 7 == (group >> 0u32) & 7) by (bit_vector);
    }
    (c0 + c1 + c2 + c3 + 4) as u8
}

/// The low half of a 24-bit key group holds its slots 0 to 3, the high half
/// its slots 4 to 7.
pub proof fn lemma_half_codes(word: u32)
    requires
        word >> 24 == 0,
    ensures
        word & 0xfff < GROUPS,
        word >> 12 < GROUPS,
        forall|slot: int|
            0 <= slot < 4 ==> #[trigger] code_in(word & 0xfff, slot) == code_in(word, slot),
        forall|slot: int|
            0 <= slot < 4 ==> #[trigger] code_in(word >> 12, slot) == code_in(word, slot + 4),
{
    let lo: u32 = word & 0xfff;
    let hi: u32 = word >> 12;
    assert(word & 0xfff < 4096) by (bit_vector);
    assert(word >> 12 < 4096) by (bit_vector)
        requires
            word >> 24 == 0,
    ;
    assert forall|slot: int| 0 <= slot < 4 implies #[trigger] code_in(word & 0xfff, slot)
        == code_in(word, slot) by {
        let s: u32 = (3 * slot) as u32;
        lemma_code_in_bound(lo, slot);
        lemma_code_in_bound(word, slot);
        assert(((word & 0xfff) >> s) & 7 == (word >> s) & 7) by (bit_vector)
            requires
                s <= 9,
        ;
    }
    assert forall|slot: int| 0 <= slot < 4 implies #[trigger] code_in(word >> 12, slot)
        == code_in(word, slot + 4) by {
        let s: u32 = (3 * slot) as u32;
        let t: u32 = (3 * (slot + 4)) as u32;
        lemma_code_in_bound(hi, slot);
        lemma_code_in_bound(word, slot + 4);
        assert(((word >> 12) >> s) & 7 == (word >> t) & 7) by (bit_vector)
            requires
                s <= 9,
                t == s + 12,
        ;
    }
}

/// The table entries for the two halves of a 24-bit key group add up the
/// widths of its eight slots.
pub proof fn lemma_length_halves(word: u32)
    requires
        word >> 24 == 0,
    ensures
        word & 0xfff < GROUPS,
        word >> 12 < GROUPS,
        length_spec(word & 0xfff) == width_of_code(code_in(word, 0)) + width_of_code(
            code_in(word, 1),
        ) + width_of_code(code_in(word, 2)) + width_of_code(code_in(word, 3)),
        length_spec(word >> 12) == width_of_code(code_in(word, 4)) + width_of_code(
            code_in(word, 5),
        ) + width_of_code(code_in(word, 6)) + width_of_code(code_in(word, 7)),
{
    lemma_half_codes(word);
    assert(code_in(word & 0xfff, 0) == code_in(word, 0));
    assert(code_in(word & 0xfff, 1) == code_in(word, 1));
    assert(code_in(word & 0xfff, 2) == code_in(word, 2));
    assert(code_in(word & 0xfff, 3) == code_in(word, 3));
    assert(code_in(word >> 12, 0) == code_in(word, 0int + 4));
    assert(code_in(word >> 12, 1) == code_in(word, 1int + 4));
    assert(code_in(word >> 12, 2) == code_in(word, 2int + 4));
    assert(code_in(word >> 12, 3) == code_in(word, 3int + 4));
}

} // verus!
