//! Size calculation: how long the segments are, from the number of values
//! and from the key segment alone.

use vstd::prelude::*;
use crate::error::CodecError;
use crate::keys::{get_word, keys_len};
use crate::layout::{
    code_at,
    code_in,
    data_offset,
    groups_of,
    key_data_len,
    keys_len_spec,
    lemma_data_offset_bounds,
    lemma_word_bound,
    padding_is_zero,
    word_at,
};
use crate::tables::{lemma_length_halves, length, length_spec};

verus! {

/// The most bytes that the encoding of `count` values can take.
pub open spec fn max_compressed_len_spec(count: nat) -> nat {
    keys_len_spec(count) + 8 * count
}

/// Returns an upper bound on the encoded length of `values` values: the key
/// segment and eight data bytes a value.
pub fn max_compressed_len(values: usize) -> (len: usize)
    requires
        max_compressed_len_spec(values as nat) <= usize::MAX,
    ensures
        len == max_compressed_len_spec(values as nat),
        len == keys_len_spec(values as nat) + 8 * values,
{
    keys_len(values) + values * 8
}

/// The eight slots of a key group take as many data bytes as the two table
/// entries for its halves say.
pub proof fn lemma_group_offset(keys: Seq<u8>, group: nat)
    ensures
        data_offset(keys, 8 * group + 4) == data_offset(keys, 8 * group) + length_spec(
            word_at(keys, group as int) & 0xfff,
        ),
        data_offset(keys, 8 * group + 8) == data_offset(keys, 8 * group + 4) + length_spec(
            word_at(keys, group as int) >> 12,
        ),
{
    let word = word_at(keys, group as int);
    let base: int = (8 * group) as int;
    lemma_word_bound(keys, group as int);
    lemma_length_halves(word);
    assert forall|slot: int| 0 <= slot < 8 implies #[trigger] code_at(keys, base + slot)
        == code_in(word, slot) by {
        assert((base + slot) / 8 == group as int);
        assert((base + slot) % 8 == slot);
    }
    assert(code_at(keys, base + 0) == code_in(word, 0));
    assert(code_at(keys, base + 1) == code_in(word, 1));
    assert(code_at(keys, base + 2) == code_in(word, 2));
    assert(code_at(keys, base + 3) == code_in(word, 3));
    assert(code_at(keys, base + 4) == code_in(word, 4));
    assert(code_at(keys, base + 5) == code_in(word, 5));
    assert(code_at(keys, base + 6) == code_in(word, 6));
    assert(code_at(keys, base + 7) == code_in(word, 7));
    reveal_with_fuel(data_offset, 5);
}

/// The data length that the key segment implies, in a type wide enough for
/// any key segment.
pub(crate) fn table_data_len(values: usize, keys: &[u8]) -> (total: u128)
    requires
        keys_len_spec(values as nat) <= keys@.len(),
    ensures
        total == key_data_len(keys@, values as nat),
{
    let groups: usize = keys_len(values) / 3;
    let mut total: u128 = 0;
    let mut group: usize = 0;
    while group < groups
        invariant
            group <= groups,
            groups == groups_of(values as nat),
            3 * groups <= keys@.len(),
            total == data_offset(keys@, (8 * group) as nat),
            total <= 64 * group,
        decreases groups - group,
    {
        let word: u32 = get_word(keys, group);
        proof {
            lemma_group_offset(keys@, group as nat);
            lemma_length_halves(word);
        }
        total += length(word & 0xfff) as u128;
        total += length(word >> 12) as u128;
        group += 1;
    }
    proof {
        lemma_data_offset_bounds(keys@, 0, (8 * groups) as nat);
    }
    if values % 8 == 0 {
        total
    } else {
        total - (8 - values % 8) as u128
    }
}

/// Computes, from the key segment alone, how many data bytes `values` values
/// take: for each key group the two table entries for its halves, less one
/// byte for each slot of the last group that no value fills.
///
/// Fails when `keys` is shorter than the key segment for that many values,
/// or when the length is more than any buffer can hold.
pub fn compressed_len(values: usize, keys: &[u8]) -> (result: Result<usize, CodecError>)
    ensures
        result.is_ok() <==> keys_len_spec(values as nat) <= keys@.len() && key_data_len(
            keys@,
            values as nat,
        ) <= usize::MAX,
        result.is_ok() ==> result.unwrap() == key_data_len(keys@, values as nat),
        result.is_err() ==> result == Err::<usize, CodecError>(CodecError::BufferTooSmall),
{
    if keys.len() < keys_len(values) {
        return Err(CodecError::BufferTooSmall);
    }
    let total: u128 = table_data_len(values, keys);
    if total > usize::MAX as u128 {
        return Err(CodecError::BufferTooSmall);
    }
    Ok(total as usize)
}

/// The data length that the key segment implies is never less than what its
/// codes call for, and no more than eight bytes a value and seven bytes a
/// slot that no value fills.
pub proof fn lemma_key_data_len_bounds(keys: Seq<u8>, count: nat)
    ensures
        data_offset(keys, count) <= key_data_len(keys, count) <= 8 * count + 49,
{
    lemma_data_offset_bounds(keys, count, 8 * groups_of(count));
    lemma_data_offset_bounds(keys, 0, count);
}

/// Where the slots after the last value hold code zero, the data length that
/// the key segment implies is the sum of the widths of the values' codes.
pub proof fn lemma_key_data_len_exact(keys: Seq<u8>, count: nat)
    requires
        padding_is_zero(keys, count),
    ensures
        key_data_len(keys, count) == data_offset(keys, count),
{
    lemma_padding_offset(keys, count, 8 * groups_of(count));
}

/// Each slot of code zero after the last value moves the offset by one byte.
proof fn lemma_padding_offset(keys: Seq<u8>, count: nat, to: nat)
    requires
        padding_is_zero(keys, count),
        count <= to <= 8 * groups_of(count),
    ensures
        data_offset(keys, to) == data_offset(keys, count) + (to - count),
    decreases to - count,
{
    if count < to {
        lemma_padding_offset(keys, count, (to - 1) as nat);
        assert(code_at(keys, to - 1) == 0);
    }
}

} // verus!
