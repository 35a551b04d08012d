//! The vectorized decoder: eight values to a step, each half of a key group
//! unpacked from one 32-byte load by byte-lane shuffles.

use vstd::prelude::*;
use crate::error::CodecError;
use crate::keys::{get_word, keys_len};
use crate::layout::{
    code_at,
    code_in,
    data_offset,
    decoded,
    keys_len_spec,
    lemma_data_offset_bounds,
    lemma_word_bound,
    value_at,
    word_at,
};
use crate::scalar::{data_offset_within, decode_from};
use crate::shuffle::{
    lane_start,
    lane_value,
    lemma_lane_start,
    lemma_unpacked_lane,
    shuffle1,
    shuffle2,
    unpacked,
};
use crate::tables::{lemma_half_codes, length, length_spec, GROUPS};
use crate::vector::{lane_of, lanes, load, or_bytes, rotate_lanes, shuffle_bytes};

verus! {

/// The number of values at the end that are left to the scalar decoder, so
/// that no 32-byte load reaches past the data segment.
pub const RESERVED: usize = 56;

/// The number of key groups that the vectorized decoder takes in blocks when
/// there are `count` values.
pub open spec fn block_groups(count: nat) -> nat {
    if count <= 56 {
        0
    } else {
        ((count - 56) / 8) as nat
    }
}

/// Returns the number of key groups that the vectorized decoder takes in
/// blocks when there are `values` values: all but those of the last 56
/// values.
pub fn block_count(values: usize) -> (blocks: usize)
    ensures
        blocks == block_groups(values as nat),
        values >= RESERVED ==> 8 * blocks + RESERVED <= values,
        values <= RESERVED ==> blocks == 0,
{
    if values > RESERVED {
        (values - RESERVED) / 8
    } else {
        0
    }
}

/// The 12 bits of half `half` of a key group: its low four codes for half
/// 0, its high four for half 1.
pub open spec fn half_group(word: u32, half: int) -> u32 {
    if half == 0 {
        word & 0xfff
    } else {
        word >> 12
    }
}

/// Within the half of a key group, the table's lane starts are the offsets
/// that the key segment gives.
pub proof fn lemma_lane_offsets(keys: Seq<u8>, group: nat, half: int, lane: int)
    requires
        0 <= half < 2,
        0 <= lane <= 4,
    ensures
        data_offset(keys, (8 * group + 4 * half + lane) as nat) == data_offset(
            keys,
            (8 * group + 4 * half) as nat,
        ) + lane_start(half_group(word_at(keys, group as int), half), lane),
    decreases lane,
{
    if lane > 0 {
        let word = word_at(keys, group as int);
        let index = 8 * group + 4 * half + lane - 1;
        lemma_lane_offsets(keys, group, half, lane - 1);
        lemma_word_bound(keys, group as int);
        lemma_half_codes(word);
        assert(index / 8 == group as int);
        assert(index % 8 == 4 * half + lane - 1);
        assert(code_at(keys, index) == code_in(word, 4 * half + lane - 1));
        if half == 0 {
            assert(code_in(word & 0xfff, lane - 1) == code_in(word, lane - 1));
        } else {
            assert(code_in(word >> 12, lane - 1) == code_in(word, lane - 1 + 4));
        }
    }
}

/// The lane of a block is the value that the scalar decoder gives for that
/// index, and a block moves the data cursor by as many bytes as the scalar
/// decoder consumes for its four values.
pub proof fn lemma_block_agrees(keys: Seq<u8>, data: Seq<u8>, group: nat, half: int, lane: int)
    requires
        0 <= half < 2,
        0 <= lane < 4,
    ensures
        lane_value(
            data,
            data_offset(keys, (8 * group + 4 * half) as nat) as int,
            half_group(word_at(keys, group as int), half),
            lane,
        ) == value_at(keys, data, 8 * group + 4 * half + lane),
        data_offset(keys, (8 * group + 4 * half) as nat) + length_spec(
            half_group(word_at(keys, group as int), half),
        ) == data_offset(keys, (8 * group + 4 * half + 4) as nat),
{
    lemma_lane_offsets(keys, group, half, lane);
    lemma_lane_offsets(keys, group, half, lane + 1);
    lemma_lane_offsets(keys, group, half, 4);
    lemma_lane_start(half_group(word_at(keys, group as int), half), 4);
}

/// Every load of the vectorized path lies within the data segment: with at
/// least 56 values left for the scalar decoder, at least 32 bytes follow the
/// start of each block.
pub proof fn lemma_block_load_in_bounds(keys: Seq<u8>, count: nat, group: nat, half: int)
    requires
        group < block_groups(count),
        0 <= half < 2,
    ensures
        data_offset(keys, (8 * group + 4 * half) as nat) + 32 <= data_offset(keys, count),
{
    lemma_data_offset_bounds(keys, (8 * group + 4 * half) as nat, count);
}

/// The data cursor of the vectorized path after `halves` halves of key
/// groups: the sum of the table entries of those halves.
pub open spec fn block_cursor(keys: Seq<u8>, halves: nat) -> nat
    decreases halves,
{
    if halves == 0 {
        0
    } else {
        block_cursor(keys, (halves - 1) as nat) + length_spec(
            half_group(word_at(keys, (halves - 1) / 2), (halves - 1) % 2),
        )
    }
}

/// What the vectorized path stores as value `index` of `count`: within the
/// blocks a lane of the load at the block's cursor, unpacked by the two
/// masks, and behind the blocks what the scalar decoder gives.
pub open spec fn vectorized_value(keys: Seq<u8>, data: Seq<u8>, count: nat, index: int) -> u64 {
    if index < 8 * block_groups(count) {
        let pos = block_cursor(keys, (index / 4) as nat) as int;
        lane_of(
            unpacked(
                data.subrange(pos, pos + 32),
                half_group(word_at(keys, index / 8), (index / 4) % 2),
            ),
            index % 4,
        )
    } else {
        value_at(keys, data, index)
    }
}

/// The `count` values that the vectorized path decodes.
pub open spec fn vectorized(keys: Seq<u8>, data: Seq<u8>, count: nat) -> Seq<u64> {
    Seq::new(count, |i: int| vectorized_value(keys, data, count, i))
}

/// The cursor of the vectorized path is where the scalar decoder stands
/// after the same values.
pub proof fn lemma_block_cursor(keys: Seq<u8>, halves: nat)
    ensures
        block_cursor(keys, halves) == data_offset(keys, 4 * halves),
    decreases halves,
{
    if halves > 0 {
        let before = (halves - 1) as nat;
        lemma_block_cursor(keys, before);
        lemma_block_agrees(keys, Seq::empty(), before / 2, (before % 2) as int, 0);
        assert(8 * (before / 2) + 4 * (before % 2) == 4 * before);
    }
}

/// The vectorized path and the scalar path agree: from a data segment long
/// enough for the codes of `count` values, every load of the vectorized path
/// lies within the data, both paths decode the same values, and both leave
/// the cursor at the same place.
pub proof fn lemma_vectorized_agrees(keys: Seq<u8>, data: Seq<u8>, count: nat)
    requires
        data_offset(keys, count) <= data.len(),
    ensures
        forall|halves: nat|
            halves < 2 * block_groups(count) ==> #[trigger] block_cursor(keys, halves) + 32
                <= data.len(),
        vectorized(keys, data, count) == decoded(keys, data, count),
        block_cursor(keys, 2 * block_groups(count)) == data_offset(keys, 8 * block_groups(count)),
{
    let blocks = block_groups(count);
    assert forall|halves: nat| halves < 2 * blocks implies #[trigger] block_cursor(keys, halves)
        + 32 <= data.len() by {
        lemma_block_cursor(keys, halves);
        lemma_block_load_in_bounds(keys, count, halves / 2, (halves % 2) as int);
        assert(8 * (halves / 2) + 4 * (halves % 2) == 4 * halves);
    }
    assert forall|i: int| 0 <= i < count implies vectorized_value(keys, data, count, i)
        == #[trigger] value_at(keys, data, i) by {
        if i < 8 * blocks {
            let halves = (i / 4) as nat;
            let group = (i / 8) as nat;
            let half = (i / 4) % 2;
            let lane = i % 4;
            let pos = block_cursor(keys, halves) as int;
            assert(halves < 2 * blocks);
            assert(block_cursor(keys, halves) + 32 <= data.len());
            lemma_block_cursor(keys, halves);
            assert(8 * group + 4 * half == 4 * halves);
            assert(8 * group + 4 * half + lane == i);
            lemma_unpacked_lane(data, pos, half_group(word_at(keys, group as int), half), lane);
            lemma_block_agrees(keys, data, group, half, lane);
        }
    }
    assert(vectorized(keys, data, count) =~= decoded(keys, data, count));
    lemma_block_cursor(keys, 2 * blocks);
}

/// Decodes the four values of the 12-bit group `group` from the 32 bytes of
/// `data` at the cursor `*pos`, and moves the cursor past their byte runs.
pub fn decode_block(data: &[u8], pos: &mut usize, group: u32) -> (values: [u64; 4])
    requires
        group < GROUPS,
        *old(pos) + 32 <= data.len(),
    ensures
        forall|lane: int|
            0 <= lane < 4 ==> #[trigger] values@[lane] == lane_value(
                data@,
                *old(pos) as int,
                group,
                lane,
            ),
        *final(pos) == *old(pos) + length_spec(group),
{
    let advance: u8 = length(group);
    let window: [u8; 32] = load(data, *pos);
    let mask1: [u8; 32] = shuffle1(group);
    let data1: [u8; 32] = shuffle_bytes(&window, &mask1);
    let mask2: [u8; 32] = shuffle2(group);
    let shuffled2: [u8; 32] = shuffle_bytes(&window, &mask2);
    let data2: [u8; 32] = rotate_lanes(&shuffled2);
    let merged: [u8; 32] = or_bytes(&data1, &data2);
    let values: [u64; 4] = lanes(&merged);
    proof {
        assert forall|lane: int| 0 <= lane < 4 implies #[trigger] values@[lane] == lane_value(
            data@,
            *old(pos) as int,
            group,
            lane,
        ) by {
            lemma_unpacked_lane(data@, *old(pos) as int, group, lane);
        }
    }
    *pos = *pos + advance as usize;
    values
}

/// Stores four values in `output` from index `at` on.
fn store(output: &mut [u64], at: usize, values: &[u64; 4])
    requires
        at + 4 <= old(output).len(),
    ensures
        final(output)@.len() == old(output)@.len(),
        forall|j: int|
            0 <= j < old(output)@.len() ==> #[trigger] final(output)@[j] == if at <= j < at + 4 {
                values@[j - at]
            } else {
                old(output)@[j]
            },
{
    let mut lane: usize = 0;
    while lane < 4
        invariant
            lane <= 4,
            at + 4 <= output.len(),
            output@.len() == old(output)@.len(),
            forall|j: int|
                0 <= j < output@.len() ==> #[trigger] output@[j] == if at <= j < at + lane {
                    values@[j - at]
                } else {
                    old(output)@[j]
                },
        decreases 4 - lane,
    {
        output[at + lane] = values[lane];
        lane += 1;
    }
}

/// Decodes all of `output` from buffers known to be long enough: in blocks
/// while more than 56 values are left, then value by value.
pub(crate) fn decode_blocks(output: &mut [u64], keys: &[u8], data: &[u8]) -> (read: usize)
    requires
        keys_len_spec(old(output)@.len()) <= keys@.len(),
        data_offset(keys@, old(output)@.len()) <= data.len(),
    ensures
        read == data_offset(keys@, old(output)@.len()),
        final(output)@ == decoded(keys@, data@, old(output)@.len()),
{
    let n: usize = output.len();
    let iters: usize = block_count(n);
    let mut pos: usize = 0;
    let mut group: usize = 0;
    while group < iters
        invariant
            group <= iters,
            iters == block_groups(n as nat),
            n == output@.len(),
            keys_len_spec(n as nat) <= keys@.len(),
            data_offset(keys@, n as nat) <= data.len(),
            pos == data_offset(keys@, (8 * group) as nat),
            forall|j: int| 0 <= j < 8 * group ==> #[trigger] output@[j] == value_at(keys@, data@, j),
        decreases iters - group,
    {
        let word: u32 = get_word(keys, group);
        let ghost start = pos as int;
        proof {
            lemma_half_codes(word);
            lemma_block_load_in_bounds(keys@, n as nat, group as nat, 0);
            lemma_block_load_in_bounds(keys@, n as nat, group as nat, 1);
            assert forall|lane: int| 0 <= lane < 4 implies lane_value(
                data@,
                start,
                word & 0xfff,
                lane,
            ) == #[trigger] value_at(keys@, data@, 8 * group + lane) by {
                lemma_block_agrees(keys@, data@, group as nat, 0, lane);
            }
            assert forall|lane: int| 0 <= lane < 4 implies lane_value(
                data@,
                data_offset(keys@, (8 * group + 4) as nat) as int,
                word >> 12,
                lane,
            ) == #[trigger] value_at(keys@, data@, 8 * group + 4 + lane) by {
                lemma_block_agrees(keys@, data@, group as nat, 1, lane);
            }
            lemma_block_agrees(keys@, data@, group as nat, 0, 0);
            lemma_block_agrees(keys@, data@, group as nat, 1, 0);
        }
        let low: [u64; 4] = decode_block(data, &mut pos, word & 0xfff);
        store(output, 8 * group, &low);
        let high: [u64; 4] = decode_block(data, &mut pos, word >> 12);
        store(output, 8 * group + 4, &high);
        proof {
            assert forall|j: int| 0 <= j < 8 * (group + 1) implies #[trigger] output@[j]
                == value_at(keys@, data@, j) by {
                if j >= 8 * group + 4 {
                    let lane = j - (8 * group + 4);
                    assert(output@[j] == high@[lane]);
                    assert(j == 8 * group + 4 + lane);
                } else if j >= 8 * group {
                    let lane = j - 8 * group;
                    assert(output@[j] == low@[lane]);
                    assert(j == 8 * group + lane);
                }
            }
        }
        group += 1;
    }
    let read: usize = decode_from(output, keys, data, 8 * iters, pos);
    proof {
        assert(output@ =~= decoded(keys@, data@, n as nat));
    }
    read
}

/// Decodes `output.len()` values as `decode_scalar` does, with the same
/// result on every input, by the vectorized path: key groups are taken in
/// blocks of two 32-byte loads while more than 56 values are left, and the
/// rest is decoded value by value.
pub fn decode_avx(output: &mut [u64], keys: &[u8], data: &[u8]) -> (result: Result<
    usize,
    CodecError,
>)
    ensures
        result.is_ok() <==> keys_len_spec(old(output)@.len()) <= keys@.len() && data_offset(
            keys@,
            old(output)@.len(),
        ) <= data@.len(),
        result.is_ok() ==> {
            &&& result.unwrap() == data_offset(keys@, old(output)@.len())
            &&& final(output)@ == decoded(keys@, data@, old(output)@.len())
        },
        result.is_err() ==> {
            &&& result == Err::<usize, CodecError>(CodecError::BufferTooSmall)
            &&& final(output)@ == old(output)@
        },
{
    let n: usize = output.len();
    if keys.len() < keys_len(n) {
        return Err(CodecError::BufferTooSmall);
    }
    if data_offset_within(keys, n, data.len()).is_none() {
        return Err(CodecError::BufferTooSmall);
    }
    Ok(decode_blocks(output, keys, data))
}

} // verus!
