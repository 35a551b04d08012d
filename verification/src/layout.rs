//! The encoded layout as mathematics: what the key segment and the data
//! segment of a sequence of values are, and what a pair of segments decodes
//! to.

use vstd::prelude::*;
use crate::bytes::{le_bytes, le_value};
use crate::code::{code_of, width_of, width_of_code};

verus! {

/// The number of key groups for `count` values: eight values to a group.
pub open spec fn groups_of(count: nat) -> nat {
    (count + 7) / 8
}

/// The length of the key segment for `count` values: three bytes a group.
pub open spec fn keys_len_spec(count: nat) -> nat {
    groups_of(count) * 3
}

/// The 24-bit group made of three key bytes, least significant first.
pub open spec fn word_of(b0: u8, b1: u8, b2: u8) -> u32 {
    (b0 as u32) | ((b1 as u32) << 8) | ((b2 as u32) << 16)
}

/// Key group `group` of a key segment.
pub open spec fn word_at(keys: Seq<u8>, group: int) -> u32 {
    word_of(keys[3 * group], keys[3 * group + 1], keys[3 * group + 2])
}

/// The code in slot `slot` of a group: its bits `3 * slot .. 3 * slot + 3`.
pub open spec fn code_in(word: u32, slot: int) -> u8 {
    ((word >> ((3 * slot) as u32)) & 7) as u8
}

/// The length code that a key segment holds for value `index`.
pub open spec fn code_at(keys: Seq<u8>, index: int) -> u8 {
    code_in(word_at(keys, index / 8), index % 8)
}

/// The code that encoding puts in slot `index`: that of the value there, and
/// zero in the slots after the last value.
pub open spec fn slot_code(values: Seq<u64>, index: int) -> u8 {
    if 0 <= index < values.len() {
        code_of(values[index])
    } else {
        0
    }
}

/// The first `count` codes of group `group`, packed three bits each.
pub open spec fn packed(values: Seq<u64>, group: int, count: nat) -> u32
    decreases count,
{
    if count == 0 {
        0
    } else {
        packed(values, group, (count - 1) as nat) | ((slot_code(values, 8 * group + count - 1) as u32)
            << ((3 * (count - 1)) as u32))
    }
}

/// Key group `group` of the encoding of `values`.
pub open spec fn key_word(values: Seq<u64>, group: int) -> u32 {
    packed(values, group, 8)
}

/// Byte `index` of a group, least significant first.
pub open spec fn word_byte(word: u32, index: int) -> u8 {
    ((word >> ((8 * index) as u32)) & 0xff) as u8
}

/// The key segment of the encoding of `values`.
pub open spec fn key_segment(values: Seq<u64>) -> Seq<u8> {
    Seq::new(keys_len_spec(values.len()), |k: int| word_byte(key_word(values, k / 3), k % 3))
}

/// The number of data bytes that the encoding of `values` takes.
pub open spec fn data_len(values: Seq<u64>) -> nat
    decreases values.len(),
{
    if values.len() == 0 {
        0
    } else {
        data_len(values.drop_last()) + width_of(values.last())
    }
}

/// The data segment of the encoding of `values`: each value's byte run, in
/// order, with nothing between them.
pub open spec fn data_segment(values: Seq<u64>) -> Seq<u8>
    decreases values.len(),
{
    if values.len() == 0 {
        Seq::empty()
    } else {
        data_segment(values.drop_last()) + le_bytes(values.last(), width_of(values.last()))
    }
}

/// The encoding of `values`: key segment, then data segment.
pub open spec fn encoding(values: Seq<u64>) -> Seq<u8> {
    key_segment(values) + data_segment(values)
}

/// Where in the data segment the run of value `index` starts, as the key
/// segment tells it: the sum of the widths before it.
pub open spec fn data_offset(keys: Seq<u8>, index: nat) -> nat
    decreases index,
{
    if index == 0 {
        0
    } else {
        data_offset(keys, (index - 1) as nat) + width_of_code(code_at(keys, index - 1))
    }
}

/// Value `index` of what a key segment and a data segment decode to.
pub open spec fn value_at(keys: Seq<u8>, data: Seq<u8>, index: int) -> u64 {
    le_value(
        data.subrange(
            data_offset(keys, index as nat) as int,
            data_offset(keys, (index + 1) as nat) as int,
        ),
    )
}

/// The `count` values that a key segment and a data segment decode to.
pub open spec fn decoded(keys: Seq<u8>, data: Seq<u8>, count: nat) -> Seq<u64> {
    Seq::new(count, |i: int| value_at(keys, data, i))
}

/// The data length that the size calculation derives from the key segment
/// alone: the widths of every slot of the `groups_of(count)` groups, less one
/// byte for each slot after the last value.
pub open spec fn key_data_len(keys: Seq<u8>, count: nat) -> int {
    data_offset(keys, 8 * groups_of(count)) - (8 * groups_of(count) - count)
}

/// Whether every slot after the last of `count` values holds code zero.
pub open spec fn padding_is_zero(keys: Seq<u8>, count: nat) -> bool {
    forall|i: int| count <= i < 8 * groups_of(count) ==> #[trigger] code_at(keys, i) == 0
}

/// A key group has 24 bits.
pub proof fn lemma_word_bound(keys: Seq<u8>, group: int)
    ensures
        word_at(keys, group) >> 24 == 0,
{
    let b0: u8 = keys[3 * group];
    let b1: u8 = keys[3 * group + 1];
    let b2: u8 = keys[3 * group + 2];
    assert(((b0 as u32) | ((b1 as u32) << 8) | ((b2 as u32) << 16)) >> 24 == 0) by (bit_vector);
}

/// A slot holds a code from 0 to 7.
pub proof fn lemma_code_in_bound(word: u32, slot: int)
    requires
        0 <= slot < 8,
    ensures
        code_in(word, slot) <= 7,
        code_in(word, slot) == (word >> ((3 * slot) as u32)) & 7,
{
    let s: u32 = (3 * slot) as u32;
    assert((word >> s) & 7 <= 7) by (bit_vector);
}

/// A key segment holds a code from 0 to 7 for every index.
pub proof fn lemma_code_at_bound(keys: Seq<u8>, index: int)
    requires
        0 <= index,
    ensures
        code_at(keys, index) <= 7,
{
    lemma_code_in_bound(word_at(keys, index / 8), index % 8);
}

/// The first `count` codes of a group take its low `3 * count` bits, and
/// each can be read back from its slot.
pub proof fn lemma_packed(values: Seq<u64>, group: int, count: nat)
    requires
        count <= 8,
    ensures
        packed(values, group, count) >> ((3 * count) as u32) == 0,
        forall|slot: int|
            0 <= slot < count ==> #[trigger] code_in(packed(values, group, count), slot)
                == slot_code(values, 8 * group + slot),
    decreases count,
{
    if count == 0 {
        assert(0u32 >> 0u32 == 0) by (bit_vector);
    } else {
        let prev = (count - 1) as nat;
        lemma_packed(values, group, prev);
        let p = packed(values, group, prev);
        let c: u32 = slot_code(values, 8 * group + prev) as u32;
        let s: u32 = (3 * prev) as u32;
        let q = packed(values, group, count);
        assert(q == p | (c << s));
        assert(c <= 7);
        assert((p | (c << s)) >> ((s + 3) as u32) == 0) by (bit_vector)
            requires
                p >> s == 0,
                c <= 7,
                s <= 21,
        ;
        assert forall|slot: int| 0 <= slot < count implies #[trigger] code_in(q, slot)
            == slot_code(values, 8 * group + slot) by {
            let t: u32 = (3 * slot) as u32;
            lemma_code_in_bound(q, slot);
            if slot == prev {
                assert(((p | (c << s)) >> s) & 7 == c) by (bit_vector)
                    requires
                        p >> s == 0,
                        c <= 7,
                        s <= 21,
                ;
            } else {
                lemma_code_in_bound(p, slot);
                assert(code_in(p, slot) == slot_code(values, 8 * group + slot));
                assert(((p | (c << s)) >> t) & 7 == (p >> t) & 7) by (bit_vector)
                    requires
                        t + 3 <= s,
                        s <= 21,
                ;
            }
        }
    }
}

/// Slots after the last value add nothing to a group.
pub proof fn lemma_packed_padding(values: Seq<u64>, group: int, count: nat)
    requires
        count <= 8,
        values.len() <= 8 * group + count,
    ensures
        key_word(values, group) == packed(values, group, count),
    decreases 8 - count,
{
    if count < 8 {
        lemma_packed_padding(values, group, count + 1);
        let p = packed(values, group, count);
        let s: u32 = (3 * count) as u32;
        assert(p | (0u32 << s) == p) by (bit_vector);
    }
}

/// A 24-bit group is recovered from its three bytes.
pub proof fn lemma_word_bytes(word: u32)
    requires
        word >> 24 == 0,
    ensures
        word_of(word_byte(word, 0), word_byte(word, 1), word_byte(word, 2)) == word,
{
    assert(((((word >> 0u32) & 0xff) as u8) as u32) | (((((word >> 8u32) & 0xff) as u8) as u32) << 8)
        | (((((word >> 16u32) & 0xff) as u8) as u32) << 16) == word) by (bit_vector)
        requires
            word >> 24 == 0,
    ;
}

/// The groups of the key segment of `values` are its key words.
pub proof fn lemma_key_segment_word(values: Seq<u64>, group: int)
    requires
        0 <= group < groups_of(values.len()),
    ensures
        word_at(key_segment(values), group) == key_word(values, group),
{
    let keys = key_segment(values);
    let w = key_word(values, group);
    lemma_packed(values, group, 8);
    lemma_word_bytes(w);
    assert(keys[3 * group] == word_byte(w, 0));
    assert(keys[3 * group + 1] == word_byte(w, 1));
    assert(keys[3 * group + 2] == word_byte(w, 2));
}

/// The key segment of `values` holds the code of each value in its slot, and
/// zero in the slots after the last.
pub proof fn lemma_key_segment_codes(values: Seq<u64>, index: int)
    requires
        0 <= index < 8 * groups_of(values.len()),
    ensures
        code_at(key_segment(values), index) == slot_code(values, index),
{
    let group = index / 8;
    lemma_key_segment_word(values, group);
    lemma_packed(values, group, 8);
    assert(code_in(packed(values, group, 8), index % 8) == slot_code(
        values,
        8 * group + index % 8,
    ));
}

/// Codes and offsets depend only on the key bytes of the groups they lie in.
pub proof fn lemma_code_at_prefix(keys: Seq<u8>, other: Seq<u8>, len: int, index: int)
    requires
        0 <= index,
        3 * (index / 8) + 3 <= len <= keys.len(),
        len <= other.len(),
        keys.subrange(0, len) == other.subrange(0, len),
    ensures
        code_at(keys, index) == code_at(other, index),
{
    let g = index / 8;
    assert(keys[3 * g] == keys.subrange(0, len)[3 * g]);
    assert(keys[3 * g + 1] == keys.subrange(0, len)[3 * g + 1]);
    assert(keys[3 * g + 2] == keys.subrange(0, len)[3 * g + 2]);
    assert(other[3 * g] == other.subrange(0, len)[3 * g]);
    assert(other[3 * g + 1] == other.subrange(0, len)[3 * g + 1]);
    assert(other[3 * g + 2] == other.subrange(0, len)[3 * g + 2]);
}

/// Appending a value appends its byte run to the data segment.
pub proof fn lemma_data_take_step(values: Seq<u64>, index: int)
    requires
        0 <= index < values.len(),
    ensures
        data_len(values.take(index + 1)) == data_len(values.take(index)) + width_of(values[index]),
        data_segment(values.take(index + 1)) == data_segment(values.take(index)) + le_bytes(
            values[index],
            width_of(values[index]),
        ),
{
    assert(values.take(index + 1).drop_last() =~= values.take(index));
    assert(values.take(index + 1).last() == values[index]);
}

/// The data segment of `values` is `data_len(values)` bytes long.
pub proof fn lemma_data_segment_len(values: Seq<u64>)
    ensures
        data_segment(values).len() == data_len(values),
        values.len() <= data_len(values) <= 8 * values.len(),
    decreases values.len(),
{
    if values.len() > 0 {
        lemma_data_segment_len(values.drop_last());
    }
}

/// A prefix of the values takes no more data bytes than all of them.
pub proof fn lemma_data_len_prefix(values: Seq<u64>, index: int)
    requires
        0 <= index <= values.len(),
    ensures
        data_len(values.take(index)) <= data_len(values),
    decreases values.len() - index,
{
    if index == values.len() {
        assert(values.take(index) =~= values);
    } else {
        lemma_data_take_step(values, index);
        lemma_data_len_prefix(values, index + 1);
    }
}

/// Offsets grow with the index, by at least one and at most eight bytes a
/// value.
pub proof fn lemma_data_offset_bounds(keys: Seq<u8>, from: nat, to: nat)
    requires
        from <= to,
    ensures
        data_offset(keys, from) + (to - from) <= data_offset(keys, to),
        data_offset(keys, to) <= data_offset(keys, from) + 8 * (to - from),
    decreases to - from,
{
    if from < to {
        lemma_data_offset_bounds(keys, from, (to - 1) as nat);
        lemma_code_at_bound(keys, to - 1);
    }
}

} // verus!
