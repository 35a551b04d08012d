//! The scalar codec: one value at a time.

use vstd::prelude::*;
use crate::bytes::{get_value, overwrite, put_value};
use crate::code::classify;
use crate::error::CodecError;
use crate::keys::{get_word, keys_len, put_word, word_bytes};
use crate::layout::{
    code_at,
    data_len,
    data_offset,
    data_segment,
    decoded,
    key_segment,
    key_word,
    keys_len_spec,
    lemma_code_in_bound,
    lemma_data_len_prefix,
    lemma_data_offset_bounds,
    lemma_data_segment_len,
    lemma_data_take_step,
    lemma_packed_padding,
    packed,
    slot_code,
    value_at,
    word_at,
    word_byte,
};

verus! {

/// Returns the number of data bytes that encoding `input` takes, or `None`
/// when that is more than `limit`.
pub fn data_len_within(input: &[u64], limit: usize) -> (total: Option<usize>)
    ensures
        total.is_some() <==> data_len(input@) <= limit,
        total.is_some() ==> total.unwrap() == data_len(input@),
{
    let n: usize = input.len();
    let mut total: usize = 0;
    let mut i: usize = 0;
    while i < n
        invariant
            i <= n,
            n == input@.len(),
            total == data_len(input@.take(i as int)),
            total <= limit,
        decreases n - i,
    {
        let width: usize = classify(input[i]) as usize + 1;
        proof {
            lemma_data_take_step(input@, i as int);
            lemma_data_len_prefix(input@, i + 1);
        }
        if limit - total < width {
            return None;
        }
        total += width;
        i += 1;
    }
    proof {
        assert(input@.take(n as int) =~= input@);
    }
    Some(total)
}

/// Encodes `input`: its length codes go to the front of `keys`, its byte
/// runs to the front of `data`. Returns the number of data bytes written.
///
/// Fails, with nothing written, when `keys` is shorter than the key segment
/// or `data` shorter than the data segment. The bytes of both buffers behind
/// the segments are left as they were.
pub fn encode_scalar(input: &[u64], keys: &mut [u8], data: &mut [u8]) -> (result: Result<
    usize,
    CodecError,
>)
    ensures
        result.is_ok() <==> keys_len_spec(input@.len()) <= old(keys)@.len() && data_len(input@)
            <= old(data)@.len(),
        result.is_ok() ==> {
            &&& result.unwrap() == data_len(input@)
            &&& final(keys)@ == overwrite(old(keys)@, 0, key_segment(input@))
            &&& final(data)@ == overwrite(old(data)@, 0, data_segment(input@))
        },
        result.is_err() ==> {
            &&& result == Err::<usize, CodecError>(CodecError::BufferTooSmall)
            &&& final(keys)@ == old(keys)@
            &&& final(data)@ == old(data)@
        },
{
    let n: usize = input.len();
    let klen: usize = keys_len(n);
    if keys.len() < klen {
        return Err(CodecError::BufferTooSmall);
    }
    if data_len_within(input, data.len()).is_none() {
        return Err(CodecError::BufferTooSmall);
    }
    let mut pos: usize = 0;
    let mut group: usize = 0;
    let mut slots: usize = 0;
    let mut shift: u32 = 0;
    let mut key: u32 = 0;
    let mut i: usize = 0;
    proof {
        assert(data@ =~= overwrite(old(data)@, 0, data_segment(input@.take(0))));
    }
    while i < n
        invariant
            i <= n,
            n == input@.len(),
            klen == keys_len_spec(n as nat),
            klen <= keys@.len(),
            keys@.len() == old(keys)@.len(),
            data@.len() == old(data)@.len(),
            data_len(input@) <= data.len(),
            8 * group + slots == i,
            slots <= 8,
            i > 0 ==> slots >= 1,
            shift == 3 * slots,
            key == packed(input@, group as int, slots as nat),
            pos == data_len(input@.take(i as int)),
            data@ == overwrite(old(data)@, 0, data_segment(input@.take(i as int))),
            forall|k: int|
                0 <= k < 3 * group ==> #[trigger] keys@[k] == word_byte(
                    key_word(input@, k / 3),
                    k % 3,
                ),
            forall|k: int| 3 * group <= k < keys@.len() ==> #[trigger] keys@[k] == old(keys)@[k],
        decreases n - i,
    {
        if shift == 24 {
            let ghost before = keys@;
            put_word(keys, group, key);
            proof {
                assert forall|k: int| 0 <= k < 3 * (group + 1) implies #[trigger] keys@[k]
                    == word_byte(key_word(input@, k / 3), k % 3) by {
                    if k >= 3 * group {
                        assert(keys@[k] == word_bytes(key)[k - 3 * group]);
                    } else {
                        assert(keys@[k] == before[k]);
                    }
                }
            }
            group += 1;
            slots = 0;
            shift = 0;
            key = 0;
        }
        let value: u64 = input[i];
        let code: u8 = classify(value);
        proof {
            lemma_data_take_step(input@, i as int);
            lemma_data_len_prefix(input@, i + 1);
            lemma_data_segment_len(input@.take(i as int));
        }
        put_value(value, code, data, pos);
        proof {
            assert(data@ =~= overwrite(old(data)@, 0, data_segment(input@.take(i + 1))));
            assert(slot_code(input@, 8 * group + (slots + 1) - 1) == code);
            assert((3 * ((slots + 1) - 1)) as u32 == shift);
            assert(packed(input@, group as int, (slots + 1) as nat) == packed(
                input@,
                group as int,
                slots as nat,
            ) | ((code as u32) << shift));
        }
        pos += code as usize + 1;
        key = key | ((code as u32) << shift);
        shift += 3;
        slots += 1;
        i += 1;
    }
    if n > 0 {
        proof {
            lemma_packed_padding(input@, group as int, slots as nat);
        }
        let ghost before = keys@;
        put_word(keys, group, key);
        proof {
            assert(input@.take(n as int) =~= input@);
            assert forall|k: int| 0 <= k < klen implies #[trigger] keys@[k] == word_byte(
                key_word(input@, k / 3),
                k % 3,
            ) by {
                if k >= 3 * group {
                    assert(keys@[k] == word_bytes(key)[k - 3 * group]);
                } else {
                    assert(keys@[k] == before[k]);
                }
            }
            assert(keys@ =~= overwrite(old(keys)@, 0, key_segment(input@)));
        }
    } else {
        proof {
            assert(input@.take(n as int) =~= input@);
            assert(keys@ =~= overwrite(old(keys)@, 0, key_segment(input@)));
        }
    }
    Ok(pos)
}

/// Returns the number of data bytes that the first `count` codes of `keys`
/// stand for, or `None` when that is more than `limit`.
pub(crate) fn data_offset_within(keys: &[u8], count: usize, limit: usize) -> (total: Option<usize>)
    requires
        keys_len_spec(count as nat) <= keys@.len(),
    ensures
        total.is_some() <==> data_offset(keys@, count as nat) <= limit,
        total.is_some() ==> total.unwrap() == data_offset(keys@, count as nat),
{
    let mut total: usize = 0;
    let mut group: usize = 0;
    let mut shift: u32 = 0;
    let mut word: u32 = 0;
    let mut i: usize = 0;
    while i < count
        invariant
            i <= count,
            keys_len_spec(count as nat) <= keys@.len(),
            i == 8 * group + shift / 3,
            shift % 3 == 0,
            shift <= 21,
            shift > 0 ==> word == word_at(keys@, group as int),
            total == data_offset(keys@, i as nat),
            total <= limit,
        decreases count - i,
    {
        if shift == 0 {
            word = get_word(keys, group);
        }
        let code: u32 = (word >> shift) & 7;
        proof {
            lemma_code_in_bound(word, (shift / 3) as int);
            assert(code == code_at(keys@, i as int));
            lemma_data_offset_bounds(keys@, (i + 1) as nat, count as nat);
        }
        let width: usize = code as usize + 1;
        if limit - total < width {
            return None;
        }
        total += width;
        i += 1;
        if shift == 21 {
            shift = 0;
            group += 1;
        } else {
            shift += 3;
        }
    }
    Some(total)
}

/// Decodes the values from index `from` on, whose byte runs start at `start`
/// in `data`, and returns where the last run ends.
pub(crate) fn decode_from(
    output: &mut [u64],
    keys: &[u8],
    data: &[u8],
    from: usize,
    start: usize,
) -> (end: usize)
    requires
        from % 8 == 0,
        from <= old(output)@.len(),
        keys_len_spec(old(output)@.len()) <= keys@.len(),
        start == data_offset(keys@, from as nat),
        data_offset(keys@, old(output)@.len()) <= data.len(),
    ensures
        end == data_offset(keys@, old(output)@.len()),
        final(output)@.len() == old(output)@.len(),
        forall|j: int| 0 <= j < from ==> #[trigger] final(output)@[j] == old(output)@[j],
        forall|j: int|
            from <= j < old(output)@.len() ==> #[trigger] final(output)@[j] == value_at(
                keys@,
                data@,
                j,
            ),
{
    let n: usize = output.len();
    let mut pos: usize = start;
    let mut group: usize = from / 8;
    let mut shift: u32 = 0;
    let mut word: u32 = 0;
    let mut i: usize = from;
    while i < n
        invariant
            from <= i <= n,
            n == output@.len(),
            n == old(output)@.len(),
            keys_len_spec(n as nat) <= keys@.len(),
            data_offset(keys@, n as nat) <= data.len(),
            i == 8 * group + shift / 3,
            shift % 3 == 0,
            shift <= 21,
            shift > 0 ==> word == word_at(keys@, group as int),
            pos == data_offset(keys@, i as nat),
            forall|j: int| 0 <= j < from ==> #[trigger] output@[j] == old(output)@[j],
            forall|j: int| from <= j < i ==> #[trigger] output@[j] == value_at(keys@, data@, j),
        decreases n - i,
    {
        if shift == 0 {
            word = get_word(keys, group);
        }
        let code: u32 = (word >> shift) & 7;
        proof {
            lemma_code_in_bound(word, (shift / 3) as int);
            assert(code == code_at(keys@, i as int));
            lemma_data_offset_bounds(keys@, (i + 1) as nat, n as nat);
        }
        let value: u64 = get_value(data, pos, code as u8);
        output[i] = value;
        pos += code as usize + 1;
        i += 1;
        if shift == 21 {
            shift = 0;
            group += 1;
        } else {
            shift += 3;
        }
    }
    pos
}

/// Decodes `output.len()` values from the key segment at the front of `keys`
/// and the data segment at the front of `data`. Returns the number of data
/// bytes consumed.
///
/// Fails, with `output` untouched, when `keys` is shorter than the key
/// segment for that many values, or `data` shorter than the byte runs that
/// the codes call for.
pub fn decode_scalar(output: &mut [u64], keys: &[u8], data: &[u8]) -> (result: Result<
    usize,
    CodecError,
>)
    ensures
        result.is_ok() <==> keys_len_spec(old(output)@.len()) <= keys@.len() && data_offset(
            keys@,
            old(output)@.len(),
        ) <= data@.len(),
        result.is_ok() ==> {
            &&& result.unwrap() == data_offset(keys@, old(output)@.len())
            &&& final(output)@ == decoded(keys@, data@, old(output)@.len())
        },
        result.is_err() ==> {
            &&& result == Err::<usize, CodecError>(CodecError::BufferTooSmall)
            &&& final(output)@ == old(output)@
        },
{
    let n: usize = output.len();
    if keys.len() < keys_len(n) {
        return Err(CodecError::BufferTooSmall);
    }
    if data_offset_within(keys, n, data.len()).is_none() {
        return Err(CodecError::BufferTooSmall);
    }
    let read: usize = decode_from(output, keys, data, 0, 0);
    proof {
        assert(output@ =~= decoded(keys@, data@, n as nat));
    }
    Ok(read)
}

} // verus!
