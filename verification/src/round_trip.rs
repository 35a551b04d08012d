//! Decoding undoes encoding, and the size calculation agrees with the
//! encoder.

use vstd::prelude::*;
use crate::bytes::{le_bytes, lemma_le_round_trip, overwrite};
use crate::code::{code_of, fits, lemma_code_minimal, width_of};
use crate::codec::{data_part, key_part};
use crate::layout::{
    code_at,
    data_len,
    data_offset,
    data_segment,
    decoded,
    encoding,
    groups_of,
    key_data_len,
    key_segment,
    keys_len_spec,
    lemma_code_at_prefix,
    lemma_data_len_prefix,
    lemma_data_segment_len,
    lemma_data_take_step,
    lemma_key_segment_codes,
    padding_is_zero,
    slot_code,
    value_at,
};
use crate::size::{lemma_key_data_len_exact, max_compressed_len_spec};

verus! {

/// Whether `buf` starts with the bytes `segment`.
pub open spec fn starts_with(buf: Seq<u8>, segment: Seq<u8>) -> bool {
    segment.len() <= buf.len() && buf.subrange(0, segment.len() as int) == segment
}

/// A buffer over whose front a segment was written starts with that
/// segment.
pub proof fn lemma_overwrite_starts_with(buf: Seq<u8>, segment: Seq<u8>)
    requires
        segment.len() <= buf.len(),
    ensures
        starts_with(overwrite(buf, 0, segment), segment),
        overwrite(buf, 0, segment).len() == buf.len(),
{
    assert(overwrite(buf, 0, segment).subrange(0, segment.len() as int) =~= segment);
}

/// A buffer that starts with the key segment of `values` holds, slot by
/// slot, the codes of the values and zero after the last.
pub proof fn lemma_codes_of_keys(values: Seq<u64>, keys: Seq<u8>, index: int)
    requires
        starts_with(keys, key_segment(values)),
        0 <= index < 8 * groups_of(values.len()),
    ensures
        code_at(keys, index) == slot_code(values, index),
{
    let segment = key_segment(values);
    assert(segment.subrange(0, segment.len() as int) =~= segment);
    lemma_code_at_prefix(keys, segment, segment.len() as int, index);
    lemma_key_segment_codes(values, index);
}

/// Minimality: the code that encoding stores for a value is the least class
/// that fits it.
pub proof fn lemma_stored_code_minimal(values: Seq<u64>, keys: Seq<u8>, index: int)
    requires
        starts_with(keys, key_segment(values)),
        0 <= index < values.len(),
    ensures
        code_at(keys, index) == code_of(values[index]),
        fits(values[index], code_at(keys, index) as int),
        forall|c: int| 0 <= c < code_at(keys, index) ==> !fits(values[index], c),
{
    lemma_codes_of_keys(values, keys, index);
    lemma_code_minimal(values[index]);
}

/// The offsets that the key segment of `values` gives are those at which
/// the encoder put the byte runs.
pub proof fn lemma_offsets_of_keys(values: Seq<u64>, keys: Seq<u8>, index: nat)
    requires
        starts_with(keys, key_segment(values)),
        index <= values.len(),
    ensures
        data_offset(keys, index) == data_len(values.take(index as int)),
    decreases index,
{
    if index > 0 {
        lemma_offsets_of_keys(values, keys, (index - 1) as nat);
        lemma_codes_of_keys(values, keys, index - 1);
        lemma_data_take_step(values, index - 1);
    }
}

/// The byte run of value `index` lies in the data segment between the data
/// lengths of the values before it and of those up to it.
pub proof fn lemma_run_in_data_segment(values: Seq<u64>, index: int)
    requires
        0 <= index < values.len(),
    ensures
        data_len(values.take(index + 1)) <= data_segment(values).len(),
        data_segment(values).subrange(
            data_len(values.take(index)) as int,
            data_len(values.take(index + 1)) as int,
        ) == le_bytes(values[index], width_of(values[index])),
    decreases values.len(),
{
    let front = values.drop_last();
    lemma_data_segment_len(values);
    lemma_data_segment_len(front);
    lemma_data_take_step(values, index);
    lemma_data_len_prefix(values, index + 1);
    if index == values.len() - 1 {
        assert(values.take(index) =~= front);
        assert(values.take(index + 1) =~= values);
        assert(data_segment(values).subrange(
            data_len(values.take(index)) as int,
            data_len(values.take(index + 1)) as int,
        ) =~= le_bytes(values[index], width_of(values[index])));
    } else {
        lemma_run_in_data_segment(front, index);
        assert(front.take(index) =~= values.take(index));
        assert(front.take(index + 1) =~= values.take(index + 1));
        assert(data_segment(values).subrange(
            data_len(values.take(index)) as int,
            data_len(values.take(index + 1)) as int,
        ) =~= data_segment(front).subrange(
            data_len(values.take(index)) as int,
            data_len(values.take(index + 1)) as int,
        ));
    }
}

/// Round trip of the scalar codec: from buffers that start with the key
/// segment and the data segment of `values`, decoding `values.len()` values
/// gives `values` back and consumes as many data bytes as encoding wrote.
pub proof fn lemma_scalar_round_trip(values: Seq<u64>, keys: Seq<u8>, data: Seq<u8>)
    requires
        starts_with(keys, key_segment(values)),
        starts_with(data, data_segment(values)),
    ensures
        keys_len_spec(values.len()) <= keys.len(),
        data_offset(keys, values.len()) <= data.len(),
        data_offset(keys, values.len()) == data_len(values),
        decoded(keys, data, values.len()) == values,
{
    let n = values.len();
    lemma_data_segment_len(values);
    lemma_offsets_of_keys(values, keys, n);
    assert(values.take(n as int) =~= values);
    assert forall|i: int| 0 <= i < n implies #[trigger] value_at(keys, data, i) == values[i] by {
        lemma_offsets_of_keys(values, keys, i as nat);
        lemma_offsets_of_keys(values, keys, (i + 1) as nat);
        lemma_run_in_data_segment(values, i);
        let from = data_len(values.take(i)) as int;
        let to = data_len(values.take(i + 1)) as int;
        lemma_data_take_step(values, i);
        assert(data.subrange(from, to) =~= data.subrange(0, data_len(values) as int).subrange(
            from,
            to,
        ));
        lemma_le_round_trip(values[i]);
    }
    assert(decoded(keys, data, n) =~= values);
}

/// The upper bound is safe: the encoding of `values` takes at least one and
/// at most eight data bytes a value, so a buffer of `max_compressed_len`
/// bytes holds it.
pub proof fn lemma_max_len_suffices(values: Seq<u64>)
    ensures
        encoding(values).len() == keys_len_spec(values.len()) + data_len(values),
        keys_len_spec(values.len()) + values.len() <= encoding(values).len(),
        encoding(values).len() <= max_compressed_len_spec(values.len()),
{
    lemma_data_segment_len(values);
}

/// Size agreement: from a buffer that starts with the key segment of
/// `values`, the size calculation gives the number of data bytes that
/// encoding `values` wrote.
pub proof fn lemma_size_agreement(values: Seq<u64>, keys: Seq<u8>)
    requires
        starts_with(keys, key_segment(values)),
    ensures
        padding_is_zero(keys, values.len()),
        key_data_len(keys, values.len()) == data_len(values),
{
    let n = values.len();
    assert forall|i: int| n <= i < 8 * groups_of(n) implies #[trigger] code_at(keys, i) == 0 by {
        lemma_codes_of_keys(values, keys, i);
    }
    lemma_key_data_len_exact(keys, n);
    lemma_offsets_of_keys(values, keys, n);
    assert(values.take(n as int) =~= values);
}

/// Round trip on one combined buffer: a buffer that starts with the encoding
/// of `values` passes the length check of decoding, decodes to `values`, and
/// decoding consumes as many bytes as encoding wrote.
pub proof fn lemma_round_trip(values: Seq<u64>, buf: Seq<u8>)
    requires
        starts_with(buf, encoding(values)),
    ensures
        keys_len_spec(values.len()) <= buf.len(),
        key_data_len(key_part(buf, values.len()), values.len()) <= data_part(
            buf,
            values.len(),
        ).len(),
        decoded(key_part(buf, values.len()), data_part(buf, values.len()), values.len())
            == values,
        keys_len_spec(values.len()) + data_offset(key_part(buf, values.len()), values.len())
            == encoding(values).len(),
{
    let n = values.len();
    let keys = key_part(buf, n);
    let data = data_part(buf, n);
    let total = encoding(values).len() as int;
    lemma_data_segment_len(values);
    assert(keys =~= buf.subrange(0, total).subrange(0, keys_len_spec(n) as int));
    assert(keys =~= key_segment(values));
    assert(keys.subrange(0, keys.len() as int) =~= keys);
    assert(data.subrange(0, data_len(values) as int) =~= buf.subrange(0, total).subrange(
        keys_len_spec(n) as int,
        total,
    ));
    assert(data.subrange(0, data_len(values) as int) =~= data_segment(values));
    lemma_scalar_round_trip(values, keys, data);
    lemma_size_agreement(values, keys);
}

} // verus!
