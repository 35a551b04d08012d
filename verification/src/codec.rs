//! The codec on one combined buffer: key segment, then data segment.

use vstd::prelude::*;
use crate::block::decode_blocks;
use crate::bytes::overwrite;
use crate::error::CodecError;
use crate::keys::keys_len;
use crate::layout::{
    data_len,
    data_offset,
    decoded,
    encoding,
    key_data_len,
    keys_len_spec,
    lemma_data_segment_len,
};
use crate::scalar::{decode_from, encode_scalar};
use crate::size::{lemma_key_data_len_bounds, table_data_len};

verus! {

/// The key segment of a combined buffer that holds `count` values.
pub open spec fn key_part(buf: Seq<u8>, count: nat) -> Seq<u8> {
    buf.subrange(0, keys_len_spec(count) as int)
}

/// What follows the key segment in a combined buffer that holds `count`
/// values.
pub open spec fn data_part(buf: Seq<u8>, count: nat) -> Seq<u8> {
    buf.subrange(keys_len_spec(count) as int, buf.len() as int)
}

/// Encodes `input` to the front of `buf`, key segment first, and returns the
/// number of bytes of `buf` that the encoding takes.
///
/// Fails, with nothing written, when `buf` is shorter than the encoding. The
/// bytes of `buf` behind the encoding are left as they were.
pub fn encode(input: &[u64], buf: &mut [u8]) -> (result: Result<usize, CodecError>)
    ensures
        result.is_ok() <==> keys_len_spec(input@.len()) + data_len(input@) <= old(buf)@.len(),
        result.is_ok() ==> {
            &&& result.unwrap() == keys_len_spec(input@.len()) + data_len(input@)
            &&& final(buf)@ == overwrite(old(buf)@, 0, encoding(input@))
        },
        result.is_err() ==> {
            &&& result == Err::<usize, CodecError>(CodecError::BufferTooSmall)
            &&& final(buf)@ == old(buf)@
        },
{
    let klen: usize = keys_len(input.len());
    let len: usize = buf.len();
    if len < klen {
        return Err(CodecError::BufferTooSmall);
    }
    let (keys, data) = buf.split_at_mut(klen);
    let result = encode_scalar(input, keys, data);
    proof {
        lemma_data_segment_len(input@);
        if result.is_ok() {
            assert(keys@ + data@ =~= overwrite(old(buf)@, 0, encoding(input@)));
        } else {
            assert(keys@ + data@ =~= old(buf)@);
        }
    }
    match result {
        Ok(written) => Ok(klen + written),
        Err(e) => Err(e),
    }
}

/// Decodes `output.len()` values from the encoding at the front of `buf` and
/// returns the number of bytes of `buf` that the encoding takes.
///
/// Fails, with `output` untouched, when `buf` is shorter than the key
/// segment for that many values, or what follows the key segment is shorter
/// than the data length that the key segment implies.
pub fn decode(output: &mut [u64], buf: &[u8]) -> (result: Result<usize, CodecError>)
    ensures
        result.is_ok() <==> keys_len_spec(old(output)@.len()) <= buf@.len() && key_data_len(
            key_part(buf@, old(output)@.len()),
            old(output)@.len(),
        ) <= data_part(buf@, old(output)@.len()).len(),
        result.is_ok() ==> {
            &&& result.unwrap() == keys_len_spec(old(output)@.len()) + data_offset(
                key_part(buf@, old(output)@.len()),
                old(output)@.len(),
            )
            &&& final(output)@ == decoded(
                key_part(buf@, old(output)@.len()),
                data_part(buf@, old(output)@.len()),
                old(output)@.len(),
            )
        },
        result.is_err() ==> {
            &&& result == Err::<usize, CodecError>(CodecError::BufferTooSmall)
            &&& final(output)@ == old(output)@
        },
{
    decode_with(output, buf, false)
}

/// Decodes as `decode` does, by the vectorized path where `vectorized` is
/// set and by the scalar path where it is not. The result is the same
/// either way.
pub fn decode_with(output: &mut [u64], buf: &[u8], vectorized: bool) -> (result: Result<
    usize,
    CodecError,
>)
    ensures
        result.is_ok() <==> keys_len_spec(old(output)@.len()) <= buf@.len() && key_data_len(
            key_part(buf@, old(output)@.len()),
            old(output)@.len(),
        ) <= data_part(buf@, old(output)@.len()).len(),
        result.is_ok() ==> {
            &&& result.unwrap() == keys_len_spec(old(output)@.len()) + data_offset(
                key_part(buf@, old(output)@.len()),
                old(output)@.len(),
            )
            &&& final(output)@ == decoded(
                key_part(buf@, old(output)@.len()),
                data_part(buf@, old(output)@.len()),
                old(output)@.len(),
            )
        },
        result.is_err() ==> {
            &&& result == Err::<usize, CodecError>(CodecError::BufferTooSmall)
            &&& final(output)@ == old(output)@
        },
{
    let n: usize = output.len();
    let klen: usize = keys_len(n);
    if buf.len() < klen {
        return Err(CodecError::BufferTooSmall);
    }
    let (keys, data) = buf.split_at(klen);
    let needed: u128 = table_data_len(n, keys);
    if (data.len() as u128) < needed {
        return Err(CodecError::BufferTooSmall);
    }
    proof {
        lemma_key_data_len_bounds(keys@, n as nat);
    }
    let read: usize = if vectorized {
        decode_blocks(output, keys, data)
    } else {
        let read: usize = decode_from(output, keys, data, 0, 0);
        proof {
            assert(output@ =~= decoded(keys@, data@, n as nat));
        }
        read
    };
    Ok(klen + read)
}

} // verus!
