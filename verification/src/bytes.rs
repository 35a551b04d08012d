//! Truncated little-endian byte runs: how one value lies in the data segment.

use vstd::prelude::*;
use vstd::arithmetic::power::pow;
use crate::code::{classify, code_of, width_of, width_of_code};
use crate::error::CodecError;

verus! {

/// Byte `index` of `value`, counted from the least significant.
pub open spec fn byte_at(value: u64, index: int) -> u8 {
    ((value >> ((8 * index) as u64)) & 0xff) as u8
}

/// The low `width` bytes of `value`, least significant first.
pub open spec fn le_bytes(value: u64, width: nat) -> Seq<u8> {
    Seq::new(width, |i: int| byte_at(value, i))
}

/// The value that a run of at most eight little-endian bytes stands for,
/// zero-extended to 64 bits.
pub open spec fn le_value(bytes: Seq<u8>) -> u64
    decreases bytes.len(),
{
    if bytes.len() == 0 {
        0
    } else {
        le_value(bytes.drop_last()) | ((bytes.last() as u64) << ((8 * (bytes.len() - 1)) as u64))
    }
}

/// The number that a run of little-endian bytes stands for: the sum of
/// `bytes[i] * 256^i`.
pub open spec fn le_sum(bytes: Seq<u8>) -> nat
    decreases bytes.len(),
{
    if bytes.len() == 0 {
        0
    } else {
        le_sum(bytes.drop_last()) + bytes.last() as nat * pow(256, (bytes.len() - 1) as nat) as nat
    }
}

/// `buf` with `bytes` written over it from position `pos` on.
pub open spec fn overwrite(buf: Seq<u8>, pos: int, bytes: Seq<u8>) -> Seq<u8> {
    Seq::new(
        buf.len(),
        |i: int|
            if pos <= i < pos + bytes.len() {
                bytes[i - pos]
            } else {
                buf[i]
            },
    )
}

/// The bits of `value` below byte `count`.
pub open spec fn low_bytes(value: u64, count: int) -> u64 {
    if count >= 8 {
        value
    } else {
        value & (((1u64 << ((8 * count) as u64)) - 1) as u64)
    }
}

/// Adding byte `count` to the bits below it gives the bits below byte
/// `count + 1`.
proof fn lemma_low_bytes_step(value: u64, count: int)
    requires
        0 <= count < 8,
    ensures
        low_bytes(value, count) | ((byte_at(value, count) as u64) << ((8 * count) as u64))
            == low_bytes(value, count + 1),
{
    let s: u64 = (8 * count) as u64;
    let b: u8 = ((value >> s) & 0xff) as u8;
    assert(s == 0 || s == 8 || s == 16 || s == 24 || s == 32 || s == 40 || s == 48 || s == 56);
    if s == 56 {
        assert((value & (((1u64 << 56u64) - 1) as u64)) | (((((value >> 56u64) & 0xff) as u8) as u64)
            << 56u64) == value) by (bit_vector);
    } else {
        let t: u64 = (s + 8) as u64;
        assert((value & (((1u64 << s) - 1) as u64)) | (((((value >> s) & 0xff) as u8) as u64) << s)
            == value & (((1u64 << t) - 1) as u64)) by (bit_vector)
            requires
                s < 56,
                t == s + 8,
        ;
    }
}

/// Reading back the first `count` bytes of a value gives its bits below byte
/// `count`.
proof fn lemma_le_value_of_bytes(value: u64, count: nat)
    requires
        count <= 8,
    ensures
        le_value(le_bytes(value, count)) == low_bytes(value, count as int),
    decreases count,
{
    if count == 0 {
        assert(value & (((1u64 << 0u64) - 1) as u64) == 0) by (bit_vector);
    } else {
        let prev = (count - 1) as nat;
        lemma_le_value_of_bytes(value, prev);
        assert(le_bytes(value, count).drop_last() =~= le_bytes(value, prev));
        lemma_low_bytes_step(value, prev as int);
    }
}

/// A value is recovered from as many of its low bytes as its length code
/// counts.
pub proof fn lemma_le_round_trip(value: u64)
    ensures
        le_value(le_bytes(value, width_of(value))) == value,
{
    let w = width_of(value);
    lemma_le_value_of_bytes(value, w);
    if w < 8 {
        let s: u64 = (8 * w) as u64;
        assert(s == 8 || s == 16 || s == 24 || s == 32 || s == 40 || s == 48 || s == 56);
        assert(value < (1u64 << s)) by (bit_vector)
            requires
                (s == 8 && value < 0x100) || (s == 16 && value < 0x1_0000) || (s == 24 && value
                    < 0x100_0000) || (s == 32 && value < 0x1_0000_0000) || (s == 40 && value
                    < 0x100_0000_0000) || (s == 48 && value < 0x1_0000_0000_0000) || (s == 56
                    && value < 0x100_0000_0000_0000),
        ;
        assert(value & (((1u64 << s) - 1) as u64) == value) by (bit_vector)
            requires
                value < (1u64 << s),
                s < 64,
        ;
    }
}

/// Byte `index` of a value is its digit `index` in base 256.
pub proof fn lemma_byte_at_is_digit(value: u64, index: int)
    requires
        0 <= index < 8,
    ensures
        byte_at(value, index) == ((value as int) / pow(256, index as nat)) % 256,
{
    reveal_with_fuel(pow, 10);
    if index == 0 {
        assert((value >> 0u64) & 0xff == (value / 1) % 256) by (bit_vector);
    } else if index == 1 {
        assert((value >> 8u64) & 0xff == (value / 0x100) % 256) by (bit_vector);
    } else if index == 2 {
        assert((value >> 16u64) & 0xff == (value / 0x1_0000) % 256) by (bit_vector);
    } else if index == 3 {
        assert((value >> 24u64) & 0xff == (value / 0x100_0000) % 256) by (bit_vector);
    } else if index == 4 {
        assert((value >> 32u64) & 0xff == (value / 0x1_0000_0000) % 256) by (bit_vector);
    } else if index == 5 {
        assert((value >> 40u64) & 0xff == (value / 0x100_0000_0000) % 256) by (bit_vector);
    } else if index == 6 {
        assert((value >> 48u64) & 0xff == (value / 0x1_0000_0000_0000) % 256) by (bit_vector);
    } else {
        assert((value >> 56u64) & 0xff == (value / 0x100_0000_0000_0000) % 256) by (bit_vector);
    }
}

/// The value of a run of at most eight bytes is the number it stands for.
pub proof fn lemma_le_value_is_sum(bytes: Seq<u8>)
    requires
        bytes.len() <= 8,
    ensures
        le_value(bytes) == le_sum(bytes),
        le_sum(bytes) < pow(256, bytes.len()),
    decreases bytes.len(),
{
    reveal_with_fuel(pow, 10);
    if bytes.len() > 0 {
        let front = bytes.drop_last();
        lemma_le_value_is_sum(front);
        let v: u64 = le_value(front);
        let b: u64 = bytes.last() as u64;
        let s: u64 = (8 * (bytes.len() - 1)) as u64;
        let c: u64 = pow(256, (bytes.len() - 1) as nat) as u64;
        assert((v | (b << s)) == v + b * c && v + b * c < 256 * c) by (bit_vector)
            requires
                b < 0x100,
                v < c,
                (s == 0 && c == 1) || (s == 8 && c == 0x100) || (s == 16 && c == 0x1_0000) || (s
                    == 24 && c == 0x100_0000) || (s == 32 && c == 0x1_0000_0000) || (s == 40 && c
                    == 0x100_0000_0000) || (s == 48 && c == 0x1_0000_0000_0000) || (s == 56 && c
                    == 0x100_0000_0000_0000),
        ;
    }
}

/// Zero bytes after a run add nothing to its value.
pub proof fn lemma_le_value_zero_extended(bytes: Seq<u8>, len: int)
    requires
        0 <= len <= bytes.len(),
        forall|i: int| len <= i < bytes.len() ==> bytes[i] == 0,
    ensures
        le_value(bytes) == le_value(bytes.subrange(0, len)),
    decreases bytes.len() - len,
{
    if len == bytes.len() {
        assert(bytes.subrange(0, len) =~= bytes);
    } else {
        let front = bytes.drop_last();
        lemma_le_value_zero_extended(front, len);
        assert(front.subrange(0, len) =~= bytes.subrange(0, len));
        let v = le_value(front);
        let s: u64 = ((8 * (bytes.len() - 1)) as u64);
        assert(v | (0u64 << s) == v) by (bit_vector);
    }
}

/// Writes the `code + 1` low bytes of `value` into `out` from `pos` on.
pub(crate) fn put_value(value: u64, code: u8, out: &mut [u8], pos: usize)
    requires
        code <= 7,
        pos + code + 1 <= old(out).len(),
    ensures
        final(out)@ == overwrite(old(out)@, pos as int, le_bytes(value, width_of_code(code))),
{
    let width: usize = code as usize + 1;
    let mut k: usize = 0;
    let mut shift: u32 = 0;
    while k < width
        invariant
            k <= width <= 8,
            width == code + 1,
            shift == 8 * k,
            pos + width <= out.len(),
            out@.len() == old(out)@.len(),
            out@ == overwrite(old(out)@, pos as int, le_bytes(value, k as nat)),
        decreases width - k,
    {
        let low: u64 = (value >> shift) & 0xff;
        assert(low < 0x100) by (bit_vector)
            requires
                low == (value >> shift) & 0xff,
        ;
        out[pos + k] = low as u8;
        proof {
            assert(low as u8 == byte_at(value, k as int));
            assert(out@ =~= overwrite(old(out)@, pos as int, le_bytes(value, (k + 1) as nat)));
        }
        k += 1;
        shift += 8;
    }
}

/// Reads `code + 1` bytes of `data` from `pos` on as a little-endian value.
pub(crate) fn get_value(data: &[u8], pos: usize, code: u8) -> (value: u64)
    requires
        code <= 7,
        pos + code + 1 <= data.len(),
    ensures
        value == le_value(data@.subrange(pos as int, pos + code + 1)),
{
    let width: usize = code as usize + 1;
    let mut value: u64 = 0;
    let mut k: usize = 0;
    let mut shift: u32 = 0;
    proof {
        assert(data@.subrange(pos as int, pos as int).len() == 0);
    }
    while k < width
        invariant
            k <= width <= 8,
            width == code + 1,
            shift == 8 * k,
            pos + width <= data.len(),
            value == le_value(data@.subrange(pos as int, pos + k)),
        decreases width - k,
    {
        let byte: u8 = data[pos + k];
        proof {
            let run = data@.subrange(pos as int, pos + k + 1);
            assert(run.drop_last() =~= data@.subrange(pos as int, pos + k));
            assert(run.last() == byte);
        }
        value = value | ((byte as u64) << shift);
        k += 1;
        shift += 8;
    }
    value
}

/// Writes `value` into `out` at the cursor `*pos` in as few bytes as it
/// fits, advances the cursor past them and returns the length code.
/// Fails, with nothing written, when fewer bytes are left than that.
pub fn encode_single(value: u64, out: &mut [u8], pos: &mut usize) -> (result: Result<
    u8,
    CodecError,
>)
    ensures
        result.is_ok() <==> *old(pos) + width_of(value) <= old(out)@.len(),
        result.is_ok() ==> {
            &&& result == Ok::<u8, CodecError>(code_of(value))
            &&& *final(pos) == *old(pos) + width_of(value)
            &&& final(out)@ == overwrite(
                old(out)@,
                *old(pos) as int,
                le_bytes(value, width_of(value)),
            )
        },
        result.is_err() ==> {
            &&& result == Err::<u8, CodecError>(CodecError::BufferTooSmall)
            &&& *final(pos) == *old(pos)
            &&& final(out)@ == old(out)@
        },
{
    let code = classify(value);
    let width: usize = code as usize + 1;
    if *pos > out.len() || out.len() - *pos < width {
        return Err(CodecError::BufferTooSmall);
    }
    put_value(value, code, out, *pos);
    *pos = *pos + width;
    Ok(code)
}

/// Reads the value with length code `code` from `data` at the cursor `*pos`
/// and advances the cursor past its `code + 1` bytes. Fails, with the cursor
/// unmoved, when fewer bytes are left than that.
pub fn decode_single(data: &[u8], pos: &mut usize, code: u8) -> (result: Result<u64, CodecError>)
    requires
        code <= 7,
    ensures
        result.is_ok() <==> *old(pos) + width_of_code(code) <= data@.len(),
        result.is_ok() ==> {
            &&& result == Ok::<u64, CodecError>(
                le_value(data@.subrange(*old(pos) as int, *old(pos) + width_of_code(code))),
            )
            &&& *final(pos) == *old(pos) + width_of_code(code)
        },
        result.is_err() ==> {
            &&& result == Err::<u64, CodecError>(CodecError::BufferTooSmall)
            &&& *final(pos) == *old(pos)
        },
{
    let width: usize = code as usize + 1;
    if *pos > data.len() || data.len() - *pos < width {
        return Err(CodecError::BufferTooSmall);
    }
    let value = get_value(data, *pos, code);
    *pos = *pos + width;
    Ok(value)
}

} // verus!
