use stream_vbyte64::tables::length;
use stream_vbyte64::{
    byte_width, classify, compressed_len, decode, decode_scalar, decode_single, encode,
    encode_scalar, encode_single, keys_len, max_compressed_len, CodecError,
};

#[test]
fn classify_picks_the_least_class() {
    assert_eq!(classify(0), 0);
    assert_eq!(classify(255), 0);
    assert_eq!(classify(256), 1);
    assert_eq!(classify(0xffff), 1);
    assert_eq!(classify(0x1_0000), 2);
    assert_eq!(classify(0xff_ffff), 2);
    assert_eq!(classify(0x100_0000), 3);
    assert_eq!(classify(0xffff_ffff), 3);
    assert_eq!(classify(0x1_0000_0000), 4);
    assert_eq!(classify(0xff_ffff_ffff), 4);
    assert_eq!(classify(0x100_0000_0000), 5);
    assert_eq!(classify(0xffff_ffff_ffff), 5);
    assert_eq!(classify(0x1_0000_0000_0000), 6);
    assert_eq!(classify(0xff_ffff_ffff_ffff), 6);
    assert_eq!(classify(0x100_0000_0000_0000), 7);
    assert_eq!(classify(u64::MAX), 7);
}

#[test]
fn byte_width_is_code_plus_one() {
    for code in 0..8u8 {
        assert_eq!(byte_width(code), code as usize + 1);
    }
}

#[test]
fn keys_len_is_three_bytes_a_group() {
    assert_eq!(keys_len(0), 0);
    assert_eq!(keys_len(1), 3);
    assert_eq!(keys_len(7), 3);
    assert_eq!(keys_len(8), 3);
    assert_eq!(keys_len(9), 6);
    assert_eq!(keys_len(16), 6);
    assert_eq!(keys_len(4090), 1536);
    assert_eq!(keys_len(usize::MAX), (usize::MAX / 8 + 1) * 3);
}

#[test]
fn max_compressed_len_is_keys_and_eight_bytes_a_value() {
    assert_eq!(max_compressed_len(0), 0);
    assert_eq!(max_compressed_len(1), 11);
    assert_eq!(max_compressed_len(8), 67);
    assert_eq!(max_compressed_len(9), 78);
    assert_eq!(max_compressed_len(4090), 1536 + 32720);
}

#[test]
fn length_table_sums_four_widths() {
    assert_eq!(length(0), 4);
    assert_eq!(length(0b111), 11);
    assert_eq!(length(0b001_000), 5);
    assert_eq!(length(0b011_010_001_000), 10);
    assert_eq!(length(0xfff), 32);
    for group in 0..4096u32 {
        let sum: u32 = (0..4).map(|i| ((group >> (3 * i)) & 0b111) + 1).sum();
        assert_eq!(length(group) as u32, sum);
    }
}

#[test]
fn eight_small_values_take_one_group_and_eight_bytes() {
    let values = [0u64, 1, 2, 3, 4, 5, 6, 7];
    let mut buf = [0xffu8; 16];
    assert_eq!(encode(&values, &mut buf), Ok(11));
    assert_eq!(&buf[..3], &[0, 0, 0]);
    assert_eq!(&buf[3..11], &[0, 1, 2, 3, 4, 5, 6, 7]);
    assert_eq!(&buf[11..], &[0xff; 5]);
    let mut out = [9u64; 8];
    assert_eq!(decode(&mut out, &buf[..11]), Ok(11));
    assert_eq!(out, values);
}

#[test]
fn one_wide_value_takes_code_seven() {
    let value: u64 = 5 << 56 | 2;
    let mut keys = [0xffu8; 3];
    let mut data = [0xffu8; 8];
    assert_eq!(encode_scalar(&[value], &mut keys, &mut data), Ok(8));
    assert_eq!(keys, [0b111, 0, 0]);
    assert_eq!(data, [2, 0, 0, 0, 0, 0, 0, 5]);
    assert_eq!(data, value.to_le_bytes());
    assert_eq!(classify(value), 7);
}

#[test]
fn codes_are_packed_three_bits_each() {
    let values: [u64; 9] = [
        0x01,
        0x0202,
        0x03_0303,
        0x0404_0404,
        0x05_0505_0505,
        0x0606_0606_0606,
        0x07_0707_0707_0707,
        0x0808_0808_0808_0808,
        0x0909,
    ];
    let mut keys = [0xeeu8; 7];
    let mut data = [0xeeu8; 40];
    assert_eq!(encode_scalar(&values, &mut keys, &mut data), Ok(38));
    let word: u32 = (1 << 3) | (2 << 6) | (3 << 9) | (4 << 12) | (5 << 15) | (6 << 18) | (7 << 21);
    assert_eq!(&keys[..3], &word.to_le_bytes()[..3]);
    assert_eq!(&keys[3..6], &[1, 0, 0]);
    assert_eq!(keys[6], 0xee);
    let mut expected = Vec::new();
    for (i, v) in values.iter().enumerate() {
        let width = if i == 8 { 2 } else { i + 1 };
        expected.extend_from_slice(&v.to_le_bytes()[..width]);
    }
    assert_eq!(&data[..38], &expected[..]);
    assert_eq!(&data[38..], &[0xee, 0xee]);
    assert_eq!(compressed_len(9, &keys), Ok(38));
}

#[test]
fn compressed_len_discounts_only_unfilled_slots() {
    assert_eq!(compressed_len(0, &[]), Ok(0));
    assert_eq!(compressed_len(8, &[0, 0, 0]), Ok(8));
    assert_eq!(compressed_len(8, &[0xff, 0xff, 0xff]), Ok(64));
    assert_eq!(compressed_len(1, &[0b111, 0, 0]), Ok(8));
    assert_eq!(compressed_len(7, &[0, 0, 0]), Ok(7));
    assert_eq!(compressed_len(16, &[0, 0, 0, 0b001_001, 0, 0]), Ok(18));
}

#[test]
fn compressed_len_rejects_short_keys() {
    assert_eq!(compressed_len(1, &[]), Err(CodecError::BufferTooSmall));
    assert_eq!(compressed_len(9, &[0, 0, 0, 0, 0]), Err(CodecError::BufferTooSmall));
}

#[test]
fn encode_rejects_a_short_buffer_and_writes_nothing() {
    let values = [0x1234u64, 5, 0xffff_ffff];
    let mut buf = [0x77u8; 9];
    assert_eq!(encode(&values, &mut buf), Err(CodecError::BufferTooSmall));
    assert_eq!(buf, [0x77u8; 9]);
    let mut buf = [0x77u8; 10];
    assert_eq!(encode(&values, &mut buf), Ok(10));
    let mut buf = [0x77u8; 2];
    assert_eq!(encode(&values, &mut buf), Err(CodecError::BufferTooSmall));
    assert_eq!(buf, [0x77u8; 2]);
}

#[test]
fn encode_scalar_rejects_short_buffers_and_writes_nothing() {
    let values = [0x1234u64, 5, 0xffff_ffff];
    let mut keys = [0x11u8; 2];
    let mut data = [0x22u8; 24];
    assert_eq!(
        encode_scalar(&values, &mut keys, &mut data),
        Err(CodecError::BufferTooSmall)
    );
    assert_eq!(keys, [0x11u8; 2]);
    assert_eq!(data, [0x22u8; 24]);
    let mut keys = [0x11u8; 3];
    let mut data = [0x22u8; 6];
    assert_eq!(
        encode_scalar(&values, &mut keys, &mut data),
        Err(CodecError::BufferTooSmall)
    );
    assert_eq!(keys, [0x11u8; 3]);
    assert_eq!(data, [0x22u8; 6]);
}

#[test]
fn decode_rejects_a_buffer_shorter_than_the_keys_imply() {
    let values = [0x1234u64, 5, 0xffff_ffff];
    let mut buf = [0u8; 10];
    assert_eq!(encode(&values, &mut buf), Ok(10));
    let mut out = [42u64; 3];
    assert_eq!(decode(&mut out, &buf[..9]), Err(CodecError::BufferTooSmall));
    assert_eq!(out, [42u64; 3]);
    assert_eq!(decode(&mut out, &buf[..2]), Err(CodecError::BufferTooSmall));
    assert_eq!(out, [42u64; 3]);
    assert_eq!(decode(&mut out, &[]), Err(CodecError::BufferTooSmall));
    assert_eq!(decode(&mut out, &buf), Ok(10));
    assert_eq!(out, values);
}

#[test]
fn decode_scalar_rejects_short_buffers() {
    let mut out = [42u64; 2];
    assert_eq!(
        decode_scalar(&mut out, &[0, 0], &[1, 2]),
        Err(CodecError::BufferTooSmall)
    );
    assert_eq!(
        decode_scalar(&mut out, &[0b001_000, 0, 0], &[1, 2]),
        Err(CodecError::BufferTooSmall)
    );
    assert_eq!(out, [42u64; 2]);
    assert_eq!(decode_scalar(&mut out, &[0b001_000, 0, 0], &[1, 2, 3]), Ok(3));
    assert_eq!(out, [1, 0x0302]);
}

#[test]
fn single_values_move_the_cursor_by_their_width() {
    let mut buf = [0xccu8; 6];
    let mut pos = 1;
    assert_eq!(encode_single(0x0a0b0c, &mut buf, &mut pos), Ok(2));
    assert_eq!(pos, 4);
    assert_eq!(buf, [0xcc, 0x0c, 0x0b, 0x0a, 0xcc, 0xcc]);
    assert_eq!(
        encode_single(0x0a0b0c, &mut buf, &mut pos),
        Err(CodecError::BufferTooSmall)
    );
    assert_eq!(pos, 4);
    assert_eq!(buf, [0xcc, 0x0c, 0x0b, 0x0a, 0xcc, 0xcc]);
    let mut read = 1;
    assert_eq!(decode_single(&buf, &mut read, 2), Ok(0x0a0b0c));
    assert_eq!(read, 4);
    assert_eq!(decode_single(&buf, &mut read, 1), Ok(0xcccc));
    assert_eq!(read, 6);
    assert_eq!(decode_single(&buf, &mut read, 0), Err(CodecError::BufferTooSmall));
    assert_eq!(read, 6);
}

#[test]
fn error_has_a_message() {
    assert_eq!(CodecError::BufferTooSmall.message(), "buffer too small");
}
