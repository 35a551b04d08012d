use stream_vbyte64::block::{block_count, decode_block};
use stream_vbyte64::keys::get_word;
use stream_vbyte64::shuffle::{shuffle1, shuffle2};
use stream_vbyte64::vector::{lanes, load, or_bytes, rotate_lanes, shuffle_bytes};
use stream_vbyte64::{
    decode_avx, decode_scalar, decode_with, encode, encode_scalar, keys_len, max_compressed_len,
    CodecError,
};

const Z: u8 = 0x80;

fn widths(count: usize, step: u64) -> Vec<u64> {
    (0..count as u64)
        .map(|i| {
            let width = (i * step + i / 5) % 8 + 1;
            (0xfedc_ba98_7654_3210_u64.rotate_left((i % 61) as u32) | (1 << 63))
                >> (64 - 8 * width)
        })
        .collect()
}

fn assert_paths_agree(values: &[u64]) {
    let count = values.len();
    let mut keys = vec![0; keys_len(count)];
    let mut data = vec![0; 8 * count];
    let written = encode_scalar(values, &mut keys, &mut data).unwrap();
    let data = &data[..written];
    let mut scalar = vec![1; count];
    let mut vectorized = vec![2; count];
    let read_scalar = decode_scalar(&mut scalar, &keys, data);
    let read_vectorized = decode_avx(&mut vectorized, &keys, data);
    assert_eq!(read_scalar, Ok(written));
    assert_eq!(read_vectorized, Ok(written));
    assert_eq!(scalar, values);
    assert_eq!(vectorized, values);
}

#[test]
fn vectorized_agrees_with_scalar_at_boundary_counts() {
    for &count in &[0usize, 1, 7, 8, 9, 55, 56, 57, 63, 64, 65, 71, 72, 73, 4095, 4096, 4103] {
        assert_paths_agree(&widths(count, 3));
        assert_paths_agree(&widths(count, 1));
    }
}

#[test]
fn vectorized_agrees_with_scalar_on_uniform_widths() {
    for width in 1..=8u32 {
        let value = u64::MAX >> (64 - 8 * width);
        assert_paths_agree(&vec![value; 200]);
    }
    assert_paths_agree(&vec![0; 200]);
}

#[test]
fn vectorized_agrees_with_scalar_on_every_group_of_four_codes() {
    let mut values = Vec::new();
    for group in 0..4096u32 {
        for lane in 0..4 {
            let code = (group >> (3 * lane)) & 7;
            let value = 0x8877_6655_4433_2211_u64.rotate_left(group % 64) | (1 << 63);
            values.push(value >> (56 - 8 * code));
        }
    }
    values.extend_from_slice(&[7; 56]);
    assert_paths_agree(&values);
}

#[test]
fn vectorized_rejects_what_scalar_rejects() {
    let values = widths(100, 3);
    let mut keys = vec![0; keys_len(100)];
    let mut data = vec![0; 800];
    let written = encode_scalar(&values, &mut keys, &mut data).unwrap();
    let mut out = vec![3; 100];
    assert_eq!(
        decode_avx(&mut out, &keys, &data[..written - 1]),
        Err(CodecError::BufferTooSmall)
    );
    assert_eq!(
        decode_scalar(&mut out, &keys, &data[..written - 1]),
        Err(CodecError::BufferTooSmall)
    );
    assert_eq!(
        decode_avx(&mut out, &keys[..keys.len() - 1], &data),
        Err(CodecError::BufferTooSmall)
    );
    assert_eq!(out, vec![3; 100]);
    assert_eq!(decode_avx(&mut out, &keys, &data[..written]), Ok(written));
    assert_eq!(out, values);
}

#[test]
fn decode_with_gives_the_same_either_way() {
    for &count in &[0usize, 5, 64, 100, 1000] {
        let values = widths(count, 5);
        let mut buf = vec![0; max_compressed_len(count)];
        let written = encode(&values, &mut buf).unwrap();
        let mut scalar = vec![1; count];
        let mut vectorized = vec![2; count];
        assert_eq!(decode_with(&mut scalar, &buf[..written], false), Ok(written));
        assert_eq!(decode_with(&mut vectorized, &buf[..written], true), Ok(written));
        assert_eq!(scalar, values);
        assert_eq!(vectorized, values);
        if written > 0 {
            assert_eq!(
                decode_with(&mut vectorized, &buf[..written - 1], true),
                Err(CodecError::BufferTooSmall)
            );
            assert_eq!(vectorized, values);
        }
    }
}

#[test]
fn masks_of_four_one_byte_values() {
    let mut first = [Z; 32];
    first[0] = 0;
    first[8] = 1;
    let mut second = [Z; 32];
    second[0] = 2;
    second[8] = 3;
    assert_eq!(shuffle1(0), first);
    assert_eq!(shuffle2(0), second);
}

#[test]
fn masks_of_four_eight_byte_values() {
    let mut first = [0u8; 32];
    for i in 0..32 {
        first[i] = (i % 16) as u8;
    }
    assert_eq!(shuffle1(0xfff), first);
    assert_eq!(shuffle2(0xfff), [Z; 32]);
}

#[test]
fn masks_of_a_run_across_the_halves() {
    // widths 8, 6, 5, 2: lane 2 lies at 14..19, lane 3 at 19..21
    let group = 7 | (5 << 3) | (4 << 6) | (1 << 9);
    let first = [
        0, 1, 2, 3, 4, 5, 6, 7, 8, 9, 10, 11, 12, 13, Z, Z, Z, Z, 0, 1, 2, Z, Z, Z, 3, 4, Z, Z, Z,
        Z, Z, Z,
    ];
    let mut second = [Z; 32];
    second[0] = 14;
    second[1] = 15;
    assert_eq!(shuffle1(group), first);
    assert_eq!(shuffle2(group), second);
}

#[test]
fn block_of_mixed_widths() {
    let mut data = [0u8; 40];
    for (i, byte) in data.iter_mut().enumerate() {
        *byte = 0x10 + i as u8;
    }
    let group = 7 | (5 << 3) | (4 << 6) | (1 << 9);
    let mut pos = 3;
    let values = decode_block(&data, &mut pos, group);
    assert_eq!(pos, 3 + 21);
    assert_eq!(
        values,
        [
            0x1a19_1817_1615_1413,
            0x201f_1e1d_1c1b,
            0x25_2423_2221,
            0x2726,
        ]
    );
}

#[test]
fn block_of_the_widest_values() {
    let data: Vec<u8> = (1..=32).collect();
    let mut pos = 0;
    let values = decode_block(&data, &mut pos, 0xfff);
    assert_eq!(pos, 32);
    assert_eq!(
        values,
        [
            0x0807_0605_0403_0201,
            0x100f_0e0d_0c0b_0a09,
            0x1817_1615_1413_1211,
            0x201f_1e1d_1c1b_1a19,
        ]
    );
}

#[test]
fn load_copies_thirty_two_bytes() {
    let data: Vec<u8> = (0..40).collect();
    let window = load(&data, 5);
    for i in 0..32 {
        assert_eq!(window[i], 5 + i as u8);
    }
}

#[test]
fn shuffle_stays_within_each_half() {
    let mut data = [0u8; 32];
    for (i, byte) in data.iter_mut().enumerate() {
        *byte = 100 + i as u8;
    }
    let mut mask = [Z; 32];
    mask[0] = 15;
    mask[1] = 0;
    mask[2] = 0x8f;
    mask[3] = 0x13;
    mask[16] = 15;
    mask[17] = 0;
    mask[31] = 0x7f;
    let out = shuffle_bytes(&data, &mask);
    let mut expected = [0u8; 32];
    expected[0] = 115;
    expected[1] = 100;
    expected[3] = 103;
    expected[16] = 131;
    expected[17] = 116;
    expected[31] = 131;
    assert_eq!(out, expected);
}

#[test]
fn rotation_moves_the_low_lanes_up() {
    let mut v = [0u8; 32];
    for (i, byte) in v.iter_mut().enumerate() {
        *byte = i as u8;
    }
    let r = rotate_lanes(&v);
    let expected = [
        24, 25, 26, 27, 28, 29, 30, 31, 24, 25, 26, 27, 28, 29, 30, 31, 0, 1, 2, 3, 4, 5, 6, 7, 8,
        9, 10, 11, 12, 13, 14, 15,
    ];
    assert_eq!(r, expected);
}

#[test]
fn or_and_lanes() {
    let mut a = [0u8; 32];
    let mut b = [0u8; 32];
    a[0] = 0x0f;
    b[0] = 0xf0;
    a[9] = 0x01;
    b[16] = 0x22;
    a[31] = 0x80;
    b[31] = 0x01;
    let merged = or_bytes(&a, &b);
    assert_eq!(merged[0], 0xff);
    assert_eq!(
        lanes(&merged),
        [0xff, 0x0100, 0x22, 0x8100_0000_0000_0000]
    );
}

#[test]
fn shuffle_takes_the_low_four_bits_as_index() {
    let mut data = [0u8; 32];
    for (i, byte) in data.iter_mut().enumerate() {
        *byte = i as u8 + 1;
    }
    let half = [4, 128, 4, 3, 24, 12, 6, 19, 12, 5, 5, 10, 4, 1, 8, 0];
    let mut mask = [0u8; 32];
    mask[..16].copy_from_slice(&half);
    mask[16..].copy_from_slice(&half);
    let expected = [
        5, 0, 5, 4, 9, 13, 7, 4, 13, 6, 6, 11, 5, 2, 9, 1, 21, 0, 21, 20, 25, 29, 23, 20, 29, 22,
        22, 27, 21, 18, 25, 17,
    ];
    assert_eq!(shuffle_bytes(&data, &mask), expected);
}

#[test]
fn blocks_leave_the_last_56_values() {
    assert_eq!(block_count(0), 0);
    assert_eq!(block_count(56), 0);
    assert_eq!(block_count(63), 0);
    assert_eq!(block_count(64), 1);
    assert_eq!(block_count(71), 1);
    assert_eq!(block_count(72), 2);
    assert_eq!(block_count(4096), 505);
}

#[test]
fn key_group_is_little_endian() {
    assert_eq!(get_word(&[0x01, 0x02, 0x03, 0xaa, 0xbb, 0xcc], 0), 0x03_0201);
    assert_eq!(get_word(&[0x01, 0x02, 0x03, 0xaa, 0xbb, 0xcc], 1), 0xcc_bbaa);
}
