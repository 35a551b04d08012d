use stream_vbyte64::{
    compressed_len, decode, decode_scalar, decode_single, decode_with, encode, encode_scalar, encode_single,
    keys_len, max_compressed_len,
};

fn spread(count: u64) -> Vec<u64> {
    (0..count).map(|v| v * (u64::MAX / 4090)).collect()
}

#[test]
fn check_compressed_len() {
    let values = spread(4090);
    let len = max_compressed_len(values.len());
    let mut buf = vec![0; len];
    let written = encode(&values, &mut buf).unwrap();
    let len = compressed_len(values.len(), &buf).unwrap();
    assert_eq!(written, keys_len(values.len()) + len);
}

#[test]
fn base_round_trip() {
    let values = spread(4090);
    let len = max_compressed_len(values.len());
    let mut buf = vec![0; len];
    let written = encode(&values, &mut buf).unwrap();
    let mut out = vec![0; values.len()];
    decode(&mut out, &buf[..written]).unwrap();
    assert_eq!(values, out);
}

#[test]
fn short_round_trip() {
    let values = [0, 1, 2, 3, 4, 5, 6, 7];
    let len = max_compressed_len(values.len());
    let mut buf = vec![0; len];
    let written = encode(&values, &mut buf).unwrap();
    let mut out = [0; 8];
    decode(&mut out, &buf[..written]).unwrap();
    assert_eq!(values, out);
}

#[test]
fn scalar_round_trip() {
    let values = spread(4090);
    let mut keys = vec![0; keys_len(values.len())];
    let mut data = vec![0; values.len() * 8];

    let written = encode_scalar(&values, &mut keys, &mut data).unwrap();
    let mut out = vec![0; values.len()];
    let read = decode_scalar(&mut out, &keys, &data).unwrap();
    assert_eq!(read, written);
    assert_eq!(values, out);
}

#[test]
fn single_round_trip() {
    let tests = [
        0,
        5,
        5 << 8 | 2,
        5 << 16 | 2,
        5 << 24 | 2,
        5 << 32 | 2,
        5 << 40 | 2,
        5 << 48 | 2,
        5 << 56 | 2,
    ];
    for &test in &tests {
        let mut buf = [0; 8];
        let mut write_pos = 0;
        let code = encode_single(test, &mut buf, &mut write_pos).unwrap();
        let mut read_pos = 0;
        let out = decode_single(&buf, &mut read_pos, code).unwrap();
        assert_eq!(write_pos, read_pos);
        assert_eq!(test, out);
    }
}

fn mixed(count: usize) -> Vec<u64> {
    (0..count as u64)
        .map(|i| {
            let width = (i * 7 + i / 8) % 9;
            if width == 0 {
                0
            } else {
                (0x0123_4567_89ab_cdef_u64.rotate_left((i % 64) as u32) | 1)
                    >> (64 - 8 * width)
            }
        })
        .collect()
}

fn assert_round_trips(count: usize) {
    let values = mixed(count);
    let mut buf = vec![0xa5; max_compressed_len(count)];
    let written = encode(&values, &mut buf).unwrap();
    assert!(written >= keys_len(count) + count);
    assert!(written <= max_compressed_len(count));
    assert_eq!(
        compressed_len(count, &buf[..keys_len(count)]).unwrap(),
        written - keys_len(count)
    );
    let mut out = vec![u64::MAX; count];
    let consumed = decode(&mut out, &buf[..written]).unwrap();
    assert_eq!(consumed, written);
    assert_eq!(out, values);
    let mut out = vec![u64::MAX; count];
    assert_eq!(decode_with(&mut out, &buf[..written], true), Ok(written));
    assert_eq!(out, values);
}

#[test]
fn round_trip_of_no_values() {
    assert_round_trips(0);
    let mut buf: [u8; 0] = [];
    assert_eq!(encode(&[], &mut buf), Ok(0));
    let mut out: [u64; 0] = [];
    assert_eq!(decode(&mut out, &buf), Ok(0));
}

#[test]
fn round_trip_of_one_value() {
    assert_round_trips(1);
}

#[test]
fn round_trip_of_seven_values() {
    assert_round_trips(7);
}

#[test]
fn round_trip_of_eight_values() {
    assert_round_trips(8);
}

#[test]
fn round_trip_of_nine_values() {
    assert_round_trips(9);
}

#[test]
fn round_trip_around_the_block_boundary() {
    for count in 55..=73 {
        assert_round_trips(count);
    }
}

#[test]
fn round_trip_of_4095_values() {
    assert_round_trips(4095);
}

#[test]
fn round_trip_of_4096_values() {
    assert_round_trips(4096);
}

#[test]
fn round_trip_of_4103_values() {
    assert_round_trips(4103);
}

#[test]
fn round_trip_of_every_width() {
    let values: Vec<u64> = vec![
        0,
        0xff,
        0x100,
        0xffff,
        0x1_0000,
        0xff_ffff,
        0x100_0000,
        0xffff_ffff,
        0x1_0000_0000,
        0xff_ffff_ffff,
        0x100_0000_0000,
        0xffff_ffff_ffff,
        0x1_0000_0000_0000,
        0xff_ffff_ffff_ffff,
        0x100_0000_0000_0000,
        u64::MAX,
    ];
    let mut keys = vec![0; keys_len(values.len())];
    let mut data = vec![0; 8 * values.len()];
    let written = encode_scalar(&values, &mut keys, &mut data).unwrap();
    assert_eq!(written, 2 * (1 + 2 + 3 + 4 + 5 + 6 + 7 + 8));
    let mut out = vec![0; values.len()];
    assert_eq!(decode_scalar(&mut out, &keys, &data), Ok(written));
    assert_eq!(out, values);
}
