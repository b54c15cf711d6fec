use cram_core::error::DecodeError;
use cram_core::fqzcomp::fqz_decode;
use cram_core::fqzcomp::fqz_encode;
use cram_core::fqzcomp::read_array;
use cram_core::fqzcomp::reverse_qualities;
use cram_core::num::read_itf8;
use cram_core::num::read_u32_le;
use cram_core::num::read_u8;
use cram_core::num::read_uint7;
use cram_core::rans::Order;
use cram_core::rans::rans_decode;
use cram_core::rans::rans_encode;
use cram_core::rans::rans_get_cumulative_freq;
use cram_core::rans::rans_advance_step;
use cram_core::rans::rans_renorm;
use cram_core::rans::read_header;

#[test]
fn test_read_header() {
    let data = [
        0x00, // order = 0
        0x25, 0x00, 0x00, 0x00, // compressed size = 37
        0x07, 0x00, 0x00, 0x00, // data size = 7
    ];

    let mut pos = 0;
    assert_eq!(read_header(&data, &mut pos).unwrap(), (Order::Zero, 37, 7));
    assert_eq!(pos, 9);
}

#[test]
fn test_rans_decode_with_order_0() {
    let expected = b"noodles";

    let data = vec![
        0x00, 0x25, 0x00, 0x00, 0x00, 0x07, 0x00, 0x00, 0x00, 0x64, 0x82, 0x49, 0x65, 0x00, 0x82,
        0x49, 0x6c, 0x82, 0x49, 0x6e, 0x82, 0x49, 0x6f, 0x00, 0x84, 0x92, 0x73, 0x82, 0x49, 0x00,
        0xe2, 0x06, 0x83, 0x18, 0x74, 0x7b, 0x41, 0x0c, 0x2b, 0xa9, 0x41, 0x0c, 0x25, 0x31, 0x80,
        0x03,
    ];

    let mut pos = 0;
    let actual = rans_decode(&data, &mut pos).unwrap();

    assert_eq!(actual, expected);
}

#[test]
fn test_rans_decode_with_order_1() {
    let expected = b"noodles";

    let data = vec![
        0x01, 0x3b, 0x00, 0x00, 0x00, 0x07, 0x00, 0x00, 0x00, 0x00, 0x64, 0x84, 0x00, 0x6e, 0x84,
        0x00, 0x6f, 0x00, 0x87, 0xff, 0x00, 0x64, 0x6c, 0x8f, 0xff, 0x00, 0x65, 0x00, 0x73, 0x8f,
        0xff, 0x00, 0x6c, 0x65, 0x8f, 0xff, 0x00, 0x6e, 0x6f, 0x8f, 0xff, 0x00, 0x6f, 0x00, 0x64,
        0x87, 0xff, 0x6f, 0x88, 0x00, 0x00, 0x00, 0x00, 0x04, 0x00, 0x02, 0x02, 0x28, 0x00, 0x01,
        0x02, 0x28, 0x00, 0x01, 0x02, 0x60, 0x00, 0x02,
    ];

    let mut pos = 0;
    let actual = rans_decode(&data, &mut pos).unwrap();

    assert_eq!(actual, expected);
}

#[test]
fn test_rans_decode_rejects_bad_order() {
    let data = [0x02, 0x00, 0x00, 0x00, 0x00, 0x00, 0x00, 0x00, 0x00];
    let mut pos = 0;
    assert_eq!(rans_decode(&data, &mut pos), Err(DecodeError::CorruptStream));
}

#[test]
fn test_rans_decode_rejects_truncated_input() {
    let data = [0x00, 0x25, 0x00];
    let mut pos = 0;
    assert_eq!(rans_decode(&data, &mut pos), Err(DecodeError::Truncated));
}

#[test]
fn test_rans_helpers() {
    assert_eq!(rans_get_cumulative_freq(0x0123_4567), 0x567);
    // f * (r >> 12) + (r & 0xfff) - c
    assert_eq!(rans_advance_step(0x0123_4567, 0x100, 0x200), 0x200 * 0x1234 + 0x567 - 0x100);
}

#[test]
fn test_rans_renorm_at_threshold() {
    // A state at exactly 2^23 consumes nothing.
    let data = [0xAA, 0xBB];
    let mut pos = 0;
    assert_eq!(rans_renorm(&data, &mut pos, 1 << 23).unwrap(), 1 << 23);
    assert_eq!(pos, 0);

    // One below the threshold shifts one byte in.
    let mut pos = 0;
    let r = rans_renorm(&data, &mut pos, (1 << 23) - 1).unwrap();
    assert_eq!(r, (((1u32 << 23) - 1) << 8) | 0xAA);
    assert_eq!(pos, 1);

    // A small state keeps pulling bytes and fails when they run out.
    let mut pos = 0;
    assert_eq!(rans_renorm(&data, &mut pos, 0), Err(DecodeError::Truncated));
}

#[test]
fn test_fqz_decode() {
    let data = [
        0x07, 0x05, 0x02, 0x01, 0xff, 0x01, 0x00, 0x00, 0x7c, 0x06, 0x83, 0x7e, 0x0f, 0x43, 0x44,
        0x4b, 0x4d, 0x4e, 0x52, 0x01, 0x01, 0x7d, 0xff, 0xff, 0x01, 0x84, 0x08, 0xf8, 0x00, 0x03,
        0x7f, 0xff, 0xf9, 0x42, 0xd0, 0xe0, 0x48, 0xa9, 0x21,
    ];

    let mut pos = 0;
    let actual = fqz_decode(&data, &mut pos).unwrap();

    let expected = b"noodles".map(|b| b - b'!');

    assert_eq!(actual, expected);
}

#[test]
fn test_reverse_qualities() {
    let mut data = b"ndlsndlsndls".to_vec();
    let len = data.len();
    let rev_len = vec![(false, 4), (true, 4), (false, 4)];

    reverse_qualities(&mut data, len, &rev_len);

    assert_eq!(data, b"ndlssldnndls");
}

#[test]
fn test_read_array_rle() {
    // One run of 8 zeros, then 248 ones, covering 256 entries.
    let data = [0x08, 0xf8];
    let mut pos = 0;
    let table = read_array(&data, &mut pos, 256).unwrap();
    assert_eq!(table.len(), 256);
    assert!(table[..8].iter().all(|&b| b == 0));
    assert!(table[8..].iter().all(|&b| b == 1));
}

#[test]
fn test_read_uint7_byte_boundaries() {
    for (bytes, expected) in [
        (vec![0x00], 0u64),
        (vec![0x7f], 127),
        (vec![0x81, 0x00], 128),
        (vec![0xff, 0x7f], 16383),
        (vec![0x81, 0x80, 0x00], 16384),
    ] {
        let mut pos = 0;
        assert_eq!(read_uint7(&bytes, &mut pos).unwrap(), expected);
        assert_eq!(pos, bytes.len());
    }
}

#[test]
fn test_read_itf8_widths() {
    let mut pos = 0;
    assert_eq!(read_itf8(&[0x7f], &mut pos).unwrap(), 0x7f);

    let mut pos = 0;
    assert_eq!(read_itf8(&[0x82, 0x49], &mut pos).unwrap(), 0x249);

    let mut pos = 0;
    assert_eq!(read_itf8(&[0xc1, 0x02, 0x03], &mut pos).unwrap(), 0x10203);

    let mut pos = 0;
    assert_eq!(read_itf8(&[0xe1, 0x02, 0x03, 0x04], &mut pos).unwrap(), 0x1020304);
}

#[test]
fn test_read_scalars() {
    let data = [0x05, 0x25, 0x00, 0x00, 0x00];
    let mut pos = 0;
    assert_eq!(read_u8(&data, &mut pos).unwrap(), 0x05);
    assert_eq!(read_u32_le(&data, &mut pos).unwrap(), 37);
    assert_eq!(read_u8(&data, &mut pos), Err(DecodeError::Truncated));
}

#[test]
fn test_rans_decode_empty_payload() {
    // A declared uncompressed length of zero decodes to an empty buffer.
    let mut data = vec![
        0x00, // order = 0
        0x12, 0x00, 0x00, 0x00, // compressed size
        0x00, 0x00, 0x00, 0x00, // data size = 0
        0x61, 0x90, 0x00, // 'a' with frequency 4096
        0x00, // end of table
    ];
    data.extend_from_slice(&[0x00; 16]); // four decoder states

    let mut pos = 0;
    let actual = rans_decode(&data, &mut pos).unwrap();
    assert!(actual.is_empty());
}

fn rans_round_trip(input: &[u8]) {
    let encoded = rans_encode(input).unwrap();
    let mut pos = 0;
    let decoded = rans_decode(&encoded, &mut pos).unwrap();
    assert_eq!(decoded, input);
    // The frame declares the uncompressed length.
    assert_eq!(
        u32::from_le_bytes([encoded[5], encoded[6], encoded[7], encoded[8]]) as usize,
        input.len()
    );
}

#[test]
fn test_rans_round_trip() {
    rans_round_trip(b"");
    rans_round_trip(b"a");
    rans_round_trip(b"noodles");
    rans_round_trip(b"aaaaaaaaaaaaaaaaaaaaaaaaaaaaa");
    rans_round_trip(&[0x00, 0x00, 0x00, 0x01, 0x02]);
    rans_round_trip(&[0xff; 7]);

    let all: Vec<u8> = (0u8..=255).cycle().take(768).collect();
    rans_round_trip(&all);

    // A skewed pseudo-random mix over a small alphabet.
    let mut x: u32 = 0x1234_5678;
    let mixed: Vec<u8> = (0..5000)
        .map(|_| {
            x = x.wrapping_mul(1103515245).wrapping_add(12345);
            b"AACCGGTTN"[(x >> 16) as usize % 9]
        })
        .collect();
    rans_round_trip(&mixed);
}

fn fqz_round_trip(quals: &[u8], lens: &[usize]) {
    let lens_vec = lens.to_vec();
    let encoded = fqz_encode(quals, &lens_vec).unwrap();
    let mut pos = 0;
    let decoded = fqz_decode(&encoded, &mut pos).unwrap();
    assert_eq!(decoded, quals);
}

#[test]
fn test_fqz_round_trip() {
    fqz_round_trip(&b"noodles".map(|b| b - b'!'), &[7]);
    fqz_round_trip(b"", &[]);
    fqz_round_trip(&[5; 100], &[25, 25, 50]);

    let mut x: u32 = 0x8765_4321;
    let quals: Vec<u8> = (0..1000)
        .map(|_| {
            x = x.wrapping_mul(1103515245).wrapping_add(12345);
            ((x >> 16) % 40) as u8
        })
        .collect();
    fqz_round_trip(&quals, &[100; 10]);
}
