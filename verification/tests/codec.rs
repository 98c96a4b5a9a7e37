//! Wire primitives, frame bodies, and the stream cipher, exercised on
//! concrete values.

use mcproto::wire::{read_varint_u32, write_varint_u32, VarRead};
use mcproto::wire::{read_string, write_string};
use mcproto::frame::{decode_frame_body, encode_frame_body};
use mcproto::cipher::Cfb8;
use mcproto::error::ReadError;

#[test]
fn varint_round_trip_small() {
    let mut out: Vec<u8> = Vec::new();
    write_varint_u32(&mut out, 0);
    assert_eq!(out, vec![0x00]);
    write_varint_u32(&mut out, 127);
    assert_eq!(out, vec![0x00, 0x7f]);
    match read_varint_u32(&out, 1) {
        VarRead::Val { value, len } => {
            assert_eq!(value, 127);
            assert_eq!(len, 1);
        },
        _ => panic!("expected a value"),
    }
}

#[test]
fn varint_round_trip_multi_byte() {
    let mut out: Vec<u8> = Vec::new();
    write_varint_u32(&mut out, 300);
    assert_eq!(out, vec![0xac, 0x02]);
    let mut big: Vec<u8> = Vec::new();
    write_varint_u32(&mut big, u32::MAX);
    assert_eq!(big.len(), 5);
    match read_varint_u32(&big, 0) {
        VarRead::Val { value, len } => {
            assert_eq!(value, u32::MAX);
            assert_eq!(len, 5);
        },
        _ => panic!("expected a value"),
    }
}

#[test]
fn varint_incomplete_and_malformed() {
    let partial: Vec<u8> = vec![0x80, 0x80];
    assert!(matches!(read_varint_u32(&partial, 0), VarRead::Incomplete));
    let overlong: Vec<u8> = vec![0x80, 0x80, 0x80, 0x80, 0x80, 0x80];
    assert!(matches!(read_varint_u32(&overlong, 0), VarRead::Malformed));
}

#[test]
fn string_round_trip_non_ascii() {
    let mut out: Vec<u8> = Vec::new();
    write_string(&mut out, "tëst");
    let (s, end) = read_string(&out, 0).unwrap();
    assert_eq!(s, "tëst");
    assert_eq!(end, out.len());
    // the length prefix counts bytes, not characters
    assert_eq!(out[0] as usize, "tëst".len());
}

#[test]
fn frame_body_plain_round_trip() {
    let packet: Vec<u8> = vec![1, 2, 3, 4, 5];
    let body = encode_frame_body(&packet, None);
    assert_eq!(body, packet);
    let back = decode_frame_body(&body, false).unwrap();
    assert_eq!(back, packet);
}

#[test]
fn compression_boundary() {
    // threshold 256: a 255-byte payload stays raw behind a zero marker
    let below: Vec<u8> = (0..255u32).map(|i| (i % 251) as u8).collect();
    let body = encode_frame_body(&below, Some(256));
    assert_eq!(body[0], 0);
    assert_eq!(&body[1..], &below[..]);
    let back = decode_frame_body(&body, true).unwrap();
    assert_eq!(back, below);

    // a 256-byte payload is compressed behind its uncompressed length
    let at: Vec<u8> = (0..256u32).map(|i| (i % 251) as u8).collect();
    let body = encode_frame_body(&at, Some(256));
    assert_eq!(body[0], 128); // varint 256 = 0x80 0x02
    assert_eq!(body[1], 2);
    assert_ne!(&body[2..], &at[..]);
    let back = decode_frame_body(&body, true).unwrap();
    assert_eq!(back, at);
}

#[test]
fn decompress_rejects_garbage() {
    // marker says 16 uncompressed bytes, but the data is not a zlib stream
    let mut body: Vec<u8> = vec![16];
    body.extend_from_slice(&[0xde, 0xad, 0xbe, 0xef]);
    assert!(decode_frame_body(&body, true).is_err());
}

#[test]
fn cfb8_known_first_byte() {
    // AES-128 of the zero block under the zero key starts with 0x66, so
    // the first CFB8 ciphertext byte of a zero plaintext must be 0x66.
    let key: Vec<u8> = vec![0u8; 16];
    let mut enc = Cfb8::new(&key);
    let mut data: Vec<u8> = vec![0u8; 4];
    enc.encrypt(&mut data);
    assert_eq!(data[0], 0x66);
}

#[test]
fn cfb8_round_trip() {
    let key: Vec<u8> = (0..16u8).collect();
    let mut enc = Cfb8::new(&key);
    let mut dec = Cfb8::new(&key);
    let original: Vec<u8> = (0..64u32).map(|i| (i * 7 % 256) as u8).collect();
    let mut data = original.clone();
    enc.encrypt(&mut data);
    assert_ne!(data, original);
    dec.decrypt(&mut data);
    assert_eq!(data, original);
}

#[test]
fn declared_length_mismatch_is_its_own_error() {
    // compress a 20-byte payload (threshold 0 compresses everything), then
    // tamper with the declared uncompressed length: the stream is still
    // valid zlib, so the failure is the declared-length mismatch
    let payload: Vec<u8> = (0..20u8).collect();
    let mut body = encode_frame_body(&payload, Some(0));
    assert_eq!(body[0], 20);
    body[0] = 21;
    assert_eq!(decode_frame_body(&body, true), Err(ReadError::UncompressedLengthMismatch));
    body[0] = 19;
    assert_eq!(decode_frame_body(&body, true), Err(ReadError::UncompressedLengthMismatch));
}

#[test]
fn oversized_valid_stream_is_a_mismatch() {
    // a valid zlib stream that inflates to more than the frame cap, under
    // a smaller declared length, is a declared-length disagreement, not a
    // decompression failure
    let mut encoder =
        flate2::write::ZlibEncoder::new(Vec::new(), flate2::Compression::default());
    std::io::Write::write_all(&mut encoder, &vec![0u8; 0x30_0000]).unwrap();
    let stream = encoder.finish().unwrap();
    let mut body: Vec<u8> = vec![9];
    body.extend_from_slice(&stream);
    assert_eq!(decode_frame_body(&body, true), Err(ReadError::UncompressedLengthMismatch));
}
