//! Tests of the framing codec: header encoding, decoding, and the round
//! trip between them.

use rusty_pub_sub::codec::{clear_buffer, decode_header, encode_header, is_buffer_empty, HeaderStatus};

/// Encode a payload into one frame, then decode it again and hand back the
/// announced length and the payload bytes.
fn round_trip(payload: &[u8]) -> (usize, Vec<u8>) {
    let header = encode_header(payload.len());
    let mut frame = header.clone();
    frame.extend_from_slice(payload);
    let announced = match decode_header(&frame[0..64]) {
        HeaderStatus::Length(n) => n,
        other => panic!("well-formed header did not decode: {:?}", other),
    };
    (announced, frame[64..64 + announced].to_vec())
}

#[test]
fn test_is_buffer_empty_true() {
    let buffer = [0; 64];
    assert!(is_buffer_empty(&buffer));
}

#[test]
fn test_is_buffer_empty_false() {
    let mut buffer = [0; 64];
    buffer[0] = 1;
    assert!(!is_buffer_empty(&buffer));
}

#[test]
fn test_clear_buffer() {
    let mut buffer = vec![0u8; 64];
    buffer[0] = 1;
    clear_buffer(&mut buffer);
    assert!(buffer.iter().all(|&x| x == 0));
}

#[test]
fn test_encode_header_shape() {
    let header = encode_header(1000);
    assert_eq!(header.len(), 64);
    assert_eq!(&header[0..4], b"1000");
    assert!(header[4..].iter().all(|&b| b == b' '));
}

#[test]
fn test_encode_header_zero() {
    let header = encode_header(0);
    assert_eq!(header[0], b'0');
    assert!(header[1..].iter().all(|&b| b == b' '));
}

#[test]
fn test_round_trip_lengths() {
    for n in [0usize, 1, 63, 64, 1000] {
        let payload: Vec<u8> = (0..n).map(|i| (i % 251) as u8).collect();
        let (announced, decoded) = round_trip(&payload);
        assert_eq!(announced, n);
        assert_eq!(decoded, payload);
    }
}

#[test]
fn test_decode_header_empty_window() {
    let buffer = [0u8; 64];
    assert_eq!(decode_header(&buffer), HeaderStatus::Empty);
}

#[test]
fn test_decode_header_malformed() {
    let mut buffer = [b' '; 64];
    buffer[0] = b'a';
    buffer[1] = b'b';
    buffer[2] = b'c';
    assert_eq!(decode_header(&buffer), HeaderStatus::Invalid);
}

#[test]
fn test_decode_header_all_spaces() {
    let buffer = [b' '; 64];
    assert_eq!(decode_header(&buffer), HeaderStatus::Invalid);
}

#[test]
fn test_decode_header_digit_then_zeros() {
    // A digit followed by the zero bytes of an underfilled window is not a
    // space-padded number.
    let mut buffer = [0u8; 64];
    buffer[0] = b'4';
    assert_eq!(decode_header(&buffer), HeaderStatus::Invalid);
}

#[test]
fn test_decode_header_too_large() {
    // Sixty-four nines name a length no machine can address.
    let buffer = [b'9'; 64];
    assert_eq!(decode_header(&buffer), HeaderStatus::Invalid);
}

#[test]
fn test_decode_header_well_formed() {
    let mut buffer = [b' '; 64];
    buffer[0] = b'1';
    buffer[1] = b'2';
    assert_eq!(decode_header(&buffer), HeaderStatus::Length(12));
}
