use wal_db::record;
use wal_db::stamped::{encode, parse_header, verify, HEADER_LEN, LEN_OFFSET};

fn header_array(buf: &[u8]) -> [u8; HEADER_LEN] {
    buf[..HEADER_LEN].try_into().unwrap()
}

#[test]
fn test_encode_layout_and_roundtrip() {
    let mut buf = Vec::new();
    encode(&mut buf, 7, b"hello");

    assert_eq!(buf.len(), HEADER_LEN + 5);

    let header = parse_header(&header_array(&buf));
    assert_eq!(header.len, 5);
    assert_eq!(header.lsn, 7);

    let payload = &buf[HEADER_LEN..];
    assert_eq!(payload, b"hello");
    assert!(verify(&header_array(&buf), payload, header.crc));
}

#[test]
fn test_encode_empty_payload() {
    let mut buf = Vec::new();
    encode(&mut buf, 0, b"");
    assert_eq!(buf.len(), HEADER_LEN);

    let header = parse_header(&header_array(&buf));
    assert_eq!(header.len, 0);
    assert!(verify(&header_array(&buf), &[], header.crc));
}

#[test]
fn test_streaming_crc_equals_contiguous_crc() {
    // The verify path checksums the header tail and payload in two chunks;
    // encode checksums them as one. They must agree.
    let mut buf = Vec::new();
    encode(&mut buf, 99, b"some bytes here");
    let header = parse_header(&header_array(&buf));
    let contiguous = crc32c::crc32c(&buf[LEN_OFFSET..]);
    assert_eq!(contiguous, header.crc);
    assert!(verify(&header_array(&buf), b"some bytes here", contiguous));
}

#[test]
fn test_flipped_payload_byte_fails_verify() {
    let mut buf = Vec::new();
    encode(&mut buf, 1, b"payload");
    let header = parse_header(&header_array(&buf));

    let mut payload = buf[HEADER_LEN..].to_vec();
    payload[0] ^= 0x01;
    assert!(!verify(&header_array(&buf), &payload, header.crc));
}

#[test]
fn test_reused_buffer_does_not_leak_previous_record() {
    let mut buf = Vec::new();
    encode(&mut buf, 1, b"a longer first record");
    encode(&mut buf, 2, b"short");
    assert_eq!(buf.len(), HEADER_LEN + 5);

    let header = parse_header(&header_array(&buf));
    assert_eq!(header.lsn, 2);
    assert_eq!(&buf[HEADER_LEN..], b"short");
    assert!(verify(&header_array(&buf), &buf[HEADER_LEN..], header.crc));
}

fn log_header(buf: &[u8]) -> [u8; record::HEADER_LEN] {
    buf[..record::HEADER_LEN].try_into().unwrap()
}

#[test]
fn frame_is_checksum_length_payload() {
    let mut buf = vec![0xEE; 40];
    record::encode(&mut buf, b"abc");
    assert_eq!(buf.len(), 11);
    assert_eq!(&buf[4..8], &[3, 0, 0, 0]);
    assert_eq!(&buf[8..], b"abc");
    // The checksum covers the length and the payload.
    let crc = crc32c::crc32c(&[3, 0, 0, 0, b'a', b'b', b'c']);
    assert_eq!(&buf[..4], &crc.to_le_bytes());

    let header = record::parse_header(&log_header(&buf));
    assert_eq!(header.len, 3);
    assert_eq!(header.crc, crc);
    assert!(record::verify(&log_header(&buf), b"abc", crc));
    assert!(!record::verify(&log_header(&buf), b"abd", crc));
}

#[test]
fn checksum_matches_the_published_check_value() {
    // A header whose length bytes are "1234", followed by "56789".
    let header = [0, 0, 0, 0, b'1', b'2', b'3', b'4'];
    assert!(record::verify(&header, b"56789", 0xE306_9283));
    assert!(!record::verify(&header, b"56789", 0xE306_9284));
}

#[test]
fn seal_replaces_the_checksum_field() {
    let mut buf = vec![9, 9, 9, 9, 1, 2];
    record::seal(&mut buf, 0x0403_0201);
    assert_eq!(buf, vec![1, 2, 3, 4, 1, 2]);
}

#[test]
fn framed_len_adds_the_header() {
    assert_eq!(record::framed_len(0), 8);
    assert_eq!(record::framed_len(5), 13);
    assert_eq!(record::framed_len(u32::MAX), 4_294_967_303);
}
