use mping::packet::{
    build_echo_request, checksum_fits, copy_bytes, echo_request_body, filled_bytes, ipv4_payload_of, parse_echo_reply,
    payload_for, set_checksum, timestamp_bytes, timestamp_of, timestamped,
};

fn ipv4(header_words: u8, total: u16, source: [u8; 4], body: &[u8]) -> Vec<u8> {
    let mut v = vec![0u8; 20];
    v[0] = 0x40 | header_words;
    v[2] = (total >> 8) as u8;
    v[3] = (total & 0xff) as u8;
    v[12..16].copy_from_slice(&source);
    for _ in 20..(header_words as usize * 4) {
        v.push(0xEE);
    }
    v.extend_from_slice(body);
    v
}

#[test]
fn timestamp_bytes_big_endian() {
    let b = timestamp_bytes(0x0102);
    assert_eq!(b.len(), 16);
    assert_eq!(&b[..14], &[0u8; 14]);
    assert_eq!(b[14], 1);
    assert_eq!(b[15], 2);
    assert_eq!(timestamp_bytes(1_700_000_000_123_456_789), 1_700_000_000_123_456_789u128.to_be_bytes().to_vec());
}

#[test]
fn timestamp_roundtrip() {
    for ts in [0u128, 1, 255, 256, 1_700_000_000_000_000_000, u128::MAX] {
        assert_eq!(timestamp_of(&timestamp_bytes(ts)), ts);
    }
    let mut longer = timestamp_bytes(77);
    longer.extend_from_slice(&[9, 9, 9]);
    assert_eq!(timestamp_of(&longer), 77);
}

#[test]
fn payload_patterns_cycle() {
    let rand = vec![7u8, 3, 9, 1];
    assert_eq!(payload_for(0, &rand), rand);
    assert_eq!(payload_for(1, &rand), vec![0u8; 4]);
    assert_eq!(payload_for(2, &rand), vec![1u8; 4]);
    assert_eq!(payload_for(3, &rand), vec![0x5Au8; 4]);
    assert_eq!(payload_for(4, &rand), rand);
    assert_eq!(payload_for(65535, &rand), vec![0x5Au8; 4]);
    assert_eq!(filled_bytes(9, 3), vec![9u8, 9, 9]);
    assert_eq!(copy_bytes(&rand), rand);
}

#[test]
fn timestamped_replaces_head() {
    let payload = vec![0x5Au8; 20];
    let v = timestamped(5, &payload);
    assert_eq!(v.len(), 20);
    assert_eq!(&v[..16], &5u128.to_be_bytes());
    assert_eq!(&v[16..], &[0x5Au8; 4]);
}

#[test]
fn echo_request_layout() {
    let v = echo_request_body(0x1234, 0xABCD, &[1, 2, 3]);
    assert_eq!(v, vec![8, 0, 0, 0, 0x12, 0x34, 0xAB, 0xCD, 1, 2, 3]);
    let mut w = v.clone();
    set_checksum(&mut w, 0xBEEF);
    assert_eq!(&w[..4], &[8, 0, 0xBE, 0xEF]);
    assert_eq!(&w[4..], &v[4..]);
}

#[test]
fn echo_request_checksum() {
    // words 0x0800 + 0x0001 + 0x0001 = 0x0802, complemented
    assert_eq!(build_echo_request(1, 1, &[]), vec![8, 0, 0xF7, 0xFD, 0, 1, 0, 1]);
    // odd payload byte is padded with a zero
    // 0x0800 + 0x0000 + 0x0000 + 0xFF00 = 0x10700 -> 0x0701 -> 0xF8FE
    assert_eq!(build_echo_request(0, 0, &[0xFF]), vec![8, 0, 0xF8, 0xFE, 0, 0, 0, 0, 0xFF]);
}

#[test]
fn ipv4_payload_bounds() {
    let body = [0u8, 0, 0, 0, 0, 1, 0, 2, 9, 9];
    let buf = ipv4(5, 30, [1, 2, 3, 4], &body);
    assert_eq!(ipv4_payload_of(&buf), body.to_vec());
    // total length shorter than the buffer cuts the payload
    let buf = ipv4(5, 24, [1, 2, 3, 4], &body);
    assert_eq!(ipv4_payload_of(&buf), body[..4].to_vec());
    // options are skipped
    let buf = ipv4(6, 34, [1, 2, 3, 4], &body);
    assert_eq!(buf.len(), 34);
    assert_eq!(ipv4_payload_of(&buf), body.to_vec());
    // a header length below five words still starts the payload at twenty
    let buf = ipv4(2, 30, [1, 2, 3, 4], &body);
    assert_eq!(ipv4_payload_of(&buf), body.to_vec());
    // nothing after the header
    let buf = ipv4(5, 20, [1, 2, 3, 4], &[]);
    assert_eq!(ipv4_payload_of(&buf), Vec::<u8>::new());
}

#[test]
fn parse_reply_fields() {
    let body = [0u8, 0, 0x12, 0x34, 0x04, 0xD2, 0x00, 0x07, 0xAA, 0xBB];
    let buf = ipv4(5, 30, [8, 8, 4, 4], &body);
    let r = parse_echo_reply(&buf).unwrap();
    assert_eq!(r.source, 0x08080404);
    assert_eq!(r.identifier, 1234);
    assert_eq!(r.sequence, 7);
    assert_eq!(r.payload, vec![0xAA, 0xBB]);
}

#[test]
fn parse_reply_rejects_others() {
    // an echo request
    let body = [8u8, 0, 0, 0, 0, 1, 0, 1];
    assert!(parse_echo_reply(&ipv4(5, 28, [1, 1, 1, 1], &body)).is_none());
    // a reply with another code
    let body = [0u8, 1, 0, 0, 0, 1, 0, 1];
    assert!(parse_echo_reply(&ipv4(5, 28, [1, 1, 1, 1], &body)).is_none());
    // a reply too short for the echo header
    let body = [0u8, 0, 0, 0, 0, 1];
    assert!(parse_echo_reply(&ipv4(5, 26, [1, 1, 1, 1], &body)).is_none());
    // exactly the header: an empty payload
    let body = [0u8, 0, 0, 0, 0, 1, 0, 1];
    assert_eq!(parse_echo_reply(&ipv4(5, 28, [1, 1, 1, 1], &body)).unwrap().payload.len(), 0);
}

#[test]
fn checksum_sum_bound() {
    assert!(checksum_fits(&[8, 0, 0, 0, 0, 1, 0, 1]));
    assert!(checksum_fits(&vec![0u8; 200_000]));
    // 65537 words of 0xFFFF besides the skipped one overflow 32 bits
    assert!(checksum_fits(&vec![0xFFu8; 2 * 65538]));
    assert!(!checksum_fits(&vec![0xFFu8; 2 * 65539]));
    assert!(!checksum_fits(&vec![0xFFu8; 2 * 65538 + 1]));
}
