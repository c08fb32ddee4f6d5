use axnet_rt::crc::crc32;
use axnet_rt::frame::{
    decode, encode, encode_into, frame_len, Error, CRC_LEN, ERR_OK, FRAME_MAX, HEADER_LEN,
    MAX_PAYLOAD, MSG_CONTROL, MSG_ERROR, MSG_HEARTBEAT,
};

// Golden frame captured from the C implementation, to show that both
// encoders produce the same bytes.
// magic,ver,type,flags,plen,seq | timestamp_us | error_code | "TEST" | crc32
const GOLDEN_HEX: &str =
    "a5010101000000000004cafe123411223344556677880000000054455354c5c8d1c8";

fn hex(s: &str) -> Vec<u8> {
    (0..s.len())
        .step_by(2)
        .map(|i| u8::from_str_radix(&s[i..i + 2], 16).unwrap())
        .collect()
}

#[test]
fn crc32_check_value() {
    // "123456789" -> 0xCBF43926 for CRC-32/IEEE.
    assert_eq!(crc32(b"123456789"), 0xCBF4_3926);
}

#[test]
fn roundtrip() {
    let payload = b"START";
    let flen = frame_len(payload.len());
    let mut buf = [0u8; FRAME_MAX];
    let n = encode_into(&mut buf, MSG_CONTROL, 0, 1001, 1234567890, ERR_OK, payload);
    assert_eq!(n, flen);
    let msg = decode(&buf, flen).unwrap();
    assert_eq!(msg.msg_type, MSG_CONTROL);
    assert_eq!(msg.sequence, 1001);
    assert_eq!(msg.timestamp_us, 1234567890);
    assert_eq!(msg.error_code, ERR_OK);
    assert_eq!(msg.payload, payload);
}

#[test]
fn flipped_payload_byte_detected() {
    let flen = frame_len(5);
    let mut buf = [0u8; FRAME_MAX];
    encode_into(&mut buf, MSG_CONTROL, 0, 1, 0, ERR_OK, b"START");
    buf[HEADER_LEN] ^= 0xFF;
    assert_eq!(decode(&buf, flen), Err(Error::BadCrc));
}

#[test]
fn bad_magic_and_version() {
    let flen = frame_len(0);
    let mut buf = [0u8; FRAME_MAX];
    encode_into(&mut buf, MSG_HEARTBEAT, 0, 7, 0, ERR_OK, &[]);
    buf[0] = 0x00;
    assert_eq!(decode(&buf, flen), Err(Error::BadMagic));
    buf[0] = 0xA5;
    buf[1] = 0x01;
    buf[2] = 9;
    assert_eq!(decode(&buf, flen), Err(Error::BadVersion));
}

#[test]
fn rust_encoder_is_wire_compatible_with_c() {
    let mut frame = vec![0u8; frame_len(4)];
    let n = encode_into(
        &mut frame,
        MSG_CONTROL,
        0,
        0xCAFE_1234,
        0x1122_3344_5566_7788,
        0,
        b"TEST",
    );
    assert_eq!(&frame[..n], hex(GOLDEN_HEX).as_slice());
}

#[test]
fn crc32_of_nothing_is_zero() {
    assert_eq!(crc32(&[]), 0);
    assert_eq!(crc32(b"a"), 0xE8B7_BE43);
}

#[test]
fn frame_len_adds_header_and_crc() {
    assert_eq!(frame_len(0), 30);
    assert_eq!(frame_len(4096), 4126);
    assert_eq!(FRAME_MAX, HEADER_LEN + MAX_PAYLOAD + CRC_LEN);
}

#[test]
fn encode_matches_encode_into_and_leaves_the_tail() {
    let v = encode(MSG_ERROR, 0x0102, 9, 77, 4, b"xy");
    assert_eq!(v.len(), frame_len(2));
    let mut buf = [0xEEu8; 64];
    let n = encode_into(&mut buf, MSG_ERROR, 0x0102, 9, 77, 4, b"xy");
    assert_eq!(&buf[..n], v.as_slice());
    assert!(buf[n..].iter().all(|&b| b == 0xEE));
    let m = decode(&v, v.len()).unwrap();
    assert_eq!(m.flags, 0x0102);
    assert_eq!(m.error_code, 4);
    assert_eq!(m.payload, b"xy");
}

#[test]
fn decode_refuses_short_long_and_mismatched_frames() {
    let frame = encode(MSG_CONTROL, 0, 1, 2, 0, b"abc");
    assert_eq!(decode(&frame, 29), Err(Error::TooShort));
    assert_eq!(decode(&[], 0), Err(Error::TooShort));
    // A length that does not match the announced payload length.
    let mut longer = frame.clone();
    longer.push(0);
    assert_eq!(decode(&longer, longer.len()), Err(Error::BadCrc));
    // An announced payload longer than the maximum.
    let mut big = frame.clone();
    big[6..10].copy_from_slice(&(MAX_PAYLOAD as u32 + 1).to_be_bytes());
    assert_eq!(decode(&big, big.len()), Err(Error::PayloadTooLong));
}

#[test]
fn every_single_byte_damage_is_refused() {
    let frame = encode(MSG_CONTROL, 3, 0x0A0B_0C0D, 42, 0, b"payload");
    for i in 0..frame.len() {
        let mut bad = frame.clone();
        bad[i] ^= 0x10;
        assert!(decode(&bad, bad.len()).is_err(), "byte {i} damage not detected");
    }
}

#[test]
fn crc_damage_is_refused() {
    let mut frame = encode(MSG_HEARTBEAT, 0, 5, 0, 0, &[]);
    let last = frame.len() - 1;
    frame[last] ^= 1;
    assert_eq!(decode(&frame, frame.len()), Err(Error::BadCrc));
}
