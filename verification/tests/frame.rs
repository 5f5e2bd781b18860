//! The addressed frame.

use hoverboard::link::frame::{
    decode, encode, DecodeError, EncodeError, FrameHeader, FrameScanner, CRC_LEN, HEADER_LEN, MAX_FRAME, MAX_PAYLOAD,
    PROTO_VER, SOF,
};
use hoverboard::link::opcode::Opcode;

fn hdr(opcode: Opcode, len: u8) -> FrameHeader {
    FrameHeader { ver: PROTO_VER, opcode, src: 0x02, dst: 0x03, len }
}

#[test]
fn frame_round_trip_nonempty() {
    let payload = [0xDE, 0xAD, 0xBE, 0xEF];
    let mut out = [0u8; MAX_FRAME];
    let n = encode(&hdr(Opcode::CyclicState, 0), &payload, &mut out).unwrap();
    assert_eq!(n, HEADER_LEN + payload.len() + CRC_LEN);
    let f = decode(&out[..n]).unwrap();
    assert_eq!(f.header.opcode, Opcode::CyclicState);
    assert_eq!(f.header.src, 0x02);
    assert_eq!(f.header.dst, 0x03);
    assert_eq!(f.payload, &payload);
}

#[test]
fn round_trip_empty() {
    let mut out = [0u8; MAX_FRAME];
    let n = encode(&hdr(Opcode::Fault, 0), &[], &mut out).unwrap();
    assert_eq!(n, HEADER_LEN + CRC_LEN);
    let f = decode(&out[..n]).unwrap();
    assert_eq!(f.header.len, 0);
    assert_eq!(f.payload, &[] as &[u8]);
}

#[test]
fn crc_reject_on_flip() {
    let payload = [1u8, 2, 3];
    let mut out = [0u8; MAX_FRAME];
    let n = encode(&hdr(Opcode::DriveCmd, 0), &payload, &mut out).unwrap();
    // Flip a payload byte, leave CRC untouched.
    out[HEADER_LEN] ^= 0xFF;
    assert_eq!(decode(&out[..n]), Err(DecodeError::CrcMismatch));
}

#[test]
fn bad_sof_and_version() {
    let mut out = [0u8; MAX_FRAME];
    let n = encode(&hdr(Opcode::DriveCmd, 0), &[1, 2], &mut out).unwrap();
    let mut bad = out;
    bad[0] = 0x00;
    assert_eq!(decode(&bad[..n]), Err(DecodeError::BadSof));
    let mut bad2 = out;
    bad2[1] = 0x09;
    // Version mismatch is caught before CRC.
    assert_eq!(decode(&bad2[..n]), Err(DecodeError::BadVersion));
}

#[test]
fn too_short_and_len_mismatch() {
    assert_eq!(decode(&[SOF, PROTO_VER, 0x10]), Err(DecodeError::TooShort));
    // Header says len=5 but not enough bytes follow.
    let buf = [SOF, PROTO_VER, 0x10, 0, 0, 5, 0, 0];
    assert_eq!(decode(&buf), Err(DecodeError::LenMismatch));
}

#[test]
fn unknown_opcode_decodes() {
    let mut out = [0u8; MAX_FRAME];
    // Craft a frame with an unknown opcode byte by hand-building then fixing CRC via encode.
    let h = FrameHeader { ver: PROTO_VER, opcode: Opcode::Unknown(0x7E), src: 1, dst: 2, len: 0 };
    let n = encode(&h, &[9, 9], &mut out).unwrap();
    let f = decode(&out[..n]).unwrap();
    assert_eq!(f.header.opcode, Opcode::Unknown(0x7E));
}

#[test]
fn encode_rejects_long_payload_and_small_buffer() {
    let mut out = [0u8; MAX_FRAME];
    let long = [0u8; MAX_PAYLOAD + 1];
    assert_eq!(encode(&hdr(Opcode::Event, 0), &long, &mut out), Err(EncodeError::PayloadTooLong));
    let mut tiny = [0u8; HEADER_LEN];
    assert_eq!(encode(&hdr(Opcode::Event, 0), &[], &mut tiny), Err(EncodeError::OutTooSmall));
}

/// A stream of frames comes out whole, however it is cut, and garbage between them is skipped.
#[test]
fn scanner_survives_garbage_and_chunking() {
    let mut stream = vec![0x00u8, SOF, 0x77];
    for (op, payload) in [(Opcode::Fault, &[7u8, 1][..]), (Opcode::Inputs, &[1, 2, 3, 4][..])] {
        let mut out = [0u8; MAX_FRAME];
        let n = encode(&hdr(op, 0), payload, &mut out).unwrap();
        stream.extend_from_slice(&out[..n]);
        stream.push(0xEE);
    }
    for step in 1..=stream.len() {
        let mut scanner = FrameScanner::new();
        let mut got = Vec::new();
        for chunk in stream.chunks(step) {
            got.extend(scanner.feed(chunk));
        }
        assert_eq!(got.len(), 2);
        assert_eq!(got[0].header.opcode, Opcode::Fault);
        assert_eq!(got[0].payload, vec![7, 1]);
        assert_eq!(got[1].as_decoded().payload, &[1, 2, 3, 4]);
    }
}
