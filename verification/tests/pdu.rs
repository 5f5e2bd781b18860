//! Network PDUs.

use hoverboard::net::pdu::{
    is_board, is_controller, is_unicast, Opcode, Pdu, PduError, BROADCAST, HEADER_LEN, NO_ADDRESS,
};

#[test]
fn round_trips_every_known_opcode() {
    let payload = [0xDE, 0xAD, 0xBE, 0xEF];
    for op in [
        Opcode::NodeHello,
        Opcode::ProbePorts,
        Opcode::Ports,
        Opcode::Assign,
        Opcode::AssignAck,
        Opcode::ConfigRead,
        Opcode::ConfigWrite,
        Opcode::ConfigResp,
        Opcode::ConfigWriteMulti,
    ] {
        let pdu = Pdu::from_op(op, 0x01, 0x80, &payload);
        let mut buf = [0u8; 16];
        let n = pdu.encode(&mut buf).unwrap();
        assert_eq!(n, HEADER_LEN + payload.len());
        let got = Pdu::decode(&buf[..n]).unwrap();
        assert_eq!(got, pdu);
        assert_eq!(got.known(), Some(op));
        assert_eq!(got.opcode, op.to_u8());
    }
}

#[test]
fn empty_payload_round_trips() {
    let pdu = Pdu::from_op(Opcode::ProbePorts, 0x80, 0x01, &[]);
    let mut buf = [0u8; 8];
    let n = pdu.encode(&mut buf).unwrap();
    assert_eq!(n, HEADER_LEN);
    let got = Pdu::decode(&buf[..n]).unwrap();
    assert_eq!(got.payload, &[] as &[u8]);
    assert_eq!(got, pdu);
}

#[test]
fn unknown_opcode_decodes_to_ignore_not_error() {
    // An opcode L3 does not interpret (an L7 DRIVE in 0x10..0x2F) decodes fine; `known()` is None,
    // which is the node's signal to forward-by-dst / ignore, NOT a decode error.
    let buf = [0x10u8, 0x02, 0x03, 0x99];
    let got = Pdu::decode(&buf).unwrap();
    assert_eq!(got.opcode, 0x10);
    assert_eq!(got.known(), None);
    assert_eq!(got.src, 0x02);
    assert_eq!(got.dst, 0x03);
    assert_eq!(got.payload, &[0x99]);
}

#[test]
fn opcode_0x00_and_0xff_are_rejected() {
    assert_eq!(Pdu::decode(&[0x00, 1, 2]), Err(PduError::InvalidOpcode));
    assert_eq!(Pdu::decode(&[0xFF, 1, 2]), Err(PduError::InvalidOpcode));
    assert_eq!(Pdu::new(0x00, 1, 2, &[]), Err(PduError::InvalidOpcode));
    assert_eq!(Pdu::new(0xFF, 1, 2, &[]), Err(PduError::InvalidOpcode));
    // Encode guards too.
    let pdu = Pdu {
        opcode: 0xFF,
        src: 1,
        dst: 2,
        payload: &[],
    };
    let mut out = [0u8; 8];
    assert_eq!(pdu.encode(&mut out), Err(PduError::InvalidOpcode));
}

#[test]
fn too_short_buffer_is_rejected() {
    assert_eq!(Pdu::decode(&[]), Err(PduError::TooShort));
    assert_eq!(Pdu::decode(&[0x01]), Err(PduError::TooShort));
    assert_eq!(Pdu::decode(&[0x01, 0x02]), Err(PduError::TooShort));
}

#[test]
fn encode_rejects_small_out() {
    let pdu = Pdu::from_op(Opcode::Assign, 0x80, 0x01, &[0xAA, 0xBB]);
    let mut tiny = [0u8; 4]; // need 5
    assert_eq!(pdu.encode(&mut tiny), Err(PduError::OutTooSmall));
}

#[test]
fn addressing_range_helpers() {
    assert_eq!(NO_ADDRESS, 0x00);
    assert_eq!(BROADCAST, 0xFF);
    // boards
    assert!(is_board(0x01) && is_board(0x7F));
    assert!(!is_board(0x00) && !is_board(0x80));
    // controllers / guests
    assert!(is_controller(0x80) && is_controller(0xFE));
    assert!(!is_controller(0x7F) && !is_controller(0xFF));
    // learnable unicast = boards + guests, never 0x00 / 0xFF
    assert!(is_unicast(0x01) && is_unicast(0xFE));
    assert!(!is_unicast(NO_ADDRESS) && !is_unicast(BROADCAST));
}
