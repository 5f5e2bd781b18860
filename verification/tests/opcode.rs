//! Frame opcodes.

use hoverboard::link::opcode::Opcode;

#[test]
fn known_round_trip() {
    for op in [
        Opcode::NodeHello,
        Opcode::CyclicState,
        Opcode::DriveCmd,
        Opcode::Telemetry,
        Opcode::ConfigRead,
        Opcode::ConfigWrite,
        Opcode::ConfigResp,
        Opcode::Fault,
        Opcode::Inputs,
        Opcode::Event,
    ] {
        assert_eq!(Opcode::from_u8(op.to_u8()), op);
    }
}

#[test]
fn unknown_preserves_byte() {
    assert_eq!(Opcode::from_u8(0x7F), Opcode::Unknown(0x7F));
    assert_eq!(Opcode::Unknown(0x7F).to_u8(), 0x7F);
}

#[test]
fn every_byte_round_trips() {
    for b in 0u8..=255 {
        assert_eq!(Opcode::from_u8(b).to_u8(), b);
    }
}
