//! Link-control payloads.

use hoverboard::linkctl::{
    decode, CyclicState, DecodeError, DriveCmd, DriveKind, Fault, Inputs, Payload, CYCLIC_TIMEOUT_TICKS,
    DRIVE_TIMEOUT_TICKS, OP_CYCLIC_STATE, OP_DRIVE_CMD, OP_FAULT, OP_INPUTS,
};

// -- Allocation and constants ---------------------------------------------------------------

#[test]
fn opcode_allocation_pinned() {
    assert_eq!(OP_CYCLIC_STATE, 0x10);
    assert_eq!(OP_DRIVE_CMD, 0x11);
    assert_eq!(OP_INPUTS, 0x12);
    assert_eq!(OP_FAULT, 0x13);
    // All four live in the reserved control block 0x10..0x2F.
    for op in [OP_CYCLIC_STATE, OP_DRIVE_CMD, OP_INPUTS, OP_FAULT] {
        assert!((0x10..0x2F).contains(&op));
    }
}

#[test]
fn supervision_constants_pinned() {
    // 25 ticks = 100 ms at 250 Hz; 50 ticks = 200 ms.
    assert_eq!(CYCLIC_TIMEOUT_TICKS, 25);
    assert_eq!(DRIVE_TIMEOUT_TICKS, 50);
}

#[test]
fn committed_lengths_pinned() {
    assert_eq!(CyclicState::LEN, 11);
    assert_eq!(DriveCmd::LEN, 5);
    assert_eq!(Inputs::LEN, 4);
    assert_eq!(Fault::LEN, 2);
}

// -- Wire layout (byte-exact, little-endian) ------------------------------------------------

fn cyclic_sample() -> CyclicState {
    CyclicState {
        pitch: -2,       // 0xFFFE
        roll: 0x0102,    // LE 02 01
        wheel_speed: -1, // 0xFFFF
        battery: 0xA1B2, // LE B2 A1
        mode: 0x03,
        fault: 0x11,
        flags: CyclicState::FLAG_RIDER | CyclicState::FLAG_LOCKDOWN,
    }
}

#[test]
fn cyclic_state_wire_layout_is_little_endian() {
    let mut buf = [0u8; CyclicState::LEN];
    assert_eq!(cyclic_sample().encode(&mut buf), CyclicState::LEN);
    assert_eq!(
        buf,
        [
            0xFE, 0xFF, // pitch -2
            0x02, 0x01, // roll 0x0102
            0xFF, 0xFF, // wheel_speed -1
            0xB2, 0xA1, // battery 0xA1B2
            0x03, // mode
            0x11, // fault
            0x81, // flags: bit0 | bit7
        ]
    );
}

#[test]
fn drive_cmd_wire_layout_is_little_endian() {
    let cmd = DriveCmd {
        kind: DriveKind::Throttle,
        value: -300,   // 0xFED4
        steer: 0x1234, // LE 34 12
    };
    let mut buf = [0u8; DriveCmd::LEN];
    assert_eq!(cmd.encode(&mut buf), DriveCmd::LEN);
    assert_eq!(buf, [0x01, 0xD4, 0xFE, 0x34, 0x12]);
}

#[test]
fn inputs_wire_layout_is_little_endian() {
    let inp = Inputs {
        throttle: 0x7FFF,
        buttons: Inputs::BUTTON_POWER,
        rider: Inputs::RIDER_PRESENT,
    };
    let mut buf = [0u8; Inputs::LEN];
    assert_eq!(inp.encode(&mut buf), Inputs::LEN);
    assert_eq!(buf, [0xFF, 0x7F, 0x01, 0x01]);
}

#[test]
fn fault_wire_layout() {
    let f = Fault {
        code: 0x21,
        action: Fault::ACTION_STOP_ALL,
    };
    let mut buf = [0u8; Fault::LEN];
    assert_eq!(f.encode(&mut buf), Fault::LEN);
    assert_eq!(buf, [0x21, 0x01]);
}

// -- Round trips ----------------------------------------------------------------------------

#[test]
fn lib_cyclic_state_round_trip() {
    let orig = cyclic_sample();
    let mut buf = [0u8; CyclicState::LEN];
    orig.encode(&mut buf);
    assert_eq!(CyclicState::decode(&buf), Ok(orig));
}

#[test]
fn drive_cmd_round_trip_both_kinds() {
    for kind in [DriveKind::Neutral, DriveKind::Throttle] {
        let orig = DriveCmd {
            kind,
            value: -12345,
            steer: 6789,
        };
        let mut buf = [0u8; DriveCmd::LEN];
        orig.encode(&mut buf);
        assert_eq!(DriveCmd::decode(&buf), Ok(orig));
    }
}

#[test]
fn inputs_round_trip() {
    let orig = Inputs {
        throttle: -1,
        buttons: 0xFF,
        rider: 0x01,
    };
    let mut buf = [0u8; Inputs::LEN];
    orig.encode(&mut buf);
    assert_eq!(Inputs::decode(&buf), Ok(orig));
}

#[test]
fn fault_round_trip() {
    let orig = Fault {
        code: 0x11,
        action: Fault::ACTION_NOTIFY,
    };
    let mut buf = [0u8; Fault::LEN];
    orig.encode(&mut buf);
    assert_eq!(Fault::decode(&buf), Ok(orig));
}

// -- Committed-prefix rule: trailing bytes ignored ------------------------------------------

#[test]
fn trailing_bytes_are_ignored_every_family() {
    // Encode each family into an oversized buffer with poisoned trailing bytes; the decode
    // must read only the committed prefix and match what was encoded.
    let mut buf = [0xEEu8; 32];

    let cyc = cyclic_sample();
    cyc.encode(&mut buf);
    assert_eq!(CyclicState::decode(&buf), Ok(cyc));

    let mut buf = [0xEEu8; 32];
    let cmd = DriveCmd {
        kind: DriveKind::Throttle,
        value: 5,
        steer: -5,
    };
    cmd.encode(&mut buf);
    assert_eq!(DriveCmd::decode(&buf), Ok(cmd));

    let mut buf = [0xEEu8; 32];
    let inp = Inputs {
        throttle: 100,
        buttons: 0,
        rider: 1,
    };
    inp.encode(&mut buf);
    assert_eq!(Inputs::decode(&buf), Ok(inp));

    let mut buf = [0xEEu8; 32];
    let flt = Fault {
        code: 0x21,
        action: 0,
    };
    flt.encode(&mut buf);
    assert_eq!(Fault::decode(&buf), Ok(flt));
}

// -- Committed-prefix rule: short payloads rejected -----------------------------------------

#[test]
fn short_payloads_are_rejected() {
    let buf = [0u8; 16];
    // One byte short of each family's committed prefix, and empty.
    for len in [CyclicState::LEN - 1, 0] {
        assert_eq!(CyclicState::decode(&buf[..len]), Err(DecodeError::TooShort));
    }
    for len in [DriveCmd::LEN - 1, 0] {
        assert_eq!(DriveCmd::decode(&buf[..len]), Err(DecodeError::TooShort));
    }
    for len in [Inputs::LEN - 1, 0] {
        assert_eq!(Inputs::decode(&buf[..len]), Err(DecodeError::TooShort));
    }
    for len in [Fault::LEN - 1, 0] {
        assert_eq!(Fault::decode(&buf[..len]), Err(DecodeError::TooShort));
    }
}

// -- DRIVE_CMD fail-safe --------------------------------------------------------------------

#[test]
fn unknown_drive_kind_decodes_as_neutral() {
    for kind_byte in [2u8, 0x7F, 0xFF] {
        let buf = [kind_byte, 0xD4, 0xFE, 0x34, 0x12];
        let got = DriveCmd::decode(&buf).unwrap();
        assert_eq!(got.kind, DriveKind::Neutral, "kind byte {kind_byte:#04x}");
        // The words are carried through (not live under Neutral).
        assert_eq!(got.value, -300);
        assert_eq!(got.steer, 0x1234);
    }
    // The defined kind bytes map exactly.
    assert_eq!(
        DriveCmd::decode(&[0, 0, 0, 0, 0]).unwrap().kind,
        DriveKind::Neutral
    );
    assert_eq!(
        DriveCmd::decode(&[1, 0, 0, 0, 0]).unwrap().kind,
        DriveKind::Throttle
    );
}

// -- Flag-bit extraction --------------------------------------------------------------------

#[test]
fn cyclic_flag_bits_extract() {
    let mut c = cyclic_sample();
    c.flags = 0;
    assert!(!c.rider_present());
    assert!(!c.lockdown());
    c.flags = CyclicState::FLAG_RIDER;
    assert!(c.rider_present());
    assert!(!c.lockdown());
    c.flags = CyclicState::FLAG_LOCKDOWN;
    assert!(!c.rider_present());
    assert!(c.lockdown());
    // Foreign bits do not bleed into the defined flags.
    c.flags = !(CyclicState::FLAG_RIDER | CyclicState::FLAG_LOCKDOWN);
    assert!(!c.rider_present());
    assert!(!c.lockdown());
}

#[test]
fn inputs_flag_bits_extract() {
    let mut i = Inputs {
        throttle: 0,
        buttons: 0,
        rider: 0,
    };
    assert!(!i.power_request());
    assert!(!i.rider_present());
    i.buttons = Inputs::BUTTON_POWER;
    i.rider = Inputs::RIDER_PRESENT;
    assert!(i.power_request());
    assert!(i.rider_present());
    // Only bit0 is defined on each byte.
    i.buttons = 0xFE;
    i.rider = 0xFE;
    assert!(!i.power_request());
    assert!(!i.rider_present());
}

#[test]
fn fault_action_extracts() {
    assert!(!Fault {
        code: 0x11,
        action: Fault::ACTION_NOTIFY
    }
    .stop_all());
    assert!(Fault {
        code: 0x11,
        action: Fault::ACTION_STOP_ALL
    }
    .stop_all());
    // Only the exact STOP_ALL byte triggers; an unknown action byte stays notify-only.
    assert!(!Fault {
        code: 0x11,
        action: 2
    }
    .stop_all());
}

// -- Dispatch (the 0x10..0x2F hand-back routing entry) --------------------------------------

#[test]
fn dispatch_routes_each_opcode() {
    let cyc = cyclic_sample();
    let mut buf = [0u8; 16];
    cyc.encode(&mut buf);
    assert_eq!(
        decode(OP_CYCLIC_STATE, &buf[..CyclicState::LEN]),
        Some(Payload::CyclicState(cyc))
    );

    let cmd = DriveCmd {
        kind: DriveKind::Throttle,
        value: 1,
        steer: 2,
    };
    cmd.encode(&mut buf);
    assert_eq!(
        decode(OP_DRIVE_CMD, &buf[..DriveCmd::LEN]),
        Some(Payload::DriveCmd(cmd))
    );

    let inp = Inputs {
        throttle: 3,
        buttons: 1,
        rider: 0,
    };
    inp.encode(&mut buf);
    assert_eq!(
        decode(OP_INPUTS, &buf[..Inputs::LEN]),
        Some(Payload::Inputs(inp))
    );

    let flt = Fault {
        code: 0x21,
        action: 1,
    };
    flt.encode(&mut buf);
    assert_eq!(
        decode(OP_FAULT, &buf[..Fault::LEN]),
        Some(Payload::Fault(flt))
    );
}

#[test]
fn dispatch_drops_unallocated_and_short() {
    let buf = [0u8; 16];
    // Unallocated opcodes: elsewhere in the control block, the telemetry block, and outside.
    for op in [0x14u8, 0x2E, 0x40, 0x00, 0xFF] {
        assert_eq!(decode(op, &buf), None, "opcode {op:#04x}");
    }
    // Short payloads drop (no error propagates), per the best-effort class.
    assert_eq!(decode(OP_CYCLIC_STATE, &buf[..CyclicState::LEN - 1]), None);
    assert_eq!(decode(OP_DRIVE_CMD, &buf[..DriveCmd::LEN - 1]), None);
    assert_eq!(decode(OP_INPUTS, &buf[..Inputs::LEN - 1]), None);
    assert_eq!(decode(OP_FAULT, &buf[..Fault::LEN - 1]), None);
}
