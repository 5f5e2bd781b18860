//! Frame payloads.

use hoverboard::link::payload::{
    ConfigRead, ConfigResp, ConfigWrite, CyclicState, DriveCmd, Event, Fault, Inputs, NodeHello, PayloadError,
    Telemetry,
};

#[test]
fn payload_cyclic_state_round_trip() {
    let s = CyclicState { pitch: -1234, roll: 567, wheel_speed: -8, status: 0b1011 };
    let mut buf = [0u8; 16];
    let n = s.encode(&mut buf);
    assert_eq!(n, CyclicState::LEN);
    assert_eq!(CyclicState::decode(&buf[..n]).unwrap(), s);
}

#[test]
fn drive_cmd_round_trip() {
    let c = DriveCmd { kind: 2, value: -300, steer: 75 };
    let mut buf = [0u8; 16];
    let n = c.encode(&mut buf);
    assert_eq!(DriveCmd::decode(&buf[..n]).unwrap(), c);
}

#[test]
fn node_hello_round_trip() {
    let h = NodeHello {
        node_id: 7,
        role: 1,
        motor_count: 2,
        proto_ver: 1,
        fw_ver: 0x0102,
        caps: 0x002D,
    };
    let mut buf = [0u8; 16];
    let n = h.encode(&mut buf);
    assert_eq!(NodeHello::decode(&buf[..n]).unwrap(), h);
}

#[test]
fn telemetry_round_trip() {
    let t = Telemetry {
        motor_index: 1,
        battery_mv: 36000,
        current_ca: -250,
        speed: 4096,
        fault_code: 0,
        flags: 0x80,
    };
    let mut buf = [0u8; 16];
    let n = t.encode(&mut buf);
    assert_eq!(Telemetry::decode(&buf[..n]).unwrap(), t);
}

#[test]
fn config_read_inputs_fault_round_trip() {
    let cr = ConfigRead { key: 0xBEEF };
    let mut buf = [0u8; 8];
    let n = cr.encode(&mut buf);
    assert_eq!(ConfigRead::decode(&buf[..n]).unwrap(), cr);

    let inp = Inputs { throttle: -1000, buttons: 0x0F, rider: 1 };
    let n = inp.encode(&mut buf);
    assert_eq!(Inputs::decode(&buf[..n]).unwrap(), inp);

    let f = Fault { fault_code: 5, action: 1 };
    let n = f.encode(&mut buf);
    assert_eq!(Fault::decode(&buf[..n]).unwrap(), f);
}

#[test]
fn trailing_bytes_ignored() {
    // NodeHello with 4 extra trailing bytes: committed fields decode, extras ignored.
    let h = NodeHello {
        node_id: 9, role: 0, motor_count: 1, proto_ver: 1, fw_ver: 0x1234, caps: 0x000A,
    };
    let mut buf = [0u8; 16];
    let n = h.encode(&mut buf);
    buf[n] = 0xAA;
    buf[n + 1] = 0xBB;
    buf[n + 2] = 0xCC;
    buf[n + 3] = 0xDD;
    assert_eq!(NodeHello::decode(&buf[..n + 4]).unwrap(), h);

    // Telemetry likewise.
    let t = Telemetry {
        motor_index: 0, battery_mv: 100, current_ca: 1, speed: 2, fault_code: 0, flags: 0,
    };
    let n = t.encode(&mut buf);
    assert_eq!(Telemetry::decode(&buf[..n + 3]).unwrap(), t);
}

#[test]
fn borrow_carrying_decode() {
    let bytes = [0x34, 0x12, 0xDE, 0xAD, 0xBE]; // key=0x1234, value=[DE AD BE]
    let cw = ConfigWrite::decode(&bytes).unwrap();
    assert_eq!(cw.key, 0x1234);
    assert_eq!(cw.value, &[0xDE, 0xAD, 0xBE]);

    let resp_bytes = [0x34, 0x12, 0x00, 0x01, 0x02]; // key, status=0, value=[01 02]
    let cr = ConfigResp::decode(&resp_bytes).unwrap();
    assert_eq!(cr.key, 0x1234);
    assert_eq!(cr.status, 0);
    assert_eq!(cr.value, &[0x01, 0x02]);

    let ev_bytes = [0x07, 0xAA, 0xBB]; // event 7, args [AA BB]
    let ev = Event::decode(&ev_bytes).unwrap();
    assert_eq!(ev.event_id, 7);
    assert_eq!(ev.args, &[0xAA, 0xBB]);
}

#[test]
fn short_payloads_rejected() {
    assert_eq!(CyclicState::decode(&[0, 1, 2]), Err(PayloadError::TooShort));
    assert_eq!(ConfigWrite::decode(&[0]), Err(PayloadError::TooShort));
}
