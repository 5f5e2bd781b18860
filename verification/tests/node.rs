//! Routing and supervision of a node, and two nodes over a wire.

use hoverboard::config::{AttitudeSource, DriveSource, LinkConfig, MotorConfig};
use hoverboard::link::frame::{
    decode, encode, DecodedFrame, FrameHeader, FrameScanner, BROADCAST, MAX_FRAME, PROTO_VER,
};
use hoverboard::link::item::{DataItem, ItemSet};
use hoverboard::link::opcode::Opcode;
use hoverboard::link::payload::{CyclicState, DriveCmd, Fault, Inputs};
use hoverboard::node::{
    CyclicAttitude, LocalCyclic, FAULT_ACTION_STOP_ALL, RX_TIMEOUT_TICKS,
};

const LINKS: usize = 4;
const MOTORS: usize = 2;
const FUSED: usize = 2;

type BoardConfig = hoverboard::config::BoardConfig<LINKS, MOTORS, FUSED>;
type NodeRuntime = hoverboard::node::NodeRuntime<LINKS, MOTORS, FUSED>;
type NodeState = hoverboard::node::NodeState<MOTORS, FUSED>;

// --- configurations ----------------------------------------------------------------------------

fn link(node_id: u8, produce: &[DataItem], consume: &[DataItem]) -> LinkConfig {
    LinkConfig {
        node_id,
        produce: item_set(produce),
        consume: item_set(consume),
    }
}

fn motor(attitude_source: AttitudeSource<FUSED>, drive_source: DriveSource) -> MotorConfig<FUSED> {
    MotorConfig {
        attitude_source,
        drive_source,
    }
}

/// An articulated half: one motor with its own sensor and balance loop, one link that produces and
/// consumes attitude, wheel speed and status, whose peer the wheel speed is blended with.
fn articulated_cfg(node_id: u8) -> BoardConfig {
    let items = [DataItem::Attitude, DataItem::WheelSpeed, DataItem::Status];
    let mut cfg = BoardConfig::new(Some(0));
    assert!(cfg.add_link(link(node_id, &items, &items)));
    assert!(cfg.add_motor(motor(AttitudeSource::LocalImu, DriveSource::LocalBalance)));
    cfg
}

/// A mainboard: two motors that follow two links.
fn mainboard_cfg() -> BoardConfig {
    let items = [DataItem::Attitude, DataItem::DriveCmd];
    let mut cfg = BoardConfig::new(None);
    assert!(cfg.add_link(link(2, &[], &items)));
    assert!(cfg.add_link(link(3, &[], &items)));
    for i in 0..2u8 {
        assert!(cfg.add_motor(motor(AttitudeSource::Link(i), DriveSource::Link(i))));
    }
    cfg
}

/// A sideboard: no motor, one link that produces attitude.
fn sideboard_cfg() -> BoardConfig {
    let mut cfg = BoardConfig::new(None);
    assert!(cfg.add_link(link(2, &[DataItem::Attitude], &[])));
    cfg
}

// --- frame helpers ------------------------------------------------------------------------------

/// Encode a frame into a buffer and return the decoded view borrowing that buffer.
fn make_frame(opcode: Opcode, payload: &[u8], src: u8, dst: u8) -> ([u8; MAX_FRAME], usize) {
    let mut out = [0u8; MAX_FRAME];
    let hdr = FrameHeader { ver: PROTO_VER, opcode, src, dst, len: payload.len() as u8 };
    let n = encode(&hdr, payload, &mut out).unwrap();
    (out, n)
}

fn decode_frame(buf: &[u8]) -> DecodedFrame<'_> {
    decode(buf).unwrap()
}

fn item_set(items: &[DataItem]) -> ItemSet {
    let mut s = ItemSet::empty();
    for &i in items {
        s.insert(i);
    }
    s
}

// --- caps / node_hello ----------------------------------------------------------------

#[test]
fn caps_equal_produce_consume_union() {
    let cfg = articulated_cfg(1);
    let rt = NodeRuntime::from_config(&cfg);
    let want = item_set(&[DataItem::Attitude, DataItem::WheelSpeed, DataItem::Status]);
    assert_eq!(rt.caps(0), want);

    let hello = rt.node_hello(0);
    assert_eq!(hello.caps, want.bits());
    assert_eq!(hello.node_id, 1);
    assert_eq!(hello.motor_count, 1);
    assert_eq!(hello.proto_ver, PROTO_VER);
}

#[test]
fn caps_union_when_produce_and_consume_differ() {
    // Mainboard sideA consumes [attitude, drive_cmd], produces nothing -> caps is just consume.
    let cfg = mainboard_cfg();
    let rt = NodeRuntime::from_config(&cfg);
    let want = item_set(&[DataItem::Attitude, DataItem::DriveCmd]);
    assert_eq!(rt.caps(0), want);
}

// --- routing --------------------------------------------------------------------------

#[test]
fn cyclic_attitude_and_wheel_speed_route_to_sinks() {
    let cfg = articulated_cfg(1);
    let mut rt = NodeRuntime::from_config(&cfg);
    // Wheel speed and status route node-wide, whatever the motor binding.
    let mut state = rt.new_state();

    let cs = CyclicState { pitch: 111, roll: -22, wheel_speed: 1234, status: 0b1010 };
    let mut buf = [0u8; CyclicState::LEN];
    cs.encode(&mut buf);
    let (fb, n) = make_frame(Opcode::CyclicState, &buf, 2, 1);
    let f = decode_frame(&fb[..n]);

    rt.route_inbound(0, &f, &mut state);
    assert_eq!(state.peer_wheel_speed, Some(1234));
    assert_eq!(state.peer_status, Some(0b1010));
    // local_imu motor takes no link attitude.
    assert_eq!(state.motors.as_slice()[0].attitude_in, None);
}

#[test]
fn cyclic_attitude_routes_to_link_bound_motor() {
    let cfg = mainboard_cfg();
    let mut rt = NodeRuntime::from_config(&cfg);
    let mut state = rt.new_state();

    // Motor 0 attitude_source = link:sideA (index 0). Feed a CyclicState on link 0.
    let cs = CyclicState { pitch: 500, roll: -300, wheel_speed: 7, status: 1 };
    let mut buf = [0u8; CyclicState::LEN];
    cs.encode(&mut buf);
    let (fb, n) = make_frame(Opcode::CyclicState, &buf, 2, 0);
    let f = decode_frame(&fb[..n]);

    rt.route_inbound(0, &f, &mut state);
    assert_eq!(
        state.motors.as_slice()[0].attitude_in,
        Some(CyclicAttitude { pitch: 500, roll: -300 })
    );
    // Motor 1 (sideB) untouched by a sideA frame.
    assert_eq!(state.motors.as_slice()[1].attitude_in, None);
}

#[test]
fn drive_cmd_routes_to_follower_motor() {
    let cfg = mainboard_cfg();
    let mut rt = NodeRuntime::from_config(&cfg);
    let mut state = rt.new_state();

    let dc = DriveCmd { kind: 1, value: -250, steer: 40 };
    let mut buf = [0u8; DriveCmd::LEN];
    dc.encode(&mut buf);
    // Send on link 1 (sideB) -> motor 1's drive_source = Link(1).
    let (fb, n) = make_frame(Opcode::DriveCmd, &buf, 3, 0);
    let f = decode_frame(&fb[..n]);

    rt.route_inbound(1, &f, &mut state);
    assert_eq!(state.motors.as_slice()[1].drive_setpoint, Some(dc));
    assert_eq!(state.motors.as_slice()[0].drive_setpoint, None);
}

#[test]
fn item_outside_consume_is_ignored() {
    // Sideboard "up" link produces [attitude] and consumes nothing. A CyclicState arriving on it
    // must change no sink.
    let cfg = sideboard_cfg();
    let mut rt = NodeRuntime::from_config(&cfg);
    let mut state = rt.new_state();

    let cs = CyclicState { pitch: 9, roll: 9, wheel_speed: 9, status: 9 };
    let mut buf = [0u8; CyclicState::LEN];
    cs.encode(&mut buf);
    let (fb, n) = make_frame(Opcode::CyclicState, &buf, 1, 2);
    let f = decode_frame(&fb[..n]);

    rt.route_inbound(0, &f, &mut state);
    assert_eq!(state.peer_wheel_speed, None);
    assert_eq!(state.peer_status, None);
}

#[test]
fn drive_cmd_to_balancing_motor_is_not_a_torque_bypass() {
    // The articulated half's motor is drive_source = local_balance. A DriveCmd on its link must NOT
    // set drive_setpoint (a balancing motor does not take DriveCmd as a direct command). The link
    // does not even consume drive_cmd here, so it is doubly ignored.
    let cfg = articulated_cfg(1);
    let mut rt = NodeRuntime::from_config(&cfg);
    let mut state = rt.new_state();

    let dc = DriveCmd { kind: 1, value: 999, steer: 0 };
    let mut buf = [0u8; DriveCmd::LEN];
    dc.encode(&mut buf);
    let (fb, n) = make_frame(Opcode::DriveCmd, &buf, 2, 1);
    let f = decode_frame(&fb[..n]);

    rt.route_inbound(0, &f, &mut state);
    assert_eq!(state.motors.as_slice()[0].drive_setpoint, None);
}

#[test]
fn inputs_route_to_remote_setpoint() {
    // A board that consumes inputs routes it to the remote_setpoint sink.
    let mut cfg = BoardConfig::new(None);
    assert!(cfg.add_link(link(9, &[], &[DataItem::Inputs])));
    assert!(cfg.add_motor(motor(AttitudeSource::LocalImu, DriveSource::LocalBalance)));
    let mut rt = NodeRuntime::from_config(&cfg);
    let mut state = rt.new_state();

    let inp = Inputs { throttle: -700, buttons: 0x03, rider: 1 };
    let mut buf = [0u8; Inputs::LEN];
    inp.encode(&mut buf);
    let (fb, n) = make_frame(Opcode::Inputs, &buf, 9, 0);
    let f = decode_frame(&fb[..n]);

    rt.route_inbound(0, &f, &mut state);
    assert_eq!(state.remote_setpoint, Some(inp));
}

#[test]
fn fused_attitude_routes_to_positional_buffer() {
    // A motor fused over [sideA, sideB]: a frame on sideA fills slot 0, sideB fills slot 1.
    let mut cfg = BoardConfig::new(None);
    for node in [2u8, 3] {
        assert!(cfg.add_link(link(node, &[], &[DataItem::Attitude])));
    }
    assert!(cfg.add_motor(motor(
        AttitudeSource::fused(&[0, 1]).unwrap(),
        DriveSource::LocalBalance,
    )));
    let mut rt = NodeRuntime::from_config(&cfg);
    let mut state = rt.new_state();

    let csa = CyclicState { pitch: 10, roll: 20, wheel_speed: 0, status: 0 };
    let mut buf = [0u8; CyclicState::LEN];
    csa.encode(&mut buf);
    let (fb, n) = make_frame(Opcode::CyclicState, &buf, 2, 0);
    rt.route_inbound(0, &decode_frame(&fb[..n]), &mut state);

    let csb = CyclicState { pitch: 30, roll: 40, wheel_speed: 0, status: 0 };
    csb.encode(&mut buf);
    let (fb, n) = make_frame(Opcode::CyclicState, &buf, 3, 0);
    rt.route_inbound(1, &decode_frame(&fb[..n]), &mut state);

    assert_eq!(state.motors.as_slice()[0].fusion_buf.as_slice()[0], Some(CyclicAttitude { pitch: 10, roll: 20 }));
    assert_eq!(state.motors.as_slice()[0].fusion_buf.as_slice()[1], Some(CyclicAttitude { pitch: 30, roll: 40 }));
    // Fused does not populate the single-source attitude_in slot.
    assert_eq!(state.motors.as_slice()[0].attitude_in, None);
}

// --- production -----------------------------------------------------------------------

#[test]
fn build_cyclic_emits_local_values() {
    let cfg = articulated_cfg(1);
    let rt = NodeRuntime::from_config(&cfg);
    let local = LocalCyclic { pitch: -45, roll: 12, wheel_speed: 600, status: 0b0101 };
    let (op, cs, dst) = rt.build_cyclic(0, &local).expect("produces cyclic");
    assert_eq!(op, Opcode::CyclicState);
    assert_eq!(cs.pitch, -45);
    assert_eq!(cs.wheel_speed, 600);
    assert_eq!(cs.status, 0b0101);
    assert_eq!(dst, BROADCAST);
    assert_eq!(rt.produce_src(), 1);
}

#[test]
fn build_cyclic_none_when_link_produces_nothing_cyclic() {
    // Mainboard sideA produces nothing -> no cyclic frame.
    let cfg = mainboard_cfg();
    let rt = NodeRuntime::from_config(&cfg);
    assert!(rt.build_cyclic(0, &LocalCyclic::default()).is_none());
}

// --- supervision ----------------------------------------------------------------------

#[test]
fn comms_loss_latches_and_disables_fed_motor() {
    let cfg = mainboard_cfg();
    let mut rt = NodeRuntime::from_config(&cfg);
    let mut state = rt.new_state();

    // Motor 0 is fed by link 0 (sideA). A link-fed motor starts disabled until a frame arrives.
    assert!(!state.motors.as_slice()[0].running_enable);
    // A good frame enables it.
    rt.note_frame(0, &mut state);
    assert!(state.motors.as_slice()[0].running_enable);

    // Withhold frames on link 0 past the threshold.
    for _ in 0..RX_TIMEOUT_TICKS {
        rt.tick_no_frame(0, &mut state);
    }
    assert!(rt.comms_loss(0));
    assert!(state.comms_loss);
    assert!(!state.motors.as_slice()[0].running_enable);
    // Motor 1 (sideB) is unaffected: its link never timed out (but it was never noted, so still
    // disabled by default). Note it then confirm it stays enabled.
    rt.note_frame(1, &mut state);
    assert!(state.motors.as_slice()[1].running_enable);

    // Resume frames on link 0: the flag lowers and the motor re-enables.
    rt.note_frame(0, &mut state);
    assert!(!rt.comms_loss(0));
    assert!(!state.comms_loss);
    assert!(state.motors.as_slice()[0].running_enable);
}

#[test]
fn comms_loss_does_not_latch_before_threshold() {
    let cfg = mainboard_cfg();
    let mut rt = NodeRuntime::from_config(&cfg);
    let mut state = rt.new_state();
    rt.note_frame(0, &mut state);

    for _ in 0..(RX_TIMEOUT_TICKS - 1) {
        rt.tick_no_frame(0, &mut state);
    }
    assert!(!rt.comms_loss(0));
    assert!(state.motors.as_slice()[0].running_enable);
}

#[test]
fn received_stop_all_fault_requests_safe_transition() {
    // A board consuming [fault].
    let mut cfg = BoardConfig::new(None);
    assert!(cfg.add_link(link(1, &[], &[DataItem::Fault])));
    let mut rt = NodeRuntime::from_config(&cfg);
    let mut state = rt.new_state();

    let f = Fault { fault_code: 7, action: FAULT_ACTION_STOP_ALL };
    let mut buf = [0u8; Fault::LEN];
    f.encode(&mut buf);
    let (fb, n) = make_frame(Opcode::Fault, &buf, 2, 1);
    rt.route_inbound(0, &decode_frame(&fb[..n]), &mut state);

    assert!(state.stop_all_requested);
    assert_eq!(state.received_fault, Some(7));
}

#[test]
fn local_fault_yields_one_outbound_broadcast() {
    let cfg = articulated_cfg(1);
    let mut rt = NodeRuntime::from_config(&cfg);

    assert!(rt.take_outbound_fault().is_none());
    rt.latch_local_fault(Fault { fault_code: 3, action: FAULT_ACTION_STOP_ALL });
    let out = rt.take_outbound_fault().expect("one fault");
    assert_eq!(out.fault_code, 3);
    // Only once per latch edge.
    assert!(rt.take_outbound_fault().is_none());
    // The producing peer link should carry the fault broadcast (it produces attitude etc.); the
    // node would stamp dst = BROADCAST. Confirm the link is a producing link.
    assert!(rt.link_produces(0, DataItem::Attitude));
}

// --- two-instance loopback ------------------------------------------------------------

/// One side of the loopback: a runtime, its state, its inbound framer, and the local values it
/// produces.
struct Side {
    rt: NodeRuntime,
    state: NodeState,
    framer: FrameScanner,
    local: LocalCyclic,
}

impl Side {
    fn new(cfg: &BoardConfig, local: LocalCyclic) -> Side {
        let rt = NodeRuntime::from_config(cfg);
        let state = rt.new_state();
        Side { rt, state, framer: FrameScanner::new(), local }
    }

    /// Produce this side's cyclic frame for link 0 into a wire buffer; returns the bytes.
    fn produce_bytes(&self) -> ([u8; MAX_FRAME], usize) {
        let (op, cs, dst) = self.rt.build_cyclic(0, &self.local).expect("cyclic");
        let mut pbuf = [0u8; CyclicState::LEN];
        let plen = cs.encode(&mut pbuf);
        let hdr = FrameHeader {
            ver: PROTO_VER,
            opcode: op,
            src: self.rt.produce_src(),
            dst,
            len: plen as u8,
        };
        let mut out = [0u8; MAX_FRAME];
        let n = encode(&hdr, &pbuf[..plen], &mut out).unwrap();
        (out, n)
    }

    /// Feed received bytes into the framer; route every complete frame on link 0 and note it.
    fn receive_bytes(&mut self, bytes: &[u8]) {
        for f in self.framer.feed(bytes) {
            self.rt.route_inbound(0, &f.as_decoded(), &mut self.state);
            self.rt.note_frame(0, &mut self.state);
        }
    }
}

#[test]
fn loopback_articulated_pair_exchanges_cyclic() {
    // Two halves. Each consumes [attitude, wheel_speed, status] but its motor is local_imu, so peer
    // attitude lands node-wide in peer_status / peer_wheel_speed (attitude_in stays None for a
    // local_imu motor, which is correct). Assert wheel_speed crosses each tick.
    let cfg_a = articulated_cfg(1);
    let cfg_b = articulated_cfg(2);
    let mut a = Side::new(&cfg_a, LocalCyclic { pitch: 100, roll: 0, wheel_speed: 111, status: 1 });
    let mut b = Side::new(&cfg_b, LocalCyclic { pitch: -50, roll: 0, wheel_speed: 222, status: 2 });

    for _ in 0..6 {
        let (abuf, an) = a.produce_bytes();
        let (bbuf, bn) = b.produce_bytes();
        // Cross-connect: A's frame to B, B's frame to A.
        b.receive_bytes(&abuf[..an]);
        a.receive_bytes(&bbuf[..bn]);
    }

    // Each side sees the other's produced wheel speed and status.
    assert_eq!(a.state.peer_wheel_speed, Some(222));
    assert_eq!(a.state.peer_status, Some(2));
    assert_eq!(b.state.peer_wheel_speed, Some(111));
    assert_eq!(b.state.peer_status, Some(1));
}

#[test]
fn loopback_withholding_frames_latches_comms_loss() {
    let cfg_a = articulated_cfg(1);
    let cfg_b = articulated_cfg(2);
    let mut a = Side::new(&cfg_a, LocalCyclic { pitch: 0, roll: 0, wheel_speed: 1, status: 0 });
    let mut b = Side::new(&cfg_b, LocalCyclic { pitch: 0, roll: 0, wheel_speed: 2, status: 0 });

    // A few healthy ticks.
    for _ in 0..3 {
        let (abuf, an) = a.produce_bytes();
        b.receive_bytes(&abuf[..an]);
        let (bbuf, bn) = b.produce_bytes();
        a.receive_bytes(&bbuf[..bn]);
    }
    assert!(!b.rt.comms_loss(0));

    // Now A stops producing. B sees no frames and ticks its timeout.
    for _ in 0..RX_TIMEOUT_TICKS {
        b.rt.tick_no_frame(0, &mut b.state);
    }
    assert!(b.rt.comms_loss(0));
    assert!(b.state.comms_loss);
}

// --- own cases --------------------------------------------------------------------------------

#[test]
fn a_board_takes_no_more_than_it_has_room_for() {
    let mut cfg = BoardConfig::new(None);
    for i in 0..LINKS {
        assert!(cfg.add_link(link(i as u8, &[], &[])));
    }
    assert!(!cfg.add_link(link(9, &[], &[])));
    assert!(cfg.add_motor(motor(AttitudeSource::LocalImu, DriveSource::LocalBalance)));
    assert!(cfg.add_motor(motor(AttitudeSource::LocalImu, DriveSource::LocalBalance)));
    assert!(!cfg.add_motor(motor(AttitudeSource::LocalImu, DriveSource::LocalBalance)));
    assert!(AttitudeSource::<FUSED>::fused(&[0, 1, 2]).is_none());
    let rt = NodeRuntime::from_config(&cfg);
    assert_eq!(rt.link_count(), LINKS);
    assert_eq!(rt.link_node_id(3), Some(3));
    assert_eq!(rt.link_node_id(4), None);
    assert_eq!(rt.caps(4), ItemSet::empty());
    assert_eq!(rt.this_node_id(), 0);
    assert!(!rt.any_comms_loss());
}

#[test]
fn a_truncated_payload_changes_nothing() {
    let mut rt = NodeRuntime::from_config(&articulated_cfg(1));
    let mut state = rt.new_state();
    let (fb, n) = make_frame(Opcode::CyclicState, &[1, 2, 3], 2, 1);
    rt.route_inbound(0, &decode_frame(&fb[..n]), &mut state);
    assert_eq!(state.peer_wheel_speed, None);
    assert_eq!(state.peer_status, None);
}

#[test]
fn a_notify_only_fault_requests_nothing() {
    let mut cfg = BoardConfig::new(None);
    assert!(cfg.add_link(link(1, &[], &[DataItem::Fault])));
    let mut rt = NodeRuntime::from_config(&cfg);
    let mut state = rt.new_state();
    let mut buf = [0u8; Fault::LEN];
    Fault { fault_code: 9, action: 0 }.encode(&mut buf);
    let (fb, n) = make_frame(Opcode::Fault, &buf, 2, 1);
    rt.route_inbound(0, &decode_frame(&fb[..n]), &mut state);
    assert!(!state.stop_all_requested);
    assert_eq!(state.received_fault, Some(9));
}

#[test]
fn a_link_that_is_not_declared_is_not_watched() {
    let mut rt = NodeRuntime::from_config(&mainboard_cfg());
    let mut state = rt.new_state();
    for _ in 0..20 {
        rt.tick_no_frame(7, &mut state);
    }
    assert!(!rt.comms_loss(7));
    assert!(!rt.any_comms_loss());
    for _ in 0..20 {
        rt.tick_no_frame(1, &mut state);
    }
    assert!(rt.any_comms_loss() && !rt.comms_loss(0) && rt.comms_loss(1));
}
