//! Routing and supervision of one node, read from its bindings alone.
//!
//! A decoded frame arrives tagged with the index of its link. An item outside the link's `consume`
//! set is ignored. A cyclic state carries attitude, wheel speed and status, each bound on its own; a
//! drive command goes to the motors that take their drive from the link; inputs are a setpoint, and
//! a fault may ask for a safe transition.
//!
//! A link without a good frame for [`RX_TIMEOUT_TICKS`] ticks counts as lost: the motors it feeds
//! are disabled until frames resume. A local fault is handed out for broadcast once.

use crate::bounded::BoundedVec;
use crate::config;
use crate::config::{
    AttitudeSource, Board, BoardConfig, DriveSource, LinkConfig, Motor, MotorConfig, Source,
};
use crate::link::frame::{DecodedFrame, BROADCAST, PROTO_VER};
use crate::link::item::{DataItem, ItemSet};
use crate::link::opcode::Opcode;
use crate::link::payload::{CyclicState, DriveCmd, Fault, Inputs, NodeHello};
use vstd::prelude::*;

verus! {

/// The fault action that asks every consuming node for a safe transition.
pub const FAULT_ACTION_STOP_ALL: u8 = 1;

/// Ticks without a good frame after which a link counts as lost.
pub const RX_TIMEOUT_TICKS: u16 = 5;

/// An attitude sample.
#[derive(Debug, Clone, Copy, PartialEq, Eq, Structural)]
pub struct CyclicAttitude {
    pub pitch: i16,
    pub roll: i16,
}

impl Default for CyclicAttitude {
    fn default() -> (a: Self)
        ensures
            a == (CyclicAttitude { pitch: 0, roll: 0 }),
    {
        CyclicAttitude { pitch: 0, roll: 0 }
    }
}

/// What the router writes for one motor.
pub struct MotorSink<const FUSED: usize> {
    /// The attitude of a single link source.
    pub attitude_in: Option<CyclicAttitude>,
    /// The attitudes of a fused source, in the order of its links. How they are fused is up to the
    /// control layer.
    pub fusion_buf: BoundedVec<Option<CyclicAttitude>, FUSED>,
    /// The command of a link drive source.
    pub drive_setpoint: Option<DriveCmd>,
    /// Whether the motor may run.
    pub running_enable: bool,
}

/// What the router writes for one motor.
#[verifier::ext_equal]
pub struct Sink {
    pub attitude_in: Option<CyclicAttitude>,
    pub fusion_buf: Seq<Option<CyclicAttitude>>,
    pub drive_setpoint: Option<DriveCmd>,
    pub running_enable: bool,
}

impl<const FUSED: usize> View for MotorSink<FUSED> {
    type V = Sink;

    open spec fn view(&self) -> Sink {
        Sink {
            attitude_in: self.attitude_in,
            fusion_buf: self.fusion_buf@,
            drive_setpoint: self.drive_setpoint,
            running_enable: self.running_enable,
        }
    }
}

/// The sink of a motor before anything was routed: a motor that no link feeds may run at once.
pub open spec fn fresh_sink(m: Motor) -> Sink {
    Sink {
        attitude_in: None,
        fusion_buf: match m.attitude {
            Source::Fused(v) => Seq::new(v.len(), |i: int| None),
            _ => Seq::empty(),
        },
        drive_setpoint: None,
        running_enable: m.attitude is LocalImu && m.drive is LocalBalance,
    }
}

/// The sink after an attitude came in on `link`.
pub open spec fn deposited(source: Source, link: u8, att: CyclicAttitude, s: Sink) -> Sink {
    match source {
        Source::LocalImu => s,
        Source::Link(i) => if i == link {
            Sink { attitude_in: Some(att), ..s }
        } else {
            s
        },
        Source::Fused(v) => Sink {
            fusion_buf: Seq::new(
                s.fusion_buf.len(),
                |k: int|
                    if k < v.len() && v[k] == link {
                        Some(att)
                    } else {
                        s.fusion_buf[k]
                    },
            ),
            ..s
        },
    }
}

impl<const FUSED: usize> MotorSink<FUSED> {
    fn new(fused_len: usize) -> (s: Self)
        requires
            fused_len <= FUSED,
        ensures
            s@ == (Sink {
                attitude_in: None,
                fusion_buf: Seq::new(fused_len as nat, |i: int| None),
                drive_setpoint: None,
                running_enable: false,
            }),
    {
        let mut fusion_buf: BoundedVec<Option<CyclicAttitude>, FUSED> = BoundedVec::new();
        let mut i: usize = 0;
        while i < fused_len
            invariant
                i <= fused_len <= FUSED,
                fusion_buf@ =~= Seq::new(i as nat, |k: int| None),
            decreases fused_len - i,
        {
            let _ = fusion_buf.push(None);
            i += 1;
        }
        MotorSink { attitude_in: None, fusion_buf, drive_setpoint: None, running_enable: false }
    }

    /// Takes an attitude from `link` where the source names it.
    fn deposit(&mut self, source: &AttitudeSource<FUSED>, link: u8, att: CyclicAttitude)
        ensures
            final(self)@ == deposited(source@, link, att, old(self)@),
    {
        match source {
            AttitudeSource::LocalImu => {},
            AttitudeSource::Link(i) => {
                if *i == link {
                    self.attitude_in = Some(att);
                }
            },
            AttitudeSource::Fused(v) => {
                let links = v.as_slice();
                let mut k: usize = 0;
                while k < links.len()
                    invariant
                        k <= links@.len(),
                        self.attitude_in == old(self).attitude_in,
                        self.drive_setpoint == old(self).drive_setpoint,
                        self.running_enable == old(self).running_enable,
                        self.fusion_buf@.len() == old(self).fusion_buf@.len(),
                        forall|j: int|
                            0 <= j < self.fusion_buf@.len() ==> #[trigger] self.fusion_buf@[j] == (
                            if j < k && links@[j] == link {
                                Some(att)
                            } else {
                                old(self).fusion_buf@[j]
                            }),
                    decreases links@.len() - k,
                {
                    if links[k] == link && k < self.fusion_buf.len() {
                        *self.fusion_buf.at_mut(k) = Some(att);
                    }
                    k += 1;
                }
                assert(self@ =~= deposited(source@, link, att, old(self)@));
            },
        }
    }
}

/// What the router writes and the supervisor drives.
#[verifier::reject_recursive_types(FUSED)]
pub struct NodeState<const MOTORS: usize, const FUSED: usize> {
    /// One sink per motor, in the order of the configuration.
    pub motors: BoundedVec<MotorSink<FUSED>, MOTORS>,
    /// The wheel speed of the speed-sync peer.
    pub peer_wheel_speed: Option<i16>,
    /// The status byte of a peer.
    pub peer_status: Option<u8>,
    /// A remote setpoint: it enters where the rider's lean does.
    pub remote_setpoint: Option<Inputs>,
    /// Some link is lost.
    pub comms_loss: bool,
    /// A consumed fault asked for a safe transition.
    pub stop_all_requested: bool,
    /// The last consumed fault code.
    pub received_fault: Option<u8>,
}

/// What the router writes and the supervisor drives.
#[verifier::ext_equal]
pub struct Sinks {
    pub motors: Seq<Sink>,
    pub peer_wheel_speed: Option<i16>,
    pub peer_status: Option<u8>,
    pub remote_setpoint: Option<Inputs>,
    pub comms_loss: bool,
    pub stop_all_requested: bool,
    pub received_fault: Option<u8>,
}

/// The sinks of several motors.
pub open spec fn sink_views<const FUSED: usize>(v: Seq<MotorSink<FUSED>>) -> Seq<Sink> {
    Seq::new(v.len(), |i: int| v[i]@)
}

impl<const MOTORS: usize, const FUSED: usize> View for NodeState<MOTORS, FUSED> {
    type V = Sinks;

    open spec fn view(&self) -> Sinks {
        Sinks {
            motors: sink_views(self.motors@),
            peer_wheel_speed: self.peer_wheel_speed,
            peer_status: self.peer_status,
            remote_setpoint: self.remote_setpoint,
            comms_loss: self.comms_loss,
            stop_all_requested: self.stop_all_requested,
            received_fault: self.received_fault,
        }
    }
}

/// The state before anything was routed.
pub open spec fn fresh_sinks(motors: Seq<Motor>) -> Sinks {
    Sinks {
        motors: Seq::new(motors.len(), |i: int| fresh_sink(motors[i])),
        peer_wheel_speed: None,
        peer_status: None,
        remote_setpoint: None,
        comms_loss: false,
        stop_all_requested: false,
        received_fault: None,
    }
}

/// Whether `link` is among `links`.
fn lists(links: &[u8], link: u8) -> (b: bool)
    ensures
        b == links@.contains(link),
{
    let mut k: usize = 0;
    while k < links.len()
        invariant
            k <= links@.len(),
            forall|j: int| 0 <= j < k ==> links@[j] != link,
        decreases links@.len() - k,
    {
        if links[k] == link {
            return true;
        }
        k += 1;
    }
    false
}

impl<const FUSED: usize> MotorConfig<FUSED> {
    /// Some link feeds the motor.
    fn depends_on_link(&self) -> (b: bool)
        ensures
            b == !(self@.attitude is LocalImu && self@.drive is LocalBalance),
    {
        let drive = match self.drive_source {
            DriveSource::Link(_) => true,
            DriveSource::LocalBalance => false,
        };
        let attitude = match &self.attitude_source {
            AttitudeSource::LocalImu => false,
            _ => true,
        };
        drive || attitude
    }

    /// Link `link_index` feeds the motor.
    fn fed_by(&self, link_index: u8) -> (b: bool)
        ensures
            b == self@.fed_by(link_index),
    {
        if let DriveSource::Link(i) = self.drive_source {
            if i == link_index {
                return true;
            }
        }
        match &self.attitude_source {
            AttitudeSource::Link(i) => *i == link_index,
            AttitudeSource::Fused(v) => lists(v.as_slice(), link_index),
            AttitudeSource::LocalImu => false,
        }
    }
}

impl LinkConfig {
    /// The items that this node handles on the link.
    fn caps(&self) -> (s: ItemSet)
        ensures
            s.0 == self.produce.0 | self.consume.0,
            s@ == self.produce@.union(self.consume@),
    {
        self.produce.union(self.consume)
    }
}

/// The receive supervision of one link.
#[derive(Debug, Clone, Copy, PartialEq, Eq, Structural)]
pub struct LinkSupervisor {
    /// Ticks since the last good frame.
    pub rx_timeout: u16,
    /// The link is lost.
    pub comms_loss: bool,
}

/// The supervision after a tick without a good frame.
pub open spec fn watched(w: LinkSupervisor) -> LinkSupervisor {
    let rx_timeout = if w.rx_timeout < u16::MAX {
        (w.rx_timeout + 1) as u16
    } else {
        w.rx_timeout
    };
    LinkSupervisor { rx_timeout, comms_loss: w.comms_loss || rx_timeout >= RX_TIMEOUT_TICKS }
}

/// The supervision after a good frame.
pub open spec fn heard() -> LinkSupervisor {
    LinkSupervisor { rx_timeout: 0, comms_loss: false }
}

/// The state of a runtime.
#[verifier::ext_equal]
pub struct Node {
    pub id: u8,
    pub links: Seq<LinkConfig>,
    pub motors: Seq<Motor>,
    pub speed_sync_peer: Option<u8>,
    pub watches: Seq<LinkSupervisor>,
    pub pending: Option<Fault>,
}

impl Node {
    /// Some link is lost.
    pub open spec fn any_lost(self) -> bool {
        exists|i: int| 0 <= i < self.watches.len() && (#[trigger] self.watches[i]).comms_loss
    }

    /// A lost link feeds motor `m`.
    pub open spec fn starved(self, m: Motor) -> bool {
        exists|i: int|
            0 <= i < self.watches.len() && (#[trigger] self.watches[i]).comms_loss && m.fed_by(
                i as u8,
            )
    }
}

/// The runtime of a board: its id is the one on its first link.
pub open spec fn node_of(b: Board) -> Node {
    Node {
        id: if b.links.len() > 0 {
            b.links[0].node_id
        } else {
            0
        },
        links: b.links,
        motors: b.motors,
        speed_sync_peer: b.speed_sync_peer,
        watches: Seq::new(b.links.len(), |i: int| heard()),
        pending: None,
    }
}

/// The state after an attitude came in on `link`.
pub open spec fn attitude_routed(n: Node, link: u8, att: CyclicAttitude, s: Sinks) -> Sinks {
    Sinks {
        motors: Seq::new(
            s.motors.len(),
            |i: int|
                if i < n.motors.len() {
                    deposited(n.motors[i].attitude, link, att, s.motors[i])
                } else {
                    s.motors[i]
                },
        ),
        ..s
    }
}

/// The state after a drive command came in on `link`.
pub open spec fn drive_routed(n: Node, link: u8, dc: DriveCmd, s: Sinks) -> Sinks {
    Sinks {
        motors: Seq::new(
            s.motors.len(),
            |i: int|
                if i < n.motors.len() && n.motors[i].drive == DriveSource::Link(link) {
                    Sink { drive_setpoint: Some(dc), ..s.motors[i] }
                } else {
                    s.motors[i]
                },
        ),
        ..s
    }
}

/// The state after a cyclic state came in on `link`: attitude, wheel speed and status go each where
/// they are bound.
pub open spec fn cyclic_routed(n: Node, link: int, cs: CyclicState, s: Sinks) -> Sinks {
    let consume = n.links[link].consume@;
    let att = CyclicAttitude { pitch: cs.pitch, roll: cs.roll };
    Sinks {
        motors: if consume.contains(DataItem::Attitude) {
            attitude_routed(n, link as u8, att, s).motors
        } else {
            s.motors
        },
        peer_wheel_speed: if consume.contains(DataItem::WheelSpeed) && n.speed_sync_peer == Some(
            link as u8,
        ) {
            Some(cs.wheel_speed)
        } else {
            s.peer_wheel_speed
        },
        peer_status: if consume.contains(DataItem::Status) {
            Some(cs.status)
        } else {
            s.peer_status
        },
        ..s
    }
}

/// The state after a frame came in on the link with index `link`. A frame of an undeclared link, of
/// an item that is not consumed, or with too short a payload, changes nothing.
pub open spec fn routed(n: Node, link: int, opcode: Opcode, payload: Seq<u8>, s: Sinks) -> Sinks {
    if !(0 <= link < n.links.len()) {
        s
    } else {
        let consume = n.links[link].consume@;
        match opcode {
            Opcode::CyclicState => if payload.len() >= CyclicState::LEN {
                cyclic_routed(n, link, CyclicState::parse(payload), s)
            } else {
                s
            },
            Opcode::DriveCmd => if consume.contains(DataItem::DriveCmd) && payload.len()
                >= DriveCmd::LEN {
                drive_routed(n, link as u8, DriveCmd::parse(payload), s)
            } else {
                s
            },
            Opcode::Inputs => if consume.contains(DataItem::Inputs) && payload.len()
                >= Inputs::LEN {
                Sinks { remote_setpoint: Some(Inputs::parse(payload)), ..s }
            } else {
                s
            },
            Opcode::Fault => if consume.contains(DataItem::Fault) && payload.len() >= Fault::LEN {
                let f = Fault::parse(payload);
                Sinks {
                    received_fault: Some(f.fault_code),
                    stop_all_requested: s.stop_all_requested || f.action == FAULT_ACTION_STOP_ALL,
                    ..s
                }
            } else {
                s
            },
            _ => s,
        }
    }
}

/// The state after the enables were recomputed: a motor may run unless a lost link feeds it.
pub open spec fn enables_refreshed(n: Node, s: Sinks) -> Sinks {
    Sinks {
        motors: Seq::new(
            s.motors.len(),
            |i: int|
                if i < n.motors.len() {
                    Sink { running_enable: !n.starved(n.motors[i]), ..s.motors[i] }
                } else {
                    s.motors[i]
                },
        ),
        comms_loss: n.any_lost(),
        ..s
    }
}

/// The items of a cyclic state.
pub open spec fn is_cyclic(items: Set<DataItem>) -> bool {
    items.contains(DataItem::Attitude) || items.contains(DataItem::WheelSpeed) || items.contains(
        DataItem::Status,
    )
}

/// The cyclic state that a link producing `items` carries: what it does not produce is 0.
pub open spec fn cyclic_of(items: Set<DataItem>, local: LocalCyclic) -> CyclicState {
    CyclicState {
        pitch: if items.contains(DataItem::Attitude) {
            local.pitch
        } else {
            0
        },
        roll: if items.contains(DataItem::Attitude) {
            local.roll
        } else {
            0
        },
        wheel_speed: if items.contains(DataItem::WheelSpeed) {
            local.wheel_speed
        } else {
            0
        },
        status: if items.contains(DataItem::Status) {
            local.status
        } else {
            0
        },
    }
}

/// The routing and supervision of one node.
#[verifier::reject_recursive_types(FUSED)]
pub struct NodeRuntime<const LINKS: usize, const MOTORS: usize, const FUSED: usize> {
    this_node_id: u8,
    links: BoundedVec<LinkConfig, LINKS>,
    motors: BoundedVec<MotorConfig<FUSED>, MOTORS>,
    speed_sync_peer: Option<u8>,
    supervisors: BoundedVec<LinkSupervisor, LINKS>,
    pending_outbound_fault: Option<Fault>,
}

impl<const LINKS: usize, const MOTORS: usize, const FUSED: usize> View for NodeRuntime<
    LINKS,
    MOTORS,
    FUSED,
> {
    type V = Node;

    closed spec fn view(&self) -> Node {
        Node {
            id: self.this_node_id,
            links: self.links@,
            motors: config::motor_views(self.motors@),
            speed_sync_peer: self.speed_sync_peer,
            watches: self.supervisors@,
            pending: self.pending_outbound_fault,
        }
    }
}

impl<const LINKS: usize, const MOTORS: usize, const FUSED: usize> NodeRuntime<
    LINKS,
    MOTORS,
    FUSED,
> {
    /// Every link is supervised, and link indices and the motor count fit a byte.
    pub open spec fn wf(&self) -> bool {
        &&& self@.watches.len() == self@.links.len()
        &&& LINKS <= 256
        &&& MOTORS <= 255
    }

    /// Builds the runtime of a board.
    pub fn from_config(cfg: &BoardConfig<LINKS, MOTORS, FUSED>) -> (rt: Self)
        requires
            LINKS <= 256,
            MOTORS <= 255,
        ensures
            rt.wf(),
            rt@ == node_of(cfg@),
    {
        let mut links: BoundedVec<LinkConfig, LINKS> = BoundedVec::new();
        let mut supervisors: BoundedVec<LinkSupervisor, LINKS> = BoundedVec::new();
        let declared = cfg.links.as_slice();
        let mut i: usize = 0;
        while i < declared.len()
            invariant
                i <= declared@.len() <= LINKS,
                links@ =~= declared@.take(i as int),
                supervisors@ =~= Seq::new(i as nat, |k: int| heard()),
            decreases declared@.len() - i,
        {
            let _ = links.push(declared[i]);
            let _ = supervisors.push(LinkSupervisor { rx_timeout: 0, comms_loss: false });
            i += 1;
        }
        let mut motors: BoundedVec<MotorConfig<FUSED>, MOTORS> = BoundedVec::new();
        let wanted = cfg.motors.as_slice();
        let mut j: usize = 0;
        while j < wanted.len()
            invariant
                j <= wanted@.len() <= MOTORS,
                config::motor_views(motors@) =~= config::motor_views(wanted@).take(j as int),
            decreases wanted@.len() - j,
        {
            let m = &wanted[j];
            let ghost before = motors@;
            let _ = motors.push(
                MotorConfig {
                    attitude_source: m.attitude_source.duplicate(),
                    drive_source: m.drive_source,
                },
            );
            assert(config::motor_views(motors@) =~= config::motor_views(before).push(m@));
            j += 1;
        }
        let this_node_id: u8 = if declared.len() > 0 {
            declared[0].node_id
        } else {
            0
        };
        let rt = NodeRuntime {
            this_node_id,
            links,
            motors,
            speed_sync_peer: cfg.speed_sync_peer,
            supervisors,
            pending_outbound_fault: None,
        };
        assert(rt@ =~= node_of(cfg@));
        rt
    }

    /// The state that goes with this runtime.
    pub fn new_state(&self) -> (s: NodeState<MOTORS, FUSED>)
        ensures
            s@ == fresh_sinks(self@.motors),
    {
        let bound = self.motors.as_slice();
        let mut motors: BoundedVec<MotorSink<FUSED>, MOTORS> = BoundedVec::new();
        let mut i: usize = 0;
        while i < bound.len()
            invariant
                i <= bound@.len() <= MOTORS,
                bound@ == self.motors@,
                sink_views(motors@) =~= fresh_sinks(self@.motors).motors.take(i as int),
            decreases bound@.len() - i,
        {
            let m = &bound[i];
            let fused_len: usize = match &m.attitude_source {
                AttitudeSource::Fused(v) => v.len(),
                _ => 0,
            };
            let mut sink: MotorSink<FUSED> = MotorSink::new(fused_len);
            if !m.depends_on_link() {
                sink.running_enable = true;
            }
            let ghost before = motors@;
            assert(sink@ =~= fresh_sink(m@));
            let _ = motors.push(sink);
            assert(sink_views(motors@) =~= sink_views(before).push(fresh_sink(m@)));
            i += 1;
        }
        let s = NodeState {
            motors,
            peer_wheel_speed: None,
            peer_status: None,
            remote_setpoint: None,
            comms_loss: false,
            stop_all_requested: false,
            received_fault: None,
        };
        assert(s@ =~= fresh_sinks(self@.motors));
        s
    }

    /// This node's id.
    pub fn this_node_id(&self) -> (id: u8)
        ensures
            id == self@.id,
    {
        self.this_node_id
    }

    /// The number of links.
    pub fn link_count(&self) -> (n: usize)
        ensures
            n == self@.links.len(),
    {
        self.links.len()
    }

    /// The items that this node handles on a link; none on a link that is not declared.
    pub fn caps(&self, link_index: usize) -> (s: ItemSet)
        ensures
            s.0 == if link_index < self@.links.len() {
                self@.links[link_index as int].produce.0 | self@.links[link_index as int].consume.0
            } else {
                0
            },
            s@ == if link_index < self@.links.len() {
                self@.links[link_index as int].produce@.union(
                    self@.links[link_index as int].consume@,
                )
            } else {
                Set::empty()
            },
    {
        let links = self.links.as_slice();
        if link_index < links.len() {
            links[link_index].caps()
        } else {
            ItemSet::empty()
        }
    }

    /// The greeting of this node on a link.
    pub fn node_hello(&self, link_index: usize) -> (h: NodeHello)
        requires
            self.wf(),
        ensures
            h == (NodeHello {
                node_id: self@.id,
                role: 0,
                motor_count: self@.motors.len() as u8,
                proto_ver: PROTO_VER,
                fw_ver: 0,
                caps: if link_index < self@.links.len() {
                    self@.links[link_index as int].produce.0
                        | self@.links[link_index as int].consume.0
                } else {
                    0
                },
            }),
    {
        let caps = self.caps(link_index);
        NodeHello {
            node_id: self.this_node_id,
            role: 0,
            motor_count: self.motors.len() as u8,
            proto_ver: PROTO_VER,
            fw_ver: 0,
            caps: caps.bits(),
        }
    }

    /// Routes a frame that came in on link `link_index` into `state`.
    pub fn route_inbound(
        &mut self,
        link_index: usize,
        frame: &DecodedFrame<'_>,
        state: &mut NodeState<MOTORS, FUSED>,
    )
        requires
            old(self).wf(),
        ensures
            final(self).wf(),
            final(self)@ == old(self)@,
            final(state)@ == routed(
                old(self)@,
                link_index as int,
                frame.header.opcode,
                frame.payload@,
                old(state)@,
            ),
    {
        let links = self.links.as_slice();
        if link_index >= links.len() {
            return;
        }
        let consume = links[link_index].consume;
        let link: u8 = link_index as u8;
        match frame.header.opcode {
            Opcode::CyclicState => {
                let cs = match CyclicState::decode(frame.payload) {
                    Ok(cs) => cs,
                    Err(_) => {
                        return;
                    },
                };
                if consume.contains(DataItem::Attitude) {
                    self.route_attitude(link, cs.pitch, cs.roll, state);
                }
                let is_peer = match self.speed_sync_peer {
                    Some(p) => p == link,
                    None => false,
                };
                if consume.contains(DataItem::WheelSpeed) && is_peer {
                    state.peer_wheel_speed = Some(cs.wheel_speed);
                }
                if consume.contains(DataItem::Status) {
                    state.peer_status = Some(cs.status);
                }
            },
            Opcode::DriveCmd => {
                if !consume.contains(DataItem::DriveCmd) {
                    return;
                }
                if let Ok(dc) = DriveCmd::decode(frame.payload) {
                    self.route_drive(link, dc, state);
                }
            },
            Opcode::Inputs => {
                if !consume.contains(DataItem::Inputs) {
                    return;
                }
                if let Ok(inp) = Inputs::decode(frame.payload) {
                    state.remote_setpoint = Some(inp);
                }
            },
            Opcode::Fault => {
                if !consume.contains(DataItem::Fault) {
                    return;
                }
                if let Ok(f) = Fault::decode(frame.payload) {
                    state.received_fault = Some(f.fault_code);
                    if f.action == FAULT_ACTION_STOP_ALL {
                        state.stop_all_requested = true;
                    }
                }
            },
            _ => {},
        }
    }

    /// Hands an attitude to every motor whose source names the link.
    fn route_attitude(
        &self,
        link_index: u8,
        pitch: i16,
        roll: i16,
        state: &mut NodeState<MOTORS, FUSED>,
    )
        ensures
            final(state)@ == attitude_routed(
                self@,
                link_index,
                (CyclicAttitude { pitch, roll }),
                old(state)@,
            ),
    {
        let att = CyclicAttitude { pitch, roll };
        let bound = self.motors.as_slice();
        let ghost before = *state;
        let mut i: usize = 0;
        while i < bound.len() && i < state.motors.len()
            invariant
                i <= bound@.len(),
                bound@ == self.motors@,
                before@ == old(state)@,
                (Sinks { motors: before@.motors, ..state@ }) == before@,
                state.motors@.len() == before.motors@.len(),
                forall|k: int|
                    #![trigger state.motors@[k]]
                    0 <= k < i && k < state.motors@.len() ==> state.motors@[k]@ == deposited(
                        bound@[k]@.attitude,
                        link_index,
                        att,
                        before.motors@[k]@,
                    ),
                forall|k: int|
                    #![trigger state.motors@[k]]
                    i <= k < state.motors@.len() ==> state.motors@[k] == before.motors@[k],
            decreases bound@.len() - i,
        {
            state.motors.at_mut(i).deposit(&bound[i].attitude_source, link_index, att);
            i += 1;
        }
        assert(state@ =~= attitude_routed(self@, link_index, att, old(state)@));
    }

    /// Hands a drive command to every motor whose drive source is the link.
    fn route_drive(&self, link_index: u8, dc: DriveCmd, state: &mut NodeState<MOTORS, FUSED>)
        ensures
            final(state)@ == drive_routed(self@, link_index, dc, old(state)@),
    {
        let bound = self.motors.as_slice();
        let ghost before = *state;
        let mut i: usize = 0;
        while i < bound.len() && i < state.motors.len()
            invariant
                i <= bound@.len(),
                bound@ == self.motors@,
                before@ == old(state)@,
                (Sinks { motors: before@.motors, ..state@ }) == before@,
                state.motors@.len() == before.motors@.len(),
                forall|k: int|
                    #![trigger state.motors@[k]]
                    0 <= k < i && k < state.motors@.len() ==> state.motors@[k]@ == (if bound@[k]@.drive
                        == DriveSource::Link(link_index) {
                        Sink { drive_setpoint: Some(dc), ..before.motors@[k]@ }
                    } else {
                        before.motors@[k]@
                    }),
                forall|k: int|
                    #![trigger state.motors@[k]]
                    i <= k < state.motors@.len() ==> state.motors@[k] == before.motors@[k],
            decreases bound@.len() - i,
        {
            if let DriveSource::Link(src) = bound[i].drive_source {
                if src == link_index {
                    state.motors.at_mut(i).drive_setpoint = Some(dc);
                }
            }
            i += 1;
        }
        assert(state@ =~= drive_routed(self@, link_index, dc, old(state)@));
    }

    /// The cyclic state that a link carries from the local values, and its destination; `None`
    /// where the link produces none of its items.
    pub fn build_cyclic(&self, link_index: usize, local: &LocalCyclic) -> (r: Option<
        (Opcode, CyclicState, u8),
    >)
        ensures
            r == if link_index < self@.links.len() && is_cyclic(
                self@.links[link_index as int].produce@,
            ) {
                Some(
                    (
                        Opcode::CyclicState,
                        cyclic_of(self@.links[link_index as int].produce@, *local),
                        BROADCAST,
                    ),
                )
            } else {
                None
            },
    {
        let links = self.links.as_slice();
        if link_index >= links.len() {
            return None;
        }
        let produce = links[link_index].produce;
        let attitude = produce.contains(DataItem::Attitude);
        let wheel_speed = produce.contains(DataItem::WheelSpeed);
        let status = produce.contains(DataItem::Status);
        if !attitude && !wheel_speed && !status {
            return None;
        }
        let cs = CyclicState {
            pitch: if attitude {
                local.pitch
            } else {
                0
            },
            roll: if attitude {
                local.roll
            } else {
                0
            },
            wheel_speed: if wheel_speed {
                local.wheel_speed
            } else {
                0
            },
            status: if status {
                local.status
            } else {
                0
            },
        };
        Some((Opcode::CyclicState, cs, BROADCAST))
    }

    /// The source id of produced frames.
    pub fn produce_src(&self) -> (id: u8)
        ensures
            id == self@.id,
    {
        self.this_node_id
    }

    /// The node id declared on a link, or `None` where there is no such link.
    pub fn link_node_id(&self, link_index: usize) -> (r: Option<u8>)
        ensures
            r == if link_index < self@.links.len() {
                Some(self@.links[link_index as int].node_id)
            } else {
                None
            },
    {
        let links = self.links.as_slice();
        if link_index < links.len() {
            Some(links[link_index].node_id)
        } else {
            None
        }
    }

    /// Notes a good frame on a link.
    pub fn note_frame(&mut self, link_index: usize, state: &mut NodeState<MOTORS, FUSED>)
        requires
            old(self).wf(),
        ensures
            final(self).wf(),
            link_index >= old(self)@.links.len() ==> final(self)@ == old(self)@ && final(state)@
                == old(state)@,
            link_index < old(self)@.links.len() ==> {
                &&& final(self)@ == (Node {
                    watches: old(self)@.watches.update(link_index as int, heard()),
                    ..old(self)@
                })
                &&& final(state)@ == enables_refreshed(final(self)@, old(state)@)
            },
    {
        if link_index >= self.supervisors.len() {
            return;
        }
        *self.supervisors.at_mut(link_index) = LinkSupervisor { rx_timeout: 0, comms_loss: false };
        self.refresh_enables(state);
    }

    /// Notes a tick without a good frame on a link. The tick on which the link becomes lost
    /// recomputes the enables.
    pub fn tick_no_frame(&mut self, link_index: usize, state: &mut NodeState<MOTORS, FUSED>)
        requires
            old(self).wf(),
        ensures
            final(self).wf(),
            link_index >= old(self)@.links.len() ==> final(self)@ == old(self)@ && final(state)@
                == old(state)@,
            link_index < old(self)@.links.len() ==> {
                let w = old(self)@.watches[link_index as int];
                &&& final(self)@ == (Node {
                    watches: old(self)@.watches.update(link_index as int, watched(w)),
                    ..old(self)@
                })
                &&& final(state)@ == if watched(w).comms_loss && !w.comms_loss {
                    enables_refreshed(final(self)@, old(state)@)
                } else {
                    old(state)@
                }
            },
    {
        if link_index >= self.supervisors.len() {
            return;
        }
        let mut sup = self.supervisors.as_slice()[link_index];
        if sup.rx_timeout < u16::MAX {
            sup.rx_timeout = sup.rx_timeout + 1;
        }
        let crossed = !sup.comms_loss && sup.rx_timeout >= RX_TIMEOUT_TICKS;
        if crossed {
            sup.comms_loss = true;
        }
        *self.supervisors.at_mut(link_index) = sup;
        if crossed {
            self.refresh_enables(state);
        }
    }

    /// Whether a link is lost; one that is not declared never is.
    pub fn comms_loss(&self, link_index: usize) -> (b: bool)
        requires
            self.wf(),
        ensures
            b == (link_index < self@.links.len() && self@.watches[link_index as int].comms_loss),
    {
        let sups = self.supervisors.as_slice();
        link_index < sups.len() && sups[link_index].comms_loss
    }

    /// Whether any link is lost.
    pub fn any_comms_loss(&self) -> (b: bool)
        ensures
            b == self@.any_lost(),
    {
        let sups = self.supervisors.as_slice();
        let mut i: usize = 0;
        while i < sups.len()
            invariant
                i <= sups@.len(),
                sups@ == self@.watches,
                forall|k: int| 0 <= k < i ==> !(#[trigger] sups@[k]).comms_loss,
            decreases sups@.len() - i,
        {
            if sups[i].comms_loss {
                assert(self@.watches[i as int].comms_loss);
                return true;
            }
            i += 1;
        }
        false
    }

    /// Whether a lost link feeds the motor.
    fn starved(&self, m: &MotorConfig<FUSED>) -> (b: bool)
        requires
            self.wf(),
        ensures
            b == self@.starved(m@),
    {
        let sups = self.supervisors.as_slice();
        let mut i: usize = 0;
        while i < sups.len()
            invariant
                i <= sups@.len() <= LINKS <= 256,
                sups@ == self@.watches,
                forall|k: int|
                    0 <= k < i ==> !((#[trigger] sups@[k]).comms_loss && m@.fed_by(k as u8)),
            decreases sups@.len() - i,
        {
            if sups[i].comms_loss && m.fed_by(i as u8) {
                assert(self@.watches[i as int].comms_loss);
                return true;
            }
            i += 1;
        }
        false
    }

    /// Recomputes every motor's enable and the comms-loss flag.
    fn refresh_enables(&self, state: &mut NodeState<MOTORS, FUSED>)
        requires
            self.wf(),
        ensures
            final(state)@ == enables_refreshed(self@, old(state)@),
    {
        state.comms_loss = self.any_comms_loss();
        let bound = self.motors.as_slice();
        let ghost before = *state;
        let mut i: usize = 0;
        while i < bound.len() && i < state.motors.len()
            invariant
                self.wf(),
                i <= bound@.len(),
                bound@ == self.motors@,
                (Sinks { motors: before@.motors, ..state@ }) == before@,
                state.motors@.len() == before.motors@.len(),
                forall|k: int|
                    #![trigger state.motors@[k]]
                    0 <= k < i && k < state.motors@.len() ==> state.motors@[k]@ == (Sink {
                        running_enable: !self@.starved(bound@[k]@),
                        ..before.motors@[k]@
                    }),
                forall|k: int|
                    #![trigger state.motors@[k]]
                    i <= k < state.motors@.len() ==> state.motors@[k] == before.motors@[k],
            decreases bound@.len() - i,
        {
            let enable = !bound[i].depends_on_link() || !self.starved(&bound[i]);
            state.motors.at_mut(i).running_enable = enable;
            i += 1;
        }
        assert(state@ =~= enables_refreshed(self@, old(state)@));
    }

    /// Latches a local fault for broadcast, in the place of one that is still pending.
    pub fn latch_local_fault(&mut self, fault: Fault)
        requires
            old(self).wf(),
        ensures
            final(self).wf(),
            final(self)@ == (Node { pending: Some(fault), ..old(self)@ }),
    {
        self.pending_outbound_fault = Some(fault);
    }

    /// Takes the pending fault: once per latch.
    pub fn take_outbound_fault(&mut self) -> (f: Option<Fault>)
        requires
            old(self).wf(),
        ensures
            final(self).wf(),
            f == old(self)@.pending,
            final(self)@ == (Node { pending: None, ..old(self)@ }),
    {
        self.pending_outbound_fault.take()
    }

    /// Whether a link produces `item`.
    pub fn link_produces(&self, link_index: usize, item: DataItem) -> (b: bool)
        ensures
            b == (link_index < self@.links.len() && self@.links[link_index as int].produce@.contains(
                item,
            )),
    {
        let links = self.links.as_slice();
        link_index < links.len() && links[link_index].produce.contains(item)
    }
}

/// The values that a board offers for its cyclic state.
#[derive(Debug, Clone, Copy, PartialEq, Eq, Structural)]
pub struct LocalCyclic {
    pub pitch: i16,
    pub roll: i16,
    pub wheel_speed: i16,
    pub status: u8,
}

impl Default for LocalCyclic {
    fn default() -> (l: Self)
        ensures
            l == (LocalCyclic { pitch: 0, roll: 0, wheel_speed: 0, status: 0 }),
    {
        LocalCyclic { pitch: 0, roll: 0, wheel_speed: 0, status: 0 }
    }
}

/// The item that a frame needs to be consumed, or one of them.
pub open spec fn wants(opcode: Opcode, items: Set<DataItem>) -> bool {
    match opcode {
        Opcode::CyclicState => is_cyclic(items),
        Opcode::DriveCmd => items.contains(DataItem::DriveCmd),
        Opcode::Inputs => items.contains(DataItem::Inputs),
        Opcode::Fault => items.contains(DataItem::Fault),
        _ => false,
    }
}

/// A frame whose item the link does not consume changes nothing.
pub proof fn lemma_unconsumed_ignored(
    n: Node,
    link: int,
    opcode: Opcode,
    payload: Seq<u8>,
    s: Sinks,
)
    requires
        0 <= link < n.links.len() ==> !wants(opcode, n.links[link].consume@),
    ensures
        routed(n, link, opcode, payload, s) == s,
{
}

/// No frame commands the drive of a motor that balances by itself, nor the attitude of a motor that
/// has its own sensor.
pub proof fn lemma_no_bypass(
    n: Node,
    link: int,
    opcode: Opcode,
    payload: Seq<u8>,
    s: Sinks,
    i: int,
)
    requires
        0 <= i < n.motors.len(),
        i < s.motors.len(),
    ensures
        n.motors[i].drive is LocalBalance ==> routed(
            n,
            link,
            opcode,
            payload,
            s,
        ).motors[i].drive_setpoint == s.motors[i].drive_setpoint,
        n.motors[i].attitude is LocalImu ==> routed(
            n,
            link,
            opcode,
            payload,
            s,
        ).motors[i].attitude_in == s.motors[i].attitude_in,
        routed(n, link, opcode, payload, s).motors[i].running_enable == s.motors[i].running_enable,
{
}

/// A link after `k` ticks without a good frame.
pub open spec fn silent(w: LinkSupervisor, k: nat) -> LinkSupervisor
    decreases k,
{
    if k == 0 {
        w
    } else {
        watched(silent(w, (k - 1) as nat))
    }
}

/// After a good frame, a link is lost on exactly the tick on which the timeout is reached, and stays
/// lost until the next good frame.
pub proof fn lemma_loss_threshold(k: nat)
    ensures
        silent(heard(), k).comms_loss == (k >= RX_TIMEOUT_TICKS),
        silent(heard(), k).rx_timeout == if k < u16::MAX {
            k as int
        } else {
            u16::MAX as int
        },
    decreases k,
{
    if k > 0 {
        lemma_loss_threshold((k - 1) as nat);
    }
}

/// Loss is recoverable: once every link is heard, every motor may run and the flag is lowered.
pub proof fn lemma_recovery(n: Node, s: Sinks, i: int)
    requires
        forall|k: int| 0 <= k < n.watches.len() ==> !(#[trigger] n.watches[k]).comms_loss,
        0 <= i < n.motors.len(),
        i < s.motors.len(),
    ensures
        !enables_refreshed(n, s).comms_loss,
        enables_refreshed(n, s).motors[i].running_enable,
{
}

/// A lost link disables every motor that it feeds, and leaves a motor that no lost link feeds
/// enabled.
pub proof fn lemma_lost_link_disables(n: Node, s: Sinks, link: int, i: int)
    requires
        0 <= link < n.watches.len(),
        n.watches[link].comms_loss,
        0 <= i < n.motors.len(),
        i < s.motors.len(),
    ensures
        enables_refreshed(n, s).comms_loss,
        n.motors[i].fed_by(link as u8) ==> !enables_refreshed(n, s).motors[i].running_enable,
        (forall|k: int|
            0 <= k < n.watches.len() && (#[trigger] n.watches[k]).comms_loss
                ==> !n.motors[i].fed_by(k as u8)) ==> enables_refreshed(
            n,
            s,
        ).motors[i].running_enable,
{
    let w = n.watches[link];
}

/// What one board produces arrives at the other: the peer that consumes an item gets the local value
/// of the board that produces it.
pub proof fn lemma_cyclic_arrives(
    produce: Set<DataItem>,
    local: LocalCyclic,
    n: Node,
    link: int,
    s: Sinks,
)
    requires
        is_cyclic(produce),
        0 <= link < n.links.len(),
    ensures
        ({
            let consume = n.links[link].consume@;
            let r = routed(n, link, Opcode::CyclicState, cyclic_of(produce, local).bytes(), s);
            &&& consume.contains(DataItem::WheelSpeed) && produce.contains(DataItem::WheelSpeed)
                && n.speed_sync_peer == Some(link as u8) ==> r.peer_wheel_speed == Some(
                local.wheel_speed,
            )
            &&& consume.contains(DataItem::Status) && produce.contains(DataItem::Status)
                ==> r.peer_status == Some(local.status)
            &&& forall|i: int|
                0 <= i < s.motors.len() && i < n.motors.len() && consume.contains(
                    DataItem::Attitude,
                ) && produce.contains(DataItem::Attitude) && n.motors[i].attitude == Source::Link(
                    link as u8,
                ) ==> (#[trigger] r.motors[i]).attitude_in == Some(
                    CyclicAttitude { pitch: local.pitch, roll: local.roll },
                )
        }),
{
    let cs = cyclic_of(produce, local);
    cs.lemma_round_trip(Seq::empty());
    assert(cs.bytes() + Seq::<u8>::empty() =~= cs.bytes());
}

/// A drive command arrives: on a link that consumes drive commands it is afterwards the setpoint of
/// every motor whose drive source is that link, whatever the setpoint was before; the other motors
/// keep theirs, and nothing but setpoints changes.
pub proof fn lemma_drive_arrives(n: Node, link: int, dc: DriveCmd, s: Sinks)
    requires
        0 <= link < n.links.len(),
        n.links.len() <= 256,
        n.links[link].consume@.contains(DataItem::DriveCmd),
    ensures
        ({
            let r = routed(n, link, Opcode::DriveCmd, dc.bytes(), s);
            &&& r.motors.len() == s.motors.len()
            &&& forall|i: int|
                0 <= i < s.motors.len() ==> {
                    let m = #[trigger] r.motors[i];
                    &&& i < n.motors.len() && n.motors[i].drive == DriveSource::Link(link as u8)
                        ==> m.drive_setpoint == Some(dc)
                    &&& i >= n.motors.len() || n.motors[i].drive != DriveSource::Link(link as u8)
                        ==> m.drive_setpoint == s.motors[i].drive_setpoint
                    &&& m.attitude_in == s.motors[i].attitude_in
                    &&& m.fusion_buf == s.motors[i].fusion_buf
                    &&& m.running_enable == s.motors[i].running_enable
                }
            &&& r == (Sinks { motors: r.motors, ..s })
        }),
{
    dc.lemma_round_trip(Seq::empty());
    assert(dc.bytes() + Seq::<u8>::empty() =~= dc.bytes());
}

/// The latest wins: of two frames of the same family on the same link, one after the other, the
/// first leaves no trace but a stop that it asked for.
pub proof fn lemma_latest_wins(
    n: Node,
    link: int,
    opcode: Opcode,
    first: Seq<u8>,
    second: Seq<u8>,
    s: Sinks,
)
    requires
        second.len() >= first.len(),
        !(opcode is Fault),
    ensures
        routed(n, link, opcode, second, routed(n, link, opcode, first, s)) == routed(
            n,
            link,
            opcode,
            second,
            s,
        ),
{
    let a = routed(n, link, opcode, first, s);
    let b = routed(n, link, opcode, second, a);
    let c = routed(n, link, opcode, second, s);
    assert(b.motors =~~= c.motors);
    assert(b =~~= c);
}

/// Inputs and faults arrive: the inputs are the remote setpoint, whatever it was before; the code of
/// a fault is the received one, and a stop that was asked for stays, until it is taken elsewhere.
pub proof fn lemma_inputs_and_faults_arrive(n: Node, link: int, inputs: Inputs, f: Fault, s: Sinks)
    requires
        0 <= link < n.links.len(),
    ensures
        ({
            let r = routed(n, link, Opcode::Inputs, inputs.bytes(), s);
            &&& n.links[link].consume@.contains(DataItem::Inputs) ==> r == (Sinks {
                remote_setpoint: Some(inputs),
                ..s
            })
            &&& !n.links[link].consume@.contains(DataItem::Inputs) ==> r == s
        }),
        ({
            let r = routed(n, link, Opcode::Fault, f.bytes(), s);
            &&& n.links[link].consume@.contains(DataItem::Fault) ==> r == (Sinks {
                received_fault: Some(f.fault_code),
                stop_all_requested: s.stop_all_requested || f.action == 1,
                ..s
            })
            &&& !n.links[link].consume@.contains(DataItem::Fault) ==> r == s
        }),
{
    inputs.lemma_round_trip(Seq::empty());
    assert(inputs.bytes() + Seq::<u8>::empty() =~= inputs.bytes());
    f.lemma_round_trip(Seq::empty());
    assert(f.bytes() + Seq::<u8>::empty() =~= f.bytes());
}

/// A cyclic state arrives: its attitude goes to every motor whose source names the link, alone or in
/// its place among fused ones; its wheel speed and its status where they are bound; what is not
/// consumed goes nowhere.
pub proof fn lemma_cyclic_goes_where_bound(n: Node, link: int, cs: CyclicState, s: Sinks)
    requires
        0 <= link < n.links.len(),
        n.links.len() <= 256,
    ensures
        ({
            let consume = n.links[link].consume@;
            let r = routed(n, link, Opcode::CyclicState, cs.bytes(), s);
            let att = CyclicAttitude { pitch: cs.pitch, roll: cs.roll };
            &&& r.motors.len() == s.motors.len()
            &&& forall|i: int|
                0 <= i < s.motors.len() ==> {
                    let m = #[trigger] r.motors[i];
                    let was = s.motors[i];
                    let fed = i < n.motors.len() && consume.contains(DataItem::Attitude);
                    &&& m.drive_setpoint == was.drive_setpoint
                    &&& m.running_enable == was.running_enable
                    &&& fed && n.motors[i].attitude == Source::Link(link as u8) ==> m.attitude_in
                        == Some(att)
                    &&& !fed || n.motors[i].attitude != Source::Link(link as u8) ==> m.attitude_in
                        == was.attitude_in
                    &&& m.fusion_buf.len() == was.fusion_buf.len()
                    &&& !fed || !(n.motors[i].attitude is Fused) ==> m.fusion_buf == was.fusion_buf
                    &&& fed && n.motors[i].attitude is Fused ==> forall|k: int|
                        0 <= k < was.fusion_buf.len() ==> {
                            let links = n.motors[i].attitude->Fused_0;
                            &&& k < links.len() && links[k] == link ==> #[trigger] m.fusion_buf[k]
                                == Some(att)
                            &&& k >= links.len() || links[k] != link ==> m.fusion_buf[k]
                                == was.fusion_buf[k]
                        }
                }
            &&& consume.contains(DataItem::WheelSpeed) && n.speed_sync_peer == Some(link as u8)
                ==> r.peer_wheel_speed == Some(cs.wheel_speed)
            &&& !consume.contains(DataItem::WheelSpeed) || n.speed_sync_peer != Some(link as u8)
                ==> r.peer_wheel_speed == s.peer_wheel_speed
            &&& consume.contains(DataItem::Status) ==> r.peer_status == Some(cs.status)
            &&& !consume.contains(DataItem::Status) ==> r.peer_status == s.peer_status
            &&& r.remote_setpoint == s.remote_setpoint
            &&& r.comms_loss == s.comms_loss
            &&& r.stop_all_requested == s.stop_all_requested
            &&& r.received_fault == s.received_fault
        }),
{
    cs.lemma_round_trip(Seq::empty());
    assert(cs.bytes() + Seq::<u8>::empty() =~= cs.bytes());
}

/// A frame that is cut short, one of an opcode that is no data, and one on an undeclared link change
/// nothing.
pub proof fn lemma_bad_frame_changes_nothing(
    n: Node,
    link: int,
    opcode: Opcode,
    payload: Seq<u8>,
    s: Sinks,
)
    requires
        ({
            ||| !(0 <= link < n.links.len())
            ||| !(opcode is CyclicState || opcode is DriveCmd || opcode is Inputs || opcode is Fault)
            ||| opcode is CyclicState && payload.len() < CyclicState::LEN
            ||| opcode is DriveCmd && payload.len() < DriveCmd::LEN
            ||| opcode is Inputs && payload.len() < Inputs::LEN
            ||| opcode is Fault && payload.len() < Fault::LEN
        }),
    ensures
        routed(n, link, opcode, payload, s) == s,
{
}

/// What a link carries of the local values, one by one: what it produces as it is, and 0 for what it
/// does not.
pub proof fn lemma_produced_values(produce: Set<DataItem>, local: LocalCyclic)
    ensures
        ({
            let c = cyclic_of(produce, local);
            &&& produce.contains(DataItem::Attitude) ==> c.pitch == local.pitch && c.roll
                == local.roll
            &&& !produce.contains(DataItem::Attitude) ==> c.pitch == 0 && c.roll == 0
            &&& produce.contains(DataItem::WheelSpeed) ==> c.wheel_speed == local.wheel_speed
            &&& !produce.contains(DataItem::WheelSpeed) ==> c.wheel_speed == 0
            &&& produce.contains(DataItem::Status) ==> c.status == local.status
            &&& !produce.contains(DataItem::Status) ==> c.status == 0
            &&& !is_cyclic(produce) <==> !produce.contains(DataItem::Attitude)
                && !produce.contains(DataItem::WheelSpeed) && !produce.contains(DataItem::Status)
        }),
{
}

/// What feeds a motor: the link of its drive, the link of its attitude, and every link of a fused
/// attitude; and a motor may run exactly while none of these is lost.
pub proof fn lemma_enabled_while_fed(n: Node, s: Sinks, i: int)
    requires
        0 <= i < n.motors.len(),
        i < s.motors.len(),
        n.watches.len() <= 256,
    ensures
        ({
            let m = n.motors[i];
            let r = enables_refreshed(n, s);
            &&& r.motors[i].running_enable <==> forall|k: int|
                0 <= k < n.watches.len() && (#[trigger] n.watches[k]).comms_loss ==> {
                    &&& m.drive != DriveSource::Link(k as u8)
                    &&& m.attitude != Source::Link(k as u8)
                    &&& m.attitude is Fused ==> !m.attitude->Fused_0.contains(k as u8)
                }
            &&& r.comms_loss <==> exists|k: int|
                0 <= k < n.watches.len() && (#[trigger] n.watches[k]).comms_loss
            &&& r.motors[i] == (Sink { running_enable: r.motors[i].running_enable, ..s.motors[i] })
            &&& r == (Sinks { motors: r.motors, comms_loss: r.comms_loss, ..s })
        }),
{
    let m = n.motors[i];
    let fine = forall|k: int|
        0 <= k < n.watches.len() && (#[trigger] n.watches[k]).comms_loss ==> {
            &&& m.drive != DriveSource::Link(k as u8)
            &&& m.attitude != Source::Link(k as u8)
            &&& m.attitude is Fused ==> !m.attitude->Fused_0.contains(k as u8)
        };
    if n.starved(m) {
        let k = choose|k: int|
            0 <= k < n.watches.len() && (#[trigger] n.watches[k]).comms_loss && m.fed_by(k as u8);
        assert(n.watches[k].comms_loss);
        assert(!fine);
    } else {
        assert forall|k: int|
            0 <= k < n.watches.len() && (#[trigger] n.watches[k]).comms_loss implies {
            &&& m.drive != DriveSource::Link(k as u8)
            &&& m.attitude != Source::Link(k as u8)
            &&& m.attitude is Fused ==> !m.attitude->Fused_0.contains(k as u8)
        } by {
            assert(!m.fed_by(k as u8));
        }
    }
}

/// The state that goes with a runtime: nothing has been received, a fused source has an empty place
/// per link, and only a motor that no link feeds may run.
pub proof fn lemma_fresh_sinks(motors: Seq<Motor>, i: int)
    requires
        0 <= i < motors.len(),
    ensures
        ({
            let s = fresh_sinks(motors);
            let m = s.motors[i];
            &&& s.motors.len() == motors.len()
            &&& m.attitude_in is None
            &&& m.drive_setpoint is None
            &&& m.running_enable <==> motors[i].drive == DriveSource::LocalBalance
                && motors[i].attitude == Source::LocalImu
            &&& motors[i].attitude is Fused ==> m.fusion_buf.len()
                == motors[i].attitude->Fused_0.len()
            &&& !(motors[i].attitude is Fused) ==> m.fusion_buf.len() == 0
            &&& forall|k: int| 0 <= k < m.fusion_buf.len() ==> (#[trigger] m.fusion_buf[k]) is None
            &&& s.peer_wheel_speed is None
            &&& s.peer_status is None
            &&& s.remote_setpoint is None
            &&& s.received_fault is None
            &&& !s.comms_loss
            &&& !s.stop_all_requested
        }),
{
}

/// The runtime of a board, part by part: its links and motors as they are declared, its id that of
/// the first link, every link taken for alive, and no fault pending.
pub proof fn lemma_runtime_of_a_board(b: Board, i: int)
    ensures
        ({
            let n = node_of(b);
            &&& n.links == b.links && n.motors == b.motors && n.speed_sync_peer == b.speed_sync_peer
            &&& b.links.len() > 0 ==> n.id == b.links[0].node_id
            &&& b.links.len() == 0 ==> n.id == 0
            &&& n.watches.len() == b.links.len()
            &&& 0 <= i < b.links.len() ==> !n.watches[i].comms_loss && n.watches[i].rx_timeout == 0
            &&& n.pending is None
        }),
{
}

/// One silent tick: the count goes up by one, and the link is lost once it has come to five, or if
/// it was lost before.
pub proof fn lemma_silent_tick(w: LinkSupervisor)
    ensures
        watched(w).rx_timeout as int == vstd::math::min(w.rx_timeout + 1, 65535),
        watched(w).comms_loss <==> w.comms_loss || w.rx_timeout >= 4,
        !heard().comms_loss && heard().rx_timeout == 0,
{
}

} // verus!
