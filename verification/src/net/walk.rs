//! The board side of the discovery walk: a passive responder.
//!
//! A board answers `NODE_HELLO` with its identity, probes its own ports on `PROBE_PORTS` and
//! reports `PORTS`, and takes an `ASSIGN` or relays it out of a port with the destination
//! rewritten to "the one peer". It reads and writes its configuration on request. It never assigns
//! itself an address and never reads a hardware id: identity is positional during discovery, and
//! the persisted address afterwards.
//!
//! The responder is link-agnostic: it takes and gives whole PDUs by port index. The persistent
//! store is somebody else's: where a request needs it, the responder says what to read or write,
//! and goes on when it is told what came of it.

use crate::bounded::BoundedVec;
use crate::bytes;
use crate::net::forward;
use crate::net::forward::Forwarder;
use crate::net::pdu;
use crate::net::pdu::{Opcode, Pdu, NO_ADDRESS};
use vstd::prelude::*;

verus! {

/// The most local ports any board has.
pub const MAX_PORTS: usize = 4;

/// The largest PDU of the walk and of the configuration exchange.
pub const MAX_PDU: usize = 64;

/// The most emissions one step produces.
pub const MAX_EMIT: usize = 6;

/// An encoded PDU.
pub type PduBuf = BoundedVec<u8, MAX_PDU>;

/// One thing to put on the wire: the port and the encoded PDU.
pub struct Emission {
    /// The local port to send it out of.
    pub port: u8,
    /// The encoded PDU.
    pub bytes: PduBuf,
}

/// The emissions of one step. What does not fit is dropped.
pub type Emits = BoundedVec<Emission, MAX_EMIT>;

/// `NODE_HELLO` request: a controller makes first contact and is granted a guest address.
pub const KIND_CONTROLLER: u8 = 0x01;

/// `NODE_HELLO` request: a board probes a neighbour on behalf of the controller.
pub const KIND_PROBE: u8 = 0x02;

/// Neighbour state: nothing wired to this port.
pub const NB_EMPTY: u8 = 0;

/// Neighbour state: a board with no address yet.
pub const NB_UNASSIGNED: u8 = 1;

/// Neighbour state: a board or guest that has an address.
pub const NB_ASSIGNED: u8 = 2;

/// Port medium: a UART.
pub const PORT_UART: u8 = 0;

/// Port medium: the BLE link.
pub const PORT_BLE: u8 = 1;

/// Port medium: a debug mailbox.
pub const PORT_SWD: u8 = 2;

/// The egress of an `ASSIGN` that means the addressed board itself.
pub const EGRESS_SELF: u8 = 0xFF;

/// `ASSIGN_ACK` status: success.
pub const STATUS_OK: u8 = 0;

/// `ASSIGN_ACK` status: refused or failed.
pub const STATUS_ERR: u8 = 1;

/// The protocol version that a `NODE_HELLO` reply reports.
pub const PROTO_VER: u8 = 1;

/// `CONFIG_RESP` status: success.
pub const CFG_OK: u8 = 0;

/// `CONFIG_RESP` status: a malformed request.
pub const CFG_BAD: u8 = 1;

/// `CONFIG_RESP` status: no field has this id.
pub const CFG_UNKNOWN_KEY: u8 = 2;

/// `CONFIG_RESP` status: the value has not the type of the field.
pub const CFG_TYPE_MISMATCH: u8 = 3;

/// `CONFIG_RESP` status: the store could not write.
pub const CFG_STORE_ERR: u8 = 4;

/// `CONFIG_RESP` status: the board is armed and takes no writes.
pub const CFG_ARMED: u8 = 5;

/// The name of a configuration field.
#[derive(Clone, Copy, PartialEq, Eq, Debug, Structural)]
pub struct Key {
    pub field_id: u8,
    pub index: u8,
}

/// What the responder wants of the store.
pub enum StoreRequest {
    /// Read a field.
    Read { key: Key },
    /// Write a field: decode `value` as the type `type_tag` and persist it.
    Write { key: Key, type_tag: u8, value: PduBuf },
    /// Persist the address of this board.
    WriteAddress { addr: u8 },
}

/// Why the store did not do it.
#[derive(Clone, Copy, PartialEq, Eq, Debug, Structural)]
pub enum StoreFault {
    /// The type tag or the value bytes make no value.
    Bad,
    /// No field has this key.
    UnknownKey,
    /// The value has not the type of the field.
    TypeMismatch,
    /// Reading or writing failed.
    Store,
}

/// What came of a request to the store.
pub enum StoreReply {
    /// The field that was read: its type and its encoded value.
    Value { type_tag: u8, value: PduBuf },
    /// The write was persisted.
    Done,
    /// It was not done.
    Refused(StoreFault),
}

/// The `CONFIG_RESP` status of a fault.
pub open spec fn status_of(e: StoreFault) -> u8 {
    match e {
        StoreFault::Bad => CFG_BAD,
        StoreFault::UnknownKey => CFG_UNKNOWN_KEY,
        StoreFault::TypeMismatch => CFG_TYPE_MISMATCH,
        StoreFault::Store => CFG_STORE_ERR,
    }
}

/// The `CONFIG_RESP` status of a fault.
fn cfg_status(e: StoreFault) -> (s: u8)
    ensures
        s == status_of(e),
{
    match e {
        StoreFault::Bad => CFG_BAD,
        StoreFault::UnknownKey => CFG_UNKNOWN_KEY,
        StoreFault::TypeMismatch => CFG_TYPE_MISMATCH,
        StoreFault::Store => CFG_STORE_ERR,
    }
}

/// A PDU that was delivered to this node and is none of the responder's, handed back whole.
pub struct DeliveredPdu {
    pub opcode: u8,
    pub src: u8,
    pub payload: PduBuf,
}

/// What came of a frame besides its emissions.
pub struct Ingested {
    /// A PDU for this node that the responder does not handle.
    pub handed: Option<DeliveredPdu>,
    /// What the store is to do; the answer goes to [`Responder::on_store`].
    pub store: Option<StoreRequest>,
}

/// The ports and bytes of emissions.
pub open spec fn emitted(v: Seq<Emission>) -> Seq<(u8, Seq<u8>)> {
    Seq::new(v.len(), |i: int| (v[i].port, v[i].bytes@))
}

/// The PDU `b` out of each of `ports`; one that is too long is dropped.
pub open spec fn sent_out(ports: Seq<u8>, b: Seq<u8>) -> Seq<(u8, Seq<u8>)> {
    if b.len() <= MAX_PDU {
        Seq::new(ports.len(), |i: int| (ports[i], b))
    } else {
        Seq::empty()
    }
}

/// Emissions with more behind them, as far as there is room.
pub open spec fn appended(a: Seq<(u8, Seq<u8>)>, b: Seq<(u8, Seq<u8>)>) -> Seq<(u8, Seq<u8>)> {
    if a.len() >= MAX_EMIT {
        a
    } else {
        a + b.take(vstd::math::min(b.len() as int, MAX_EMIT - a.len()))
    }
}

proof fn lemma_appended(a: Seq<(u8, Seq<u8>)>, b: Seq<(u8, Seq<u8>)>, c: Seq<(u8, Seq<u8>)>)
    ensures
        appended(appended(a, b), c) == appended(a, b + c),
        appended(a, Seq::empty()) == a,
{
    assert(appended(appended(a, b), c) =~= appended(a, b + c));
    assert(appended(a, Seq::empty()) =~= a);
}

/// Encodes `p` as an emission out of `port`; one that is too long, or for which there is no room,
/// is dropped.
fn emit(out: &mut Emits, port: u8, p: &Pdu)
    requires
        pdu::valid_opcode(p.opcode),
    ensures
        emitted(final(out)@) == appended(emitted(old(out)@), sent_out(seq![port], p.bytes())),
{
    let mut tmp = [0u8;64];
    let ghost before = emitted(out@);
    proof {
        lemma_appended(before, Seq::empty(), Seq::empty());
    }
    if let Ok(n) = p.encode(&mut tmp) {
        if let Some(b) = BoundedVec::from_slice(&tmp[0..n]) {
            assert(b@ =~= p.bytes());
            let e = Emission { port, bytes: b };
            let _ = out.push(e);
            assert(emitted(out@) =~= appended(before, sent_out(seq![port], p.bytes())));
        }
    } else {
        assert(sent_out(seq![port], p.bytes()) =~= Seq::empty());
    }
}

/// Emits `p` out of every port of `ports`.
fn emit_all(out: &mut Emits, ports: &Vec<u8>, p: &Pdu)
    requires
        pdu::valid_opcode(p.opcode),
    ensures
        emitted(final(out)@) == appended(emitted(old(out)@), sent_out(ports@, p.bytes())),
{
    let ghost before = emitted(out@);
    let mut i: usize = 0;
    proof {
        lemma_appended(before, Seq::empty(), Seq::empty());
        assert(sent_out(ports@.take(0), p.bytes()) =~= Seq::empty());
    }
    while i < ports.len()
        invariant
            i <= ports@.len(),
            pdu::valid_opcode(p.opcode),
            emitted(out@) == appended(before, sent_out(ports@.take(i as int), p.bytes())),
        decreases ports@.len() - i,
    {
        emit(out, ports[i], p);
        proof {
            let so_far = sent_out(ports@.take(i as int), p.bytes());
            let one = sent_out(seq![ports@[i as int]], p.bytes());
            lemma_appended(before, so_far, one);
            assert(so_far + one =~= sent_out(ports@.take(i + 1), p.bytes()));
        }
        i += 1;
    }
    assert(ports@.take(i as int) =~= ports@);
}

/// An in-flight `PROBE_PORTS`: who to report to, and what the probe replies have shown of each
/// port.
struct Probe {
    reply_to: u8,
    n_ports: u8,
    /// Neighbour state and neighbour address, by port.
    states: [(u8, u8); 4],
}

/// A request that waits for the store.
enum Job {
    /// A read, to be answered.
    Answer { to: u8, key: Key },
    /// A write, to be acknowledged.
    Acknowledge { to: u8, key: Key },
    /// The read-back of a write that went well.
    Echo { to: u8, key: Key },
    /// A multiple write: `left` entries are still to be applied, from `off` on.
    Multi { to: u8, payload: PduBuf, off: usize, left: usize },
    /// An address, to be adopted once it is persisted.
    Adopt { to: u8, addr: u8 },
}

/// A probe in flight.
pub struct ProbeState {
    pub reply_to: u8,
    pub n_ports: u8,
    pub states: Seq<(u8, u8)>,
}

/// A request that waits for the store.
pub enum Waiting {
    Answer { to: u8, key: Key },
    Acknowledge { to: u8, key: Key },
    Echo { to: u8, key: Key },
    Multi { to: u8, payload: Seq<u8>, off: int, left: int },
    Adopt { to: u8, addr: u8 },
}

/// What is wanted of the store.
pub enum Wanted {
    Read { key: Key },
    Write { key: Key, type_tag: u8, value: Seq<u8> },
    WriteAddress { addr: u8 },
}

/// What the store answered.
pub enum Answered {
    Value { type_tag: u8, value: Seq<u8> },
    Done,
    Refused(StoreFault),
}

/// The state of a board.
pub struct Board {
    pub addr: u8,
    pub n_ports: u8,
    pub routes: Seq<u8>,
    pub port_kinds: Seq<u8>,
    pub fw_ver: u16,
    pub mcu: u8,
    pub guest_next: u8,
    pub armed: bool,
    pub probe: Option<ProbeState>,
    pub job: Option<Waiting>,
}

/// What a board does on an event.
pub struct Reaction {
    pub board: Board,
    pub emits: Seq<(u8, Seq<u8>)>,
    pub handed: Option<(u8, u8, Seq<u8>)>,
    pub store: Option<Wanted>,
}

impl StoreRequest {
    /// What is wanted.
    pub open spec fn wanted(self) -> Wanted {
        match self {
            StoreRequest::Read { key } => Wanted::Read { key },
            StoreRequest::Write { key, type_tag, value } => Wanted::Write {
                key,
                type_tag,
                value: value@,
            },
            StoreRequest::WriteAddress { addr } => Wanted::WriteAddress { addr },
        }
    }
}

impl StoreReply {
    /// What was answered.
    pub open spec fn answered(self) -> Answered {
        match self {
            StoreReply::Value { type_tag, value } => Answered::Value { type_tag, value: value@ },
            StoreReply::Done => Answered::Done,
            StoreReply::Refused(e) => Answered::Refused(e),
        }
    }
}

/// What an optional request wants.
pub open spec fn wanted_of(r: Option<StoreRequest>) -> Option<Wanted> {
    match r {
        Some(q) => Some(q.wanted()),
        None => None,
    }
}

/// The contents of an optional hand-back.
pub open spec fn handed_of(d: Option<DeliveredPdu>) -> Option<(u8, u8, Seq<u8>)> {
    match d {
        Some(p) => Some((p.opcode, p.src, p.payload@)),
        None => None,
    }
}

impl Board {
    /// Nothing happens.
    pub open spec fn idle(self) -> Reaction {
        Reaction { board: self, emits: Seq::empty(), handed: None, store: None }
    }

    /// A PDU from this board, under opcode `op`, with source `src`, goes to `dst` as the table has
    /// it.
    pub open spec fn originates(self, op: u8, src: u8, dst: u8, payload: Seq<u8>) -> Seq<
        (u8, Seq<u8>),
    > {
        sent_out(
            forward::route(self.addr, self.n_ports, self.routes, None, dst).1,
            pdu::pdu_bytes(op, src, dst, payload),
        )
    }

    /// A `CONFIG_RESP` goes to `to`.
    pub open spec fn responds(self, to: u8, payload: Seq<u8>) -> Reaction {
        Reaction {
            emits: self.originates(Opcode::ConfigResp.byte(), self.addr, to, payload),
            ..self.idle()
        }
    }

    /// The same, once the store has answered.
    pub open spec fn without_job(self) -> Board {
        Board { job: None, ..self }
    }

    /// The board waits for the store to do `want`.
    pub open spec fn asks(self, want: Wanted, job: Waiting) -> Reaction {
        Reaction { board: Board { job: Some(job), ..self }, store: Some(want), ..self.idle() }
    }

    /// An `ASSIGN_ACK` for `addr` goes to `to`.
    pub open spec fn acks(self, to: u8, addr: u8, status: u8) -> Reaction {
        Reaction {
            emits: self.originates(Opcode::AssignAck.byte(), addr, to, seq![addr, status]),
            ..self.idle()
        }
    }

    /// A `NODE_HELLO` from `src` on `ingress`. A one-byte payload asks for the identity of this
    /// board; a controller is granted a guest address with it. Any other is the answer to a probe
    /// of this board, if one is in flight.
    pub open spec fn hello(self, ingress: u8, src: u8, payload: Seq<u8>) -> Reaction {
        if payload.len() == 1 {
            let grant = payload[0] == KIND_CONTROLLER;
            let guest = if grant {
                self.guest_next
            } else {
                NO_ADDRESS
            };
            let identity = seq![
                self.addr,
                PROTO_VER,
                (self.fw_ver % 256) as u8,
                (self.fw_ver / 256) as u8,
                self.mcu,
                guest,
            ];
            Reaction {
                board: Board {
                    guest_next: if grant {
                        ((self.guest_next + 1) % 256) as u8
                    } else {
                        self.guest_next
                    },
                    ..self
                },
                emits: sent_out(
                    seq![ingress],
                    pdu::pdu_bytes(Opcode::NodeHello.byte(), self.addr, src, identity),
                ),
                handed: None,
                store: None,
            }
        } else if self.probe is Some && ingress < MAX_PORTS {
            let state = if payload[0] == NO_ADDRESS {
                NB_UNASSIGNED
            } else {
                NB_ASSIGNED
            };
            Reaction {
                board: Board {
                    probe: Some(
                        ProbeState {
                            states: self.probe->0.states.update(
                                ingress as int,
                                (state, payload[0]),
                            ),
                            ..self.probe->0
                        },
                    ),
                    ..self
                },
                ..self.idle()
            }
        } else {
            self.idle()
        }
    }

    /// A `PROBE_PORTS` from `src`: every neighbour is asked who it is, and a report is owed.
    pub open spec fn probes(self, src: u8) -> Reaction {
        Reaction {
            board: Board {
                probe: Some(
                    ProbeState {
                        reply_to: src,
                        n_ports: self.n_ports,
                        states: seq![(NB_EMPTY, 0u8), (NB_EMPTY, 0), (NB_EMPTY, 0), (NB_EMPTY, 0)],
                    },
                ),
                ..self
            },
            emits: sent_out(
                forward::flood_ports(self.n_ports as nat, None),
                pdu::pdu_bytes(
                    Opcode::NodeHello.byte(),
                    self.addr,
                    NO_ADDRESS,
                    seq![KIND_PROBE],
                ),
            ),
            handed: None,
            store: None,
        }
    }

    /// An `ASSIGN` from `src`: for this board, unless it is armed, the address is persisted; for a
    /// neighbour it is relayed to "the one peer" on the egress port.
    pub open spec fn assign(self, src: u8, payload: Seq<u8>) -> Reaction {
        if payload.len() < 2 {
            self.idle()
        } else if payload[0] != EGRESS_SELF {
            Reaction {
                emits: sent_out(
                    seq![payload[0]],
                    pdu::pdu_bytes(
                        Opcode::Assign.byte(),
                        src,
                        NO_ADDRESS,
                        seq![EGRESS_SELF, payload[1]],
                    ),
                ),
                ..self.idle()
            }
        } else if self.armed {
            self.acks(src, payload[1], STATUS_ERR)
        } else {
            self.asks(
                Wanted::WriteAddress { addr: payload[1] },
                Waiting::Adopt { to: src, addr: payload[1] },
            )
        }
    }

    /// The next entry of a multiple write is applied, or, where none is left or the rest is
    /// truncated, the write is acknowledged.
    pub open spec fn multi(self, to: u8, p: Seq<u8>, off: int, left: int) -> Reaction {
        if left == 0 {
            self.responds(to, seq![0u8, 0, CFG_OK, 0])
        } else if off + 4 > p.len() || off + 4 + p[off + 3] > p.len() {
            self.responds(to, seq![0u8, 0, CFG_BAD, 0])
        } else {
            let end = off + 4 + p[off + 3];
            self.asks(
                Wanted::Write {
                    key: Key { field_id: p[off], index: p[off + 1] },
                    type_tag: p[off + 2],
                    value: p.subrange(off + 4, end),
                },
                Waiting::Multi { to, payload: p, off: end, left: left - 1 },
            )
        }
    }

    /// A PDU has been delivered to this board.
    pub open spec fn local(self, ingress: u8, op: u8, src: u8, payload: Seq<u8>) -> Reaction {
        match pdu::opcode_of(op) {
            Some(Opcode::NodeHello) => self.hello(ingress, src, payload),
            Some(Opcode::ProbePorts) => self.probes(src),
            Some(Opcode::Assign) => self.assign(src, payload),
            Some(Opcode::ConfigRead) => if payload.len() < 2 {
                self.idle()
            } else {
                let key = Key { field_id: payload[0], index: payload[1] };
                self.asks(Wanted::Read { key }, Waiting::Answer { to: src, key })
            },
            Some(Opcode::ConfigWrite) => if payload.len() < 3 {
                self.idle()
            } else if self.armed {
                self.responds(src, seq![payload[0], payload[1], CFG_ARMED, 0])
            } else {
                let key = Key { field_id: payload[0], index: payload[1] };
                self.asks(
                    Wanted::Write { key, type_tag: payload[2], value: payload.skip(3) },
                    Waiting::Acknowledge { to: src, key },
                )
            },
            Some(Opcode::ConfigWriteMulti) => if payload.len() == 0 {
                self.idle()
            } else if self.armed {
                self.responds(src, seq![0u8, 0, CFG_ARMED, 0])
            } else {
                self.multi(src, payload, 1, payload[0] as int)
            },
            _ => Reaction { handed: Some((op, src, payload)), ..self.idle() },
        }
    }

    /// The payload of a `CONFIG_RESP` that carries a value. The value is left out where it does
    /// not fit.
    pub open spec fn value_resp(key: Key, type_tag: u8, value: Seq<u8>) -> Seq<u8> {
        let head = seq![key.field_id, key.index, CFG_OK, type_tag];
        if head.len() + value.len() <= MAX_PDU {
            head + value
        } else {
            head
        }
    }

    /// The store has answered.
    pub open spec fn answered(self, reply: Answered) -> Reaction {
        let b = self.without_job();
        match self.job {
            None => b.idle(),
            Some(Waiting::Answer { to, key }) => match reply {
                Answered::Value { type_tag, value } => b.responds(
                    to,
                    Board::value_resp(key, type_tag, value),
                ),
                Answered::Refused(e) => b.responds(
                    to,
                    seq![key.field_id, key.index, status_of(e), 0],
                ),
                Answered::Done => b.idle(),
            },
            Some(Waiting::Acknowledge { to, key }) => match reply {
                Answered::Refused(e) => b.responds(
                    to,
                    seq![key.field_id, key.index, status_of(e), 0],
                ),
                _ => b.asks(Wanted::Read { key }, Waiting::Echo { to, key }),
            },
            Some(Waiting::Echo { to, key }) => match reply {
                Answered::Value { type_tag, value } => b.responds(
                    to,
                    Board::value_resp(key, type_tag, value),
                ),
                _ => b.responds(to, seq![key.field_id, key.index, CFG_OK]),
            },
            Some(Waiting::Multi { to, payload, off, left }) => match reply {
                Answered::Refused(e) => b.responds(to, seq![0u8, 0, status_of(e), 0]),
                _ => b.multi(to, payload, off, left),
            },
            Some(Waiting::Adopt { to, addr }) => match reply {
                Answered::Refused(e) => b.acks(to, addr, STATUS_ERR),
                _ => (Board { addr, ..b }).acks(to, addr, STATUS_OK),
            },
        }
    }

    /// A frame has come in on `ingress`: its source is learned, it goes on where the table sends
    /// it, and what is for this board and fits is handled here.
    pub open spec fn ingests(self, ingress: u8, frame: Seq<u8>) -> Reaction {
        if frame.len() < 3 || !pdu::valid_opcode(frame[0]) {
            self.idle()
        } else {
            let b = Board { routes: forward::learned(self.routes, frame[1], ingress), ..self };
            let r = forward::route(b.addr, b.n_ports, b.routes, Some(ingress), frame[2]);
            let forwarded = sent_out(r.1, frame);
            let here = if r.0 && frame.len() <= MAX_PDU {
                b.local(ingress, frame[0], frame[1], frame.skip(3))
            } else {
                b.idle()
            };
            Reaction { emits: forwarded + here.emits, ..here }
        }
    }

    /// A reply to a probe of this board that does not say who sent it: a `NODE_HELLO` for this
    /// board with nothing in it. No node sends one.
    pub open spec fn nameless_reply(self, ingress: u8, frame: Seq<u8>) -> bool {
        &&& self.probe is Some
        &&& ingress < MAX_PORTS
        &&& frame.len() == 3
        &&& frame[0] == Opcode::NodeHello.byte()
        &&& forward::route(self.addr, self.n_ports, self.routes, Some(ingress), frame[2]).0
    }

    /// The report of a finished probe.
    pub open spec fn ports_payload(self) -> Seq<u8> {
        seq![self.probe->0.n_ports] + self.port_entries(self.probe->0.n_ports as int)
    }

    /// The entries of the first `n` ports: index, kind, neighbour state, neighbour address.
    pub open spec fn port_entries(self, n: int) -> Seq<u8>
        decreases n,
    {
        if n <= 0 {
            Seq::empty()
        } else {
            self.port_entries(n - 1) + seq![
                (n - 1) as u8,
                self.port_kinds[n - 1],
                self.probe->0.states[n - 1].0,
                self.probe->0.states[n - 1].1,
            ]
        }
    }

    /// The sizes are what they have to be.
    pub open spec fn wf(self) -> bool {
        &&& self.n_ports <= MAX_PORTS
        &&& self.routes.len() == 256
        &&& self.port_kinds.len() == MAX_PORTS
        &&& self.probe is Some ==> self.probe->0.n_ports <= MAX_PORTS && self.probe->0.states.len()
            == MAX_PORTS
        &&& self.job matches Some(Waiting::Multi { payload, off, .. }) ==> 0 <= off
            <= payload.len() <= MAX_PDU
    }
}

/// The reply answers what the board waits for: a read gives a value, a write is done, and either
/// can be refused.
pub open spec fn reply_fits(job: Waiting, reply: Answered) -> bool {
    match reply {
        Answered::Refused(_) => true,
        Answered::Value { .. } => job is Answer || job is Echo,
        Answered::Done => !(job is Answer || job is Echo),
    }
}

impl Job {
    spec fn waiting(self) -> Waiting {
        match self {
            Job::Answer { to, key } => Waiting::Answer { to, key },
            Job::Acknowledge { to, key } => Waiting::Acknowledge { to, key },
            Job::Echo { to, key } => Waiting::Echo { to, key },
            Job::Multi { to, payload, off, left } => Waiting::Multi {
                to,
                payload: payload@,
                off: off as int,
                left: left as int,
            },
            Job::Adopt { to, addr } => Waiting::Adopt { to, addr },
        }
    }
}

/// The board side of the walk. Wraps a [`Forwarder`], so that learning and forwarding happen on
/// the same path.
pub struct Responder {
    fwd: Forwarder,
    port_kinds: [u8; 4],
    fw_ver: u16,
    mcu: u8,
    guest_next: u8,
    armed: bool,
    probe: Option<Probe>,
    job: Option<Job>,
}

impl View for Responder {
    type V = Board;

    closed spec fn view(&self) -> Board {
        Board {
            addr: self.fwd.address(),
            n_ports: self.fwd.port_count(),
            routes: self.fwd.routes(),
            port_kinds: self.port_kinds@,
            fw_ver: self.fw_ver,
            mcu: self.mcu,
            guest_next: self.guest_next,
            armed: self.armed,
            probe: match self.probe {
                Some(p) => Some(
                    ProbeState { reply_to: p.reply_to, n_ports: p.n_ports, states: p.states@ },
                ),
                None => None,
            },
            job: match self.job {
                Some(j) => Some(j.waiting()),
                None => None,
            },
        }
    }
}

impl Responder {
    /// A fresh board without an address, with `n_ports` ports of the given kinds.
    pub fn new(n_ports: u8, port_kinds: [u8; 4], mcu: u8, fw_ver: u16) -> (r: Self)
        requires
            n_ports <= MAX_PORTS,
        ensures
            r@ == (Board {
                addr: NO_ADDRESS,
                n_ports,
                routes: forward::blank(),
                port_kinds: port_kinds@,
                fw_ver,
                mcu,
                guest_next: 0x80,
                armed: false,
                probe: None,
                job: None,
            }),
            r@.wf(),
    {
        Responder {
            fwd: Forwarder::new(NO_ADDRESS, n_ports),
            port_kinds,
            fw_ver,
            mcu,
            guest_next: 0x80,
            armed: false,
            probe: None,
            job: None,
        }
    }

    /// The current address of this board (`0x00` until assigned).
    pub fn addr(&self) -> (a: u8)
        ensures
            a == self@.addr,
    {
        self.fwd.addr()
    }

    /// The forwarder.
    pub fn forwarder(&self) -> (f: &Forwarder)
        ensures
            f.address() == self@.addr,
            f.port_count() == self@.n_ports,
            f.routes() == self@.routes,
    {
        &self.fwd
    }

    /// Whether the board is armed.
    pub fn armed(&self) -> (b: bool)
        ensures
            b == self@.armed,
    {
        self.armed
    }

    /// Arms or disarms the board. An armed board persists nothing.
    pub fn set_armed(&mut self, armed: bool)
        ensures
            final(self)@ == (Board { armed, ..old(self)@ }),
    {
        self.armed = armed;
    }

    /// Is a `PROBE_PORTS` in flight?
    pub fn probing(&self) -> (b: bool)
        ensures
            b == self@.probe is Some,
    {
        self.probe.is_some()
    }

    /// Is a request waiting for the store?
    pub fn waiting(&self) -> (b: bool)
        ensures
            b == self@.job is Some,
    {
        self.job.is_some()
    }

    /// Takes on the persisted address, where one could be read.
    pub fn restore_addr(&mut self, persisted: Option<u8>)
        ensures
            final(self)@ == (Board {
                addr: match persisted {
                    Some(a) => a,
                    None => old(self)@.addr,
                },
                ..old(self)@
            }),
    {
        if let Some(a) = persisted {
            self.fwd.set_addr(a);
        }
    }

    /// A reboot: the routes are forgotten, the address is read again.
    pub fn reboot(&mut self, persisted: Option<u8>)
        ensures
            final(self)@ == (Board {
                addr: match persisted {
                    Some(a) => a,
                    None => old(self)@.addr,
                },
                routes: forward::blank(),
                ..old(self)@
            }),
    {
        self.fwd.clear_routes();
        self.restore_addr(persisted);
    }

    /// Sends a frame from this board under any valid opcode, as the table has it.
    pub fn originate(&self, opcode: u8, dst: u8, payload: &[u8], out: &mut Emits)
        ensures
            emitted(final(out)@) == (if pdu::valid_opcode(opcode) {
                appended(
                    emitted(old(out)@),
                    self@.originates(opcode, self@.addr, dst, payload@),
                )
            } else {
                emitted(old(out)@)
            }),
    {
        if let Ok(p) = Pdu::new(opcode, self.addr(), dst, payload) {
            emit_all(out, &self.fwd.originate(&p), &p);
        }
    }

    /// Sends a PDU under a known opcode, as the table has it.
    fn send(&self, op: Opcode, src: u8, dst: u8, payload: &[u8], out: &mut Emits)
        ensures
            emitted(final(out)@) == appended(
                emitted(old(out)@),
                self@.originates(op.byte(), src, dst, payload@),
            ),
    {
        let p = Pdu::from_op(op, src, dst, payload);
        emit_all(out, &self.fwd.originate(&p), &p);
    }

    /// Sends a `CONFIG_RESP` to `dst`.
    fn reply_config(&self, dst: u8, payload: &[u8], out: &mut Emits)
        ensures
            emitted(final(out)@) == appended(
                emitted(old(out)@),
                self@.responds(dst, payload@).emits,
            ),
    {
        self.send(Opcode::ConfigResp, self.addr(), dst, payload, out);
    }

    /// Takes one received frame: learns, forwards, and handles what is for this node. Emissions
    /// are appended to `out`.
    pub fn ingest(&mut self, ingress: u8, frame: &[u8], out: &mut Emits) -> (r: Ingested)
        requires
            old(self)@.wf(),
            old(self)@.job is None,
            !old(self)@.nameless_reply(ingress, frame@),
        ensures
            ({
                let want = old(self)@.ingests(ingress, frame@);
                &&& final(self)@ == want.board
                &&& emitted(final(out)@) == appended(emitted(old(out)@), want.emits)
                &&& handed_of(r.handed) == want.handed
                &&& wanted_of(r.store) == want.store
            }),
            final(self)@.wf(),
    {
        let ghost before = emitted(out@);
        proof {
            lemma_appended(before, Seq::empty(), Seq::empty());
        }
        let p = match Pdu::decode(frame) {
            Ok(p) => p,
            Err(e) => {
                return Ingested { handed: None, store: None };
            },
        };
        let routed = self.fwd.ingest(ingress, &p);
        assert(p.bytes() =~= frame@);
        emit_all(out, &routed.ports, &p);
        let ghost forwarded = sent_out(routed.ports@, frame@);
        let ghost mid = self@;
        if routed.deliver && frame.len() <= MAX_PDU {
            let r = self.handle_local(ingress, &p, out);
            proof {
                lemma_appended(
                    before,
                    forwarded,
                    mid.local(ingress, frame@[0], frame@[1], frame@.skip(3)).emits,
                );
            }
            return r;
        }
        assert(forwarded + Seq::<(u8, Seq<u8>)>::empty() =~= forwarded);
        Ingested { handed: None, store: None }
    }

    /// Handles a PDU that is for this node.
    fn handle_local(&mut self, ingress: u8, p: &Pdu, out: &mut Emits) -> (r: Ingested)
        requires
            old(self)@.wf(),
            old(self)@.job is None,
            p.payload@.len() + 3 <= MAX_PDU,
            !(old(self)@.probe is Some && ingress < MAX_PORTS && p.payload@.len() == 0 && p.opcode
                == Opcode::NodeHello.byte()),
        ensures
            ({
                let want = old(self)@.local(ingress, p.opcode, p.src, p.payload@);
                &&& final(self)@ == want.board
                &&& emitted(final(out)@) == appended(emitted(old(out)@), want.emits)
                &&& handed_of(r.handed) == want.handed
                &&& wanted_of(r.store) == want.store
            }),
            final(self)@.wf(),
    {
        proof {
            lemma_appended(emitted(out@), Seq::empty(), Seq::empty());
        }
        match Opcode::from_u8(p.opcode) {
            Some(Opcode::NodeHello) => {
                self.on_hello(ingress, p, out);
                Ingested { handed: None, store: None }
            },
            Some(Opcode::ProbePorts) => {
                self.on_probe_ports(p, out);
                Ingested { handed: None, store: None }
            },
            Some(Opcode::Assign) => Ingested { handed: None, store: self.on_assign(p, out) },
            Some(Opcode::ConfigRead) => Ingested { handed: None, store: self.on_config_read(p) },
            Some(Opcode::ConfigWrite) => Ingested {
                handed: None,
                store: self.on_config_write(p, out),
            },
            Some(Opcode::ConfigWriteMulti) => Ingested {
                handed: None,
                store: self.on_config_write_multi(p, out),
            },
            _ => {
                let payload = BoundedVec::from_slice(p.payload);
                match payload {
                    Some(payload) => Ingested {
                        handed: Some(DeliveredPdu { opcode: p.opcode, src: p.src, payload }),
                        store: None,
                    },
                    None => Ingested { handed: None, store: None },
                }
            },
        }
    }

    fn on_hello(&mut self, ingress: u8, p: &Pdu, out: &mut Emits)
        requires
            old(self)@.wf(),
            !(old(self)@.probe is Some && ingress < MAX_PORTS && p.payload@.len() == 0),
        ensures
            final(self)@ == old(self)@.hello(ingress, p.src, p.payload@).board,
            emitted(final(out)@) == appended(
                emitted(old(out)@),
                old(self)@.hello(ingress, p.src, p.payload@).emits,
            ),
            final(self)@.wf(),
    {
        proof {
            lemma_appended(emitted(out@), Seq::empty(), Seq::empty());
        }
        if p.payload.len() == 1 {
            let guest: u8 = if p.payload[0] == KIND_CONTROLLER {
                let g: u8 = self.guest_next;
                self.guest_next = self.guest_next.wrapping_add(1);
                g
            } else {
                NO_ADDRESS
            };
            let node_id: u8 = self.addr();
            let reply = [
                node_id,
                PROTO_VER,
                bytes::lo(self.fw_ver),
                bytes::hi(self.fw_ver),
                self.mcu,
                guest,
            ];
            let r = Pdu::from_op(Opcode::NodeHello, node_id, p.src, reply.as_slice());
            assert(reply@ =~= seq![
                node_id,
                PROTO_VER,
                (self.fw_ver % 256) as u8,
                (self.fw_ver / 256) as u8,
                self.mcu,
                guest,
            ]);
            emit(out, ingress, &r);
        } else if let Some(probe) = self.probe.as_mut() {
            if (ingress as usize) < MAX_PORTS {
                let node_id: u8 = p.payload[0];
                let state: u8 = if node_id == NO_ADDRESS {
                    NB_UNASSIGNED
                } else {
                    NB_ASSIGNED
                };
                probe.states[ingress as usize] = (state, node_id);
            }
        }
    }

    fn on_probe_ports(&mut self, p: &Pdu, out: &mut Emits)
        requires
            old(self)@.wf(),
        ensures
            final(self)@ == old(self)@.probes(p.src).board,
            emitted(final(out)@) == appended(
                emitted(old(out)@),
                old(self)@.probes(p.src).emits,
            ),
            final(self)@.wf(),
    {
        let n: u8 = self.fwd.n_ports();
        let states = [(NB_EMPTY, 0u8), (NB_EMPTY, 0u8), (NB_EMPTY, 0u8), (NB_EMPTY, 0u8)];
        assert(states@ =~= seq![(NB_EMPTY, 0u8), (NB_EMPTY, 0), (NB_EMPTY, 0), (NB_EMPTY, 0)]);
        self.probe = Some(Probe { reply_to: p.src, n_ports: n, states });
        let req = [KIND_PROBE];
        let r = Pdu::from_op(Opcode::NodeHello, self.addr(), NO_ADDRESS, req.as_slice());
        assert(req@ =~= seq![KIND_PROBE]);
        let ghost before = emitted(out@);
        let mut i: u8 = 0;
        proof {
            lemma_appended(before, Seq::empty(), Seq::empty());
            assert(sent_out(forward::flood_ports(0, None), r.bytes()) =~= Seq::empty());
        }
        while i < n
            invariant
                i <= n,
                pdu::valid_opcode(r.opcode),
                emitted(out@) == appended(
                    before,
                    sent_out(forward::flood_ports(i as nat, None), r.bytes()),
                ),
            decreases n - i,
        {
            emit(out, i, &r);
            proof {
                let so_far = sent_out(forward::flood_ports(i as nat, None), r.bytes());
                let one = sent_out(seq![i], r.bytes());
                lemma_appended(before, so_far, one);
                assert(so_far + one =~= sent_out(
                    forward::flood_ports((i + 1) as nat, None),
                    r.bytes(),
                ));
            }
            i += 1;
        }
    }

    fn on_assign(&mut self, p: &Pdu, out: &mut Emits) -> (store: Option<StoreRequest>)
        requires
            old(self)@.wf(),
            old(self)@.job is None,
        ensures
            final(self)@ == old(self)@.assign(p.src, p.payload@).board,
            emitted(final(out)@) == appended(
                emitted(old(out)@),
                old(self)@.assign(p.src, p.payload@).emits,
            ),
            wanted_of(store) == old(self)@.assign(p.src, p.payload@).store,
            final(self)@.wf(),
    {
        proof {
            lemma_appended(emitted(out@), Seq::empty(), Seq::empty());
        }
        if p.payload.len() < 2 {
            return None;
        }
        let egress: u8 = p.payload[0];
        let new_addr: u8 = p.payload[1];
        if egress != EGRESS_SELF {
            // A relay: the neighbour takes the address as its own, and its answer goes back to
            // the source, which is kept.
            let fwd_payload = [EGRESS_SELF, new_addr];
            let r = Pdu::from_op(Opcode::Assign, p.src, NO_ADDRESS, fwd_payload.as_slice());
            assert(fwd_payload@ =~= seq![EGRESS_SELF, new_addr]);
            emit(out, egress, &r);
            return None;
        }
        if self.armed {
            self.ack_assign(p.src, new_addr, STATUS_ERR, out);
            return None;
        }
        self.job = Some(Job::Adopt { to: p.src, addr: new_addr });
        Some(StoreRequest::WriteAddress { addr: new_addr })
    }

    /// Sends an `ASSIGN_ACK`.
    fn ack_assign(&self, to: u8, addr: u8, status: u8, out: &mut Emits)
        ensures
            emitted(final(out)@) == appended(
                emitted(old(out)@),
                self@.acks(to, addr, status).emits,
            ),
    {
        let ack = [addr, status];
        assert(ack@ =~= seq![addr, status]);
        self.send(Opcode::AssignAck, addr, to, ack.as_slice(), out);
    }

    fn on_config_read(&mut self, p: &Pdu) -> (store: Option<StoreRequest>)
        requires
            old(self)@.wf(),
            old(self)@.job is None,
            p.opcode == Opcode::ConfigRead.byte(),
        ensures
            final(self)@ == old(self)@.local(0, p.opcode, p.src, p.payload@).board,
            wanted_of(store) == old(self)@.local(0, p.opcode, p.src, p.payload@).store,
            final(self)@.wf(),
    {
        if p.payload.len() < 2 {
            return None;
        }
        let key = Key { field_id: p.payload[0], index: p.payload[1] };
        self.job = Some(Job::Answer { to: p.src, key });
        Some(StoreRequest::Read { key })
    }

    fn on_config_write(&mut self, p: &Pdu, out: &mut Emits) -> (store: Option<StoreRequest>)
        requires
            old(self)@.wf(),
            old(self)@.job is None,
            p.opcode == Opcode::ConfigWrite.byte(),
            p.payload@.len() + 3 <= MAX_PDU,
        ensures
            final(self)@ == old(self)@.local(0, p.opcode, p.src, p.payload@).board,
            emitted(final(out)@) == appended(
                emitted(old(out)@),
                old(self)@.local(0, p.opcode, p.src, p.payload@).emits,
            ),
            wanted_of(store) == old(self)@.local(0, p.opcode, p.src, p.payload@).store,
            final(self)@.wf(),
    {
        proof {
            lemma_appended(emitted(out@), Seq::empty(), Seq::empty());
        }
        if p.payload.len() < 3 {
            return None;
        }
        let key = Key { field_id: p.payload[0], index: p.payload[1] };
        if self.armed {
            let resp = [key.field_id, key.index, CFG_ARMED, 0u8];
            assert(resp@ =~= seq![key.field_id, key.index, CFG_ARMED, 0]);
            self.reply_config(p.src, resp.as_slice(), out);
            return None;
        }
        let n: usize = p.payload.len();
        let mut value: PduBuf = BoundedVec::new();
        let _ = value.extend_from_slice(&p.payload[3..n]);
        assert(value@ =~= p.payload@.skip(3));
        self.job = Some(Job::Acknowledge { to: p.src, key });
        Some(StoreRequest::Write { key, type_tag: p.payload[2], value })
    }

    fn on_config_write_multi(&mut self, p: &Pdu, out: &mut Emits) -> (store: Option<StoreRequest>)
        requires
            old(self)@.wf(),
            old(self)@.job is None,
            p.opcode == Opcode::ConfigWriteMulti.byte(),
            p.payload@.len() + 3 <= MAX_PDU,
        ensures
            final(self)@ == old(self)@.local(0, p.opcode, p.src, p.payload@).board,
            emitted(final(out)@) == appended(
                emitted(old(out)@),
                old(self)@.local(0, p.opcode, p.src, p.payload@).emits,
            ),
            wanted_of(store) == old(self)@.local(0, p.opcode, p.src, p.payload@).store,
            final(self)@.wf(),
    {
        proof {
            lemma_appended(emitted(out@), Seq::empty(), Seq::empty());
        }
        if p.payload.len() == 0 {
            return None;
        }
        if self.armed {
            self.ack_multi(p.src, CFG_ARMED, out);
            return None;
        }
        let mut payload: PduBuf = BoundedVec::new();
        let _ = payload.extend_from_slice(p.payload);
        assert(payload@ =~= p.payload@);
        self.next_entry(p.src, payload, 1, p.payload[0] as usize, out)
    }

    /// Acknowledges a multiple write.
    fn ack_multi(&self, to: u8, status: u8, out: &mut Emits)
        ensures
            emitted(final(out)@) == appended(
                emitted(old(out)@),
                self@.responds(to, seq![0u8, 0, status, 0]).emits,
            ),
    {
        let resp = [0u8, 0, status, 0];
        assert(resp@ =~= seq![0u8, 0, status, 0]);
        self.reply_config(to, resp.as_slice(), out);
    }

    /// Goes on with a multiple write.
    fn next_entry(
        &mut self,
        to: u8,
        payload: PduBuf,
        off: usize,
        left: usize,
        out: &mut Emits,
    ) -> (store: Option<StoreRequest>)
        requires
            old(self)@.wf(),
            old(self)@.job is None,
            off <= payload@.len() <= MAX_PDU,
        ensures
            final(self)@ == old(self)@.multi(to, payload@, off as int, left as int).board,
            emitted(final(out)@) == appended(
                emitted(old(out)@),
                old(self)@.multi(to, payload@, off as int, left as int).emits,
            ),
            wanted_of(store) == old(self)@.multi(to, payload@, off as int, left as int).store,
            final(self)@.wf(),
    {
        proof {
            lemma_appended(emitted(out@), Seq::empty(), Seq::empty());
        }
        if left == 0 {
            self.ack_multi(to, CFG_OK, out);
            return None;
        }
        let p = payload.as_slice();
        if off + 4 > p.len() {
            self.ack_multi(to, CFG_BAD, out);
            return None;
        }
        let vlen: usize = p[off + 3] as usize;
        if off + 4 + vlen > p.len() {
            self.ack_multi(to, CFG_BAD, out);
            return None;
        }
        let key = Key { field_id: p[off], index: p[off + 1] };
        let type_tag: u8 = p[off + 2];
        let end: usize = off + 4 + vlen;
        let mut value: PduBuf = BoundedVec::new();
        let _ = value.extend_from_slice(&p[off + 4..end]);
        assert(value@ =~= p@.subrange(off + 4, end as int));
        self.job = Some(Job::Multi { to, payload, off: end, left: left - 1 });
        Some(StoreRequest::Write { key, type_tag, value })
    }

    /// Takes the answer of the store and goes on with the request that waited for it. Returns what
    /// the store is to do next, if anything.
    pub fn on_store(&mut self, reply: StoreReply, out: &mut Emits) -> (store: Option<StoreRequest>)
        requires
            old(self)@.wf(),
            old(self)@.job is Some,
            reply_fits(old(self)@.job->0, reply.answered()),
        ensures
            ({
                let want = old(self)@.answered(reply.answered());
                &&& final(self)@ == want.board
                &&& emitted(final(out)@) == appended(emitted(old(out)@), want.emits)
                &&& wanted_of(store) == want.store
            }),
            final(self)@.wf(),
    {
        proof {
            lemma_appended(emitted(out@), Seq::empty(), Seq::empty());
        }
        let job = match self.job.take() {
            Some(j) => j,
            None => {
                return None;
            },
        };
        assert(self@ == old(self)@.without_job());
        match job {
            Job::Answer { to, key } => {
                match reply {
                    StoreReply::Value { type_tag, value } => self.reply_value(
                        to,
                        key,
                        type_tag,
                        &value,
                        out,
                    ),
                    StoreReply::Refused(e) => self.reply_fault(to, key, e, out),
                    StoreReply::Done => {},
                }
                None
            },
            Job::Acknowledge { to, key } => {
                match reply {
                    StoreReply::Refused(e) => {
                        self.reply_fault(to, key, e, out);
                        None
                    },
                    _ => {
                        self.job = Some(Job::Echo { to, key });
                        Some(StoreRequest::Read { key })
                    },
                }
            },
            Job::Echo { to, key } => {
                match reply {
                    StoreReply::Value { type_tag, value } => self.reply_value(
                        to,
                        key,
                        type_tag,
                        &value,
                        out,
                    ),
                    _ => {
                        let resp = [key.field_id, key.index, CFG_OK];
                        assert(resp@ =~= seq![key.field_id, key.index, CFG_OK]);
                        self.reply_config(to, resp.as_slice(), out);
                    },
                }
                None
            },
            Job::Multi { to, payload, off, left } => {
                match reply {
                    StoreReply::Refused(e) => {
                        self.ack_multi(to, cfg_status(e), out);
                        None
                    },
                    _ => self.next_entry(to, payload, off, left, out),
                }
            },
            Job::Adopt { to, addr } => {
                match reply {
                    StoreReply::Refused(e) => self.ack_assign(to, addr, STATUS_ERR, out),
                    _ => {
                        self.fwd.set_addr(addr);
                        self.ack_assign(to, addr, STATUS_OK, out);
                    },
                }
                None
            },
        }
    }

    /// Answers with a value.
    fn reply_value(&self, to: u8, key: Key, type_tag: u8, value: &PduBuf, out: &mut Emits)
        ensures
            emitted(final(out)@) == appended(
                emitted(old(out)@),
                self@.responds(to, Board::value_resp(key, type_tag, value@)).emits,
            ),
    {
        let mut resp: PduBuf = BoundedVec::new();
        let _ = resp.push(key.field_id);
        let _ = resp.push(key.index);
        let _ = resp.push(CFG_OK);
        let _ = resp.push(type_tag);
        let _ = resp.extend_from_slice(value.as_slice());
        assert(resp@ =~= Board::value_resp(key, type_tag, value@));
        self.reply_config(to, resp.as_slice(), out);
    }

    /// Answers with a status.
    fn reply_fault(&self, to: u8, key: Key, e: StoreFault, out: &mut Emits)
        ensures
            emitted(final(out)@) == appended(
                emitted(old(out)@),
                self@.responds(to, seq![key.field_id, key.index, status_of(e), 0]).emits,
            ),
    {
        let resp = [key.field_id, key.index, cfg_status(e), 0u8];
        assert(resp@ =~= seq![key.field_id, key.index, status_of(e), 0]);
        self.reply_config(to, resp.as_slice(), out);
    }

    /// Finishes the probe in flight, if any: reports what each port has shown.
    pub fn poll_probe(&mut self, out: &mut Emits)
        requires
            old(self)@.wf(),
        ensures
            final(self)@ == (Board { probe: None, ..old(self)@ }),
            final(self)@.wf(),
            emitted(final(out)@) == (if old(self)@.probe is Some {
                appended(
                    emitted(old(out)@),
                    old(self)@.originates(
                        Opcode::Ports.byte(),
                        old(self)@.addr,
                        old(self)@.probe->0.reply_to,
                        old(self)@.ports_payload(),
                    ),
                )
            } else {
                emitted(old(out)@)
            }),
    {
        let ghost board = self@;
        let probe = match self.probe.take() {
            Some(p) => p,
            None => {
                return;
            },
        };
        let mut payload: PduBuf = BoundedVec::new();
        let _ = payload.push(probe.n_ports);
        let mut i: u8 = 0;
        assert(payload@ =~= seq![probe.n_ports] + board.port_entries(0));
        while i < probe.n_ports
            invariant
                board.wf(),
                board.probe == Some(
                    ProbeState {
                        reply_to: probe.reply_to,
                        n_ports: probe.n_ports,
                        states: probe.states@,
                    },
                ),
                board.port_kinds == self.port_kinds@,
                self@ == (Board { probe: None, ..board }),
                i <= probe.n_ports,
                payload@ == seq![probe.n_ports] + board.port_entries(i as int),
                payload@.len() == 1 + 4 * i,
            decreases probe.n_ports - i,
        {
            let (state, addr) = probe.states[i as usize];
            let _ = payload.push(i);
            let _ = payload.push(self.port_kinds[i as usize]);
            let _ = payload.push(state);
            let _ = payload.push(addr);
            assert(payload@ =~= seq![probe.n_ports] + board.port_entries(i + 1));
            i += 1;
        }
        self.send(Opcode::Ports, self.addr(), probe.reply_to, payload.as_slice(), out);
    }
}

/// An armed board persists nothing: no frame makes it ask the store for a write.
pub proof fn lemma_armed_persists_nothing(b: Board, ingress: u8, frame: Seq<u8>)
    requires
        b.armed,
    ensures
        b.ingests(ingress, frame).store matches Some(w) ==> w is Read,
{
}

/// Reading is the same armed or not: what the board asks of the store, and what it answers.
pub proof fn lemma_reads_unaffected_by_arming(b: Board, ingress: u8, frame: Seq<u8>, reply: Answered)
    requires
        b.job is None,
        frame.len() >= 3,
        frame[0] == Opcode::ConfigRead.byte(),
    ensures
        ({
            let armed = Board { armed: true, ..b };
            let unarmed = Board { armed: false, ..b };
            &&& armed.ingests(ingress, frame).store == unarmed.ingests(ingress, frame).store
            &&& armed.ingests(ingress, frame).emits == unarmed.ingests(ingress, frame).emits
            &&& armed.ingests(ingress, frame).board.answered(reply).emits == unarmed.ingests(
                ingress,
                frame,
            ).board.answered(reply).emits
        }),
{
}

/// Relaying an assignment to a neighbour is not gated by arming, and needs no store.
pub proof fn lemma_relay_ungated(b: Board, src: u8, payload: Seq<u8>)
    requires
        payload.len() >= 2,
        payload[0] != EGRESS_SELF,
    ensures
        b.assign(src, payload).store is None,
        (Board { armed: true, ..b }).assign(src, payload).emits == (Board {
            armed: false,
            ..b
        }).assign(src, payload).emits,
{
}

/// An armed board refuses an assignment whole: it keeps its address, asks nothing of the store,
/// and acknowledges with an error.
pub proof fn lemma_armed_refuses_assign(b: Board, src: u8, addr: u8)
    requires
        b.armed,
    ensures
        b.assign(src, seq![EGRESS_SELF, addr]) == b.acks(src, addr, STATUS_ERR),
        b.acks(src, addr, STATUS_ERR).board == b,
        b.acks(src, addr, STATUS_ERR).store is None,
{
}

/// Assigning is idempotent: once an assignment has been persisted, the same assignment again asks
/// for the same address to be persisted, and leaves the board as it is.
pub proof fn lemma_assign_idempotent(b: Board, src: u8, addr: u8)
    requires
        !b.armed,
        b.job is None,
    ensures
        ({
            let payload = seq![EGRESS_SELF, addr];
            let once = b.assign(src, payload).board.answered(Answered::Done).board;
            let twice = once.assign(src, payload);
            &&& once.addr == addr
            &&& twice.store == Some(Wanted::WriteAddress { addr })
            &&& twice.board.answered(Answered::Done).board == once
            &&& twice.board.answered(Answered::Done).emits == once.acks(src, addr, STATUS_OK).emits
        }),
{
}

/// A write that the store has persisted is read back, and the reply carries what was read.
pub proof fn lemma_write_echoes(b: Board, to: u8, key: Key, type_tag: u8, value: Seq<u8>)
    ensures
        ({
            let writing = Board { job: Some(Waiting::Acknowledge { to, key }), ..b };
            let written = writing.answered(Answered::Done);
            &&& written.store == Some(Wanted::Read { key })
            &&& written.emits.len() == 0
            &&& written.board.answered(Answered::Value { type_tag, value }).emits
                == b.without_job().responds(to, Board::value_resp(key, type_tag, value)).emits
        }),
{
}

/// A reboot forgets every route and keeps everything that is persisted: afterwards a frame for
/// any board but this one is flooded.
pub proof fn lemma_reboot_floods(b: Board, dst: u8)
    requires
        b.routes == forward::blank(),
        dst != b.addr || b.addr == NO_ADDRESS,
    ensures
        forward::route(b.addr, b.n_ports, b.routes, None, dst).1 == forward::flood_ports(
            b.n_ports as nat,
            None,
        ),
{
}

/// The number that stands in a reply for each way the store can fail.
pub proof fn lemma_fault_numbers()
    ensures
        status_of(StoreFault::Bad) == 1,
        status_of(StoreFault::UnknownKey) == 2,
        status_of(StoreFault::TypeMismatch) == 3,
        status_of(StoreFault::Store) == 4,
{
}

/// What does not fit is dropped from the end: earlier emissions stay, later ones follow in order
/// while there is room.
pub proof fn lemma_room(a: Seq<(u8, Seq<u8>)>, b: Seq<(u8, Seq<u8>)>, i: int)
    requires
        a.len() <= 6,
    ensures
        appended(a, b).len() == vstd::math::min(6, (a.len() + b.len()) as int),
        0 <= i < a.len() ==> appended(a, b)[i] == a[i],
        a.len() <= i < 6 && i < a.len() + b.len() ==> appended(a, b)[i] == b[i - a.len()],
{
}

/// Who a board says it is: asked with one byte, it answers on the port that it was asked on with
/// its address, the protocol version, its firmware version (low byte first), its controller chip,
/// and a guest address, which is none unless a controller asked. Nothing else of the board changes.
pub proof fn lemma_identity_is_told(b: Board, ingress: u8, src: u8, kind: u8)
    ensures
        ({
            let r = b.hello(ingress, src, seq![kind]);
            let w = r.emits[0].1;
            &&& r.emits.len() == 1 && r.emits[0].0 == ingress
            &&& w.len() == 9
            &&& w[0] == 1 && w[1] == b.addr && w[2] == src
            &&& w[3] == b.addr && w[4] == 1
            &&& w[5] + 256 * w[6] == b.fw_ver
            &&& w[7] == b.mcu
            &&& w[8] == if kind == 1 { b.guest_next } else { 0 }
            &&& kind != 1 ==> r.board == b
            &&& kind == 1 ==> r.board.guest_next as int == (b.guest_next + 1) % 256
            &&& (Board { guest_next: b.guest_next, ..r.board }) == b
            &&& r.handed is None && r.store is None
        }),
{
}

/// Two controllers that make contact one after the other are granted different addresses.
pub proof fn lemma_guests_differ(b: Board, in_a: u8, src_a: u8, in_b: u8, src_b: u8)
    ensures
        ({
            let first = b.hello(in_a, src_a, seq![KIND_CONTROLLER]);
            let second = first.board.hello(in_b, src_b, seq![KIND_CONTROLLER]);
            first.emits[0].1[8] != second.emits[0].1[8]
        }),
{
}

/// A probe asks every neighbour who it is, once each, and starts from ports that have shown
/// nothing; whoever asked for it is owed the report.
pub proof fn lemma_probe_asks_everyone(b: Board, src: u8, p: u8)
    requires
        b.wf(),
    ensures
        ({
            let r = b.probes(src);
            &&& r.emits.len() == b.n_ports
            &&& p < b.n_ports ==> r.emits[p as int] == (p, seq![1u8, b.addr, 0, 2])
            &&& r.board.probe is Some
            &&& r.board.probe->0.reply_to == src
            &&& r.board.probe->0.n_ports == b.n_ports
            &&& p < 4 ==> r.board.probe->0.states[p as int] == (NB_EMPTY, 0u8)
            &&& (Board { probe: b.probe, ..r.board }) == b
            &&& r.handed is None && r.store is None
        }),
{
    lemma_all_ports(b.n_ports as nat);
    let w = pdu::pdu_bytes(Opcode::NodeHello.byte(), b.addr, NO_ADDRESS, seq![KIND_PROBE]);
    assert(w =~= seq![1u8, b.addr, 0, 2]);
}

proof fn lemma_all_ports(n: nat)
    requires
        n <= 256,
    ensures
        forward::flood_ports(n, None).len() == n,
        forall|i: int| 0 <= i < n ==> forward::flood_ports(n, None)[i] == i,
    decreases n,
{
    if n > 0 {
        lemma_all_ports((n - 1) as nat);
    }
}

/// The answer of a neighbour is noted under the port that it came in on, and under no other: a
/// board without an address, or one with, and the address that it gave. Nothing is sent.
pub proof fn lemma_probe_answer_is_noted(b: Board, ingress: u8, src: u8, payload: Seq<u8>, p: int)
    requires
        b.wf(),
        b.probe is Some,
        ingress < 4,
        payload.len() > 1,
        0 <= p < 4,
    ensures
        ({
            let r = b.hello(ingress, src, payload);
            let now = r.board.probe->0;
            &&& r.board.probe is Some
            &&& now.states[ingress as int].0 == if payload[0] == 0 { 1u8 } else { 2 }
            &&& now.states[ingress as int].1 == payload[0]
            &&& p != ingress ==> now.states[p] == b.probe->0.states[p]
            &&& now.reply_to == b.probe->0.reply_to && now.n_ports == b.probe->0.n_ports
            &&& (Board { probe: b.probe, ..r.board }) == b
            &&& r.emits.len() == 0 && r.handed is None && r.store is None
        }),
{
}

/// A board that did not ask takes no notice of an answer.
pub proof fn lemma_unasked_answer(b: Board, ingress: u8, src: u8, payload: Seq<u8>)
    requires
        b.probe is None,
        payload.len() != 1,
    ensures
        b.hello(ingress, src, payload) == b.idle(),
        b.idle().board == b && b.idle().emits.len() == 0,
        b.idle().handed is None && b.idle().store is None,
{
}

/// An assignment for a neighbour leaves by the egress port, from the same source, for "the one
/// peer", as an assignment of the same address to whoever takes it. The board itself is not touched.
pub proof fn lemma_assignment_is_relayed(b: Board, src: u8, egress: u8, addr: u8)
    requires
        egress != 0xFF,
    ensures
        b.assign(src, seq![egress, addr]).emits == seq![(egress, seq![6u8, src, 0, 0xFF, addr])],
        b.assign(src, seq![egress, addr]).board == b,
        b.assign(src, seq![egress, addr]).handed is None,
{
    let w = pdu::pdu_bytes(Opcode::Assign.byte(), src, NO_ADDRESS, seq![EGRESS_SELF, addr]);
    assert(w =~= seq![6u8, src, 0, 0xFF, addr]);
    assert(b.assign(src, seq![egress, addr]).emits =~= seq![(egress, w)]);
}

/// An address that could not be persisted is not taken on, and the refusal says so.
pub proof fn lemma_unpersisted_address_is_refused(b: Board, to: u8, addr: u8, e: StoreFault)
    requires
        b.job == Some(Waiting::Adopt { to, addr }),
    ensures
        ({
            let r = b.answered(Answered::Refused(e));
            let ports = forward::route(b.addr, b.n_ports, b.routes, None, to).1;
            &&& r.board == (Board { job: None, ..b })
            &&& r.store is None && r.handed is None
            &&& r.emits.len() == ports.len()
            &&& forall|i: int|
                0 <= i < ports.len() ==> #[trigger] r.emits[i] == (
                    ports[i],
                    seq![7u8, addr, to, addr, 1],
                )
        }),
{
    let w = pdu::pdu_bytes(Opcode::AssignAck.byte(), addr, to, seq![addr, STATUS_ERR]);
    assert(w =~= seq![7u8, addr, to, addr, 1]);
}

/// What the responder has no part in is handed over whole, and leaves the board as it was: every
/// opcode but those of first contact, of the probe, of assignment, and of the three configuration
/// requests.
pub proof fn lemma_others_are_handed_over(b: Board, ingress: u8, op: u8, src: u8, payload: Seq<u8>)
    requires
        op != 0x01 && op != 0x02 && op != 0x06 && op != 0x30 && op != 0x31 && op != 0x33,
    ensures
        ({
            let r = b.local(ingress, op, src, payload);
            &&& r.handed == Some((op, src, payload))
            &&& r.board == b && r.emits.len() == 0 && r.store is None
        }),
{
}

/// A frame that is not for this board passes through it: it goes out unchanged, and all that the
/// board keeps of it is the way to its source.
pub proof fn lemma_passing_frame(b: Board, ingress: u8, frame: Seq<u8>)
    requires
        b.wf(),
        3 <= frame.len() <= 64,
        frame[0] != 0 && frame[0] != 0xFF,
        frame[2] != 0 && frame[2] != 0xFF && frame[2] != b.addr,
    ensures
        ({
            let r = b.ingests(ingress, frame);
            let way = r.board.routes[frame[2] as int];
            &&& r.handed is None && r.store is None
            &&& (Board { routes: b.routes, ..r.board }) == b
            &&& frame[1] != 0 && frame[1] != 0xFF ==> r.board.routes == b.routes.update(
                frame[1] as int,
                ingress,
            )
            &&& frame[1] == 0 || frame[1] == 0xFF ==> r.board.routes == b.routes
            &&& forall|i: int| 0 <= i < r.emits.len() ==> (#[trigger] r.emits[i]).1 == frame
            &&& forall|i: int| 0 <= i < r.emits.len() ==> (#[trigger] r.emits[i]).0 != ingress
            &&& way != 0xFF && way != ingress ==> r.emits.len() == 1 && r.emits[0].0 == way
            &&& way == ingress && way != 0xFF ==> r.emits.len() == 0
        }),
{
    let r = b.ingests(ingress, frame);
    let routes = forward::learned(b.routes, frame[1], ingress);
    let out = forward::route(b.addr, b.n_ports, routes, Some(ingress), frame[2]);
    forward::lemma_split_horizon(b.addr, b.n_ports, routes, ingress, frame[2]);
    assert(!out.0);
    assert(r.emits =~= sent_out(out.1, frame));
    assert forall|i: int| 0 <= i < r.emits.len() implies (#[trigger] r.emits[i]).0 != ingress by {
        assert(out.1.contains(out.1[i]));
    }
}

/// Bytes that are no frame at all change nothing.
pub proof fn lemma_no_frame(b: Board, ingress: u8, frame: Seq<u8>)
    requires
        frame.len() < 3 || frame[0] == 0 || frame[0] == 0xFF,
    ensures
        b.ingests(ingress, frame).board == b,
        b.ingests(ingress, frame).emits.len() == 0,
        b.ingests(ingress, frame).handed is None,
        b.ingests(ingress, frame).store is None,
{
}

/// What a board sends of its own accord goes out of the ports that the table gives, each time with
/// the opcode, the source and the destination in front of the payload.
pub proof fn lemma_what_a_board_sends(b: Board, op: u8, src: u8, dst: u8, payload: Seq<u8>, i: int)
    requires
        payload.len() <= 61,
    ensures
        ({
            let ports = forward::route(b.addr, b.n_ports, b.routes, None, dst).1;
            let sent = b.originates(op, src, dst, payload);
            &&& sent.len() == ports.len()
            &&& 0 <= i < ports.len() ==> {
                &&& sent[i].0 == ports[i]
                &&& sent[i].1.len() == payload.len() + 3
                &&& sent[i].1[0] == op && sent[i].1[1] == src && sent[i].1[2] == dst
                &&& sent[i].1.skip(3) == payload
            }
        }),
{
    pdu::lemma_pdu_round_trip(op, src, dst, payload);
}

/// A frame that is longer than a board can hold is not for it, whoever it is addressed to, and goes
/// no further; its source is learned all the same.
pub proof fn lemma_long_frame(b: Board, ingress: u8, frame: Seq<u8>)
    requires
        frame.len() > 64,
        frame[0] != 0 && frame[0] != 0xFF,
    ensures
        ({
            let r = b.ingests(ingress, frame);
            &&& r.emits.len() == 0 && r.handed is None && r.store is None
            &&& r.board == (Board {
                routes: if frame[1] == 0 || frame[1] == 0xFF {
                    b.routes
                } else {
                    b.routes.update(frame[1] as int, ingress)
                },
                ..b
            })
        }),
{
}

/// A frame for everyone is taken and sent on: what the responder has no part in is handed over, and
/// leaves by every port but the one it came in on.
pub proof fn lemma_frame_for_everyone(b: Board, ingress: u8, frame: Seq<u8>, p: u8)
    requires
        b.wf(),
        3 <= frame.len() <= 64,
        pdu::opcode_of(frame[0]) is None,
        frame[0] != 0 && frame[0] != 0xFF,
        frame[2] == 0xFF,
        b.addr != 0xFF,
    ensures
        ({
            let r = b.ingests(ingress, frame);
            &&& r.handed == Some((frame[0], frame[1], frame.skip(3)))
            &&& r.store is None
            &&& p < b.n_ports && p != ingress <==> r.emits.contains((p, frame))
            &&& forall|i: int| 0 <= i < r.emits.len() ==> (#[trigger] r.emits[i]).1 == frame
        }),
{
    let r = b.ingests(ingress, frame);
    let ports = forward::flood_ports(b.n_ports as nat, Some(ingress));
    forward::lemma_flood_ports(b.n_ports as nat, Some(ingress));
    assert(r.emits =~= sent_out(ports, frame));
    if ports.contains(p) {
        let i = choose|i: int| 0 <= i < ports.len() && ports[i] == p;
        assert(r.emits[i] == (p, frame));
    }
    if r.emits.contains((p, frame)) {
        let i = choose|i: int| 0 <= i < r.emits.len() && r.emits[i] == (p, frame);
        assert(ports[i] == p);
    }
}

/// A request that is cut short asks nothing of anyone.
pub proof fn lemma_short_requests(b: Board, ingress: u8, src: u8, payload: Seq<u8>)
    ensures
        payload.len() < 2 ==> b.local(ingress, 0x06, src, payload) == b.idle(),
        payload.len() < 2 ==> b.local(ingress, 0x30, src, payload) == b.idle(),
        payload.len() < 3 ==> b.local(ingress, 0x31, src, payload) == b.idle(),
        payload.len() == 0 ==> b.local(ingress, 0x33, src, payload) == b.idle(),
        b.idle().board == b && b.idle().emits.len() == 0,
        b.idle().handed is None && b.idle().store is None,
{
}

/// What the board wants of the store for a request, field by field.
pub proof fn lemma_wanted_of_the_store(b: Board, ingress: u8, src: u8, payload: Seq<u8>)
    requires
        !b.armed,
        payload.len() >= 3,
    ensures
        b.local(ingress, 0x30, src, payload).store matches Some(Wanted::Read { key })
            && key.field_id == payload[0] && key.index == payload[1],
        b.local(ingress, 0x31, src, payload).store matches Some(
            Wanted::Write { key, type_tag, value },
        ) && key.field_id == payload[0] && key.index == payload[1] && type_tag == payload[2] && value
            == payload.skip(3),
        payload[0] == 0xFF ==> (b.local(ingress, 0x06, src, payload).store matches Some(
            Wanted::WriteAddress { addr },
        ) && addr == payload[1]),
{
}

/// The reply that carries a value: the field, success, the type, and the value, which is left out
/// where it does not fit.
pub proof fn lemma_value_reply(key: Key, type_tag: u8, value: Seq<u8>)
    ensures
        ({
            let r = Board::value_resp(key, type_tag, value);
            &&& r.len() >= 4
            &&& r[0] == key.field_id && r[1] == key.index && r[2] == 0 && r[3] == type_tag
            &&& value.len() <= 60 ==> r.skip(4) == value
            &&& value.len() > 60 ==> r.len() == 4
        }),
{
    let r = Board::value_resp(key, type_tag, value);
    if value.len() <= 60 {
        assert(r.skip(4) =~= value);
    }
}

/// A write that was persisted but cannot be read back is acknowledged without a value.
pub proof fn lemma_unreadable_echo(b: Board, to: u8, key: Key, e: StoreFault)
    requires
        b.job == Some(Waiting::Echo { to, key }),
    ensures
        b.answered(Answered::Refused(e)).emits == b.without_job().originates(
            50,
            b.addr,
            to,
            seq![key.field_id, key.index, 0],
        ),
        b.answered(Answered::Refused(e)).board == b.without_job(),
        b.answered(Answered::Refused(e)).store is None,
        b.without_job() == (Board { job: None, ..b }),
{
}

/// An answer that nobody waits for changes nothing.
pub proof fn lemma_unawaited_answer(b: Board, reply: Answered)
    requires
        b.job is None,
    ensures
        b.answered(reply).board == b,
        b.answered(reply).emits.len() == 0,
        b.answered(reply).store is None,
{
}

} // verus!
