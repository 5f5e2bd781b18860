//! The controller side of the discovery walk: it holds the address map and drives the process
//! outward to the leaves (first contact, assign, probe, assign the frontier, and so on).
//!
//! One request is outstanding at a time; the walk moves on with its reply. All requests leave on
//! the one link that the controller is attached to.

use crate::bounded::BoundedVec;
use crate::net::pdu;
use crate::net::pdu::{Opcode, Pdu, NO_ADDRESS};
use crate::net::walk::{
    PduBuf, EGRESS_SELF, KIND_CONTROLLER, MAX_PDU, NB_ASSIGNED, NB_UNASSIGNED, PROTO_VER, STATUS_OK,
};
use vstd::prelude::*;

verus! {

/// The most boards that a walk addresses.
pub const MAX_NODES: usize = 8;

/// The most steps that a walk can owe at a time.
pub const MAX_TASKS: usize = 16;

/// One step of the walk.
#[derive(Clone, Copy, PartialEq, Eq, Debug, Structural)]
pub enum Task {
    /// First contact on the attach link.
    Hello,
    /// Assign the board on the attach link.
    AssignGateway { new_addr: u8 },
    /// Have a board report its ports.
    Probe { addr: u8 },
    /// Have `relay` assign its neighbour on port `egress`.
    AssignNeighbor { relay: u8, egress: u8, new_addr: u8 },
}

/// A board that has been addressed: its address, and where it was found.
#[derive(Clone, Copy, PartialEq, Eq, Debug, Structural)]
pub struct Placed {
    pub addr: u8,
    pub relay: u8,
    pub egress: u8,
}

/// The state of a walk.
pub struct Walk {
    pub guest_addr: u8,
    pub next_board: u8,
    pub assigned: Seq<Placed>,
    pub queue: Seq<Task>,
    pub outstanding: Option<Task>,
}

/// The place of the first board of `assigned` with address `addr`.
pub open spec fn place_of(assigned: Seq<Placed>, addr: u8) -> Option<Placed>
    decreases assigned.len(),
{
    if assigned.len() == 0 {
        None
    } else if assigned[0].addr == addr {
        Some(assigned[0])
    } else {
        place_of(assigned.skip(1), addr)
    }
}

/// `a` is a board address that nobody has.
pub open spec fn free(assigned: Seq<Placed>, a: u8) -> bool {
    pdu::board(a) && place_of(assigned, a) is None
}

/// The first free address from `from` on, wrapping around, within `steps` steps.
pub open spec fn first_free(assigned: Seq<Placed>, from: u8, steps: nat) -> u8
    decreases steps,
{
    if steps == 0 || free(assigned, from) {
        from
    } else {
        first_free(assigned, ((from + 1) % 256) as u8, (steps - 1) as nat)
    }
}

impl Walk {
    /// A controller about to make first contact, with a provisional guest address.
    pub open spec fn first() -> Walk {
        Walk {
            guest_addr: 0x80,
            next_board: 0x01,
            assigned: Seq::empty(),
            queue: seq![Task::Hello],
            outstanding: None,
        }
    }

    /// No step is owed, and none is under way.
    pub open spec fn complete(self) -> bool {
        self.queue.len() == 0 && self.outstanding is None
    }

    /// One more step is owed, if there is room for it.
    pub open spec fn enqueued(self, t: Task) -> Walk {
        if self.queue.len() < MAX_TASKS {
            Walk { queue: self.queue.push(t), ..self }
        } else {
            self
        }
    }

    /// A board is entered in the map, unless its address is there already or there is no room.
    pub open spec fn recorded(self, p: Placed) -> Walk {
        if place_of(self.assigned, p.addr) is None && self.assigned.len() < MAX_NODES {
            Walk { assigned: self.assigned.push(p), ..self }
        } else {
            self
        }
    }

    /// The next address to hand out.
    pub open spec fn next_free(self) -> u8 {
        first_free(self.assigned, self.next_board, 256)
    }

    /// The walk after the next address has been taken.
    pub open spec fn took(self) -> Walk {
        Walk { next_board: ((self.next_free() + 1) % 256) as u8, ..self }
    }

    /// A new address is handed to the neighbour of `relay` on port `egress`.
    pub open spec fn assigns(self, relay: u8, egress: u8) -> Walk {
        self.took().enqueued(Task::AssignNeighbor { relay, egress, new_addr: self.next_free() })
    }

    /// The address of the board through which `addr` was reached.
    pub open spec fn parent(self, addr: u8) -> Option<u8> {
        match place_of(self.assigned, addr) {
            Some(p) => if pdu::unicast(p.relay) {
                Some(p.relay)
            } else {
                None
            },
            None => None,
        }
    }

    /// What a port entry of the report of `probed` leads to. An unassigned neighbour is assigned.
    /// An assigned one is let be if it is a controller, the way back to `parent`, or known at this
    /// very place; it is assigned anew if its address is known elsewhere; otherwise it keeps its
    /// address and is probed in turn.
    pub open spec fn port_entry(
        self,
        probed: u8,
        parent: Option<u8>,
        port: u8,
        state: u8,
        naddr: u8,
    ) -> Walk {
        if state == NB_UNASSIGNED {
            self.assigns(probed, port)
        } else if state == NB_ASSIGNED && !pdu::controller(naddr) && Some(naddr) != parent {
            match place_of(self.assigned, naddr) {
                Some(p) => if (p.relay, p.egress) != (probed, port) {
                    self.assigns(probed, port)
                } else {
                    self
                },
                None => self.recorded(Placed { addr: naddr, relay: probed, egress: port }).enqueued(
                    Task::Probe { addr: naddr },
                ),
            }
        } else {
            self
        }
    }

    /// The first `n` port entries of the report `b`, as far as they are whole.
    pub open spec fn port_entries(self, probed: u8, parent: Option<u8>, b: Seq<u8>, n: int) -> Walk
        decreases n,
    {
        if n <= 0 {
            self
        } else {
            let w = self.port_entries(probed, parent, b, n - 1);
            let base = 1 + (n - 1) * 4;
            if base + 3 >= b.len() {
                w
            } else {
                w.port_entry(probed, parent, b[base], b[base + 2], b[base + 3])
            }
        }
    }

    /// The report of `probed` has come in.
    pub open spec fn ports(self, probed: u8, b: Seq<u8>) -> Walk {
        if b.len() == 0 {
            self
        } else {
            self.port_entries(probed, self.parent(probed), b, b[0] as int)
        }
    }

    /// The outstanding request is answered.
    pub open spec fn settled(self) -> Walk {
        Walk { outstanding: None, ..self }
    }

    /// The board at `p` has been assigned: it is entered in the map and probed next. A refusal
    /// leaves everything as it was.
    pub open spec fn acked(self, p: Placed, status: u8) -> Walk {
        if status == STATUS_OK {
            self.recorded(p).enqueued(Task::Probe { addr: p.addr })
        } else {
            self
        }
    }

    /// A frame has come in. Only a reply to the outstanding request moves the walk.
    pub open spec fn replied(self, frame: Seq<u8>) -> Walk {
        let b = frame.skip(3);
        if frame.len() < 3 || !pdu::valid_opcode(frame[0]) || self.outstanding is None {
            self
        } else {
            match (self.outstanding->0, pdu::opcode_of(frame[0])) {
                (Task::Hello, Some(Opcode::NodeHello)) => if b.len() < 6 {
                    self
                } else {
                    let w = Walk { guest_addr: b[5], ..self.settled() };
                    if b[0] == NO_ADDRESS {
                        w.took().enqueued(Task::AssignGateway { new_addr: w.next_free() })
                    } else {
                        w.recorded(
                            Placed { addr: b[0], relay: 0, egress: EGRESS_SELF },
                        ).enqueued(Task::Probe { addr: b[0] })
                    }
                },
                (Task::AssignGateway { .. }, Some(Opcode::AssignAck)) => if b.len() < 2 {
                    self
                } else {
                    self.settled().acked(
                        Placed { addr: b[0], relay: 0, egress: EGRESS_SELF },
                        b[1],
                    )
                },
                (Task::AssignNeighbor { relay, egress, .. }, Some(Opcode::AssignAck)) => if b.len()
                    < 2 {
                    self
                } else {
                    self.settled().acked(Placed { addr: b[0], relay, egress }, b[1])
                },
                (Task::Probe { addr }, Some(Opcode::Ports)) => self.settled().ports(addr, b),
                _ => self,
            }
        }
    }

    /// The request of a step.
    pub open spec fn request(self, t: Task) -> Seq<u8> {
        match t {
            Task::Hello => pdu::pdu_bytes(
                Opcode::NodeHello.byte(),
                self.guest_addr,
                NO_ADDRESS,
                seq![KIND_CONTROLLER],
            ),
            Task::AssignGateway { new_addr } => pdu::pdu_bytes(
                Opcode::Assign.byte(),
                self.guest_addr,
                NO_ADDRESS,
                seq![EGRESS_SELF, new_addr],
            ),
            Task::Probe { addr } => pdu::pdu_bytes(
                Opcode::ProbePorts.byte(),
                self.guest_addr,
                addr,
                Seq::empty(),
            ),
            Task::AssignNeighbor { relay, egress, new_addr } => pdu::pdu_bytes(
                Opcode::Assign.byte(),
                self.guest_addr,
                relay,
                seq![egress, new_addr],
            ),
        }
    }

    /// The map holds no address twice, and the map and the queue keep to their sizes.
    pub open spec fn wf(self) -> bool {
        &&& self.assigned.len() <= MAX_NODES
        &&& self.queue.len() <= MAX_TASKS
        &&& forall|i: int, j: int|
            0 <= i < j < self.assigned.len() ==> self.assigned[i].addr != self.assigned[j].addr
    }
}

/// No board of `assigned` has address `addr` exactly when no place is found for it.
pub proof fn lemma_place_of(assigned: Seq<Placed>, addr: u8)
    ensures
        place_of(assigned, addr) is None <==> forall|i: int|
            0 <= i < assigned.len() ==> (#[trigger] assigned[i]).addr != addr,
        place_of(assigned, addr) is Some ==> place_of(assigned, addr)->0.addr == addr
            && assigned.contains(place_of(assigned, addr)->0),
    decreases assigned.len(),
{
    if assigned.len() > 0 {
        let rest = assigned.skip(1);
        lemma_place_of(rest, addr);
        if assigned[0].addr != addr {
            if place_of(rest, addr) is None {
                assert forall|i: int| 0 <= i < assigned.len() implies (#[trigger] assigned[i]).addr
                    != addr by {
                    if i > 0 {
                        assert(rest[i - 1] == assigned[i]);
                    }
                }
            } else {
                let p = place_of(rest, addr)->0;
                let k = choose|k: int| 0 <= k < rest.len() && rest[k] == p;
                assert(assigned[k + 1] == p);
            }
        }
    }
}

/// Some board address below 10 is free while the map keeps to its size.
proof fn lemma_some_free(assigned: Seq<Placed>)
    requires
        assigned.len() <= MAX_NODES,
    ensures
        exists|a: u8| free(assigned, a),
{
    let addrs = Seq::new(assigned.len(), |i: int| assigned[i].addr as int);
    let low = vstd::set_lib::set_int_range(1, 10);
    if forall|a: u8| !free(assigned, a) {
        assert forall|a: int| low.contains(a) implies addrs.to_set().contains(a) by {
            lemma_place_of(assigned, a as u8);
            assert(!free(assigned, a as u8));
            let p = place_of(assigned, a as u8)->0;
            let k = choose|k: int| 0 <= k < assigned.len() && assigned[k] == p;
            assert(addrs[k] == a);
        }
        vstd::set_lib::lemma_int_range(1, 10);
        addrs.lemma_cardinality_of_set();
        vstd::seq_lib::seq_to_set_is_finite(addrs);
        vstd::set_lib::lemma_len_subset(low, addrs.to_set());
        assert(false);
    }
}

/// A search that has enough steps to reach a free address ends at a free one.
proof fn lemma_first_free(assigned: Seq<Placed>, from: u8, steps: nat, a: u8)
    requires
        free(assigned, a),
        (a - from + 256) % 256 <= steps,
    ensures
        free(assigned, first_free(assigned, from, steps)),
    decreases steps,
{
    if !free(assigned, from) {
        assert(a != from);
        lemma_first_free(assigned, ((from + 1) % 256) as u8, (steps - 1) as nat, a);
    }
}

/// Every address handed out is a board address that the map does not hold.
pub proof fn lemma_handed_out_is_free(w: Walk)
    requires
        w.wf(),
    ensures
        free(w.assigned, w.next_free()),
{
    lemma_some_free(w.assigned);
    let a = choose|a: u8| free(w.assigned, a);
    lemma_first_free(w.assigned, w.next_board, 256, a);
}

/// The address handed out next is the nearest free one, counting up from where the last one was
/// taken and around: no free address lies before it.
pub proof fn lemma_next_is_nearest(w: Walk, a: u8)
    requires
        free(w.assigned, a),
    ensures
        free(w.assigned, w.next_free()),
        (w.next_free() - w.next_board + 256) % 256 <= (a - w.next_board + 256) % 256,
{
    lemma_first_free(w.assigned, w.next_board, 256, a);
    lemma_nearest(w.assigned, w.next_board, 256, a);
}

proof fn lemma_nearest(assigned: Seq<Placed>, from: u8, steps: nat, a: u8)
    requires
        free(assigned, a),
        (a - from + 256) % 256 <= steps,
    ensures
        (first_free(assigned, from, steps) - from + 256) % 256 <= (a - from + 256) % 256,
    decreases steps,
{
    if !free(assigned, from) {
        assert(a != from);
        lemma_nearest(assigned, ((from + 1) % 256) as u8, (steps - 1) as nat, a);
    }
}

/// The transient controller.
pub struct Controller {
    guest_addr: u8,
    next_board: u8,
    assigned: BoundedVec<Placed, MAX_NODES>,
    queue: BoundedVec<Task, MAX_TASKS>,
    outstanding: Option<Task>,
}

impl View for Controller {
    type V = Walk;

    closed spec fn view(&self) -> Walk {
        Walk {
            guest_addr: self.guest_addr,
            next_board: self.next_board,
            assigned: self.assigned@,
            queue: self.queue@,
            outstanding: self.outstanding,
        }
    }
}

/// The bytes of a PDU that fits.
fn encoded(p: &Pdu) -> (b: PduBuf)
    requires
        pdu::valid_opcode(p.opcode),
        p.payload@.len() + 3 <= MAX_PDU,
    ensures
        b@ == p.bytes(),
{
    let mut tmp = [0u8;64];
    let mut b: PduBuf = BoundedVec::new();
    if let Ok(n) = p.encode(&mut tmp) {
        let _ = b.extend_from_slice(&tmp[0..n]);
        assert(b@ =~= p.bytes());
    }
    b
}

impl Controller {
    /// A controller about to make first contact, under a provisional guest address.
    pub fn new() -> (c: Self)
        ensures
            c@.wf(),
            c@ == Walk::first(),
    {
        let mut queue: BoundedVec<Task, MAX_TASKS> = BoundedVec::new();
        let _ = queue.push(Task::Hello);
        assert(queue@ =~= seq![Task::Hello]);
        Controller {
            guest_addr: 0x80,
            next_board: 0x01,
            assigned: BoundedVec::new(),
            queue,
            outstanding: None,
        }
    }

    /// The guest address of the controller.
    pub fn guest_addr(&self) -> (a: u8)
        ensures
            a == self@.guest_addr,
    {
        self.guest_addr
    }

    /// The board addresses in the map.
    pub fn assigned_addrs(&self) -> (v: BoundedVec<u8, MAX_NODES>)
        ensures
            v@ == Seq::new(self@.assigned.len(), |i: int| self@.assigned[i].addr),
    {
        let mut v: BoundedVec<u8, MAX_NODES> = BoundedVec::new();
        let list = self.assigned.as_slice();
        let mut i: usize = 0;
        while i < list.len()
            invariant
                list@ == self.assigned@,
                list@.len() <= MAX_NODES,
                i <= list@.len(),
                v@ == Seq::new(i as nat, |j: int| list@[j].addr),
            decreases list@.len() - i,
        {
            let _ = v.push(list[i].addr);
            assert(v@ =~= Seq::new((i + 1) as nat, |j: int| list@[j].addr));
            i += 1;
        }
        v
    }

    /// The walk is finished: nothing queued and nothing outstanding.
    pub fn is_complete(&self) -> (b: bool)
        ensures
            b == self@.complete(),
    {
        self.queue.is_empty() && self.outstanding.is_none()
    }

    /// The next request to send, or `None` while a reply is outstanding or once the walk is
    /// complete.
    pub fn next_request(&mut self) -> (r: Option<PduBuf>)
        requires
            old(self)@.wf(),
        ensures
            final(self)@.wf(),
            r is Some <==> old(self)@.outstanding is None && old(self)@.queue.len() > 0,
            r is Some ==> {
                &&& r->0@ == old(self)@.request(old(self)@.queue[0])
                &&& final(self)@ == (Walk {
                    queue: old(self)@.queue.skip(1),
                    outstanding: Some(old(self)@.queue[0]),
                    ..old(self)@
                })
            },
            r is None ==> final(self)@ == old(self)@,
    {
        if self.outstanding.is_some() {
            return None;
        }
        if self.queue.is_empty() {
            return None;
        }
        let task = self.queue.remove(0);
        assert(self.queue@ =~= old(self)@.queue.skip(1));
        let buf = self.build_request(&task);
        self.outstanding = Some(task);
        Some(buf)
    }

    fn build_request(&self, task: &Task) -> (b: PduBuf)
        ensures
            b@ == self@.request(*task),
    {
        match *task {
            Task::Hello => {
                let payload = [KIND_CONTROLLER];
                assert(payload@ =~= seq![KIND_CONTROLLER]);
                encoded(
                    &Pdu::from_op(
                        Opcode::NodeHello,
                        self.guest_addr,
                        NO_ADDRESS,
                        payload.as_slice(),
                    ),
                )
            },
            Task::AssignGateway { new_addr } => {
                let payload = [EGRESS_SELF, new_addr];
                assert(payload@ =~= seq![EGRESS_SELF, new_addr]);
                encoded(
                    &Pdu::from_op(Opcode::Assign, self.guest_addr, NO_ADDRESS, payload.as_slice()),
                )
            },
            Task::Probe { addr } => {
                let payload: [u8; 0] = [];
                assert(payload@ =~= Seq::<u8>::empty());
                encoded(
                    &Pdu::from_op(Opcode::ProbePorts, self.guest_addr, addr, payload.as_slice()),
                )
            },
            Task::AssignNeighbor { relay, egress, new_addr } => {
                let payload = [egress, new_addr];
                assert(payload@ =~= seq![egress, new_addr]);
                encoded(&Pdu::from_op(Opcode::Assign, self.guest_addr, relay, payload.as_slice()))
            },
        }
    }

    /// Answers a board that probes the controller's own port, with the guest identity. `None` if
    /// `frame` is no such probe.
    pub fn reply_to_probe(&self, frame: &[u8]) -> (r: Option<PduBuf>)
        ensures
            r is Some <==> frame@.len() == 4 && frame@[0] == Opcode::NodeHello.byte(),
            r is Some ==> r->0@ == pdu::pdu_bytes(
                Opcode::NodeHello.byte(),
                self@.guest_addr,
                frame@[1],
                seq![self@.guest_addr, PROTO_VER, 0, 0, 0, NO_ADDRESS],
            ),
    {
        let p = match Pdu::decode(frame) {
            Ok(p) => p,
            Err(e) => {
                return None;
            },
        };
        match p.known() {
            Some(Opcode::NodeHello) => {
                if p.payload.len() != 1 {
                    return None;
                }
                let reply = [self.guest_addr, PROTO_VER, 0u8, 0u8, 0u8, NO_ADDRESS];
                assert(reply@ =~= seq![self.guest_addr, PROTO_VER, 0, 0, 0, NO_ADDRESS]);
                Some(
                    encoded(
                        &Pdu::from_op(
                            Opcode::NodeHello,
                            self.guest_addr,
                            p.src,
                            reply.as_slice(),
                        ),
                    ),
                )
            },
            _ => None,
        }
    }

    /// Takes a reply to the outstanding request and moves the walk on. Any other frame leaves the
    /// request outstanding.
    pub fn on_reply(&mut self, frame: &[u8])
        requires
            old(self)@.wf(),
        ensures
            final(self)@ == old(self)@.replied(frame@),
            final(self)@.wf(),
    {
        let p = match Pdu::decode(frame) {
            Ok(p) => p,
            Err(e) => {
                return;
            },
        };
        let task = match self.outstanding {
            Some(t) => t,
            None => {
                return;
            },
        };
        match task {
            Task::Hello => {
                if let Some(Opcode::NodeHello) = p.known() {
                    if p.payload.len() >= 6 {
                        self.outstanding = None;
                        let node_id: u8 = p.payload[0];
                        self.guest_addr = p.payload[5];
                        if node_id == NO_ADDRESS {
                            let new_addr: u8 = self.take_addr();
                            self.enqueue(Task::AssignGateway { new_addr });
                        } else {
                            self.record(Placed { addr: node_id, relay: 0, egress: EGRESS_SELF });
                            self.enqueue(Task::Probe { addr: node_id });
                        }
                    }
                }
            },
            Task::AssignGateway { new_addr } => {
                if let Some(Opcode::AssignAck) = p.known() {
                    if p.payload.len() >= 2 {
                        self.outstanding = None;
                        self.on_ack(
                            Placed { addr: p.payload[0], relay: 0, egress: EGRESS_SELF },
                            p.payload[1],
                        );
                    }
                }
            },
            Task::AssignNeighbor { relay, egress, new_addr } => {
                if let Some(Opcode::AssignAck) = p.known() {
                    if p.payload.len() >= 2 {
                        self.outstanding = None;
                        self.on_ack(Placed { addr: p.payload[0], relay, egress }, p.payload[1]);
                    }
                }
            },
            Task::Probe { addr } => {
                if let Some(Opcode::Ports) = p.known() {
                    self.outstanding = None;
                    self.on_ports(addr, p.payload);
                }
            },
        }
    }

    /// A board has answered its assignment.
    fn on_ack(&mut self, p: Placed, status: u8)
        requires
            old(self)@.wf(),
        ensures
            final(self)@ == old(self)@.acked(p, status),
            final(self)@.wf(),
    {
        if status == STATUS_OK {
            self.record(p);
            self.enqueue(Task::Probe { addr: p.addr });
        }
    }

    /// The report of `probed` has come in.
    fn on_ports(&mut self, probed: u8, payload: &[u8])
        requires
            old(self)@.wf(),
        ensures
            final(self)@ == old(self)@.ports(probed, payload@),
            final(self)@.wf(),
    {
        if payload.len() == 0 {
            return;
        }
        let parent = self.parent_of(probed);
        let n: usize = payload[0] as usize;
        let mut i: usize = 0;
        while i < n
            invariant
                self@.wf(),
                i <= n,
                n == payload@[0],
                payload@.len() > 0,
                parent == old(self)@.parent(probed),
                self@ == old(self)@.port_entries(probed, parent, payload@, i as int),
            decreases n - i,
        {
            let base: usize = 1 + i * 4;
            if base + 3 < payload.len() {
                self.on_port(
                    probed,
                    parent,
                    payload[base],
                    payload[base + 2],
                    payload[base + 3],
                );
            }
            i += 1;
        }
    }

    /// Deals with one port entry of a report.
    fn on_port(&mut self, probed: u8, parent: Option<u8>, port: u8, state: u8, naddr: u8)
        requires
            old(self)@.wf(),
        ensures
            final(self)@ == old(self)@.port_entry(probed, parent, port, state, naddr),
            final(self)@.wf(),
    {
        if state == NB_UNASSIGNED {
            self.assign_neighbor(probed, port);
        } else if state == NB_ASSIGNED {
            let back = match parent {
                Some(a) => a == naddr,
                None => false,
            };
            if pdu::is_controller(naddr) || back {
                return;
            }
            match self.position_of(naddr) {
                Some(p) => {
                    if p.relay != probed || p.egress != port {
                        self.assign_neighbor(probed, port);
                    }
                },
                None => {
                    self.record(Placed { addr: naddr, relay: probed, egress: port });
                    self.enqueue(Task::Probe { addr: naddr });
                },
            }
        }
    }

    /// Hands a new address to a neighbour of `relay`.
    fn assign_neighbor(&mut self, relay: u8, egress: u8)
        requires
            old(self)@.wf(),
        ensures
            final(self)@ == old(self)@.assigns(relay, egress),
            final(self)@.wf(),
    {
        let new_addr: u8 = self.take_addr();
        self.enqueue(Task::AssignNeighbor { relay, egress, new_addr });
    }

    /// The board through which `addr` was reached, or `None` for the gateway.
    fn parent_of(&self, addr: u8) -> (r: Option<u8>)
        ensures
            r == self@.parent(addr),
    {
        match self.position_of(addr) {
            Some(p) => if pdu::is_unicast(p.relay) {
                Some(p.relay)
            } else {
                None
            },
            None => None,
        }
    }

    /// Takes the next free board address.
    fn take_addr(&mut self) -> (a: u8)
        requires
            old(self)@.wf(),
        ensures
            a == old(self)@.next_free(),
            final(self)@ == old(self)@.took(),
            final(self)@.wf(),
    {
        let ghost mut steps: nat = 256;
        proof {
            lemma_handed_out_is_free(self@);
        }
        loop
            invariant
                self@ == (Walk { next_board: self@.next_board, ..old(self)@ }),
                old(self)@.wf(),
                first_free(self@.assigned, self@.next_board, steps) == old(self)@.next_free(),
                free(self@.assigned, old(self)@.next_free()),
            decreases steps,
        {
            let a: u8 = self.next_board;
            self.next_board = self.next_board.wrapping_add(1);
            if pdu::is_board(a) && self.position_of(a).is_none() {
                return a;
            }
            proof {
                steps = (steps - 1) as nat;
            }
        }
    }

    /// Enters a board in the map.
    fn record(&mut self, p: Placed)
        requires
            old(self)@.wf(),
        ensures
            final(self)@ == old(self)@.recorded(p),
            final(self)@.wf(),
    {
        proof {
            lemma_place_of(self@.assigned, p.addr);
        }
        if self.position_of(p.addr).is_none() {
            let _ = self.assigned.push(p);
        }
    }

    /// Where the board with address `addr` was found.
    fn position_of(&self, addr: u8) -> (r: Option<Placed>)
        ensures
            r == place_of(self@.assigned, addr),
    {
        let list = self.assigned.as_slice();
        let mut i: usize = 0;
        assert(list@.skip(0) =~= list@);
        while i < list.len()
            invariant
                list@ == self@.assigned,
                i <= list@.len(),
                place_of(list@, addr) == place_of(list@.skip(i as int), addr),
            decreases list@.len() - i,
        {
            assert(list@.skip(i as int).skip(1) =~= list@.skip(i + 1));
            if list[i].addr == addr {
                return Some(list[i]);
            }
            i += 1;
        }
        None
    }

    /// Owes one more step.
    fn enqueue(&mut self, task: Task)
        requires
            old(self)@.wf(),
        ensures
            final(self)@ == old(self)@.enqueued(task),
            final(self)@.wf(),
    {
        let _ = self.queue.push(task);
    }
}

impl Default for Controller {
    fn default() -> (c: Self)
        ensures
            c@.wf(),
            c@.queue == seq![Task::Hello],
            c@.assigned == Seq::<Placed>::empty(),
            c@.outstanding is None,
            c@.guest_addr == 0x80,
            c@.next_board == 0x01,
    {
        Controller::new()
    }
}

/// A refused assignment is no assignment: the request is done with, nothing enters the map, and
/// nothing is probed.
pub proof fn lemma_refusal_records_nothing(w: Walk, frame: Seq<u8>)
    requires
        w.outstanding matches Some(t) && (t is AssignGateway || t is AssignNeighbor),
        frame.len() >= 5,
        frame[0] == Opcode::AssignAck.byte(),
        frame[4] != STATUS_OK,
    ensures
        w.replied(frame) == w.settled(),
{
}

/// A frame that does not answer the outstanding request leaves the walk where it is, so that the
/// request can be sent again.
pub proof fn lemma_wrong_reply_ignored(w: Walk, frame: Seq<u8>)
    requires
        w.outstanding matches Some(t) && frame.len() >= 3 && pdu::opcode_of(frame[0]) != (match t {
            Task::Hello => Some(Opcode::NodeHello),
            Task::AssignGateway { .. } => Some(Opcode::AssignAck),
            Task::AssignNeighbor { .. } => Some(Opcode::AssignAck),
            Task::Probe { .. } => Some(Opcode::Ports),
        }),
    ensures
        w.replied(frame) == w,
{
}

/// What is in the map stays in the map: a reply only adds boards behind those already there.
pub proof fn lemma_map_only_grows(w: Walk, frame: Seq<u8>)
    ensures
        w.assigned.is_prefix_of(w.replied(frame).assigned),
{
    let b = frame.skip(3);
    if let Some(Task::Probe { addr }) = w.outstanding {
        let s = w.settled();
        if b.len() > 0 {
            lemma_entries_only_add(s, addr, s.parent(addr), b, b[0] as int);
        }
    }
}

proof fn lemma_entries_only_add(w: Walk, probed: u8, parent: Option<u8>, b: Seq<u8>, n: int)
    ensures
        w.assigned.is_prefix_of(w.port_entries(probed, parent, b, n).assigned),
    decreases n,
{
    if n > 0 {
        lemma_entries_only_add(w, probed, parent, b, n - 1);
    }
}

/// A walk of boards that all keep their places assigns nothing: a board that is known where it
/// was found takes no new address.
pub proof fn lemma_known_place_left_alone(w: Walk, probed: u8, parent: Option<u8>, port: u8, naddr: u8)
    requires
        place_of(w.assigned, naddr) == Some(Placed { addr: naddr, relay: probed, egress: port }),
    ensures
        w.port_entry(probed, parent, port, NB_ASSIGNED, naddr) == w,
{
}

/// An address that turns up in a second place is not kept there: that board gets a new one.
pub proof fn lemma_collision_reassigned(w: Walk, probed: u8, parent: Option<u8>, port: u8, naddr: u8)
    requires
        w.wf(),
        w.queue.len() < MAX_TASKS,
        !pdu::controller(naddr),
        parent != Some(naddr),
        place_of(w.assigned, naddr) matches Some(p) && (p.relay, p.egress) != (probed, port),
    ensures
        ({
            let after = w.port_entry(probed, parent, port, NB_ASSIGNED, naddr);
            &&& after.queue == w.queue.push(
                Task::AssignNeighbor { relay: probed, egress: port, new_addr: w.next_free() },
            )
            &&& free(w.assigned, w.next_free())
            &&& w.next_free() != naddr
        }),
{
    lemma_handed_out_is_free(w);
}

/// The requests, byte by byte. All come from the guest address; first contact and the assignment
/// of the first board go to "the one peer", the others to the board that is to act.
pub proof fn lemma_requests(w: Walk, relay: u8, egress: u8, a: u8)
    ensures
        w.request(Task::Hello) == seq![1u8, w.guest_addr, 0, 1],
        w.request(Task::AssignGateway { new_addr: a }) == seq![6u8, w.guest_addr, 0, 0xFF, a],
        w.request(Task::Probe { addr: a }) == seq![2u8, w.guest_addr, a],
        w.request(Task::AssignNeighbor { relay, egress, new_addr: a }) == seq![
            6u8,
            w.guest_addr,
            relay,
            egress,
            a,
        ],
{
    assert(w.request(Task::Hello) =~= seq![1u8, w.guest_addr, 0, 1]);
    assert(w.request(Task::AssignGateway { new_addr: a }) =~= seq![6u8, w.guest_addr, 0, 0xFF, a]);
    assert(w.request(Task::Probe { addr: a }) =~= seq![2u8, w.guest_addr, a]);
    assert(w.request(Task::AssignNeighbor { relay, egress, new_addr: a }) =~= seq![
        6u8,
        w.guest_addr,
        relay,
        egress,
        a,
    ]);
}

/// First contact: the controller takes the guest address that it is granted. A board that has an
/// address keeps it and is probed; one that has none is handed an address that is free.
pub proof fn lemma_first_contact(w: Walk, frame: Seq<u8>)
    requires
        w.wf(),
        w.outstanding == Some(Task::Hello),
        w.queue.len() < 16,
        w.assigned.len() < 8,
        frame.len() >= 9,
        frame[0] == 1,
    ensures
        ({
            let after = w.replied(frame);
            &&& after.guest_addr == frame[8]
            &&& after.outstanding is None
            &&& frame[3] != 0 ==> after.queue == w.queue.push(Task::Probe { addr: frame[3] })
            &&& frame[3] != 0 ==> after.next_board == w.next_board
            &&& frame[3] != 0 && place_of(w.assigned, frame[3]) is None ==> after.assigned
                == w.assigned.push(Placed { addr: frame[3], relay: 0, egress: 0xFF })
            &&& frame[3] == 0 ==> after.assigned == w.assigned
            &&& frame[3] == 0 ==> after.queue.len() == w.queue.len() + 1 && after.queue.drop_last()
                == w.queue && after.queue.last() is AssignGateway && free(
                w.assigned,
                after.queue.last()->AssignGateway_new_addr,
            )
        }),
{
    lemma_handed_out_is_free(w);
    let after = w.replied(frame);
    let b = frame.skip(3);
    assert(b[0] == frame[3] && b[5] == frame[8]);
    let v = Walk { guest_addr: b[5], ..w.settled() };
    assert(v.next_free() == w.next_free());
    if frame[3] == 0 {
        assert(after.queue.drop_last() =~= w.queue);
    }
}

/// An assignment that was taken enters the board at the place where it was sought and has it probed
/// next; nothing else of the walk changes.
pub proof fn lemma_taken_assignment(w: Walk, frame: Seq<u8>)
    requires
        w.wf(),
        w.outstanding matches Some(t) && (t is AssignGateway || t is AssignNeighbor),
        w.queue.len() < 16,
        w.assigned.len() < 8,
        frame.len() >= 5,
        frame[0] == 7,
        frame[4] == 0,
        place_of(w.assigned, frame[3]) is None,
    ensures
        ({
            let after = w.replied(frame);
            let place = match w.outstanding->0 {
                Task::AssignNeighbor { relay, egress, .. } => Placed {
                    addr: frame[3],
                    relay,
                    egress,
                },
                _ => Placed { addr: frame[3], relay: 0, egress: 0xFF },
            };
            &&& after.assigned == w.assigned.push(place)
            &&& after.queue == w.queue.push(Task::Probe { addr: frame[3] })
            &&& after.outstanding is None
            &&& after.guest_addr == w.guest_addr && after.next_board == w.next_board
        }),
{
    assert(frame.skip(3)[0] == frame[3] && frame.skip(3)[1] == frame[4]);
}

/// What the entry of a port leads to, by what was found there. A board without an address is handed
/// one that is free, through the board that reported it. One with an address that the map does not
/// hold is entered under it, and probed. A guest, the way back, and a port that has shown nothing
/// lead to nothing.
pub proof fn lemma_port_entry(
    w: Walk,
    probed: u8,
    parent: Option<u8>,
    port: u8,
    state: u8,
    naddr: u8,
)
    requires
        w.wf(),
        w.queue.len() < 16,
        w.assigned.len() < 8,
    ensures
        ({
            let after = w.port_entry(probed, parent, port, state, naddr);
            let let_be = naddr >= 128 && naddr <= 254 || parent == Some(naddr);
            &&& state != 1 && state != 2 ==> after == w
            &&& state == 2 && let_be ==> after == w
            &&& state == 1 ==> {
                &&& after.assigned == w.assigned
                &&& after.queue.len() == w.queue.len() + 1
                &&& after.queue.drop_last() == w.queue
                &&& after.queue.last() matches Task::AssignNeighbor { relay, egress, new_addr }
                &&& relay == probed && egress == port && free(w.assigned, new_addr)
                &&& after.next_board as int == (new_addr + 1) % 256
            }
            &&& state == 2 && !let_be && place_of(w.assigned, naddr) is None ==> {
                &&& after.assigned == w.assigned.push(
                    Placed { addr: naddr, relay: probed, egress: port },
                )
                &&& after.queue == w.queue.push(Task::Probe { addr: naddr })
                &&& after.next_board == w.next_board
            }
            &&& after.outstanding == w.outstanding && after.guest_addr == w.guest_addr
        }),
{
    lemma_handed_out_is_free(w);
    let after = w.port_entry(probed, parent, port, state, naddr);
    if state == 1 {
        assert(after.queue.drop_last() =~= w.queue);
    }
}

/// Two boards found one after the other are never handed the same address.
pub proof fn lemma_successive_addresses_differ(w: Walk, probed: u8, parent: Option<u8>, p: u8, q: u8)
    requires
        w.wf(),
        w.queue.len() < 15,
        w.assigned.len() < 8,
    ensures
        ({
            let one = w.port_entry(probed, parent, p, 1, 0);
            let two = one.port_entry(probed, parent, q, 1, 0);
            &&& two.queue.len() == w.queue.len() + 2
            &&& two.queue[two.queue.len() - 2]->AssignNeighbor_new_addr != two.queue[two.queue.len()
                - 1]->AssignNeighbor_new_addr
        }),
{
    let one = w.port_entry(probed, parent, p, 1, 0);
    let first = w.next_free();
    let more = w.assigned.push(Placed { addr: first, relay: 0, egress: 0 });
    lemma_some_free(more);
    let other = choose|a: u8| free(more, a);
    lemma_place_of(more, other);
    lemma_place_of(w.assigned, other);
    assert(more[w.assigned.len() as int].addr == first);
    assert forall|i: int| 0 <= i < w.assigned.len() implies (#[trigger] w.assigned[i]).addr
        != other by {
        assert(more[i] == w.assigned[i]);
    }
    lemma_next_is_nearest(one, other);
}

/// A reply that is cut short does not count as one: the request stays outstanding.
pub proof fn lemma_short_reply(w: Walk, frame: Seq<u8>)
    requires
        w.outstanding matches Some(t) && {
            ||| frame.len() < 3
            ||| t is Hello && frame.len() < 9
            ||| (t is AssignGateway || t is AssignNeighbor) && frame.len() < 5
        },
    ensures
        w.replied(frame) == w,
{
}

/// A report settles the probe, whatever it holds; an empty one, or one without ports, leads to
/// nothing more.
pub proof fn lemma_report_settles(w: Walk, frame: Seq<u8>)
    requires
        w.outstanding matches Some(t) && t is Probe,
        frame.len() >= 3,
        frame[0] == 3,
    ensures
        w.replied(frame).outstanding is None,
        w.replied(frame).guest_addr == w.guest_addr,
        frame.len() == 3 || frame[3] == 0 ==> w.replied(frame) == (Walk { outstanding: None, ..w }),
{
    let b = frame.skip(3);
    let s = w.settled();
    let addr = w.outstanding->0->Probe_addr;
    if b.len() > 0 {
        lemma_entries_keep(s, addr, s.parent(addr), b, b[0] as int);
    }
}

proof fn lemma_entries_keep(w: Walk, probed: u8, parent: Option<u8>, b: Seq<u8>, n: int)
    ensures
        w.port_entries(probed, parent, b, n).outstanding == w.outstanding,
        w.port_entries(probed, parent, b, n).guest_addr == w.guest_addr,
    decreases n,
{
    if n > 0 {
        lemma_entries_keep(w, probed, parent, b, n - 1);
    }
}

/// The entries of a report are taken in order, four bytes each: port, kind, state, address. The kind
/// does not matter to the walk, and an entry that is not whole is passed over.
pub proof fn lemma_report_read(w: Walk, probed: u8, parent: Option<u8>, b: Seq<u8>, n: int)
    requires
        n >= 1,
    ensures
        b.len() >= 4 * n + 1 ==> w.port_entries(probed, parent, b, n) == w.port_entries(
            probed,
            parent,
            b,
            n - 1,
        ).port_entry(probed, parent, b[4 * n - 3], b[4 * n - 1], b[4 * n]),
        b.len() <= 4 * n ==> w.port_entries(probed, parent, b, n) == w.port_entries(
            probed,
            parent,
            b,
            n - 1,
        ),
        w.port_entries(probed, parent, b, 0) == w,
{
}

/// There is room for eight boards and sixteen steps; what does not fit is not taken up, and what is
/// known is not entered twice.
pub proof fn lemma_room(w: Walk, t: Task, p: Placed)
    ensures
        w.queue.len() < 16 ==> w.enqueued(t).queue == w.queue.push(t),
        w.queue.len() >= 16 ==> w.enqueued(t) == w,
        w.enqueued(t).assigned == w.assigned && w.enqueued(t).outstanding == w.outstanding,
        place_of(w.assigned, p.addr) is Some ==> w.recorded(p) == w,
        w.assigned.len() >= 8 ==> w.recorded(p) == w,
        place_of(w.assigned, p.addr) is None && w.assigned.len() < 8 ==> w.recorded(p).assigned
            == w.assigned.push(p),
        w.recorded(p).queue == w.queue && w.recorded(p).outstanding == w.outstanding,
{
}

/// The way back from a board is the one that it was reached through; the first board has none.
pub proof fn lemma_way_back(w: Walk, p: Placed)
    requires
        place_of(w.assigned, p.addr) == Some(p),
    ensures
        1 <= p.relay <= 254 ==> w.parent(p.addr) == Some(p.relay),
        p.relay == 0 || p.relay == 255 ==> w.parent(p.addr) is None,
{
}

/// A fresh controller makes first contact, as the first guest, with a blank map.
pub proof fn lemma_fresh_controller()
    ensures
        ({
            let w = Walk::first();
            &&& w.guest_addr == 0x80 && w.next_board == 1
            &&& w.assigned.len() == 0 && w.queue.len() == 1 && w.queue[0] == Task::Hello
            &&& w.outstanding is None && !w.complete()
        }),
        forall|w: Walk|
            #[trigger] w.complete() <==> w.queue.len() == 0 && w.outstanding is None,
{
}

} // verus!
