//! Learning and forwarding.

use hoverboard::net::forward::{Forwarder, RoutingTable};
use hoverboard::net::pdu::{Opcode, Pdu, BROADCAST, HEADER_LEN, NO_ADDRESS};
use std::collections::VecDeque;

// ---- routing-table unit checks ----

#[test]
fn learn_skips_no_address_and_broadcast() {
    let mut t = RoutingTable::new();
    t.learn(NO_ADDRESS, 2); // 0x00 is shared by many boards: never learned
    t.learn(BROADCAST, 2); // 0xFF is not a node
    assert_eq!(t.port_for(NO_ADDRESS), None);
    assert_eq!(t.port_for(BROADCAST), None);
    t.learn(0x05, 1);
    assert_eq!(t.port_for(0x05), Some(1));
    t.learn(0x90, 0); // a guest address is learnable
    assert_eq!(t.port_for(0x90), Some(0));
}

#[test]
fn learn_is_last_write_wins_so_a_rewire_is_relearned() {
    let mut t = RoutingTable::new();
    t.learn(0x05, 1);
    t.learn(0x05, 0); // the node moved: re-learn from the next frame
    assert_eq!(t.port_for(0x05), Some(0));
}

// ---- a multi-node mock mesh of L2-style links ----
//
// Each undirected link is two byte-frame queues (one per direction). A node port owns a (tx, rx)
// pair; the peer port owns the mirror. This is a datagram mock (each send delivers one whole PDU,
// as L2 would after reassembly), so the forwarding logic is exercised on whole PDUs.

type Queue = std::rc::Rc<std::cell::RefCell<VecDeque<Vec<u8>>>>;

#[derive(Clone)]
struct OwnedPdu {
    opcode: u8,
    src: u8,
    dst: u8,
    payload: Vec<u8>,
}
impl OwnedPdu {
    fn of(p: &Pdu) -> Self {
        OwnedPdu {
            opcode: p.opcode,
            src: p.src,
            dst: p.dst,
            payload: p.payload.to_vec(),
        }
    }
    fn bytes(&self) -> Vec<u8> {
        let pdu = Pdu {
            opcode: self.opcode,
            src: self.src,
            dst: self.dst,
            payload: &self.payload,
        };
        let mut out = vec![0u8; HEADER_LEN + self.payload.len()];
        let n = pdu.encode(&mut out).unwrap();
        out.truncate(n);
        out
    }
}

struct Port {
    tx: Queue,
    rx: Queue,
}

struct Node {
    fwd: Forwarder,
    ports: Vec<Port>,
    delivered: Vec<OwnedPdu>,
}

struct Mesh {
    nodes: Vec<Node>,
}

impl Mesh {
    /// Build `n` nodes with the given addresses; each gets `port_count` empty ports.
    fn new(addrs: &[u8], port_count: &[u8]) -> Self {
        let nodes = addrs
            .iter()
            .zip(port_count)
            .map(|(&a, &pc)| Node {
                fwd: Forwarder::new(a, pc),
                ports: Vec::new(),
                delivered: Vec::new(),
            })
            .collect();
        Mesh { nodes }
    }

    /// Wire `(node_a, port_a) <-> (node_b, port_b)` as a point-to-point link.
    fn link(&mut self, na: usize, pa: u8, nb: usize, pb: u8) {
        let a2b: Queue = Default::default();
        let b2a: Queue = Default::default();
        self.set_port(na, pa, a2b.clone(), b2a.clone());
        self.set_port(nb, pb, b2a, a2b);
    }

    fn set_port(&mut self, n: usize, p: u8, tx: Queue, rx: Queue) {
        let ports = &mut self.nodes[n].ports;
        while ports.len() <= p as usize {
            ports.push(Port {
                tx: Default::default(),
                rx: Default::default(),
            });
        }
        ports[p as usize] = Port { tx, rx };
    }

    /// Node `n` explicitly emits a PDU out one chosen `port` (the relay's directed forward: e.g.
    /// the walk's `ASSIGN` re-emitted with `dst` rewritten to `0x00`). Bypasses the routing table.
    fn send_out(&mut self, n: usize, port: u8, opcode: Opcode, dst: u8, payload: &[u8]) {
        let src = self.nodes[n].fwd.addr();
        let e = OwnedPdu {
            opcode: opcode.to_u8(),
            src,
            dst,
            payload: payload.to_vec(),
        };
        self.nodes[n].ports[port as usize]
            .tx
            .borrow_mut()
            .push_back(e.bytes());
    }

    /// Node `n` originates a PDU (the controller/source injecting the first frame).
    fn originate(&mut self, n: usize, opcode: Opcode, dst: u8, payload: &[u8]) {
        let src = self.nodes[n].fwd.addr();
        let pdu = Pdu::from_op(opcode, src, dst, payload);
        let e = OwnedPdu::of(&pdu);
        for port in self.nodes[n].fwd.originate(&pdu) {
            self.nodes[n].ports[port as usize]
                .tx
                .borrow_mut()
                .push_back(e.bytes());
        }
    }

    /// Run the firmware loop to quiescence: drain every port, ingest, route emissions onto the
    /// wires, repeat until no frame moves. A pump cap guards against a non-terminating flood (a
    /// loop on a tree would be a bug; the cap turns it into a test failure, not a hang).
    fn pump(&mut self) {
        for _ in 0..10_000 {
            let mut moved = false;
            for n in 0..self.nodes.len() {
                for p in 0..self.nodes[n].ports.len() as u8 {
                    loop {
                        let frame = self.nodes[n].ports[p as usize].rx.borrow_mut().pop_front();
                        let Some(frame) = frame else { break };
                        moved = true;
                        let pdu = Pdu::decode(&frame).unwrap();
                        let e = OwnedPdu::of(&pdu);
                        let routed = self.nodes[n].fwd.ingest(p, &pdu);
                        if routed.deliver {
                            self.nodes[n].delivered.push(e.clone());
                        }
                        for port in routed.ports {
                            self.nodes[n].ports[port as usize]
                                .tx
                                .borrow_mut()
                                .push_back(e.bytes());
                        }
                    }
                }
            }
            if !moved {
                return;
            }
        }
        panic!("mesh did not quiesce: a flood looped (not a tree?)");
    }

    fn delivered(&self, n: usize) -> &[OwnedPdu] {
        &self.nodes[n].delivered
    }
}

// A 3-node line: 0 (addr 0x80, controller) -p0-p0- 1 (0x01) -p1-p0- 2 (0x02).
fn line() -> Mesh {
    let mut m = Mesh::new(&[0x80, 0x01, 0x02], &[1, 2, 1]);
    m.link(0, 0, 1, 0); // node0.port0 <-> node1.port0
    m.link(1, 1, 2, 0); // node1.port1 <-> node2.port0
    m
}

#[test]
fn unknown_dst_floods_reaches_far_node_then_reply_unicasts() {
    let mut m = line();
    // Node 0 -> node 2 (addr 0x02), unknown route: floods. On a line it reaches node 2 exactly once.
    m.originate(0, Opcode::ConfigRead, 0x02, &[0xAA]);
    m.pump();
    assert_eq!(m.delivered(2).len(), 1);
    assert_eq!(m.delivered(2)[0].opcode, Opcode::ConfigRead.to_u8());
    assert_eq!(m.delivered(2)[0].src, 0x80);

    // Every node on the path learned the source's direction.
    assert_eq!(m.nodes[1].fwd.port_toward(0x80), Some(0)); // node1 learned controller out port0
    assert_eq!(m.nodes[2].fwd.port_toward(0x80), Some(0)); // node2 learned controller out port0

    // Node 2 replies to the controller: it already learned 0x80, so this is a UNICAST, not a flood.
    m.originate(2, Opcode::ConfigResp, 0x80, &[0xBB]);
    m.pump();
    assert_eq!(m.delivered(0).len(), 1);
    assert_eq!(m.delivered(0)[0].src, 0x02);

    // The reply taught node 1 and the controller node 2's direction.
    assert_eq!(m.nodes[1].fwd.port_toward(0x02), Some(1));
    assert_eq!(m.nodes[0].fwd.port_toward(0x02), Some(0));
}

#[test]
fn once_learned_a_unicast_is_relayed_without_flooding() {
    let mut m = line();
    // Prime the tables: a round-trip so node 0 learns 0x02 and node 1 learns both.
    m.originate(0, Opcode::ConfigRead, 0x02, &[0x01]);
    m.pump();
    m.originate(2, Opcode::ConfigResp, 0x80, &[0x02]);
    m.pump();

    // Now node 0 -> node 2 again: node 0 knows the route, so it unicasts out port 0; node 1 relays
    // out its learned port 1. Node 2 gets exactly one delivery; node 1 never delivers (not for it).
    let before2 = m.delivered(2).len();
    let before1 = m.delivered(1).len();
    m.originate(0, Opcode::ConfigRead, 0x02, &[0x03]);
    m.pump();
    assert_eq!(m.delivered(2).len(), before2 + 1);
    assert_eq!(m.delivered(1).len(), before1); // relayed, never delivered to the relay
    assert_eq!(m.delivered(2).last().unwrap().payload, &[0x03]);
}

#[test]
fn flood_is_converted_to_unicast_at_the_first_knowing_node() {
    // The headline "stops at the first node that already knows Y" mechanism, made explicit. A line
    //   0 (0x80) -p0-p0- 1 (0x01) -p1-p0- 2 (0x02) -p1-p0- 3 (0x03)
    // where the relay node 2 ALSO has a dead-end leaf  2 -p2-p0- 4 (0x04).
    // Node 2 alone has learned 0x03 (from prior 0x03->0x02 traffic that stopped at node 2). When a
    // flood for 0x03 reaches node 2, it must UNICAST out the known port - not flood - so the leaf
    // (node 4) never sees the frame. The leaf is what makes flood vs unicast observable on a line.
    let mut m = Mesh::new(&[0x80, 0x01, 0x02, 0x03, 0x04], &[1, 2, 3, 1, 1]);
    m.link(0, 0, 1, 0);
    m.link(1, 1, 2, 0);
    m.link(2, 1, 3, 0);
    m.link(2, 2, 4, 0); // the dead-end leaf off the relay

    // Prime ONLY node 2 with 0x03's direction: node 3 talks to node 2; the frame is delivered at
    // node 2 and goes no further, so nodes 0/1/4 never learn 0x03.
    m.originate(3, Opcode::ConfigResp, 0x02, &[0x01]);
    m.pump();
    assert_eq!(m.nodes[2].fwd.port_toward(0x03), Some(1)); // node 2 knows 0x03 out port 1
    assert_eq!(m.nodes[1].fwd.port_toward(0x03), None); // node 1 does NOT
    assert_eq!(m.nodes[0].fwd.port_toward(0x03), None); // controller does NOT
    assert!(m.delivered(4).is_empty()); // the leaf saw nothing from the priming

    // Now the controller floods for 0x03 (it does not know the route). node 1 floods onward; node 2
    // KNOWS 0x03 and converts the flood to a unicast out port 1.
    let node2_before = m.delivered(2).len(); // node 2 already holds the priming frame (dst 0x02)
    m.originate(0, Opcode::ConfigRead, 0x03, &[0xAA]);
    m.pump();

    assert_eq!(m.delivered(3).len(), 1); // reached the destination
    assert_eq!(m.delivered(3)[0].src, 0x80);
    assert_eq!(m.delivered(2).len(), node2_before); // node 2 relayed the 0x03 frame, never delivered it
                                                    // The proof it was a UNICAST at node 2, not a flood: the leaf off node 2 got nothing. A flood
                                                    // would have emitted out port 2 (split-horizon only excludes the ingress port 0) and hit it.
    assert!(m.delivered(4).is_empty());
}

#[test]
fn flood_does_not_loop_on_a_tree() {
    // A branching tree (a hub with two leaves plus a chain) and a flood for a never-heard address.
    // The pump cap would fire (panic) if the flood looped; reaching quiescence proves it does not.
    //   node0 (0x80) p0 - p0 node1 (0x01) p1 - p0 node2 (0x02)
    //                              node1 p2 - p0 node3 (0x03)
    let mut m = Mesh::new(&[0x80, 0x01, 0x02, 0x03], &[1, 3, 1, 1]);
    m.link(0, 0, 1, 0);
    m.link(1, 1, 2, 0);
    m.link(1, 2, 3, 0);

    // Flood for 0x7F, which exists nowhere: it must fan out, hit every leaf once, and stop.
    m.originate(0, Opcode::ConfigRead, 0x7F, &[0xEE]);
    m.pump(); // returns iff the flood terminated (no loop)

    // Nobody delivered it (no such node), and no node saw it twice (split-horizon on a tree).
    for n in 0..4 {
        assert!(m.delivered(n).is_empty());
    }
}

#[test]
fn directed_dst_zero_is_delivered_to_the_one_peer() {
    // The walk's directed-ASSIGN hop: a relay (node 0) emits out its egress port a frame with dst
    // rewritten to 0x00; the one peer (node 1) takes it locally regardless of its own address
    // (here unassigned, 0x00). An originator never loopbacks a 0x00 frame to itself.
    let mut m = Mesh::new(&[0x01, 0x00], &[1, 1]);
    m.link(0, 0, 1, 0);
    m.send_out(0, 0, Opcode::Assign, NO_ADDRESS, &[0x02]);
    m.pump();
    assert_eq!(m.delivered(1).len(), 1);
    assert_eq!(m.delivered(1)[0].dst, NO_ADDRESS);
    // Node 1 still learned the sender (src 0x01) so its reply can route back.
    assert_eq!(m.nodes[1].fwd.port_toward(0x01), Some(0));
}

#[test]
fn table_matches_the_wiring_after_a_full_exchange() {
    let mut m = line();
    m.originate(0, Opcode::ConfigRead, 0x02, &[1]);
    m.pump();
    m.originate(2, Opcode::ConfigResp, 0x80, &[2]);
    m.pump();
    // node1 is the relay: controller out port0, node2 out port1 - exactly the wiring.
    assert_eq!(m.nodes[1].fwd.port_toward(0x80), Some(0));
    assert_eq!(m.nodes[1].fwd.port_toward(0x02), Some(1));
    // leaves point upstream out their single port.
    assert_eq!(m.nodes[2].fwd.port_toward(0x80), Some(0));
    assert_eq!(m.nodes[0].fwd.port_toward(0x02), Some(0));
}

#[test]
fn cleared_routes_are_forgotten() {
    let mut f = Forwarder::new(0x01, 3);
    let routed = f.ingest(2, &Pdu::from_op(Opcode::Ports, 0x05, 0x09, &[]));
    assert!(!routed.deliver);
    assert_eq!(routed.ports, vec![0, 1], "an unknown destination is flooded, but not back");
    assert_eq!(f.port_toward(0x05), Some(2));
    assert_eq!(f.originate(&Pdu::from_op(Opcode::Ports, 0x01, 0x05, &[])), vec![2]);
    f.clear_routes();
    assert_eq!(f.port_toward(0x05), None);
    assert_eq!(f.originate(&Pdu::from_op(Opcode::Ports, 0x01, 0x05, &[])), vec![0, 1, 2]);
    f.set_addr(0x09);
    assert_eq!(f.addr(), 0x09);
    assert_eq!(f.n_ports(), 3);
    let routed = f.ingest(2, &Pdu::from_op(Opcode::Ports, 0x05, 0x09, &[]));
    assert!(routed.deliver);
    assert!(routed.ports.is_empty());
}
