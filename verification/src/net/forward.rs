//! Source-learned multi-hop forwarding: what a transparent switch does for its addresses, on a
//! tree of any depth.
//!
//! - Learn from the source: a frame from `src` that came in on port P shows that `src` is reached
//!   out of P. `0x00` and `0xFF` are never learned.
//! - Forward by the table: deliver what is for this node, send what has a learned port out of it,
//!   and flood the rest out of every port but the one it came in on.
//!
//! A PDU carries no hop count. On a tree, split horizon alone keeps a flood finite. The table is
//! soft state: it is learned again from traffic after a reboot.

use crate::net::pdu;
use crate::net::pdu::{Pdu, BROADCAST, NO_ADDRESS};
use vstd::prelude::*;

verus! {

/// The table entry that means "direction unknown".
pub const NO_PORT: u8 = 0xFF;

/// The `address -> port` routing table: one byte per address.
pub struct RoutingTable {
    port_toward: [u8; 256],
}

impl View for RoutingTable {
    type V = Seq<u8>;

    /// The entry of every address.
    closed spec fn view(&self) -> Seq<u8> {
        self.port_toward@
    }
}

impl RoutingTable {
    /// There is an entry for every address.
    pub proof fn lemma_one_entry_per_address(&self)
        ensures
            self@.len() == 256,
    {
    }
}

/// The learned port of an entry.
pub open spec fn port_of(entry: u8) -> Option<u8> {
    if entry == NO_PORT {
        None
    } else {
        Some(entry)
    }
}

/// The table after a frame from `src` came in on `ingress`.
pub open spec fn learned(table: Seq<u8>, src: u8, ingress: u8) -> Seq<u8> {
    if pdu::unicast(src) {
        table.update(src as int, ingress)
    } else {
        table
    }
}

/// A table in which nothing is learned.
pub open spec fn blank() -> Seq<u8> {
    Seq::new(256, |i: int| NO_PORT)
}

impl RoutingTable {
    /// A fresh table: every address unknown.
    pub fn new() -> (t: Self)
        ensures
            t@ == blank(),
    {
        let t = RoutingTable { port_toward: [NO_PORT; 256] };
        assert(t@ =~= blank());
        t
    }

    /// Learns that `src` is reached out of `ingress`. Nothing happens for an address that is not
    /// routable.
    pub fn learn(&mut self, src: u8, ingress: u8)
        ensures
            old(self)@.len() == 256,
            final(self)@ == learned(old(self)@, src, ingress),
    {
        if pdu::is_unicast(src) {
            self.port_toward[src as usize] = ingress;
        }
        assert(self@ =~= learned(old(self)@, src, ingress));
    }

    /// The learned port toward `dst`.
    pub fn port_for(&self, dst: u8) -> (p: Option<u8>)
        ensures
            self@.len() == 256,
            p == port_of(self@[dst as int]),
    {
        let p: u8 = self.port_toward[dst as usize];
        if p == NO_PORT {
            None
        } else {
            Some(p)
        }
    }

    /// Forgets all routes.
    pub fn clear(&mut self)
        ensures
            final(self)@ == blank(),
    {
        self.port_toward = [NO_PORT; 256];
        assert(self@ =~= blank());
    }
}

impl Default for RoutingTable {
    fn default() -> (t: Self)
        ensures
            t@ == blank(),
    {
        RoutingTable::new()
    }
}

/// The ports `0..n` but for `ingress`, in order.
pub open spec fn flood_ports(n: nat, ingress: Option<u8>) -> Seq<u8>
    decreases n,
{
    if n == 0 {
        Seq::empty()
    } else {
        let before = flood_ports((n - 1) as nat, ingress);
        if ingress == Some((n - 1) as u8) {
            before
        } else {
            before.push((n - 1) as u8)
        }
    }
}

/// What is done with a PDU for `dst` at a node with address `addr` that came in on `ingress`, or
/// that starts here: whether it is delivered, and the ports it goes out of.
pub open spec fn route(
    addr: u8,
    n_ports: u8,
    table: Seq<u8>,
    ingress: Option<u8>,
    dst: u8,
) -> (bool, Seq<u8>) {
    if ingress is Some && dst == NO_ADDRESS {
        // The one peer on the link it came in on.
        (true, Seq::empty())
    } else if dst == addr && addr != NO_ADDRESS {
        (true, Seq::empty())
    } else if dst == BROADCAST {
        (ingress is Some, flood_ports(n_ports as nat, ingress))
    } else {
        match port_of(table[dst as int]) {
            Some(p) => (
                false,
                if Some(p) == ingress {
                    Seq::empty()
                } else {
                    seq![p]
                },
            ),
            None => (false, flood_ports(n_ports as nat, ingress)),
        }
    }
}

/// What to do with a PDU: it goes on unchanged out of each of `ports`.
pub struct Routed {
    /// Whether the PDU is for this node.
    pub deliver: bool,
    /// The ports to send it out of.
    pub ports: Vec<u8>,
}

/// The forwarding engine of one node: its address, its port count, and the routing table.
pub struct Forwarder {
    addr: u8,
    n_ports: u8,
    table: RoutingTable,
}

impl Forwarder {
    /// The address of this node.
    pub closed spec fn address(&self) -> u8 {
        self.addr
    }

    /// The number of local ports.
    pub closed spec fn port_count(&self) -> u8 {
        self.n_ports
    }

    /// The entries of the routing table.
    pub closed spec fn routes(&self) -> Seq<u8> {
        self.table@
    }

    /// There is an entry for every address.
    pub proof fn lemma_one_entry_per_address(&self)
        ensures
            self.routes().len() == 256,
    {
        self.table.lemma_one_entry_per_address();
    }

    /// A node with address `addr` (`0x00` until assigned) and `n_ports` local ports.
    pub fn new(addr: u8, n_ports: u8) -> (f: Self)
        ensures
            f.address() == addr,
            f.port_count() == n_ports,
            f.routes() == blank(),
    {
        Forwarder { addr, n_ports, table: RoutingTable::new() }
    }

    /// The address of this node.
    pub fn addr(&self) -> (a: u8)
        ensures
            a == self.address(),
    {
        self.addr
    }

    /// The number of local ports.
    pub fn n_ports(&self) -> (n: u8)
        ensures
            n == self.port_count(),
    {
        self.n_ports
    }

    /// Sets the address of this node.
    pub fn set_addr(&mut self, addr: u8)
        ensures
            final(self).address() == addr,
            final(self).port_count() == old(self).port_count(),
            final(self).routes() == old(self).routes(),
    {
        self.addr = addr;
    }

    /// The learned port toward `dst`.
    pub fn port_toward(&self, dst: u8) -> (p: Option<u8>)
        ensures
            self.routes().len() == 256,
            p == port_of(self.routes()[dst as int]),
    {
        self.table.port_for(dst)
    }

    /// Forgets all routes. The address stays.
    pub fn clear_routes(&mut self)
        ensures
            final(self).address() == old(self).address(),
            final(self).port_count() == old(self).port_count(),
            final(self).routes() == blank(),
    {
        self.table.clear();
    }

    /// Takes a PDU that came in on `ingress`: learns its source, then decides.
    pub fn ingest(&mut self, ingress: u8, pdu: &Pdu) -> (r: Routed)
        ensures
            final(self).address() == old(self).address(),
            final(self).port_count() == old(self).port_count(),
            old(self).routes().len() == 256,
            final(self).routes() == learned(old(self).routes(), pdu.src, ingress),
            (r.deliver, r.ports@) == route(
                old(self).address(),
                old(self).port_count(),
                final(self).routes(),
                Some(ingress),
                pdu.dst,
            ),
    {
        self.table.learn(pdu.src, ingress);
        self.decide(Some(ingress), pdu)
    }

    /// Sends a PDU from this node: nothing is learned, and no port is left out. Returns the ports
    /// to send it out of.
    pub fn originate(&self, pdu: &Pdu) -> (ports: Vec<u8>)
        ensures
            self.routes().len() == 256,
            ports@ == route(
                self.address(),
                self.port_count(),
                self.routes(),
                None,
                pdu.dst,
            ).1,
    {
        self.decide(None, pdu).ports
    }

    fn decide(&self, ingress: Option<u8>, pdu: &Pdu) -> (r: Routed)
        ensures
            (r.deliver, r.ports@) == route(
                self.address(),
                self.port_count(),
                self.routes(),
                ingress,
                pdu.dst,
            ),
    {
        let dst: u8 = pdu.dst;
        if ingress.is_some() && dst == NO_ADDRESS {
            return Routed { deliver: true, ports: Vec::new() };
        }
        if dst == self.addr && self.addr != NO_ADDRESS {
            return Routed { deliver: true, ports: Vec::new() };
        }
        if dst == BROADCAST {
            return Routed { deliver: ingress.is_some(), ports: self.flood(ingress) };
        }
        match self.table.port_for(dst) {
            Some(p) => {
                let mut ports: Vec<u8> = Vec::new();
                let back = match ingress {
                    Some(i) => i == p,
                    None => false,
                };
                if !back {
                    ports.push(p);
                    assert(ports@ =~= seq![p]);
                }
                Routed { deliver: false, ports }
            },
            None => Routed { deliver: false, ports: self.flood(ingress) },
        }
    }

    fn flood(&self, ingress: Option<u8>) -> (ports: Vec<u8>)
        ensures
            ports@ == flood_ports(self.port_count() as nat, ingress),
    {
        let mut ports: Vec<u8> = Vec::new();
        let mut p: u8 = 0;
        while p < self.n_ports
            invariant
                p <= self.n_ports,
                ports@ == flood_ports(p as nat, ingress),
            decreases self.n_ports - p,
        {
            let back = match ingress {
                Some(i) => i == p,
                None => false,
            };
            if !back {
                ports.push(p);
            }
            p += 1;
        }
        ports
    }
}

/// A flood goes out of every port but the one it came in on, once each, in order.
pub proof fn lemma_flood_ports(n: nat, ingress: Option<u8>)
    requires
        n <= 256,
    ensures
        forall|p: u8|
            flood_ports(n, ingress).contains(p) <==> p < n && Some(p) != ingress,
        forall|i: int, j: int|
            0 <= i < j < flood_ports(n, ingress).len() ==> flood_ports(n, ingress)[i] < flood_ports(
                n,
                ingress,
            )[j],
    decreases n,
{
    if n > 0 {
        let before = flood_ports((n - 1) as nat, ingress);
        let now = flood_ports(n, ingress);
        lemma_flood_ports((n - 1) as nat, ingress);
        assert forall|i: int| 0 <= i < before.len() implies before[i] < n - 1 by {
            assert(before.contains(before[i]));
        }
        assert forall|p: u8| now.contains(p) <==> p < n && Some(p) != ingress by {
            if ingress != Some((n - 1) as u8) {
                assert(now[before.len() as int] == (n - 1) as u8);
                if before.contains(p) {
                    let i = choose|i: int| 0 <= i < before.len() && before[i] == p;
                    assert(now[i] == p);
                }
                if now.contains(p) {
                    let i = choose|i: int| 0 <= i < now.len() && now[i] == p;
                    if i < before.len() {
                        assert(before[i] == p);
                    }
                }
            }
        }
    }
}

/// A learned entry is found again, and no other changes.
pub proof fn lemma_learned_is_found(table: Seq<u8>, src: u8, ingress: u8, dst: u8)
    requires
        table.len() == 256,
        pdu::unicast(src),
    ensures
        port_of(learned(table, src, ingress)[dst as int]) == (if dst == src {
            port_of(ingress)
        } else {
            port_of(table[dst as int])
        }),
{
}

/// Split horizon: nothing goes back out of the port it came in on.
pub proof fn lemma_split_horizon(addr: u8, n_ports: u8, table: Seq<u8>, ingress: u8, dst: u8)
    ensures
        !route(addr, n_ports, table, Some(ingress), dst).1.contains(ingress),
{
    lemma_flood_ports(n_ports as nat, Some(ingress));
}

/// A reply goes back the way the request came: once a frame from `src` has been learned, whatever
/// this node sends to `src` leaves by the port the frame came in on, and by no other.
pub proof fn lemma_reply_route(addr: u8, n_ports: u8, table: Seq<u8>, src: u8, ingress: u8)
    requires
        table.len() == 256,
        pdu::unicast(src),
        src != addr,
        ingress != NO_PORT,
    ensures
        route(addr, n_ports, learned(table, src, ingress), None, src) == (false, seq![ingress]),
{
}

/// A flood ends at the first node that knows the destination: such a node sends the frame out of
/// one port at most.
pub proof fn lemma_known_route_is_unicast(
    addr: u8,
    n_ports: u8,
    table: Seq<u8>,
    ingress: Option<u8>,
    dst: u8,
)
    requires
        dst != BROADCAST,
        port_of(table[dst as int]) is Some,
    ensures
        route(addr, n_ports, table, ingress, dst).1.len() <= 1,
{
}

/// Addresses that are not routable never enter the table.
pub proof fn lemma_only_unicast_learned(table: Seq<u8>, src: u8, ingress: u8)
    requires
        table.len() == 256,
        table[NO_ADDRESS as int] == NO_PORT,
        table[BROADCAST as int] == NO_PORT,
    ensures
        learned(table, src, ingress)[NO_ADDRESS as int] == NO_PORT,
        learned(table, src, ingress)[BROADCAST as int] == NO_PORT,
{
}

/// A wiring of nodes: which port of which node is at the other end of the link on a port.
pub type Wiring = spec_fn(int, u8) -> Option<(int, u8)>;

/// The wiring is a tree: `up` gives each node the port toward the root, of which the root has
/// none; every link joins a port toward the root with one that is not, one level apart.
pub open spec fn is_tree(wire: Wiring, up: spec_fn(int) -> Option<u8>, depth: spec_fn(int) -> nat) -> bool {
    forall|n: int, p: u8|
        (#[trigger] wire(n, p)) matches Some((m, q)) ==> if up(n) == Some(p) {
            up(m) != Some(q) && depth(m) + 1 == depth(n)
        } else {
            up(m) == Some(q) && depth(m) == depth(n) + 1
        }
}

/// A frame for some destination comes in at `node` on port `ingress`, where the node has the
/// given address, ports and table, and this copy of it leaves by `exit`.
pub struct Hop {
    pub node: int,
    pub ingress: u8,
    pub addr: u8,
    pub n_ports: u8,
    pub table: Seq<u8>,
    pub exit: u8,
}

/// The path of one copy of a frame for `dst`: at each node but the last it leaves by a port that
/// the routing of that node sends it out of, and comes in at the other end of the link.
pub open spec fn is_path(wire: Wiring, path: Seq<Hop>, dst: u8) -> bool {
    forall|i: int|
        0 <= i < path.len() - 1 ==> {
            let h = #[trigger] path[i];
            &&& route(h.addr, h.n_ports, h.table, Some(h.ingress), dst).1.contains(h.exit)
            &&& wire(h.node, h.exit) == Some((path[i + 1].node, path[i + 1].ingress))
        }
}

/// On a tree, forwarding cannot loop: whatever the nodes have learned, the path of any copy of a
/// frame first climbs and then only descends, so it is no longer than the way to the root and down
/// to the deepest node.
pub proof fn lemma_no_loop_on_a_tree(
    wire: Wiring,
    up: spec_fn(int) -> Option<u8>,
    depth: spec_fn(int) -> nat,
    deepest: nat,
    path: Seq<Hop>,
    dst: u8,
)
    requires
        is_tree(wire, up, depth),
        forall|n: int| #[trigger] depth(n) <= deepest,
        is_path(wire, path, dst),
        path.len() > 0,
    ensures
        path.len() <= depth(path[0].node) + deepest + 1,
{
    lemma_path_bound(wire, up, depth, deepest, path, dst, path.len() - 1);
}

/// The bound on the first `k` hops of a path: while it climbs, every hop takes it one level up;
/// once it has come in from above it goes one level down with every hop.
proof fn lemma_path_bound(
    wire: Wiring,
    up: spec_fn(int) -> Option<u8>,
    depth: spec_fn(int) -> nat,
    deepest: nat,
    path: Seq<Hop>,
    dst: u8,
    k: int,
)
    requires
        is_tree(wire, up, depth),
        forall|n: int| #[trigger] depth(n) <= deepest,
        is_path(wire, path, dst),
        0 <= k < path.len(),
    ensures
        k > 0 && up(path[k].node) != Some(path[k].ingress) ==> depth(path[k].node) + k == depth(
            path[0].node,
        ),
        k > 0 && up(path[k].node) == Some(path[k].ingress) ==> k <= depth(path[0].node) + depth(
            path[k].node,
        ),
        k <= depth(path[0].node) + deepest,
    decreases k,
{
    if k > 0 {
        lemma_path_bound(wire, up, depth, deepest, path, dst, k - 1);
        let h = path[k - 1];
        assert(wire(h.node, h.exit) == Some((path[k].node, path[k].ingress)));
        lemma_split_horizon(h.addr, h.n_ports, h.table, h.ingress, dst);
        assert(h.exit != h.ingress);
        assert(depth(path[k].node) <= deepest);
    }
}

/// Where a frame goes: this node takes what is addressed to it, to "the one peer" or to everyone,
/// and sends on what is for everyone or for a node it knows no way to, out of every port but the
/// one it came in on, and what it knows the way to by that way alone, unless it came from there.
pub proof fn lemma_route(
    addr: u8,
    n_ports: u8,
    table: Seq<u8>,
    ingress: Option<u8>,
    dst: u8,
    port: u8,
)
    requires
        addr != BROADCAST,
    ensures
        ({
            let (deliver, ports) = route(addr, n_ports, table, ingress, dst);
            let mine = (dst == addr && addr != 0) || (dst == 0 && ingress is Some);
            let known = dst != 0xFF && table[dst as int] != 0xFF;
            &&& deliver <==> mine || (dst == 0xFF && ingress is Some)
            &&& mine ==> ports.len() == 0
            &&& !mine && !known ==> (ports.contains(port) <==> port < n_ports && ingress != Some(port))
            &&& !mine && known ==> (ports.contains(port) <==> port == table[dst as int] && ingress
                != Some(port))
            &&& forall|i: int, j: int| 0 <= i < j < ports.len() ==> ports[i] != ports[j]
        }),
{
    lemma_flood_ports(n_ports as nat, ingress);
    let p = table[dst as int];
    assert(seq![p][0] == p);
    assert(seq![p].contains(p));
}

} // verus!
