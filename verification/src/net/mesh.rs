//! The discovery walk as a whole: a controller, a tree of boards with their stores, and the frames
//! on the links between them.
//!
//! The parts are those of the controller and of the boards; what is added here is the wiring, and
//! that every frame that is sent arrives, at some time and in any order. The law is that the walk
//! then ends, with every board addressed. What a walk does where all boards are addressed already is
//! in [`again`].

use crate::net::controller;
use crate::net::controller::{Placed, Task, Walk, MAX_NODES, MAX_TASKS};
use crate::net::forward;
use crate::net::pdu;
use crate::net::pdu::{Opcode, NO_ADDRESS};
use crate::net::protocol;
use crate::net::protocol::{Settled, Store};
use crate::net::walk;
use crate::net::walk::{
    Board, EGRESS_SELF, KIND_CONTROLLER, KIND_PROBE, MAX_PDU, MAX_PORTS, NB_ASSIGNED,
    NB_EMPTY, NB_UNASSIGNED, PROTO_VER, STATUS_OK,
};
use vstd::prelude::*;

pub mod again;

verus! {

/// A tree of boards below a controller. The boards are numbered from 0, the one that the controller
/// is attached to, and every other comes after the one above it. The controller is number -1.
pub struct Tree {
    /// The number of the node above each board.
    pub above: Seq<int>,
    /// The port of that node on which the board sits. The one port of the controller is 0.
    pub at: Seq<u8>,
    /// The port of the board toward that node.
    pub up: Seq<u8>,
    /// The number of ports of the board.
    pub ports: Seq<u8>,
}

impl Tree {
    /// The number of boards.
    pub open spec fn len(self) -> nat {
        self.above.len()
    }

    /// `v` is a board.
    pub open spec fn has(self, v: int) -> bool {
        0 <= v < self.len()
    }

    /// Board `c` sits on port `p` of node `v`.
    pub open spec fn sits(self, c: int, v: int, p: u8) -> bool {
        self.has(c) && self.above[c] == v && self.at[c] == p
    }

    /// It is a tree, no larger than the map of the controller, of boards with as many ports as a
    /// board can have, and no port has two links on it.
    pub open spec fn wf(self) -> bool {
        &&& 1 <= self.len() <= MAX_NODES
        &&& self.at.len() == self.len()
        &&& self.up.len() == self.len()
        &&& self.ports.len() == self.len()
        &&& self.above[0] == -1
        &&& self.at[0] == 0
        &&& forall|v: int| 1 <= v < self.len() ==> 0 <= (#[trigger] self.above[v]) < v
        &&& forall|v: int|
            self.has(v) ==> self.up[v] < (#[trigger] self.ports[v]) <= MAX_PORTS
        &&& forall|v: int|
            1 <= v < self.len() ==> (#[trigger] self.at[v]) < self.ports[self.above[v]]
                && self.at[v] != self.up[self.above[v]]
        &&& forall|v: int, w: int|
            1 <= v < w < self.len() && self.above[v] == self.above[w] ==> (#[trigger] self.at[v])
                != (#[trigger] self.at[w])
    }

    /// The board on port `p` of node `v`, below it.
    pub open spec fn child(self, v: int, p: u8) -> Option<int> {
        if exists|c: int| self.sits(c, v, p) {
            Some(choose|c: int| self.sits(c, v, p))
        } else {
            None
        }
    }

    /// The node and its port at the other end of the link on port `p` of node `v`.
    pub open spec fn far(self, v: int, p: u8) -> Option<(int, u8)> {
        if self.has(v) && p == self.up[v] {
            Some((self.above[v], self.at[v]))
        } else {
            match self.child(v, p) {
                Some(c) => Some((c, self.up[c])),
                None => None,
            }
        }
    }

    /// Board `v` is below node `u`.
    pub open spec fn below(self, u: int, v: int) -> bool
        decreases v + 1,
    {
        self.has(v) && u < v && -1 <= self.above[v] < v && (self.above[v] == u || self.below(
            u,
            self.above[v],
        ))
    }

    /// The board next to `u` on the way down to `v`.
    pub open spec fn via(self, u: int, v: int) -> int
        decreases v + 1,
    {
        if self.has(v) && -1 <= self.above[v] < v && self.above[v] != u {
            self.via(u, self.above[v])
        } else {
            v
        }
    }
}

/// A frame on its way to `port` of `node`.
pub struct Flight {
    pub node: int,
    pub port: u8,
    pub frame: Seq<u8>,
}

/// The controller, the boards and their stores, and the frames on their way.
pub struct Mesh {
    pub walk: Walk,
    pub boards: Seq<Board>,
    pub stores: Seq<Store>,
    pub flying: Seq<Flight>,
}

/// What can happen.
pub enum Event {
    /// The controller sends the request of its next step.
    Request,
    /// A frame arrives.
    Deliver { i: int },
    /// A board has waited long enough for the answers to its probes: no frame is on its way.
    Elapse { v: int },
}

/// The frames that node `v` has sent, on their way. What goes out of a port with no link is lost.
pub open spec fn arrivals(t: Tree, v: int, emits: Seq<(u8, Seq<u8>)>) -> Seq<Flight>
    decreases emits.len(),
{
    if emits.len() == 0 {
        Seq::empty()
    } else {
        let before = arrivals(t, v, emits.drop_last());
        match t.far(v, emits.last().0) {
            Some((node, port)) => before.push(Flight { node, port, frame: emits.last().1 }),
            None => before,
        }
    }
}

impl Mesh {
    /// Board `v` and its store have come to rest, with more frames on their way.
    pub open spec fn with_board(self, t: Tree, v: int, s: Settled, flying: Seq<Flight>) -> Mesh {
        Mesh {
            boards: self.boards.update(v, s.board),
            stores: self.stores.update(v, s.store),
            flying: flying + arrivals(t, v, walk::appended(Seq::empty(), s.emits)),
            ..self
        }
    }

    /// The request of the next step of the walk is sent.
    pub open spec fn asked(self, t: Tree) -> Mesh {
        let step = self.walk.queue[0];
        Mesh {
            walk: Walk { queue: self.walk.queue.skip(1), outstanding: Some(step), ..self.walk },
            flying: self.flying + arrivals(t, -1, seq![(0u8, self.walk.request(step))]),
            ..self
        }
    }

    /// Frame `i` of those on their way arrives. The controller answers a board that probes it, and
    /// takes any other frame for a reply. A board does what it does, with its store, to the end.
    pub open spec fn delivered(self, t: Tree, i: int) -> Mesh {
        let f = self.flying[i];
        let rest = self.flying.remove(i);
        if f.node != -1 {
            self.with_board(
                t,
                f.node,
                protocol::settled(
                    self.boards[f.node].ingests(f.port, f.frame),
                    self.stores[f.node],
                    MAX_PDU as nat,
                ),
                rest,
            )
        } else if f.frame.len() == 4 && f.frame[0] == Opcode::NodeHello.byte() {
            let answer = pdu::pdu_bytes(
                Opcode::NodeHello.byte(),
                self.walk.guest_addr,
                f.frame[1],
                seq![self.walk.guest_addr, PROTO_VER, 0, 0, 0, NO_ADDRESS],
            );
            Mesh { flying: rest + arrivals(t, -1, seq![(0u8, answer)]), ..self }
        } else {
            Mesh { walk: self.walk.replied(f.frame), flying: rest, ..self }
        }
    }

    /// Board `v` reports what its probes have shown.
    pub open spec fn elapsed(self, t: Tree, v: int) -> Mesh {
        let b = self.boards[v];
        self.with_board(
            t,
            v,
            Settled {
                board: Board { probe: None, ..b },
                store: self.stores[v],
                emits: b.originates(
                    Opcode::Ports.byte(),
                    b.addr,
                    b.probe->0.reply_to,
                    b.ports_payload(),
                ),
            },
            self.flying,
        )
    }

    /// The event can happen.
    pub open spec fn enabled(self, t: Tree, e: Event) -> bool {
        match e {
            Event::Request => self.walk.outstanding is None && self.walk.queue.len() > 0,
            Event::Deliver { i } => 0 <= i < self.flying.len(),
            Event::Elapse { v } => {
                t.has(v) && self.flying.len() == 0 && self.boards[v].probe is Some
            },
        }
    }

    /// The mesh after an event.
    pub open spec fn next(self, t: Tree, e: Event) -> Mesh {
        match e {
            Event::Request => self.asked(t),
            Event::Deliver { i } => self.delivered(t, i),
            Event::Elapse { v } => self.elapsed(t, v),
        }
    }

    /// A controller about to make first contact, and boards that have no address and wait for
    /// nothing. None of them is armed. What they have learned of routes, and what their stores
    /// hold, is of no account. The first board has a guest address to grant.
    pub open spec fn fresh(self, t: Tree) -> bool {
        &&& self.walk == Walk::first()
        &&& self.boards.len() == t.len()
        &&& self.stores.len() == t.len()
        &&& self.flying.len() == 0
        &&& pdu::controller(self.boards[0].guest_next)
        &&& forall|v: int|
            t.has(v) ==> idle_board(t, #[trigger] self.boards[v], v) && self.boards[v].addr
                == NO_ADDRESS && !self.boards[v].armed
    }

    /// Every board has an address that no other has, and waits for nothing.
    pub open spec fn named(self, t: Tree) -> bool {
        &&& self.boards.len() == t.len()
        &&& self.stores.len() == t.len()
        &&& forall|v: int|
            t.has(v) ==> idle_board(t, #[trigger] self.boards[v], v) && pdu::board(
                self.boards[v].addr,
            )
        &&& forall|v: int, w: int|
            t.has(v) && t.has(w) && v != w ==> (#[trigger] self.boards[v]).addr != (
            #[trigger] self.boards[w]).addr
    }

    /// Every board has learned the way to each board below it.
    pub open spec fn guided(self, t: Tree) -> bool {
        forall|u: int, v: int|
            #[trigger] t.below(u, v) && u >= 0 ==> self.boards[u].routes[self.boards[v].addr as int]
                == t.at[t.via(u, v)]
    }

    /// What a board has learned of the way to a board below it, if anything, is right.
    pub open spec fn unmisled(self, t: Tree) -> bool {
        forall|u: int, v: int|
            #[trigger] t.below(u, v) && u >= 0 ==> ({
                let r = self.boards[u].routes[self.boards[v].addr as int];
                r == t.at[t.via(u, v)] || r == forward::NO_PORT
            })
    }

    /// The walk is complete: no frame is on its way, and the map of the controller holds each board
    /// once, where it sits.
    pub open spec fn mapped(self, t: Tree) -> bool {
        &&& self.walk.complete()
        &&& self.flying.len() == 0
        &&& self.walk.assigned.len() == t.len()
        &&& forall|v: int|
            t.has(v) ==> self.walk.assigned.contains(#[trigger] self.place(t, v))
        &&& forall|i: int|
            0 <= i < self.walk.assigned.len() ==> self.is_place(t, #[trigger] self.walk.assigned[i])
    }

    /// The walk has come to its end: it is complete, every board has an address of its own, has
    /// persisted it, and knows the way to each board below it.
    pub open spec fn walked(self, t: Tree) -> bool {
        &&& self.mapped(t)
        &&& self.named(t)
        &&& self.guided(t)
        &&& forall|v: int|
            t.has(v) ==> (#[trigger] self.stores[v]).persisted() == seq![self.boards[v].addr]
    }

    /// The same boards with a controller about to make first contact.
    pub open spec fn attached(self) -> Mesh {
        Mesh { walk: Walk::first(), ..self }
    }

    /// The same after a power cycle: every board has forgotten its routes, and has read its address
    /// from its store.
    pub open spec fn rebooted(self) -> Mesh {
        Mesh {
            boards: Seq::new(
                self.boards.len(),
                |v: int|
                    Board {
                        addr: self.stores[v].persisted()[0],
                        routes: forward::blank(),
                        ..self.boards[v]
                    },
            ),
            ..self
        }
    }

    spec fn addr(self, v: int) -> u8 {
        self.boards[v].addr
    }

    /// A board sits there.
    pub open spec fn is_place(self, t: Tree, p: Placed) -> bool {
        exists|v: int| t.has(v) && p == #[trigger] self.place(t, v)
    }

    /// Where board `v` sits, by addresses.
    pub open spec fn place(self, t: Tree, v: int) -> Placed {
        if v == 0 {
            Placed { addr: self.boards[0].addr, relay: 0, egress: EGRESS_SELF }
        } else {
            Placed {
                addr: self.boards[v].addr,
                relay: self.boards[t.above[v]].addr,
                egress: t.at[v],
            }
        }
    }
}

/// Board `v` waits for nothing.
pub open spec fn idle_board(t: Tree, b: Board, v: int) -> bool {
    &&& b.wf()
    &&& b.n_ports == t.ports[v]
    &&& b.probe is None
    &&& b.job is None
}

/// What happens, one event after the other: `run` holds the mesh at the start and after each of
/// `events`.
pub open spec fn is_run(t: Tree, run: Seq<Mesh>, events: Seq<Event>) -> bool {
    &&& run.len() == events.len() + 1
    &&& forall|i: int|
        0 <= i < events.len() ==> run[i].enabled(t, #[trigger] events[i]) && run[i + 1]
            == run[i].next(t, events[i])
}

// ---- the tree ----

proof fn lemma_child(t: Tree, c: int)
    requires
        t.wf(),
        t.has(c),
    ensures
        t.child(t.above[c], t.at[c]) == Some(c),
        t.far(t.above[c], t.at[c]) == Some((c, t.up[c])),
        t.far(c, t.up[c]) == Some((t.above[c], t.at[c])),
{
    let v = t.above[c];
    let p = t.at[c];
    assert(t.sits(c, v, p));
    let d = choose|d: int| t.sits(d, v, p);
    if c != d {
        if c == 0 || d == 0 {
            assert(t.above[0] == -1);
        } else if c < d {
            assert(t.at[c] != t.at[d]);
        } else {
            assert(t.at[d] != t.at[c]);
        }
    }
}

/// The way down from `u` to `v` starts at a board that sits on `u`.
proof fn lemma_via(t: Tree, u: int, v: int)
    requires
        t.wf(),
        t.below(u, v),
    ensures
        ({
            let c = t.via(u, v);
            &&& t.has(c)
            &&& u < c <= v
            &&& t.above[c] == u
            &&& c == v || t.below(c, v)
        }),
    decreases v,
{
    if t.above[v] != u {
        assert(t.below(u, t.above[v]));
        lemma_via(t, u, t.above[v]);
    }
}

/// What is below `u` is below the node above `u`, and the way down leads through `u`.
proof fn lemma_below_above(t: Tree, u: int, v: int)
    requires
        t.wf(),
        t.below(u, v),
        t.has(u),
    ensures
        t.below(t.above[u], v),
        t.via(t.above[u], v) == u,
    decreases v,
{
    let a = t.above[u];
    if t.above[v] == u {
        assert(t.below(a, u));
        assert(t.via(a, u) == u);
    } else {
        lemma_below_above(t, u, t.above[v]);
    }
}

/// The nodes above a board are one above the other.
proof fn lemma_chain(t: Tree, x: int, u: int, v: int)
    requires
        t.wf(),
        t.below(x, v),
        t.below(u, v),
        x < u,
    ensures
        t.below(x, u),
        x <= t.above[u],
    decreases v,
{
    let a = t.above[v];
    if a == u {
        assert(t.below(x, u));
        if t.above[u] != x {
            assert(t.below(x, t.above[u]));
        }
    } else {
        assert(t.below(u, a));
        lemma_chain(t, x, u, a);
    }
}

/// Every board is below the controller, and every board but the first below the first.
proof fn lemma_root(t: Tree, v: int)
    requires
        t.wf(),
        t.has(v),
    ensures
        t.below(-1, v),
        v > 0 ==> t.below(0, v),
    decreases v,
{
    if v > 0 {
        lemma_root(t, t.above[v]);
    }
}

/// Numbers below `n`, none of them twice, are at most `n`.
proof fn lemma_few(s: Seq<int>, n: int)
    requires
        s.no_duplicates(),
        n >= 0,
        forall|i: int| 0 <= i < s.len() ==> 0 <= (#[trigger] s[i]) < n,
    ensures
        s.len() <= n,
{
    let range = vstd::set_lib::set_int_range(0, n);
    vstd::set_lib::lemma_int_range(0, n);
    s.unique_seq_to_set();
    assert(s.to_set().subset_of(range));
    vstd::set_lib::lemma_len_subset(s.to_set(), range);
}

/// Numbers below `n`, none of them twice and all of them there, are `n`.
proof fn lemma_everyone(s: Seq<int>, n: int)
    requires
        s.no_duplicates(),
        n >= 0,
        forall|i: int| 0 <= i < s.len() ==> 0 <= (#[trigger] s[i]) < n,
        forall|v: int| 0 <= v < n ==> #[trigger] s.contains(v),
    ensures
        s.len() == n,
{
    lemma_few(s, n);
    let all = Seq::new(n as nat, |v: int| v);
    all.unique_seq_to_set();
    s.unique_seq_to_set();
    assert forall|v: int| all.to_set().contains(v) implies s.to_set().contains(v) by {
        assert(s.contains(v));
    }
    vstd::seq_lib::seq_to_set_is_finite(s);
    vstd::set_lib::lemma_len_subset(all.to_set(), s.to_set());
}

proof fn lemma_pushed(s: Seq<int>, x: int, v: int)
    ensures
        s.push(x).contains(v) <==> s.contains(v) || v == x,
{
    let r = s.push(x);
    assert(r[s.len() as int] == x);
    if s.contains(v) {
        let i = choose|i: int| 0 <= i < s.len() && s[i] == v;
        assert(r[i] == v);
    }
    if r.contains(v) {
        let i = choose|i: int| 0 <= i < r.len() && r[i] == v;
        if i < s.len() {
            assert(s[i] == v);
        }
    }
}

/// Two sequences of boards that have none in common.
proof fn lemma_joined(a: Seq<int>, b: Seq<int>, n: int)
    requires
        n >= 0,
        a.no_duplicates(),
        b.no_duplicates(),
        forall|i: int| 0 <= i < a.len() ==> 0 <= (#[trigger] a[i]) < n,
        forall|i: int| 0 <= i < b.len() ==> 0 <= (#[trigger] b[i]) < n,
        forall|i: int| 0 <= i < b.len() ==> !a.contains(#[trigger] b[i]),
    ensures
        (a + b).no_duplicates(),
        (a + b).len() <= n,
        forall|v: int| #[trigger] (a + b).contains(v) <==> a.contains(v) || b.contains(v),
{
    let s = a + b;
    assert forall|i: int, j: int| 0 <= i < s.len() && 0 <= j < s.len() && i != j implies s[i]
        != s[j] by {
        if i < a.len() && j >= a.len() {
            assert(a.contains(a[i]));
            assert(!a.contains(b[j - a.len()]));
        } else if j < a.len() && i >= a.len() {
            assert(a.contains(a[j]));
            assert(!a.contains(b[i - a.len()]));
        }
    }
    assert forall|i: int| 0 <= i < s.len() implies 0 <= (#[trigger] s[i]) < n by {
        if i >= a.len() {
            assert(0 <= b[i - a.len()] < n);
        }
    }
    lemma_few(s, n);
    assert forall|v: int| #[trigger] s.contains(v) <==> a.contains(v) || b.contains(v) by {
        if a.contains(v) {
            let i = choose|i: int| 0 <= i < a.len() && a[i] == v;
            assert(s[i] == v);
        }
        if b.contains(v) {
            let i = choose|i: int| 0 <= i < b.len() && b[i] == v;
            assert(s[a.len() + i] == v);
        }
        if s.contains(v) {
            let i = choose|i: int| 0 <= i < s.len() && s[i] == v;
            if i < a.len() {
                assert(a[i] == v);
            } else {
                assert(b[i - a.len()] == v);
            }
        }
    }
}

// ---- what holds during a walk ----

/// How far a walk has come: boards, in the order in which things were done to them.
struct Log {
    /// The number under which each board was reported, which becomes its address; 0 before that.
    num: Seq<u8>,
    /// The boards by that number.
    born: Seq<int>,
    /// The boards whose step is queued.
    who: Seq<int>,
    /// The board whose step is under way.
    cur: Option<int>,
    /// The boards in the map.
    ent: Seq<int>,
    /// The boards that have reported their ports.
    rep: Seq<int>,
}

/// Where the frames of the step under way are.
enum Stage {
    /// First contact has not been made.
    Start,
    /// The first request is on its way.
    Greeting,
    /// Its answer is on its way.
    Greeted,
    /// No step is under way.
    Quiet,
    /// The request has come to board `u`.
    Going { u: int },
    /// The assignment has come to the board itself.
    Handed,
    /// Its acknowledgement has come to node `u`.
    Acking { u: int },
    /// The board is probing: for each frame on its way the port that it is about, and whether it is
    /// an answer.
    Gathering { open: Seq<(u8, bool)> },
    /// The report has come to node `u`.
    Reporting { u: int },
}

/// The step that assigns board `v`.
spec fn assign_task(t: Tree, m: Mesh, g: Log, v: int) -> Task {
    if v == 0 {
        Task::AssignGateway { new_addr: g.num[0] }
    } else {
        Task::AssignNeighbor { relay: m.addr(t.above[v]), egress: t.at[v], new_addr: g.num[v] }
    }
}

/// The next step for board `v`.
spec fn duty(t: Tree, m: Mesh, g: Log, v: int) -> Task {
    if m.addr(v) == NO_ADDRESS {
        assign_task(t, m, g, v)
    } else {
        Task::Probe { addr: m.addr(v) }
    }
}

/// The board that handles the request of that step.
spec fn target(t: Tree, m: Mesh, v: int) -> int {
    if m.addr(v) == NO_ADDRESS && v > 0 {
        t.above[v]
    } else {
        v
    }
}

spec fn board_ok(t: Tree, m: Mesh, g: Log, v: int) -> bool {
    let b = m.boards[v];
    &&& b.wf()
    &&& b.job is None
    &&& !b.armed
    &&& b.n_ports == t.ports[v]
    &&& b.addr == NO_ADDRESS || b.addr == g.num[v]
    &&& b.addr != NO_ADDRESS ==> {
        &&& b.routes[m.walk.guest_addr as int] == t.up[v]
        &&& m.stores[v].persisted() == seq![b.addr]
        &&& v > 0 ==> m.addr(t.above[v]) != NO_ADDRESS
    }
    &&& g.num[v] != 0 ==> 1 <= g.num[v] <= g.born.len() && g.born[g.num[v] - 1] == v
    &&& v > 0 ==> (g.num[v] != 0 <==> g.rep.contains(t.above[v]))
}

/// Everyone above an addressed board has learned the way to it. For board `late` that holds only
/// of those numbered higher than `lo`.
spec fn routes_ok(t: Tree, m: Mesh, late: int, lo: int) -> bool {
    forall|u: int, v: int|
        #[trigger] t.below(u, v) && u >= 0 && m.addr(v) != NO_ADDRESS && (v == late ==> u > lo)
            ==> m.boards[u].routes[m.addr(v) as int] == t.at[t.via(u, v)]
}

spec fn queued_ok(t: Tree, m: Mesh, g: Log, i: int) -> bool {
    let v = g.who[i];
    &&& t.has(v)
    &&& g.num[v] != 0
    &&& !g.rep.contains(v)
    &&& g.cur != Some(v)
    &&& m.walk.queue[i] == duty(t, m, g, v)
    &&& m.addr(v) != NO_ADDRESS ==> g.ent.contains(v)
}

spec fn listed_ok(t: Tree, m: Mesh, g: Log, i: int) -> bool {
    let v = g.ent[i];
    &&& t.has(v)
    &&& m.addr(v) != NO_ADDRESS
    &&& m.walk.assigned[i] == m.place(t, v)
}

spec fn base(t: Tree, m: Mesh, g: Log) -> bool {
    &&& m.boards.len() == t.len()
    &&& m.stores.len() == t.len()
    &&& g.num.len() == t.len()
    &&& pdu::controller(m.walk.guest_addr)
    &&& m.walk.next_board == g.born.len() + 1
    &&& g.born.len() <= t.len()
    &&& g.num[0] == 1
    &&& forall|v: int| t.has(v) ==> #[trigger] board_ok(t, m, g, v)
    &&& forall|k: int|
        0 <= k < g.born.len() ==> t.has(#[trigger] g.born[k]) && g.num[g.born[k]] == k + 1
    &&& m.walk.assigned.len() == g.ent.len()
    &&& g.ent.no_duplicates()
    &&& forall|i: int| 0 <= i < g.ent.len() ==> #[trigger] listed_ok(t, m, g, i)
    &&& m.walk.queue.len() == g.who.len()
    &&& g.who.no_duplicates()
    &&& forall|i: int| 0 <= i < g.who.len() ==> #[trigger] queued_ok(t, m, g, i)
    &&& g.rep.no_duplicates()
    &&& forall|i: int|
        0 <= i < g.rep.len() ==> t.has(#[trigger] g.rep[i]) && g.ent.contains(g.rep[i])
    &&& forall|v: int|
        t.has(v) && #[trigger] g.num[v] != 0 ==> g.rep.contains(v) || g.who.contains(v) || g.cur
            == Some(v)
    &&& g.cur matches Some(v) ==> t.has(v) && g.num[v] != 0 && !g.rep.contains(v)
}

/// Board `v` is in order: it waits for nothing of its store, and has no address or one of its own.
spec fn board_sound(t: Tree, m: Mesh, v: int) -> bool {
    let b = m.boards[v];
    &&& b.wf()
    &&& b.job is None
    &&& b.n_ports == t.ports[v]
    &&& b.addr != NO_ADDRESS ==> pdu::board(b.addr) && forall|w: int|
        t.has(w) && w != v ==> #[trigger] m.addr(w) != b.addr
}

spec fn sound(t: Tree, m: Mesh) -> bool {
    &&& m.boards.len() == t.len()
    &&& m.stores.len() == t.len()
    &&& pdu::controller(m.walk.guest_addr)
    &&& forall|v: int| t.has(v) ==> #[trigger] board_sound(t, m, v)
}

/// Every addressed board is in the map, but for `late`.
spec fn entered(t: Tree, m: Mesh, g: Log, late: int) -> bool {
    forall|v: int|
        t.has(v) && (#[trigger] m.boards[v]).addr != NO_ADDRESS && v != late ==> g.ent.contains(v)
}

/// No board is probing, but for `who`.
spec fn calm(t: Tree, m: Mesh, who: int) -> bool {
    forall|v: int| t.has(v) && v != who ==> (#[trigger] m.boards[v]).probe is None
}

spec fn one(m: Mesh, node: int, port: u8, frame: Seq<u8>) -> bool {
    m.flying == seq![Flight { node, port, frame }]
}

/// What a probe of port `p` of board `x` shows.
spec fn neighbour(t: Tree, m: Mesh, x: int, p: u8) -> (u8, u8) {
    match t.far(x, p) {
        None => (NB_EMPTY, 0),
        Some((w, _)) => if w == -1 {
            (NB_ASSIGNED, m.walk.guest_addr)
        } else if m.addr(w) == NO_ADDRESS {
            (NB_UNASSIGNED, NO_ADDRESS)
        } else {
            (NB_ASSIGNED, m.addr(w))
        },
    }
}

/// The frame that asks for the neighbour on port `p` of board `x`, on its way.
spec fn probe_of(t: Tree, m: Mesh, x: int, p: u8) -> Flight {
    let (node, port) = t.far(x, p)->0;
    Flight {
        node,
        port,
        frame: pdu::pdu_bytes(
            Opcode::NodeHello.byte(),
            m.addr(x),
            NO_ADDRESS,
            seq![KIND_PROBE],
        ),
    }
}

/// `f` is the answer to that.
spec fn answers(t: Tree, m: Mesh, x: int, p: u8, f: Flight) -> bool {
    let id = neighbour(t, m, x, p).1;
    &&& f.node == x
    &&& f.port == p
    &&& f.frame.len() == 9
    &&& f.frame[0] == Opcode::NodeHello.byte()
    &&& f.frame[1] == id
    &&& f.frame[2] == m.addr(x)
    &&& f.frame[3] == id
}

spec fn about(open: Seq<(u8, bool)>, p: u8) -> bool {
    exists|i: int| 0 <= i < open.len() && (#[trigger] open[i]).0 == p
}

spec fn flight_ok(t: Tree, m: Mesh, x: int, open: Seq<(u8, bool)>, i: int) -> bool {
    let p = open[i].0;
    &&& p < t.ports[x]
    &&& t.far(x, p) is Some
    &&& if open[i].1 {
        answers(t, m, x, p, m.flying[i])
    } else {
        m.flying[i] == probe_of(t, m, x, p)
    }
}

spec fn gathering(t: Tree, m: Mesh, x: int, open: Seq<(u8, bool)>) -> bool {
    &&& m.boards[x].probe matches Some(pr) && {
        &&& pr.reply_to == m.walk.guest_addr
        &&& pr.n_ports == t.ports[x]
        &&& pr.states.len() == MAX_PORTS
        &&& forall|p: u8|
            p < t.ports[x] && !#[trigger] about(open, p) ==> pr.states[p as int] == neighbour(
                t,
                m,
                x,
                p,
            )
    }
    &&& m.flying.len() == open.len()
    &&& forall|i: int| 0 <= i < open.len() ==> #[trigger] flight_ok(t, m, x, open, i)
    &&& forall|i: int, j: int|
        0 <= i < j < open.len() ==> (#[trigger] open[i]).0 != (#[trigger] open[j]).0
}

/// `b` is the report of board `x`.
spec fn reports(t: Tree, m: Mesh, x: int, b: Seq<u8>) -> bool {
    &&& b.len() == 1 + 4 * t.ports[x]
    &&& b[0] == t.ports[x]
    &&& forall|p: u8| p < t.ports[x] ==> #[trigger] entry_ok(t, m, x, b, p)
}

spec fn entry_ok(t: Tree, m: Mesh, x: int, b: Seq<u8>, p: u8) -> bool {
    b[1 + p * 4] == p && (b[3 + p * 4], b[4 + p * 4]) == neighbour(t, m, x, p)
}

/// The report of board `x` has come to node `u`.
spec fn report_at(t: Tree, m: Mesh, x: int, u: int) -> bool {
    &&& t.below(u, x)
    &&& -1 <= u
    &&& m.flying.len() == 1
    &&& m.flying[0].node == u
    &&& m.flying[0].port == t.at[t.via(u, x)]
    &&& m.flying[0].frame == pdu::pdu_bytes(
        Opcode::Ports.byte(),
        m.addr(x),
        m.walk.guest_addr,
        m.flying[0].frame.skip(3),
    )
    &&& reports(t, m, x, m.flying[0].frame.skip(3))
}

/// What holds at stage `st` of a walk that has come as far as `g` says.
spec fn inv(t: Tree, m: Mesh, g: Log, st: Stage) -> bool {
    let w = m.walk;
    let guest = w.guest_addr;
    match st {
        Stage::Start => m.fresh(t),
        Stage::Greeting => {
            &&& greeting(t, m)
            &&& blank(t, m)
            &&& pdu::controller(m.boards[0].guest_next)
            &&& one(m, 0, t.up[0], w.request(Task::Hello))
        },
        Stage::Greeted => greeting(t, m) && blank(t, m) && greeted(t, m),
        Stage::Quiet => {
            &&& base(t, m, g)
            &&& routes_ok(t, m, -1, -1)
            &&& entered(t, m, g, -1)
            &&& calm(t, m, -1)
            &&& g.cur is None
            &&& w.outstanding is None
            &&& m.flying.len() == 0
        },
        Stage::Going { u } => {
            &&& base(t, m, g)
            &&& routes_ok(t, m, -1, -1)
            &&& entered(t, m, g, -1)
            &&& calm(t, m, -1)
            &&& g.cur matches Some(v) && {
                let task = duty(t, m, g, v);
                &&& w.outstanding == Some(task)
                &&& t.has(u)
                &&& u == target(t, m, v) || t.below(u, target(t, m, v))
                &&& one(m, u, t.up[u], w.request(task))
            }
        },
        Stage::Handed => {
            &&& base(t, m, g)
            &&& routes_ok(t, m, -1, -1)
            &&& entered(t, m, g, -1)
            &&& calm(t, m, -1)
            &&& g.cur matches Some(v) && {
                &&& v > 0
                &&& m.addr(v) == NO_ADDRESS
                &&& w.outstanding == Some(assign_task(t, m, g, v))
                &&& one(
                    m,
                    v,
                    t.up[v],
                    pdu::pdu_bytes(
                        Opcode::Assign.byte(),
                        guest,
                        NO_ADDRESS,
                        seq![EGRESS_SELF, g.num[v]],
                    ),
                )
            }
        },
        Stage::Acking { u } => {
            &&& base(t, m, g)
            &&& calm(t, m, -1)
            &&& g.cur matches Some(v) && {
                &&& routes_ok(t, m, v, u)
                &&& entered(t, m, g, v)
                &&& !g.ent.contains(v)
                &&& m.addr(v) != NO_ADDRESS
                &&& w.outstanding == Some(assign_task(t, m, g, v))
                &&& t.below(u, v)
                &&& -1 <= u
                &&& one(m, u, t.at[t.via(u, v)], ack(g.num[v], guest))
            }
        },
        Stage::Gathering { open } => {
            &&& base(t, m, g)
            &&& routes_ok(t, m, -1, -1)
            &&& entered(t, m, g, -1)
            &&& g.cur matches Some(x) && {
                &&& calm(t, m, x)
                &&& m.addr(x) != NO_ADDRESS
                &&& w.outstanding == Some(Task::Probe { addr: m.addr(x) })
                &&& gathering(t, m, x, open)
            }
        },
        Stage::Reporting { u } => {
            &&& base(t, m, g)
            &&& routes_ok(t, m, -1, -1)
            &&& entered(t, m, g, -1)
            &&& calm(t, m, -1)
            &&& g.cur matches Some(x) && {
                &&& m.addr(x) != NO_ADDRESS
                &&& w.outstanding == Some(Task::Probe { addr: m.addr(x) })
                &&& report_at(t, m, x, u)
            }
        },
    }
}

spec fn ack(a: u8, guest: u8) -> Seq<u8> {
    pdu::pdu_bytes(Opcode::AssignAck.byte(), a, guest, seq![a, STATUS_OK])
}

/// First contact is being made.
spec fn greeting(t: Tree, m: Mesh) -> bool {
    &&& m.walk == (Walk { queue: Seq::empty(), outstanding: Some(Task::Hello), ..Walk::first() })
    &&& m.boards.len() == t.len()
    &&& m.stores.len() == t.len()
    &&& forall|v: int| t.has(v) ==> idle_board(t, #[trigger] m.boards[v], v)
}

/// The answer of the first board is on its way, and grants a guest address.
spec fn greeted(t: Tree, m: Mesh) -> bool {
    let f = m.flying[0];
    &&& m.flying.len() == 1
    &&& f.node == -1
    &&& f.frame.len() == 9
    &&& f.frame[0] == Opcode::NodeHello.byte()
    &&& f.frame[3] == m.addr(0)
    &&& pdu::controller(f.frame[8])
}

/// No board has an address, and none is armed.
spec fn blank(t: Tree, m: Mesh) -> bool {
    forall|v: int| t.has(v) ==> (#[trigger] m.boards[v]).addr == NO_ADDRESS && !m.boards[v].armed
}

/// The frames to come for the ports in `open`: a probe is followed by its answer.
spec fn left(open: Seq<(u8, bool)>) -> nat
    decreases open.len(),
{
    if open.len() == 0 {
        0
    } else {
        left(open.drop_last()) + if open.last().1 {
            1nat
        } else {
            2nat
        }
    }
}

/// A bound on the number of events to come.
spec fn rank(t: Tree, g: Log, st: Stage) -> int {
    let all = 200 * t.len() as int;
    let steps = all - 100 * g.ent.len() - 100 * g.rep.len();
    match st {
        Stage::Start => all + 63,
        Stage::Greeting => all + 62,
        Stage::Greeted => all + 61,
        Stage::Quiet => steps + 60,
        Stage::Going { u } => steps + 50 - u,
        Stage::Handed => steps + 40,
        Stage::Gathering { open } => steps + 20 + left(open),
        Stage::Acking { u } => steps + 2 + u,
        Stage::Reporting { u } => steps + 2 + u,
    }
}

// ---- one board ----

/// A board that has a route for a frame passes it on, and does nothing else with it.
proof fn lemma_forwards(b: Board, store: Store, ingress: u8, frame: Seq<u8>, port: u8, steps: nat)
    requires
        3 <= frame.len() <= MAX_PDU,
        pdu::valid_opcode(frame[0]),
        frame[2] != NO_ADDRESS,
        frame[2] != pdu::BROADCAST,
        frame[2] != b.addr,
        forward::learned(b.routes, frame[1], ingress)[frame[2] as int] == port,
        port != forward::NO_PORT,
        port != ingress,
    ensures
        protocol::settled(b.ingests(ingress, frame), store, steps) == (Settled {
            board: protocol::with_route(b, frame[1], ingress),
            store,
            emits: seq![(port, frame)],
        }),
{
    let r = b.ingests(ingress, frame);
    assert(walk::sent_out(seq![port], frame) =~= seq![(port, frame)]);
    assert(r.emits =~= seq![(port, frame)]);
}

/// A board handles a frame that is for it.
proof fn lemma_takes_in(b: Board, ingress: u8, op: Opcode, src: u8, dst: u8, payload: Seq<u8>)
    requires
        dst == NO_ADDRESS || dst == b.addr,
        payload.len() + 3 <= MAX_PDU,
    ensures
        ({
            let r = b.ingests(ingress, pdu::pdu_bytes(op.byte(), src, dst, payload));
            let here = protocol::with_route(b, src, ingress).local(
                ingress,
                op.byte(),
                src,
                payload,
            );
            &&& r.board == here.board
            &&& r.store == here.store
            &&& r.emits == here.emits
        }),
{
    let frame = pdu::pdu_bytes(op.byte(), src, dst, payload);
    pdu::lemma_pdu_round_trip(op.byte(), src, dst, payload);
    let c = protocol::with_route(b, src, ingress);
    let here = c.local(ingress, op.byte(), src, payload);
    assert(forward::route(b.addr, b.n_ports, c.routes, Some(ingress), dst) == (
        true,
        Seq::<u8>::empty(),
    ));
    assert(walk::sent_out(Seq::empty(), frame) =~= Seq::empty());
    assert(Seq::<(u8, Seq<u8>)>::empty() + here.emits =~= here.emits);
}

/// One emission, on its way.
proof fn lemma_one_arrives(t: Tree, v: int, port: u8, frame: Seq<u8>, node: int, q: u8)
    requires
        t.far(v, port) == Some((node, q)),
    ensures
        arrivals(t, v, seq![(port, frame)]) == seq![Flight { node, port: q, frame }],
        walk::appended(Seq::empty(), seq![(port, frame)]) == seq![(port, frame)],
{
    let e = seq![(port, frame)];
    assert(e.drop_last() =~= Seq::empty());
    assert(arrivals(t, v, e.drop_last()) =~= Seq::empty());
    assert(arrivals(t, v, e) =~= seq![Flight { node, port: q, frame }]);
    assert(walk::appended(Seq::empty(), e) =~= e);
}

// ---- what a board learns ----

/// That `src` is reached out of `port` of board `u` is nothing false.
spec fn fair(t: Tree, m: Mesh, u: int, src: u8, port: u8) -> bool {
    ||| !pdu::unicast(src)
    ||| src == m.walk.guest_addr && port == t.up[u]
    ||| pdu::board(src) && forall|v: int| #[trigger]
        t.below(u, v) && m.addr(v) == src ==> port == t.at[t.via(u, v)]
}

/// `n` is `m` but for the frames on their way and what board `u` has learned and knows of its
/// probe.
spec fn learns(m: Mesh, n: Mesh, u: int, src: u8, port: u8) -> bool {
    let b = m.boards[u];
    &&& n.walk == m.walk
    &&& n.stores == m.stores
    &&& n.boards == m.boards.update(
        u,
        Board {
            routes: forward::learned(b.routes, src, port),
            probe: n.boards[u].probe,
            ..b
        },
    )
}

proof fn lemma_learns(
    t: Tree,
    m: Mesh,
    n: Mesh,
    g: Log,
    u: int,
    src: u8,
    port: u8,
    late: int,
    lo: int,
    left_out: int,
)
    requires
        t.wf(),
        t.has(u),
        base(t, m, g),
        routes_ok(t, m, late, lo),
        entered(t, m, g, left_out),
        learns(m, n, u, src, port),
        n.boards[u].wf(),
        fair(t, m, u, src, port),
    ensures
        base(t, n, g),
        routes_ok(t, n, late, lo),
        entered(t, n, g, left_out),
        forall|v: int| t.has(v) ==> #[trigger] n.addr(v) == m.addr(v),
{
    assert forall|v: int| t.has(v) implies #[trigger] n.addr(v) == m.addr(v) by {
        if v != u {
            assert(n.boards[v] == m.boards[v]);
        }
    }
    assert forall|v: int| t.has(v) implies #[trigger] board_ok(t, n, g, v) by {
        assert(board_ok(t, m, g, v));
        assert(board_ok(t, m, g, u));
        assert(v > 0 ==> n.addr(t.above[v]) == m.addr(t.above[v]));
        assert(n.addr(v) == m.addr(v));
    }
    assert forall|i: int| 0 <= i < g.ent.len() implies #[trigger] listed_ok(t, n, g, i) by {
        assert(listed_ok(t, m, g, i));
        let v = g.ent[i];
        assert(n.addr(v) == m.addr(v));
        assert(n.addr(0) == m.addr(0));
        assert(v > 0 ==> n.addr(t.above[v]) == m.addr(t.above[v]));
    }
    assert forall|i: int| 0 <= i < g.who.len() implies #[trigger] queued_ok(t, n, g, i) by {
        assert(queued_ok(t, m, g, i));
        let v = g.who[i];
        assert(n.addr(v) == m.addr(v));
        assert(v > 0 ==> n.addr(t.above[v]) == m.addr(t.above[v]));
    }
    assert forall|x: int, v: int|
        #[trigger] t.below(x, v) && x >= 0 && n.addr(v) != NO_ADDRESS && (v == late ==> x
            > lo) implies n.boards[x].routes[n.addr(v) as int] == t.at[t.via(x, v)] by {
        assert(n.addr(v) == m.addr(v));
        assert(board_ok(t, m, g, u));
        assert(board_ok(t, m, g, v));
        if x == u {
            assert(n.boards[x].routes == forward::learned(m.boards[u].routes, src, port));
        } else {
            lemma_via(t, x, v);
            assert(n.boards[x] == m.boards[x]);
        }
    }
    assert forall|v: int|
        t.has(v) && (#[trigger] n.boards[v]).addr != NO_ADDRESS && v
            != left_out implies g.ent.contains(v) by {
        assert(n.addr(v) == m.addr(v));
        assert(m.boards[v].addr != NO_ADDRESS);
    }
}

/// Everyone above an addressed board is addressed.
proof fn lemma_addressed_above(t: Tree, m: Mesh, g: Log, u: int, v: int)
    requires
        t.wf(),
        base(t, m, g),
        t.below(u, v),
        u >= 0,
        m.addr(v) != NO_ADDRESS,
    ensures
        m.addr(u) != NO_ADDRESS,
    decreases v,
{
    assert(board_ok(t, m, g, v));
    if t.above[v] != u {
        lemma_addressed_above(t, m, g, u, t.above[v]);
    }
}

/// No two boards have the same address.
proof fn lemma_distinct(t: Tree, m: Mesh, g: Log, v: int, w: int)
    requires
        t.wf(),
        base(t, m, g),
        t.has(v),
        t.has(w),
        m.addr(v) != NO_ADDRESS,
    ensures
        v != w ==> m.addr(v) != m.addr(w),
        1 <= m.addr(v) <= g.born.len(),
        pdu::board(m.addr(v)),
{
    assert(board_ok(t, m, g, v));
    assert(board_ok(t, m, g, w));
}

proof fn lemma_sound(t: Tree, m: Mesh, g: Log)
    requires
        t.wf(),
        base(t, m, g),
    ensures
        sound(t, m),
{
    assert forall|v: int| t.has(v) implies #[trigger] board_sound(t, m, v) by {
        assert(board_ok(t, m, g, v));
        assert forall|w: int|
            t.has(w) && w != v && m.addr(v) != NO_ADDRESS implies #[trigger] m.addr(w) != m.addr(
            v,
        ) by {
            lemma_distinct(t, m, g, v, w);
        }
        if m.addr(v) != NO_ADDRESS {
            lemma_distinct(t, m, g, v, v);
        }
    }
}

// ---- the steps of a walk ----

/// The one frame on its way is passed on by board `u`.
proof fn lemma_passed_on(
    t: Tree,
    m: Mesh,
    u: int,
    ingress: u8,
    frame: Seq<u8>,
    port: u8,
    node: int,
    q: u8,
)
    requires
        t.has(u),
        m.boards.len() == t.len(),
        m.stores.len() == t.len(),
        one(m, u, ingress, frame),
        3 <= frame.len() <= MAX_PDU,
        pdu::valid_opcode(frame[0]),
        frame[2] != NO_ADDRESS,
        frame[2] != pdu::BROADCAST,
        frame[2] != m.addr(u),
        forward::learned(m.boards[u].routes, frame[1], ingress)[frame[2] as int] == port,
        port != forward::NO_PORT,
        port != ingress,
        t.far(u, port) == Some((node, q)),
    ensures
        ({
            let n = m.delivered(t, 0);
            &&& learns(m, n, u, frame[1], ingress)
            &&& n.boards[u].probe == m.boards[u].probe
            &&& one(n, node, q, frame)
        }),
{
    let n = m.delivered(t, 0);
    lemma_forwards(m.boards[u], m.stores[u], ingress, frame, port, MAX_PDU as nat);
    lemma_one_arrives(t, u, port, frame, node, q);
    assert(m.flying.remove(0) =~= Seq::empty());
    assert(n.flying =~= seq![Flight { node, port: q, frame }]);
    assert(n.stores =~= m.stores);
}

proof fn lemma_calm(t: Tree, m: Mesh, n: Mesh, u: int, src: u8, port: u8, who: int)
    requires
        t.has(u),
        m.boards.len() == t.len(),
        calm(t, m, who),
        learns(m, n, u, src, port),
        u == who || n.boards[u].probe is None,
    ensures
        calm(t, n, who),
{
    assert forall|v: int| t.has(v) && v != who implies (#[trigger] n.boards[v]).probe is None by {
        assert(m.boards[v].probe is None);
    }
}

/// A frame for a board below `u` goes one board further down.
proof fn lemma_descends(t: Tree, m: Mesh, u: int, x: int, frame: Seq<u8>)
    requires
        t.wf(),
        sound(t, m),
        t.has(u),
        t.below(u, x),
        m.addr(x) != NO_ADDRESS,
        m.boards[u].routes[m.addr(x) as int] == t.at[t.via(u, x)],
        one(m, u, t.up[u], frame),
        3 <= frame.len() <= MAX_PDU,
        pdu::valid_opcode(frame[0]),
        frame[1] == m.walk.guest_addr,
        frame[2] == m.addr(x),
    ensures
        ({
            let n = m.delivered(t, 0);
            let c = t.via(u, x);
            &&& learns(m, n, u, m.walk.guest_addr, t.up[u])
            &&& n.boards[u].probe == m.boards[u].probe
            &&& one(n, c, t.up[c], frame)
            &&& t.has(c)
            &&& c > u
            &&& c == x || t.below(c, x)
        }),
{
    let c = t.via(u, x);
    lemma_via(t, u, x);
    lemma_child(t, c);
    assert(board_sound(t, m, u));
    assert(board_sound(t, m, x));
    assert(t.ports[u] <= MAX_PORTS);
    lemma_passed_on(t, m, u, t.up[u], frame, t.at[c], c, t.up[c]);
}

/// A request goes one board further down.
proof fn lemma_goes_down(t: Tree, m: Mesh, g: Log, u: int)
    requires
        t.wf(),
        inv(t, m, g, Stage::Going { u }),
        u != target(t, m, g.cur->0),
    ensures
        ({
            let c = t.via(u, target(t, m, g.cur->0));
            inv(t, m.delivered(t, 0), g, Stage::Going { u: c }) && c > u && t.has(c)
        }),
{
    let v = g.cur->0;
    let x = target(t, m, v);
    let n = m.delivered(t, 0);
    let frame = m.walk.request(duty(t, m, g, v));
    let guest = m.walk.guest_addr;
    lemma_sound(t, m, g);
    assert(board_ok(t, m, g, v));
    if m.addr(v) == NO_ADDRESS && v > 0 {
        lemma_reported_is_addressed(t, m, g, x);
    }
    assert(frame[1] == guest && frame[2] == m.addr(x));
    lemma_descends(t, m, u, x, frame);
    assert(board_ok(t, m, g, u));
    lemma_learns(t, m, n, g, u, guest, t.up[u], -1, -1, -1);
    lemma_calm(t, m, n, u, guest, t.up[u], -1);
    assert(n.addr(v) == m.addr(v));
    assert(v > 0 ==> n.addr(t.above[v]) == m.addr(t.above[v]));
}

/// A board that has reported its ports is addressed.
proof fn lemma_reported_is_addressed(t: Tree, m: Mesh, g: Log, v: int)
    requires
        base(t, m, g),
        g.rep.contains(v),
    ensures
        t.has(v),
        m.addr(v) != NO_ADDRESS,
        g.ent.contains(v),
{
    let i = choose|i: int| 0 <= i < g.rep.len() && g.rep[i] == v;
    assert(g.ent.contains(g.rep[i]));
    let k = choose|k: int| 0 <= k < g.ent.len() && g.ent[k] == v;
    assert(listed_ok(t, m, g, k));
}

/// What comes up from board `x` and is for the controller goes one node further up, and is learned
/// on the way.
proof fn lemma_climbs(t: Tree, m: Mesh, u: int, x: int, frame: Seq<u8>)
    requires
        t.wf(),
        sound(t, m),
        t.has(u),
        t.below(u, x),
        m.addr(x) != NO_ADDRESS,
        m.boards[u].routes[m.walk.guest_addr as int] == t.up[u],
        one(m, u, t.at[t.via(u, x)], frame),
        3 <= frame.len() <= MAX_PDU,
        pdu::valid_opcode(frame[0]),
        frame[1] == m.addr(x),
        frame[2] == m.walk.guest_addr,
    ensures
        ({
            let n = m.delivered(t, 0);
            let a = t.above[u];
            &&& learns(m, n, u, m.addr(x), t.at[t.via(u, x)])
            &&& fair(t, m, u, m.addr(x), t.at[t.via(u, x)])
            &&& n.boards[u].probe == m.boards[u].probe
            &&& one(n, a, t.at[t.via(a, x)], frame)
            &&& t.below(a, x)
            &&& -1 <= a < u
            &&& n.boards[u].routes[m.addr(x) as int] == t.at[t.via(u, x)]
        }),
{
    let c = t.via(u, x);
    lemma_via(t, u, x);
    lemma_below_above(t, u, x);
    lemma_child(t, u);
    assert(board_sound(t, m, u));
    assert(board_sound(t, m, x));
    assert(t.ports[u] <= MAX_PORTS);
    assert(t.at[c] < t.ports[u]);
    assert(t.at[c] != t.up[u]);
    lemma_passed_on(t, m, u, t.at[c], frame, t.up[u], t.above[u], t.at[u]);
    assert forall|v: int| #[trigger]
        t.below(u, v) && m.addr(v) == m.addr(x) implies t.at[c] == t.at[t.via(u, v)] by {
        assert(v == x);
    }
}

/// The same, while boards are being addressed.
proof fn lemma_goes_up(
    t: Tree,
    m: Mesh,
    g: Log,
    u: int,
    x: int,
    frame: Seq<u8>,
    late: int,
    lo: int,
    left_out: int,
)
    requires
        t.wf(),
        base(t, m, g),
        routes_ok(t, m, late, lo),
        entered(t, m, g, left_out),
        calm(t, m, -1),
        t.has(u),
        t.below(u, x),
        m.addr(x) != NO_ADDRESS,
        one(m, u, t.at[t.via(u, x)], frame),
        3 <= frame.len() <= MAX_PDU,
        pdu::valid_opcode(frame[0]),
        frame[1] == m.addr(x),
        frame[2] == m.walk.guest_addr,
    ensures
        ({
            let n = m.delivered(t, 0);
            let a = t.above[u];
            &&& learns(m, n, u, m.addr(x), t.at[t.via(u, x)])
            &&& base(t, n, g)
            &&& routes_ok(t, n, late, lo)
            &&& entered(t, n, g, left_out)
            &&& calm(t, n, -1)
            &&& one(n, a, t.at[t.via(a, x)], frame)
            &&& t.below(a, x)
            &&& -1 <= a < u
            &&& forall|v: int| t.has(v) ==> #[trigger] n.addr(v) == m.addr(v)
            &&& n.boards[u].routes[m.addr(x) as int] == t.at[t.via(u, x)]
        }),
{
    let n = m.delivered(t, 0);
    let p = t.at[t.via(u, x)];
    lemma_sound(t, m, g);
    lemma_addressed_above(t, m, g, u, x);
    assert(board_ok(t, m, g, u));
    lemma_climbs(t, m, u, x, frame);
    lemma_learns(t, m, n, g, u, m.addr(x), p, late, lo, left_out);
    lemma_calm(t, m, n, u, m.addr(x), p, -1);
}

/// An acknowledgement goes one node further up.
proof fn lemma_ack_goes_up(t: Tree, m: Mesh, g: Log, u: int)
    requires
        t.wf(),
        inv(t, m, g, Stage::Acking { u }),
        u >= 0,
    ensures
        inv(t, m.delivered(t, 0), g, Stage::Acking { u: t.above[u] }),
        t.above[u] < u,
{
    let v = g.cur->0;
    let n = m.delivered(t, 0);
    let a = t.above[u];
    lemma_via(t, u, v);
    assert(board_ok(t, m, g, v));
    lemma_distinct(t, m, g, v, v);
    lemma_goes_up(t, m, g, u, v, ack(g.num[v], m.walk.guest_addr), v, u, v);
    assert(n.addr(v) == m.addr(v));
    assert(v > 0 ==> n.addr(t.above[v]) == m.addr(t.above[v]));
    assert forall|x: int, w: int|
        #[trigger] t.below(x, w) && x >= 0 && n.addr(w) != NO_ADDRESS && (w == v ==> x
            > a) implies n.boards[x].routes[n.addr(w) as int] == t.at[t.via(x, w)] by {
        if w == v && x <= u && x != u {
            lemma_chain(t, x, u, v);
        }
    }
}

/// A report goes one node further up.
proof fn lemma_report_goes_up(t: Tree, m: Mesh, g: Log, u: int)
    requires
        t.wf(),
        inv(t, m, g, Stage::Reporting { u }),
        u >= 0,
    ensures
        inv(t, m.delivered(t, 0), g, Stage::Reporting { u: t.above[u] }),
        t.above[u] < u,
{
    let x = g.cur->0;
    let n = m.delivered(t, 0);
    let frame = m.flying[0].frame;
    lemma_via(t, u, x);
    assert(m.flying =~= seq![Flight { node: u, port: t.at[t.via(u, x)], frame }]);
    assert(t.ports[x] <= MAX_PORTS);
    lemma_distinct(t, m, g, x, x);
    lemma_goes_up(t, m, g, u, x, frame, -1, -1, -1);
    assert(n.addr(x) == m.addr(x));
    assert forall|p: u8| p < t.ports[x] implies #[trigger] entry_ok(
        t,
        n,
        x,
        frame.skip(3),
        p,
    ) by {
        assert(entry_ok(t, m, x, frame.skip(3), p));
        lemma_neighbour_kept(t, m, n, x, p);
    }
}

/// What a probe shows depends on addresses alone.
proof fn lemma_neighbour_kept(t: Tree, m: Mesh, n: Mesh, x: int, p: u8)
    requires
        t.wf(),
        t.has(x),
        n.walk.guest_addr == m.walk.guest_addr,
        forall|v: int| t.has(v) ==> #[trigger] n.addr(v) == m.addr(v),
    ensures
        neighbour(t, n, x, p) == neighbour(t, m, x, p),
{
    if t.far(x, p) is Some {
        let w = (t.far(x, p)->0).0;
        lemma_far(t, x, p);
        if w != -1 {
            assert(n.addr(w) == m.addr(w));
        }
    }
}

/// The other end of a link is a node, and its other end is the first.
proof fn lemma_far(t: Tree, x: int, p: u8)
    requires
        t.wf(),
        t.has(x),
        t.far(x, p) is Some,
    ensures
        ({
            let (w, q) = t.far(x, p)->0;
            &&& t.far(w, q) == Some((x, p))
            &&& w == -1 || t.has(w)
            &&& w == -1 ==> x == 0 && p == t.up[0] && q == 0
            &&& w == t.above[x] && p == t.up[x] && q == t.at[x] || t.has(w) && w > x && t.above[w]
                == x && t.at[w] == p && q == t.up[w]
        }),
{
    if p == t.up[x] {
        lemma_child(t, x);
    } else {
        let c = t.child(x, p)->0;
        assert(t.sits(c, x, p));
        lemma_child(t, c);
    }
}

/// The board that an assignment is for takes it on, and says so.
proof fn lemma_takes_address(t: Tree, m: Mesh, g: Log)
    requires
        t.wf(),
        base(t, m, g),
        routes_ok(t, m, -1, -1),
        entered(t, m, g, -1),
        calm(t, m, -1),
        g.cur is Some,
        m.addr(g.cur->0) == NO_ADDRESS,
        m.walk.outstanding == Some(assign_task(t, m, g, g.cur->0)),
        one(
            m,
            g.cur->0,
            t.up[g.cur->0],
            pdu::pdu_bytes(
                Opcode::Assign.byte(),
                m.walk.guest_addr,
                NO_ADDRESS,
                seq![EGRESS_SELF, g.num[g.cur->0]],
            ),
        ),
    ensures
        inv(t, m.delivered(t, 0), g, Stage::Acking { u: t.above[g.cur->0] }),
{
    let v = g.cur->0;
    let a = t.above[v];
    let guest = m.walk.guest_addr;
    let b = m.boards[v];
    let n = m.delivered(t, 0);
    assert(board_ok(t, m, g, v));
    assert(t.ports[v] <= MAX_PORTS);
    assert(t.up[v] < t.ports[v]);
    protocol::lemma_assignment_taken(
        b,
        m.stores[v],
        t.up[v],
        guest,
        NO_ADDRESS,
        g.num[v],
        MAX_PDU as nat,
    );
    lemma_child(t, v);
    lemma_one_arrives(t, v, t.up[v], ack(g.num[v], guest), a, t.at[v]);
    assert(m.flying.remove(0) =~= Seq::empty());
    assert(n.flying =~= seq![Flight { node: a, port: t.at[v], frame: ack(g.num[v], guest) }]);
    assert(t.below(a, v));
    assert(t.via(a, v) == v);
    assert forall|w: int| t.has(w) && w != v implies #[trigger] n.addr(w) == m.addr(w) by {}
    assert(n.addr(v) == g.num[v]);
    if v > 0 {
        lemma_reported_is_addressed(t, m, g, a);
        assert(n.addr(a) == m.addr(a));
    }
    assert forall|w: int| t.has(w) implies #[trigger] board_ok(t, n, g, w) by {
        assert(board_ok(t, m, g, w));
        if w > 0 && t.above[w] != v {
            assert(n.addr(t.above[w]) == m.addr(t.above[w]));
        }
        if w != v {
            assert(n.addr(w) == m.addr(w));
            assert(n.boards[w] == m.boards[w]);
            assert(n.stores[w] == m.stores[w]);
        }
    }
    assert forall|i: int| 0 <= i < g.ent.len() implies #[trigger] listed_ok(t, n, g, i) by {
        assert(listed_ok(t, m, g, i));
        let w = g.ent[i];
        assert(board_ok(t, m, g, w));
        assert(n.addr(w) == m.addr(w));
        if w > 0 {
            assert(n.addr(t.above[w]) == m.addr(t.above[w]));
        }
    }
    assert forall|i: int| 0 <= i < g.who.len() implies #[trigger] queued_ok(t, n, g, i) by {
        assert(queued_ok(t, m, g, i));
        let w = g.who[i];
        assert(board_ok(t, m, g, w));
        assert(n.addr(w) == m.addr(w));
        if w > 0 {
            lemma_reported_is_addressed(t, m, g, t.above[w]);
            assert(n.addr(t.above[w]) == m.addr(t.above[w]));
        }
    }
    assert forall|u: int, w: int|
        #[trigger] t.below(u, w) && u >= 0 && n.addr(w) != NO_ADDRESS && (w == v ==> u
            > a) implies n.boards[u].routes[n.addr(w) as int] == t.at[t.via(u, w)] by {
        if w != v {
            assert(n.addr(w) == m.addr(w));
            lemma_addressed_above(t, m, g, u, w);
            assert(n.boards[u] == m.boards[u]);
        } else {
            assert(t.below(u, a));
        }
    }
    assert forall|w: int|
        t.has(w) && (#[trigger] n.boards[w]).addr != NO_ADDRESS && w != v implies g.ent.contains(
        w,
    ) by {
        assert(m.boards[w].addr != NO_ADDRESS);
    }
    assert forall|w: int| t.has(w) implies (#[trigger] n.boards[w]).probe is None by {
        assert(m.boards[w].probe is None);
    }
    if g.ent.contains(v) {
        let i = choose|i: int| 0 <= i < g.ent.len() && g.ent[i] == v;
        assert(listed_ok(t, m, g, i));
    }
}

/// The assignment of a neighbour has come to the board next to it, which hands it on.
proof fn lemma_hands_over(t: Tree, m: Mesh, g: Log)
    requires
        t.wf(),
        g.cur is Some,
        g.cur->0 > 0,
        m.addr(g.cur->0) == NO_ADDRESS,
        inv(t, m, g, Stage::Going { u: t.above[g.cur->0] }),
    ensures
        inv(t, m.delivered(t, 0), g, Stage::Handed),
{
    let v = g.cur->0;
    let x = t.above[v];
    let guest = m.walk.guest_addr;
    let n = m.delivered(t, 0);
    let b = m.boards[x];
    assert(board_ok(t, m, g, v));
    lemma_reported_is_addressed(t, m, g, x);
    assert(board_ok(t, m, g, x));
    lemma_distinct(t, m, g, x, v);
    assert(t.ports[x] <= MAX_PORTS);
    assert(t.at[v] < t.ports[x]);
    let payload = seq![t.at[v], g.num[v]];
    let handed = pdu::pdu_bytes(
        Opcode::Assign.byte(),
        guest,
        NO_ADDRESS,
        seq![EGRESS_SELF, g.num[v]],
    );
    lemma_takes_in(b, t.up[x], Opcode::Assign, guest, m.addr(x), payload);
    let r = b.ingests(t.up[x], m.walk.request(assign_task(t, m, g, v)));
    assert(r.emits =~= seq![(t.at[v], handed)]);
    assert(r.store is None);
    lemma_child(t, v);
    lemma_one_arrives(t, x, t.at[v], handed, v, t.up[v]);
    assert(m.flying.remove(0) =~= Seq::empty());
    assert(n.flying =~= seq![Flight { node: v, port: t.up[v], frame: handed }]);
    assert(n.stores =~= m.stores);
    lemma_learns(t, m, n, g, x, guest, t.up[x], -1, -1, -1);
    lemma_calm(t, m, n, x, guest, t.up[x], -1);
    assert(n.addr(v) == m.addr(v));
    assert(n.addr(x) == m.addr(x));
}

/// The acknowledgement has come to the controller, which enters the board in its map.
proof fn lemma_is_entered(t: Tree, m: Mesh, g: Log) -> (h: Log)
    requires
        t.wf(),
        inv(t, m, g, Stage::Acking { u: -1 }),
    ensures
        inv(t, m.delivered(t, 0), h, Stage::Quiet),
        h.ent.len() == g.ent.len() + 1,
        h.rep.len() == g.rep.len(),
{
    let v = g.cur->0;
    let guest = m.walk.guest_addr;
    let a = g.num[v];
    let n = m.delivered(t, 0);
    let h = Log { ent: g.ent.push(v), who: g.who.push(v), cur: None, ..g };
    assert(board_ok(t, m, g, v));
    lemma_distinct(t, m, g, v, v);
    pdu::lemma_pdu_round_trip(Opcode::AssignAck.byte(), a, guest, seq![a, STATUS_OK]);
    assert(ack(a, guest).skip(3) =~= seq![a, STATUS_OK]);
    assert(m.flying.remove(0) =~= Seq::empty());
    controller::lemma_place_of(m.walk.assigned, a);
    assert forall|i: int| 0 <= i < m.walk.assigned.len() implies (
    #[trigger] m.walk.assigned[i]).addr != a by {
        assert(listed_ok(t, m, g, i));
        lemma_distinct(t, m, g, v, g.ent[i]);
    }
    assert forall|i: int| 0 <= i < h.ent.len() implies 0 <= (#[trigger] h.ent[i]) < t.len() by {
        if i < g.ent.len() {
            assert(listed_ok(t, m, g, i));
        }
    }
    lemma_few(h.ent, t.len() as int);
    assert(!g.who.contains(v)) by {
        if g.who.contains(v) {
            let i = choose|i: int| 0 <= i < g.who.len() && g.who[i] == v;
            assert(queued_ok(t, m, g, i));
        }
    }
    assert forall|i: int| 0 <= i < h.who.len() implies 0 <= (#[trigger] h.who[i]) < t.len() by {
        if i < g.who.len() {
            assert(queued_ok(t, m, g, i));
        }
    }
    lemma_few(h.who, t.len() as int);
    assert(n.walk.assigned == m.walk.assigned.push(m.place(t, v)));
    assert(n.walk.queue == m.walk.queue.push(Task::Probe { addr: a }));
    assert forall|w: int| t.has(w) implies #[trigger] board_ok(t, n, h, w) by {
        assert(board_ok(t, m, g, w));
    }
    assert forall|i: int| 0 <= i < h.ent.len() implies #[trigger] listed_ok(t, n, h, i) by {
        if i < g.ent.len() {
            assert(listed_ok(t, m, g, i));
        }
    }
    assert forall|w: int| g.ent.contains(w) implies #[trigger] h.ent.contains(w) by {
        let i = choose|i: int| 0 <= i < g.ent.len() && g.ent[i] == w;
        assert(h.ent[i] == w);
    }
    assert(h.ent[g.ent.len() as int] == v);
    assert(h.ent.contains(v));
    assert forall|i: int| 0 <= i < h.who.len() implies #[trigger] queued_ok(t, n, h, i) by {
        if i < g.who.len() {
            assert(queued_ok(t, m, g, i));
        }
    }
    assert forall|w: int| t.has(w) && #[trigger] h.num[w] != 0 implies h.rep.contains(w)
        || h.who.contains(w) by {
        if g.who.contains(w) {
            let i = choose|i: int| 0 <= i < g.who.len() && g.who[i] == w;
            assert(h.who[i] == w);
        }
        assert(h.who[g.who.len() as int] == v);
    }
    assert forall|i: int| 0 <= i < h.rep.len() implies t.has(#[trigger] h.rep[i])
        && h.ent.contains(h.rep[i]) by {
        assert(g.ent.contains(g.rep[i]));
    }
    assert forall|w: int|
        t.has(w) && (#[trigger] n.boards[w]).addr != NO_ADDRESS implies h.ent.contains(w) by {
        if w != v {
            assert(m.boards[w].addr != NO_ADDRESS);
            assert(g.ent.contains(w));
        }
    }
    h
}

// ---- probing ----

/// The links of the first `n` ports of board `x`, none of them answered for.
spec fn wired(t: Tree, x: int, n: int) -> Seq<(u8, bool)>
    decreases n,
{
    if n <= 0 {
        Seq::empty()
    } else {
        let before = wired(t, x, n - 1);
        if t.far(x, (n - 1) as u8) is Some {
            before.push(((n - 1) as u8, false))
        } else {
            before
        }
    }
}

/// What goes out of the first `n` ports of board `x` arrives where there are links.
proof fn lemma_wired(t: Tree, x: int, n: int, frame: Seq<u8>)
    requires
        0 <= n <= MAX_PORTS,
        frame.len() <= MAX_PDU,
    ensures
        ({
            let open = wired(t, x, n);
            let flying = arrivals(
                t,
                x,
                walk::sent_out(forward::flood_ports(n as nat, None), frame),
            );
            &&& open.len() <= n
            &&& left(open) <= 2 * n
            &&& flying.len() == open.len()
            &&& forward::flood_ports(n as nat, None).len() == n
            &&& forall|i: int|
                0 <= i < open.len() ==> (#[trigger] open[i]).0 < n && !open[i].1 && t.far(
                    x,
                    open[i].0,
                ) is Some && flying[i] == (Flight {
                    node: (t.far(x, open[i].0)->0).0,
                    port: (t.far(x, open[i].0)->0).1,
                    frame,
                })
            &&& forall|i: int, j: int|
                0 <= i < j < open.len() ==> (#[trigger] open[i]).0 < (#[trigger] open[j]).0
            &&& forall|p: u8| p < n && t.far(x, p) is Some ==> #[trigger] about(open, p)
        }),
    decreases n,
{
    let ports = forward::flood_ports(n as nat, None);
    let sent = walk::sent_out(ports, frame);
    if n == 0 {
        assert(sent.len() == 0);
    } else {
        let q = (n - 1) as u8;
        let before = wired(t, x, n - 1);
        let open = wired(t, x, n);
        let fewer = forward::flood_ports((n - 1) as nat, None);
        lemma_wired(t, x, n - 1, frame);
        assert(ports == fewer.push(q));
        assert(sent.drop_last() =~= walk::sent_out(fewer, frame));
        assert(sent.last() == (q, frame));
        if t.far(x, q) is Some {
            assert(open.drop_last() =~= before);
        }
        assert forall|p: u8| p < n && t.far(x, p) is Some implies #[trigger] about(open, p) by {
            if p == q {
                assert(open[open.len() - 1].0 == p);
            } else {
                assert(about(before, p));
                let i = choose|i: int| 0 <= i < before.len() && (#[trigger] before[i]).0 == p;
                assert(open[i].0 == p);
            }
        }
    }
}

/// The request to probe has come to the board, which asks out of every port.
proof fn lemma_starts_probe(t: Tree, m: Mesh, x: int)
    requires
        t.wf(),
        sound(t, m),
        t.has(x),
        m.addr(x) != NO_ADDRESS,
        one(m, x, t.up[x], m.walk.request(Task::Probe { addr: m.addr(x) })),
    ensures
        ({
            let n = m.delivered(t, 0);
            let open = wired(t, x, t.ports[x] as int);
            &&& learns(m, n, x, m.walk.guest_addr, t.up[x])
            &&& n.boards[x].wf()
            &&& n.boards[x].routes[m.walk.guest_addr as int] == t.up[x]
            &&& gathering(t, n, x, open)
            &&& left(open) <= 8
        }),
{
    let guest = m.walk.guest_addr;
    let n = m.delivered(t, 0);
    let b = m.boards[x];
    let np = t.ports[x] as int;
    let open = wired(t, x, np);
    assert(board_sound(t, m, x));
    assert(t.ports[x] <= MAX_PORTS);
    assert(t.up[x] < t.ports[x]);
    let frame = pdu::pdu_bytes(
        Opcode::NodeHello.byte(),
        m.addr(x),
        NO_ADDRESS,
        seq![KIND_PROBE],
    );
    lemma_takes_in(b, t.up[x], Opcode::ProbePorts, guest, m.addr(x), Seq::empty());
    lemma_wired(t, x, np, frame);
    let sent = walk::sent_out(forward::flood_ports(np as nat, None), frame);
    let r = b.ingests(t.up[x], m.walk.request(Task::Probe { addr: m.addr(x) }));
    assert(r.emits == sent);
    assert(r.store is None);
    assert(walk::appended(Seq::empty(), sent) =~= sent);
    assert(m.flying.remove(0) =~= Seq::empty());
    assert(n.flying =~= arrivals(t, x, sent));
    assert(n.stores =~= m.stores);
    assert(n.addr(x) == m.addr(x));
    let pr = n.boards[x].probe->0;
    assert forall|p: u8| p < t.ports[x] && !#[trigger] about(open, p) implies pr.states[p as int]
        == neighbour(t, n, x, p) by {
        assert(t.far(x, p) is None);
    }
    assert forall|i: int| 0 <= i < open.len() implies #[trigger] flight_ok(t, n, x, open, i) by {
        assert(open[i].0 < np);
    }
}

/// The same, while boards are being addressed.
proof fn lemma_asks_around(t: Tree, m: Mesh, g: Log)
    requires
        t.wf(),
        g.cur is Some,
        m.addr(g.cur->0) != NO_ADDRESS,
        inv(t, m, g, Stage::Going { u: g.cur->0 }),
    ensures
        ({
            let open = wired(t, g.cur->0, t.ports[g.cur->0] as int);
            inv(t, m.delivered(t, 0), g, Stage::Gathering { open }) && left(open) <= 8
        }),
{
    let x = g.cur->0;
    let guest = m.walk.guest_addr;
    let n = m.delivered(t, 0);
    lemma_sound(t, m, g);
    lemma_starts_probe(t, m, x);
    lemma_learns(t, m, n, g, x, guest, t.up[x], -1, -1, -1);
    lemma_calm(t, m, n, x, guest, t.up[x], x);
    assert(n.addr(x) == m.addr(x));
}

/// A frame of a probe is what it was, where no address has changed.
proof fn lemma_flight_kept(
    t: Tree,
    m: Mesh,
    n: Mesh,
    x: int,
    open: Seq<(u8, bool)>,
    later: Seq<(u8, bool)>,
    j: int,
    k: int,
)
    requires
        t.wf(),
        t.has(x),
        flight_ok(t, m, x, open, j),
        later[k] == open[j],
        n.flying[k] == m.flying[j],
        n.walk.guest_addr == m.walk.guest_addr,
        forall|v: int| t.has(v) ==> #[trigger] n.addr(v) == m.addr(v),
    ensures
        flight_ok(t, n, x, later, k),
{
    lemma_neighbour_kept(t, m, n, x, open[j].0);
    assert(n.addr(x) == m.addr(x));
}

proof fn lemma_left_removed(open: Seq<(u8, bool)>, i: int)
    requires
        0 <= i < open.len(),
    ensures
        left(open) == left(open.remove(i)) + if open[i].1 {
            1nat
        } else {
            2nat
        },
    decreases open.len(),
{
    if i == open.len() - 1 {
        assert(open.remove(i) =~= open.drop_last());
    } else {
        lemma_left_removed(open.drop_last(), i);
        assert(open.remove(i).drop_last() =~= open.drop_last().remove(i));
        assert(open.remove(i).last() == open.last());
    }
}

/// What follows the arrival of frame `i` of a probe: the others are on their way as before, and,
/// where a board or the controller was asked, its answer.
proof fn lemma_asked_answers(t: Tree, m: Mesh, n: Mesh, x: int, open: Seq<(u8, bool)>, i: int)
    requires
        t.wf(),
        t.has(x),
        gathering(t, m, x, open),
        0 <= i < open.len(),
        !open[i].1,
        n.walk.guest_addr == m.walk.guest_addr,
        n.boards[x].probe == m.boards[x].probe,
        forall|v: int| t.has(v) ==> #[trigger] n.addr(v) == m.addr(v),
        n.flying.len() == open.len(),
        n.flying.drop_last() == m.flying.remove(i),
        answers(t, m, x, open[i].0, n.flying.last()),
    ensures
        gathering(t, n, x, open.remove(i).push((open[i].0, true))),
        left(open.remove(i).push((open[i].0, true))) == left(open) - 1,
{
    let p = open[i].0;
    let later = open.remove(i).push((p, true));
    let last = open.len() - 1;
    lemma_left_removed(open, i);
    assert(later.drop_last() =~= open.remove(i));
    assert(flight_ok(t, m, x, open, i));
    assert forall|q: u8| #[trigger] about(open, q) implies about(later, q) by {
        let k = choose|k: int| 0 <= k < open.len() && (#[trigger] open[k]).0 == q;
        if k < i {
            assert(later[k].0 == q);
        } else if k == i {
            assert(later[last].0 == q);
        } else {
            assert(later[k - 1].0 == q);
        }
    }
    let pr = n.boards[x].probe->0;
    assert forall|q: u8| q < t.ports[x] && !#[trigger] about(later, q) implies pr.states[q as int]
        == neighbour(t, n, x, q) by {
        assert(!about(open, q));
        lemma_neighbour_kept(t, m, n, x, q);
    }
    assert forall|k: int| 0 <= k < later.len() implies #[trigger] flight_ok(t, n, x, later, k) by {
        if k < last {
            let j = if k < i {
                k
            } else {
                k + 1
            };
            assert(flight_ok(t, m, x, open, j));
            assert(n.flying[k] == n.flying.drop_last()[k]);
            lemma_flight_kept(t, m, n, x, open, later, j, k);
        } else {
            assert(n.flying[k] == n.flying.last());
            lemma_neighbour_kept(t, m, n, x, p);
            assert(n.addr(x) == m.addr(x));
        }
    }
    assert forall|j: int, k: int| 0 <= j < k < later.len() implies (#[trigger] later[j]).0 != (
    #[trigger] later[k]).0 by {
        let jj = if j < i {
            j
        } else {
            j + 1
        };
        let kk = if k < i {
            k
        } else {
            k + 1
        };
        if k < last {
            assert(open[jj].0 != open[kk].0);
        } else if jj < i {
            assert(open[jj].0 != open[i].0);
        } else {
            assert(open[i].0 != open[jj].0);
        }
    }
}

/// What is learned where a probe of port `p` of board `x` arrives: by whom, and of whom and which
/// port. The controller learns nothing.
spec fn heard(t: Tree, m: Mesh, x: int, p: u8) -> (int, u8, u8) {
    let (w, q) = t.far(x, p)->0;
    if w == -1 {
        (x, NO_ADDRESS, 0)
    } else {
        (w, m.addr(x), q)
    }
}

/// A probe arrives: the node at the other end of the link answers it.
proof fn lemma_is_asked(t: Tree, m: Mesh, x: int, open: Seq<(u8, bool)>, i: int)
    requires
        t.wf(),
        sound(t, m),
        t.has(x),
        m.addr(x) != NO_ADDRESS,
        calm(t, m, x),
        gathering(t, m, x, open),
        0 <= i < open.len(),
        !open[i].1,
    ensures
        ({
            let n = m.delivered(t, i);
            let (u, src, port) = heard(t, m, x, open[i].0);
            let later = open.remove(i).push((open[i].0, true));
            &&& t.has(u)
            &&& learns(m, n, u, src, port)
            &&& fair(t, m, u, src, port)
            &&& n.boards[u].wf()
            &&& calm(t, n, x)
            &&& gathering(t, n, x, later)
            &&& left(later) == left(open) - 1
        }),
{
    let p = open[i].0;
    let n = m.delivered(t, i);
    let (w, q) = t.far(x, p)->0;
    let guest = m.walk.guest_addr;
    let a = m.addr(x);
    assert(flight_ok(t, m, x, open, i));
    lemma_far(t, x, p);
    assert(board_sound(t, m, x));
    if w == -1 {
        let answer = pdu::pdu_bytes(
            Opcode::NodeHello.byte(),
            guest,
            a,
            seq![guest, PROTO_VER, 0, 0, 0, NO_ADDRESS],
        );
        lemma_one_arrives(t, -1, 0, answer, x, p);
        assert(n.flying =~= m.flying.remove(i).push(Flight { node: x, port: p, frame: answer }));
        assert(n.flying.drop_last() =~= m.flying.remove(i));
        assert(n.boards =~= m.boards.update(x, m.boards[x]));
        lemma_calm(t, m, n, x, NO_ADDRESS, 0, x);
    } else {
        let b = m.boards[w];
        assert(board_sound(t, m, w));
        assert(t.ports[w] <= MAX_PORTS);
        lemma_takes_in(b, q, Opcode::NodeHello, a, NO_ADDRESS, seq![KIND_PROBE]);
        let identity = seq![
            b.addr,
            PROTO_VER,
            (b.fw_ver % 256) as u8,
            (b.fw_ver / 256) as u8,
            b.mcu,
            NO_ADDRESS,
        ];
        let answer = pdu::pdu_bytes(Opcode::NodeHello.byte(), b.addr, a, identity);
        let r = b.ingests(q, m.flying[i].frame);
        assert(r.emits =~= seq![(q, answer)]);
        assert(r.store is None);
        lemma_one_arrives(t, w, q, answer, x, p);
        assert(n.flying =~= m.flying.remove(i).push(Flight { node: x, port: p, frame: answer }));
        assert(n.flying.drop_last() =~= m.flying.remove(i));
        assert(n.stores =~= m.stores);
        assert(learns(m, n, w, a, q));
        assert forall|v: int| #[trigger] t.below(w, v) && m.addr(v) == a implies q == t.at[t.via(
            w,
            v,
        )] by {
            assert(v == x);
            assert(t.via(w, x) == x);
        }
        assert(m.boards[w].probe is None);
        lemma_calm(t, m, n, w, a, q, x);
    }
    lemma_asked_answers(t, m, n, x, open, i);
}

/// The same, while boards are being addressed.
proof fn lemma_probe_arrives(t: Tree, m: Mesh, g: Log, open: Seq<(u8, bool)>, i: int)
    requires
        t.wf(),
        inv(t, m, g, Stage::Gathering { open }),
        0 <= i < open.len(),
        !open[i].1,
    ensures
        ({
            let later = open.remove(i).push((open[i].0, true));
            inv(t, m.delivered(t, i), g, Stage::Gathering { open: later }) && left(later) == left(
                open,
            ) - 1
        }),
{
    let x = g.cur->0;
    let n = m.delivered(t, i);
    let (u, src, port) = heard(t, m, x, open[i].0);
    lemma_sound(t, m, g);
    lemma_is_asked(t, m, x, open, i);
    lemma_learns(t, m, n, g, u, src, port, -1, -1, -1);
    assert(n.addr(x) == m.addr(x));
}

/// An answer arrives: the board notes what it has shown.
proof fn lemma_notes(t: Tree, m: Mesh, x: int, open: Seq<(u8, bool)>, i: int)
    requires
        t.wf(),
        sound(t, m),
        t.has(x),
        m.addr(x) != NO_ADDRESS,
        calm(t, m, x),
        gathering(t, m, x, open),
        0 <= i < open.len(),
        open[i].1,
    ensures
        ({
            let n = m.delivered(t, i);
            let p = open[i].0;
            let src = neighbour(t, m, x, p).1;
            &&& learns(m, n, x, src, p)
            &&& fair(t, m, x, src, p)
            &&& n.boards[x].wf()
            &&& calm(t, n, x)
            &&& gathering(t, n, x, open.remove(i))
            &&& left(open.remove(i)) == left(open) - 1
        }),
{
    let p = open[i].0;
    let n = m.delivered(t, i);
    let f = m.flying[i];
    let (w, q) = t.far(x, p)->0;
    let b = m.boards[x];
    let a = m.addr(x);
    let later = open.remove(i);
    let id = neighbour(t, m, x, p).1;
    assert(flight_ok(t, m, x, open, i));
    lemma_left_removed(open, i);
    lemma_far(t, x, p);
    assert(board_sound(t, m, x));
    assert(w != -1 ==> board_sound(t, m, w));
    assert(t.ports[x] <= MAX_PORTS);
    assert(f.frame =~= pdu::pdu_bytes(Opcode::NodeHello.byte(), id, a, f.frame.skip(3)));
    lemma_takes_in(b, p, Opcode::NodeHello, id, a, f.frame.skip(3));
    let r = b.ingests(p, f.frame);
    assert(r.emits =~= Seq::empty());
    assert(r.store is None);
    assert(walk::appended(Seq::empty(), r.emits) =~= Seq::empty());
    assert(n.flying =~= m.flying.remove(i));
    assert(n.stores =~= m.stores);
    assert(learns(m, n, x, id, p));
    assert(fair(t, m, x, id, p)) by {
        if w != -1 && m.addr(w) != NO_ADDRESS {
            assert forall|v: int| #[trigger] t.below(x, v) && m.addr(v) == id implies p
                == t.at[t.via(x, v)] by {
                assert(v == w);
                assert(t.via(x, w) == w);
            }
        }
    }
    lemma_calm(t, m, n, x, id, p, x);
    assert forall|v: int| t.has(v) implies #[trigger] n.addr(v) == m.addr(v) by {}
    let pr = n.boards[x].probe->0;
    assert forall|k: u8| k < t.ports[x] && !#[trigger] about(later, k) implies pr.states[k as int]
        == neighbour(t, n, x, k) by {
        lemma_neighbour_kept(t, m, n, x, k);
        if k != p && about(open, k) {
            let j = choose|j: int| 0 <= j < open.len() && (#[trigger] open[j]).0 == k;
            if j < i {
                assert(later[j].0 == k);
            } else {
                assert(later[j - 1].0 == k);
            }
        }
    }
    assert forall|k: int| 0 <= k < later.len() implies #[trigger] flight_ok(t, n, x, later, k) by {
        let j = if k < i {
            k
        } else {
            k + 1
        };
        assert(flight_ok(t, m, x, open, j));
        lemma_flight_kept(t, m, n, x, open, later, j, k);
    }
    assert forall|j: int, k: int| 0 <= j < k < later.len() implies (#[trigger] later[j]).0 != (
    #[trigger] later[k]).0 by {
        let jj = if j < i {
            j
        } else {
            j + 1
        };
        let kk = if k < i {
            k
        } else {
            k + 1
        };
        assert(open[jj].0 != open[kk].0);
    }
}

/// The same, while boards are being addressed.
proof fn lemma_answer_arrives(t: Tree, m: Mesh, g: Log, open: Seq<(u8, bool)>, i: int)
    requires
        t.wf(),
        inv(t, m, g, Stage::Gathering { open }),
        0 <= i < open.len(),
        open[i].1,
    ensures
        inv(t, m.delivered(t, i), g, Stage::Gathering { open: open.remove(i) }),
        left(open.remove(i)) == left(open) - 1,
{
    let x = g.cur->0;
    let p = open[i].0;
    let n = m.delivered(t, i);
    lemma_sound(t, m, g);
    lemma_notes(t, m, x, open, i);
    lemma_learns(t, m, n, g, x, neighbour(t, m, x, p).1, p, -1, -1, -1);
    assert(n.addr(x) == m.addr(x));
}

/// All answers are in: the board reports.
proof fn lemma_ends_probe(t: Tree, m: Mesh, x: int, open: Seq<(u8, bool)>)
    requires
        t.wf(),
        sound(t, m),
        t.has(x),
        m.addr(x) != NO_ADDRESS,
        calm(t, m, x),
        gathering(t, m, x, open),
        m.boards[x].routes[m.walk.guest_addr as int] == t.up[x],
        m.flying.len() == 0,
    ensures
        ({
            let n = m.elapsed(t, x);
            &&& learns(m, n, x, NO_ADDRESS, 0)
            &&& n.boards[x].wf()
            &&& n.boards[x].routes == m.boards[x].routes
            &&& calm(t, n, -1)
            &&& report_at(t, n, x, t.above[x])
        }),
{
    let n = m.elapsed(t, x);
    let b = m.boards[x];
    let guest = m.walk.guest_addr;
    let p = b.ports_payload();
    let frame = pdu::pdu_bytes(Opcode::Ports.byte(), b.addr, guest, p);
    assert(board_sound(t, m, x));
    assert(t.ports[x] <= MAX_PORTS);
    assert(t.up[x] < t.ports[x]);
    protocol::lemma_report_entries(b, 0);
    assert(p.len() == 1 + 4 * t.ports[x]);
    let sent = b.originates(Opcode::Ports.byte(), b.addr, guest, p);
    assert(sent =~= seq![(t.up[x], frame)]);
    lemma_child(t, x);
    lemma_one_arrives(t, x, t.up[x], frame, t.above[x], t.at[x]);
    assert(n.flying =~= seq![Flight { node: t.above[x], port: t.at[x], frame }]);
    assert(n.stores =~= m.stores);
    assert(learns(m, n, x, NO_ADDRESS, 0));
    assert(calm(t, n, -1)) by {
        assert forall|v: int| t.has(v) implies (#[trigger] n.boards[v]).probe is None by {
            if v != x {
                assert(m.boards[v].probe is None);
            }
        }
    }
    assert forall|v: int| t.has(v) implies #[trigger] n.addr(v) == m.addr(v) by {}
    assert(n.addr(x) == m.addr(x));
    assert(t.below(t.above[x], x));
    assert(t.via(t.above[x], x) == x);
    assert(frame.skip(3) =~= p);
    assert forall|k: u8| k < t.ports[x] implies #[trigger] entry_ok(t, n, x, p, k) by {
        protocol::lemma_report_entries(b, k as int);
        assert(!about(open, k));
        lemma_neighbour_kept(t, m, n, x, k);
    }
}

/// The same, while boards are being addressed.
proof fn lemma_reports(t: Tree, m: Mesh, g: Log, open: Seq<(u8, bool)>)
    requires
        t.wf(),
        inv(t, m, g, Stage::Gathering { open }),
        m.flying.len() == 0,
    ensures
        inv(t, m.elapsed(t, g.cur->0), g, Stage::Reporting { u: t.above[g.cur->0] }),
{
    let x = g.cur->0;
    let n = m.elapsed(t, x);
    lemma_sound(t, m, g);
    assert(board_ok(t, m, g, x));
    lemma_ends_probe(t, m, x, open);
    lemma_learns(t, m, n, g, x, NO_ADDRESS, 0, -1, -1, -1);
    assert(n.addr(x) == m.addr(x));
}

// ---- the report at the controller ----

/// The boards on the first `k` ports of board `x`, below it.
spec fn kids(t: Tree, x: int, k: int) -> Seq<int>
    decreases k,
{
    if k <= 0 {
        Seq::empty()
    } else {
        match t.child(x, (k - 1) as u8) {
            Some(c) => kids(t, x, k - 1).push(c),
            None => kids(t, x, k - 1),
        }
    }
}

/// Each of them comes after those on lower ports.
proof fn lemma_kids(t: Tree, x: int, k: int)
    requires
        t.wf(),
        t.has(x),
        0 <= k <= MAX_PORTS,
    ensures
        ({
            let s = kids(t, x, k);
            &&& s.len() <= k
            &&& forall|i: int|
                0 <= i < s.len() ==> t.has(#[trigger] s[i]) && s[i] > 0 && t.above[s[i]] == x
                    && t.at[s[i]] < k && kids(t, x, t.at[s[i]] as int).len() == i
            &&& s.no_duplicates()
            &&& forall|c: int|
                1 <= c < t.len() && t.above[c] == x && (#[trigger] t.at[c]) < k ==> kids(
                    t,
                    x,
                    t.at[c] as int,
                ).len() < s.len() && s[kids(t, x, t.at[c] as int).len() as int] == c
        }),
    decreases k,
{
    if k > 0 {
        let q = (k - 1) as u8;
        let before = kids(t, x, k - 1);
        lemma_kids(t, x, k - 1);
        if t.child(x, q) is Some {
            let c = t.child(x, q)->0;
            assert(t.sits(c, x, q));
        }
        assert forall|c: int|
            1 <= c < t.len() && t.above[c] == x && (#[trigger] t.at[c]) < k implies kids(
            t,
            x,
            t.at[c] as int,
        ).len() < kids(t, x, k).len() && kids(t, x, k)[kids(t, x, t.at[c] as int).len() as int]
            == c by {
            if t.at[c] == q {
                lemma_child(t, c);
            }
        }
    }
}

/// The steps that the first `k` entries of the report of board `x` add to the queue.
spec fn tasks(t: Tree, x: int, a: u8, first: u8, k: int) -> Seq<Task> {
    Seq::new(
        kids(t, x, k).len(),
        |i: int| Task::AssignNeighbor {
            relay: a,
            egress: t.at[kids(t, x, k)[i]],
            new_addr: (first + i) as u8,
        },
    )
}

/// The controller reads the first `k` entries of the report of board `x`: it hands an address to
/// each board below.
proof fn lemma_entries_read(t: Tree, m: Mesh, g: Log, x: int, b: Seq<u8>, k: int)
    requires
        t.wf(),
        base(t, m, g),
        g.cur == Some(x),
        m.addr(x) != NO_ADDRESS,
        reports(t, m, x, b),
        0 <= k <= t.ports[x],
        m.walk.next_board + kids(t, x, t.ports[x] as int).len() <= MAX_NODES + 1,
        m.walk.queue.len() + kids(t, x, t.ports[x] as int).len() <= MAX_TASKS,
        kids(t, x, k).len() <= kids(t, x, t.ports[x] as int).len(),
    ensures
        ({
            let w = m.walk.settled();
            let parent = if x == 0 {
                None
            } else {
                Some(m.addr(t.above[x]))
            };
            w.port_entries(m.addr(x), parent, b, k) == (Walk {
                next_board: (w.next_board + kids(t, x, k).len()) as u8,
                queue: w.queue + tasks(t, x, m.addr(x), w.next_board, k),
                ..w
            })
        }),
    decreases k,
{
    let w = m.walk.settled();
    let a = m.addr(x);
    let parent = if x == 0 {
        None
    } else {
        Some(m.addr(t.above[x]))
    };
    let more = tasks(t, x, a, w.next_board, k);
    let end = w.port_entries(a, parent, b, k);
    if k == 0 {
        assert(w.queue + more =~= w.queue);
    } else {
        let p = (k - 1) as u8;
        let s = w.port_entries(a, parent, b, k - 1);
        lemma_entries_read(t, m, g, x, b, k - 1);
        assert(board_ok(t, m, g, x));
        assert(entry_ok(t, m, x, b, p));
        assert(b.len() == 1 + 4 * t.ports[x]);
        let (state, naddr) = neighbour(t, m, x, p);
        assert(end == s.port_entry(a, parent, p, state, naddr));
        match t.child(x, p) {
            Some(c) => {
                assert(t.sits(c, x, p));
                lemma_child(t, c);
                assert(t.at[c] != t.up[x]);
                assert(board_ok(t, m, g, c));
                assert(state == NB_UNASSIGNED);
                let next = s.next_board;
                controller::lemma_place_of(s.assigned, next);
                assert forall|i: int| 0 <= i < s.assigned.len() implies (
                #[trigger] s.assigned[i]).addr != next by {
                    assert(listed_ok(t, m, g, i));
                    lemma_distinct(t, m, g, g.ent[i], g.ent[i]);
                }
                assert(controller::free(s.assigned, next));
                assert(s.next_free() == next);
                assert(kids(t, x, k) == kids(t, x, k - 1).push(c));
                assert(more =~= tasks(t, x, a, w.next_board, k - 1).push(
                    Task::AssignNeighbor { relay: a, egress: p, new_addr: next },
                ));
                assert(w.queue + more =~= s.queue.push(
                    Task::AssignNeighbor { relay: a, egress: p, new_addr: next },
                ));
            },
            None => {
                if t.far(x, p) is Some {
                    assert(p == t.up[x]);
                    if x > 0 {
                        assert(t.above[x] >= 0);
                        lemma_distinct(t, m, g, t.above[x], t.above[x]);
                    }
                } else {
                    assert(state == NB_EMPTY);
                }
                assert(end == s);
                assert(more =~= tasks(t, x, a, w.next_board, k - 1));
            },
        }
    }
}

/// The log once the report of board `x` is read.
spec fn read(t: Tree, g: Log, x: int) -> Log {
    let s = kids(t, x, t.ports[x] as int);
    Log {
        num: Seq::new(
            t.len(),
            |v: int|
                if v > 0 && t.above[v] == x {
                    (g.born.len() + kids(t, x, t.at[v] as int).len() + 1) as u8
                } else {
                    g.num[v]
                },
        ),
        born: g.born + s,
        who: g.who + s,
        cur: None,
        rep: g.rep.push(x),
        ..g
    }
}

/// The way back from board `x` is the board above it.
proof fn lemma_parent(t: Tree, m: Mesh, g: Log, x: int)
    requires
        t.wf(),
        base(t, m, g),
        entered(t, m, g, -1),
        t.has(x),
        m.addr(x) != NO_ADDRESS,
    ensures
        g.ent.contains(x),
        m.walk.settled().parent(m.addr(x)) == if x == 0 {
            None
        } else {
            Some(m.addr(t.above[x]))
        },
{
    let a = m.addr(x);
    let assigned = m.walk.assigned;
    assert(m.boards[x].addr != NO_ADDRESS);
    let k = choose|k: int| 0 <= k < g.ent.len() && g.ent[k] == x;
    assert(listed_ok(t, m, g, k));
    controller::lemma_place_of(assigned, a);
    assert(assigned[k].addr == a);
    let place = controller::place_of(assigned, a)->0;
    let j = choose|j: int| 0 <= j < assigned.len() && assigned[j] == place;
    assert(listed_ok(t, m, g, j));
    lemma_distinct(t, m, g, x, g.ent[j]);
    assert(board_ok(t, m, g, x));
    if x > 0 {
        lemma_distinct(t, m, g, t.above[x], x);
    }
}

/// The boards below `x` are not numbered, queued or addressed before its report is read.
proof fn lemma_kids_are_new(t: Tree, m: Mesh, g: Log, x: int)
    requires
        t.wf(),
        base(t, m, g),
        g.cur == Some(x),
    ensures
        ({
            let s = kids(t, x, t.ports[x] as int);
            &&& forall|c: int|
                1 <= c < t.len() && #[trigger] t.above[c] == x ==> g.num[c] == 0 && m.addr(c)
                    == NO_ADDRESS
            &&& (g.born + s).no_duplicates()
            &&& (g.who + s).no_duplicates()
            &&& (g.born + s).len() <= t.len()
            &&& (g.who + s).len() <= t.len()
        }),
{
    let s = kids(t, x, t.ports[x] as int);
    assert(t.ports[x] <= MAX_PORTS);
    lemma_kids(t, x, t.ports[x] as int);
    assert forall|c: int| 1 <= c < t.len() && #[trigger] t.above[c] == x implies g.num[c] == 0
        && m.addr(c) == NO_ADDRESS by {
        assert(board_ok(t, m, g, c));
    }
    assert forall|i: int| 0 <= i < s.len() implies g.num[#[trigger] s[i]] == 0 by {
        assert(t.above[s[i]] == x);
    }
    assert forall|i: int, j: int| 0 <= i < j < g.born.len() implies g.born[i] != g.born[j] by {
        assert(g.num[g.born[i]] == i + 1);
        assert(g.num[g.born[j]] == j + 1);
    }
    assert forall|i: int| 0 <= i < g.born.len() implies 0 <= (#[trigger] g.born[i]) < t.len() by {
        assert(t.has(g.born[i]));
    }
    assert forall|i: int| 0 <= i < s.len() implies !g.born.contains(#[trigger] s[i]) by {
        if g.born.contains(s[i]) {
            let j = choose|j: int| 0 <= j < g.born.len() && g.born[j] == s[i];
            assert(g.num[g.born[j]] == j + 1);
        }
    }
    lemma_joined(g.born, s, t.len() as int);
    assert forall|i: int| 0 <= i < g.who.len() implies 0 <= (#[trigger] g.who[i]) < t.len() by {
        assert(queued_ok(t, m, g, i));
    }
    assert forall|i: int| 0 <= i < s.len() implies !g.who.contains(#[trigger] s[i]) by {
        if g.who.contains(s[i]) {
            let j = choose|j: int| 0 <= j < g.who.len() && g.who[j] == s[i];
            assert(queued_ok(t, m, g, j));
        }
    }
    lemma_joined(g.who, s, t.len() as int);
}

/// The report has come to the controller, which has an address handed to each board that it shows.
proof fn lemma_report_is_read(t: Tree, m: Mesh, g: Log) -> (h: Log)
    requires
        t.wf(),
        inv(t, m, g, Stage::Reporting { u: -1 }),
    ensures
        inv(t, m.delivered(t, 0), h, Stage::Quiet),
        h.ent.len() == g.ent.len(),
        h.rep.len() == g.rep.len() + 1,
{
    let x = g.cur->0;
    let a = m.addr(x);
    let b = m.flying[0].frame.skip(3);
    let n = m.delivered(t, 0);
    let h = read(t, g, x);
    let np = t.ports[x] as int;
    let s = kids(t, x, np);
    assert(t.ports[x] <= MAX_PORTS);
    lemma_distinct(t, m, g, x, x);
    lemma_kids(t, x, np);
    lemma_kids_are_new(t, m, g, x);
    lemma_parent(t, m, g, x);
    pdu::lemma_pdu_round_trip(Opcode::Ports.byte(), a, m.walk.guest_addr, b);
    lemma_entries_read(t, m, g, x, b, np);
    let more = tasks(t, x, a, m.walk.next_board, np);
    assert(n.walk.queue == m.walk.queue + more);
    assert(n.walk.next_board == h.born.len() + 1);
    assert(m.flying.remove(0) =~= Seq::empty());
    assert forall|v: int| #[trigger] h.rep.contains(v) <==> g.rep.contains(v) || v == x by {
        lemma_pushed(g.rep, x, v);
    }
    assert forall|v: int| t.has(v) implies #[trigger] board_ok(t, n, h, v) by {
        assert(board_ok(t, m, g, v));
        if v > 0 {
            if t.above[v] == x {
                let i = kids(t, x, t.at[v] as int).len() as int;
                assert(t.at[v] < np);
                assert(s[i] == v);
                assert(h.born[g.born.len() + i] == v);
            }
        }
    }
    assert forall|k: int| 0 <= k < h.born.len() implies t.has(#[trigger] h.born[k])
        && h.num[h.born[k]] == k + 1 by {
        if k < g.born.len() {
            let v = g.born[k];
            assert(t.has(v) && g.num[v] == k + 1);
        } else {
            let c = s[k - g.born.len()];
            assert(t.has(c));
        }
    }
    assert forall|i: int| 0 <= i < h.ent.len() implies #[trigger] listed_ok(t, n, h, i) by {
        assert(listed_ok(t, m, g, i));
    }
    assert forall|i: int| 0 <= i < h.who.len() implies #[trigger] queued_ok(t, n, h, i) by {
        if i < g.who.len() {
            assert(queued_ok(t, m, g, i));
            let v = g.who[i];
            assert(n.walk.queue[i] == m.walk.queue[i]);
        } else {
            let c = s[i - g.who.len()];
            assert(t.has(c) && t.above[c] == x);
            assert(n.walk.queue[i] == more[i - g.who.len()]);
            if g.rep.contains(c) {
                lemma_reported_is_addressed(t, m, g, c);
            }
        }
    }
    assert forall|v: int| t.has(v) && #[trigger] h.num[v] != 0 implies h.rep.contains(v)
        || h.who.contains(v) by {
        if v > 0 && t.above[v] == x {
            let i = kids(t, x, t.at[v] as int).len() as int;
            assert(t.at[v] < np);
            assert(h.who[g.who.len() + i] == v);
        } else {
            assert(g.num[v] != 0);
            if g.who.contains(v) {
                let i = choose|i: int| 0 <= i < g.who.len() && g.who[i] == v;
                assert(h.who[i] == v);
            }
        }
    }
    assert forall|i: int| 0 <= i < h.rep.len() implies t.has(#[trigger] h.rep[i])
        && h.ent.contains(h.rep[i]) by {
        if i < g.rep.len() {
            assert(g.ent.contains(g.rep[i]));
        }
    }
    h
}

// ---- the requests of the controller ----

/// First contact: the request goes out.
proof fn lemma_greets(t: Tree, m: Mesh)
    requires
        t.wf(),
        m.walk == Walk::first(),
        m.flying.len() == 0,
        m.boards.len() == t.len(),
        m.stores.len() == t.len(),
        forall|v: int| t.has(v) ==> idle_board(t, #[trigger] m.boards[v], v),
    ensures
        ({
            let n = m.asked(t);
            &&& greeting(t, n)
            &&& n.boards == m.boards
            &&& n.stores == m.stores
            &&& one(n, 0, t.up[0], n.walk.request(Task::Hello))
        }),
{
    let n = m.asked(t);
    let frame = m.walk.request(Task::Hello);
    lemma_child(t, 0);
    lemma_one_arrives(t, -1, 0, frame, 0, t.up[0]);
    assert(n.flying =~= seq![Flight { node: 0, port: t.up[0], frame }]);
    assert(n.walk.queue =~= Seq::empty());
}

/// First contact: the first board answers, and grants a guest address.
proof fn lemma_is_greeted(t: Tree, m: Mesh)
    requires
        t.wf(),
        greeting(t, m),
        pdu::controller(m.boards[0].guest_next),
        one(m, 0, t.up[0], m.walk.request(Task::Hello)),
    ensures
        ({
            let n = m.delivered(t, 0);
            let b = m.boards[0];
            &&& greeting(t, n)
            &&& greeted(t, n)
            &&& n.stores == m.stores
            &&& n.boards == m.boards.update(
                0,
                Board {
                    routes: forward::learned(b.routes, m.walk.guest_addr, t.up[0]),
                    guest_next: n.boards[0].guest_next,
                    ..b
                },
            )
        }),
{
    let n = m.delivered(t, 0);
    let b = m.boards[0];
    let guest = m.walk.guest_addr;
    assert(idle_board(t, m.boards[0], 0));
    lemma_takes_in(
        b,
        t.up[0],
        Opcode::NodeHello,
        guest,
        NO_ADDRESS,
        seq![KIND_CONTROLLER],
    );
    let identity = seq![
        b.addr,
        PROTO_VER,
        (b.fw_ver % 256) as u8,
        (b.fw_ver / 256) as u8,
        b.mcu,
        b.guest_next,
    ];
    let answer = pdu::pdu_bytes(Opcode::NodeHello.byte(), b.addr, guest, identity);
    let r = b.ingests(t.up[0], m.walk.request(Task::Hello));
    assert(r.emits =~= seq![(t.up[0], answer)]);
    assert(r.store is None);
    lemma_child(t, 0);
    lemma_one_arrives(t, 0, t.up[0], answer, -1, 0);
    assert(m.flying.remove(0) =~= Seq::empty());
    assert(n.flying =~= seq![Flight { node: -1, port: 0, frame: answer }]);
    assert(n.stores =~= m.stores);
    assert forall|v: int| t.has(v) implies idle_board(t, #[trigger] n.boards[v], v) by {
        assert(idle_board(t, m.boards[v], v));
    }
}

/// First contact: the answer has come to the controller, which has an address for the first board.
proof fn lemma_takes_guest(t: Tree, m: Mesh, g: Log) -> (h: Log)
    requires
        t.wf(),
        inv(t, m, g, Stage::Greeted),
    ensures
        inv(t, m.delivered(t, 0), h, Stage::Quiet),
        h.ent.len() == 0,
        h.rep.len() == 0,
{
    let n = m.delivered(t, 0);
    let h = Log {
        num: Seq::new(
            t.len(),
            |v: int|
                if v == 0 {
                    1u8
                } else {
                    0
                },
        ),
        born: seq![0int],
        who: seq![0int],
        cur: None,
        ent: Seq::empty(),
        rep: Seq::empty(),
    };
    let frame = m.flying[0].frame;
    let none = Seq::<Placed>::empty();
    assert(controller::free(none, 1));
    assert(controller::first_free(none, 1, 256) == 1);
    assert(n.walk.queue =~= seq![Task::AssignGateway { new_addr: 1 }]);
    assert(n.walk.next_board == 2);
    assert(n.walk.guest_addr == frame[8]);
    assert forall|v: int| t.has(v) implies n.addr(v) == NO_ADDRESS && #[trigger] board_ok(
        t,
        n,
        h,
        v,
    ) by {
        assert(idle_board(t, m.boards[v], v));
    }
    assert forall|v: int| t.has(v) implies #[trigger] n.addr(v) == NO_ADDRESS by {
        assert(board_ok(t, n, h, v));
    }
    assert(queued_ok(t, n, h, 0)) by {
        assert(n.addr(0) == NO_ADDRESS);
    }
    assert forall|v: int| t.has(v) && #[trigger] h.num[v] != 0 implies h.who.contains(v) by {
        assert(h.who[0] == 0);
    }
    assert forall|v: int| t.has(v) implies (#[trigger] n.boards[v]).addr == NO_ADDRESS
        && n.boards[v].probe is None by {
        assert(idle_board(t, m.boards[v], v));
    }
    h
}

/// The request of the next step goes out.
proof fn lemma_asks(t: Tree, m: Mesh, g: Log) -> (h: Log)
    requires
        t.wf(),
        inv(t, m, g, Stage::Quiet),
        m.walk.queue.len() > 0,
    ensures
        inv(t, m.asked(t), h, Stage::Going { u: 0 }),
        h.ent.len() == g.ent.len(),
        h.rep.len() == g.rep.len(),
{
    let v = g.who[0];
    let n = m.asked(t);
    let h = Log { cur: Some(v), who: g.who.skip(1), ..g };
    assert(queued_ok(t, m, g, 0));
    let task = duty(t, m, g, v);
    let frame = m.walk.request(task);
    lemma_child(t, 0);
    lemma_one_arrives(t, -1, 0, frame, 0, t.up[0]);
    assert(n.flying =~= seq![Flight { node: 0, port: t.up[0], frame }]);
    lemma_root(t, target(t, m, v));
    assert forall|w: int| t.has(w) implies #[trigger] board_ok(t, n, h, w) by {
        assert(board_ok(t, m, g, w));
    }
    assert forall|i: int| 0 <= i < h.ent.len() implies #[trigger] listed_ok(t, n, h, i) by {
        assert(listed_ok(t, m, g, i));
    }
    assert forall|i: int| 0 <= i < h.who.len() implies #[trigger] queued_ok(t, n, h, i) by {
        assert(queued_ok(t, m, g, i + 1));
        assert(g.who[0] != g.who[i + 1]);
    }
    assert forall|w: int| t.has(w) && #[trigger] h.num[w] != 0 implies h.rep.contains(w)
        || h.who.contains(w) || h.cur == Some(w) by {
        if g.who.contains(w) && w != v {
            let i = choose|i: int| 0 <= i < g.who.len() && g.who[i] == w;
            assert(h.who[i - 1] == w);
        }
    }
    h
}

// ---- the walk ----

/// Every event takes a walk on.
proof fn lemma_step(t: Tree, m: Mesh, g: Log, st: Stage, e: Event) -> (r: (Log, Stage))
    requires
        t.wf(),
        inv(t, m, g, st),
        m.enabled(t, e),
    ensures
        inv(t, m.next(t, e), r.0, r.1),
        rank(t, r.0, r.1) < rank(t, g, st),
{
    match st {
        Stage::Start => {
            assert forall|v: int| t.has(v) implies (#[trigger] m.boards[v]).probe is None by {
                assert(idle_board(t, m.boards[v], v));
            }
            lemma_greets(t, m);
            (g, Stage::Greeting)
        },
        Stage::Greeting => {
            lemma_is_greeted(t, m);
            assert(blank(t, m.delivered(t, 0))) by {
                assert forall|v: int| t.has(v) implies (#[trigger] m.delivered(t, 0).boards[v]).addr
                    == NO_ADDRESS && !m.delivered(t, 0).boards[v].armed by {
                    assert(m.boards[v].addr == NO_ADDRESS && !m.boards[v].armed);
                }
            }
            (g, Stage::Greeted)
        },
        Stage::Greeted => {
            let h = lemma_takes_guest(t, m, g);
            (h, Stage::Quiet)
        },
        Stage::Quiet => {
            let h = lemma_asks(t, m, g);
            (h, Stage::Going { u: 0 })
        },
        Stage::Going { u } => {
            let v = g.cur->0;
            let x = target(t, m, v);
            if u != x {
                lemma_goes_down(t, m, g, u);
                (g, Stage::Going { u: t.via(u, x) })
            } else if m.addr(v) != NO_ADDRESS {
                lemma_asks_around(t, m, g);
                (g, Stage::Gathering { open: wired(t, v, t.ports[v] as int) })
            } else if v > 0 {
                lemma_hands_over(t, m, g);
                (g, Stage::Handed)
            } else {
                lemma_takes_address(t, m, g);
                (g, Stage::Acking { u: t.above[v] })
            }
        },
        Stage::Handed => {
            lemma_takes_address(t, m, g);
            (g, Stage::Acking { u: t.above[g.cur->0] })
        },
        Stage::Acking { u } => if u >= 0 {
            lemma_ack_goes_up(t, m, g, u);
            (g, Stage::Acking { u: t.above[u] })
        } else {
            let h = lemma_is_entered(t, m, g);
            (h, Stage::Quiet)
        },
        Stage::Gathering { open } => match e {
            Event::Request => (g, st),
            Event::Deliver { i } => if open[i].1 {
                lemma_answer_arrives(t, m, g, open, i);
                (g, Stage::Gathering { open: open.remove(i) })
            } else {
                lemma_probe_arrives(t, m, g, open, i);
                (g, Stage::Gathering { open: open.remove(i).push((open[i].0, true)) })
            },
            Event::Elapse { v } => {
                assert(v == g.cur->0);
                lemma_reports(t, m, g, open);
                (g, Stage::Reporting { u: t.above[v] })
            },
        },
        Stage::Reporting { u } => if u >= 0 {
            lemma_report_goes_up(t, m, g, u);
            (g, Stage::Reporting { u: t.above[u] })
        } else {
            let h = lemma_report_is_read(t, m, g);
            (h, Stage::Quiet)
        },
    }
}

/// What is done once to a board is done no more often than there are boards.
proof fn lemma_once_each(t: Tree, m: Mesh, g: Log)
    requires
        m.walk.assigned.len() == g.ent.len(),
        g.ent.no_duplicates(),
        forall|i: int| 0 <= i < g.ent.len() ==> #[trigger] listed_ok(t, m, g, i),
        g.rep.no_duplicates(),
        forall|i: int| 0 <= i < g.rep.len() ==> t.has(#[trigger] g.rep[i]),
    ensures
        g.ent.len() <= t.len(),
        g.rep.len() <= t.len(),
{
    lemma_map(t, m, g);
    lemma_few(g.ent, t.len() as int);
    assert forall|i: int| 0 <= i < g.rep.len() implies 0 <= (#[trigger] g.rep[i]) < t.len() by {
        assert(t.has(g.rep[i]));
    }
    lemma_few(g.rep, t.len() as int);
}

/// Where nothing can happen any more, the walk is done.
proof fn lemma_rests(t: Tree, m: Mesh, g: Log, st: Stage)
    requires
        t.wf(),
        inv(t, m, g, st),
        forall|e: Event| !#[trigger] m.enabled(t, e),
    ensures
        m.walked(t),
{
    assert(!m.enabled(t, Event::Request));
    assert(!m.enabled(t, Event::Deliver { i: 0 }));
    assert(m.flying.len() == 0);
    if st is Gathering {
        assert(!m.enabled(t, Event::Elapse { v: g.cur->0 }));
    }
    assert(st is Quiet);
    assert(m.walk.queue.len() == 0);
    assert forall|v: int| t.has(v) implies #[trigger] g.rep.contains(v) by {
        lemma_all_reported(t, m, g, v);
    }
    assert forall|v: int| t.has(v) implies idle_board(t, #[trigger] m.boards[v], v) && pdu::board(
        m.boards[v].addr,
    ) && m.stores[v].persisted() == seq![m.boards[v].addr] && m.walk.assigned.contains(
        m.place(t, v),
    ) && g.ent.contains(v) by {
        assert(g.rep.contains(v));
        lemma_reported_is_addressed(t, m, g, v);
        lemma_distinct(t, m, g, v, v);
        assert(board_ok(t, m, g, v));
        let k = choose|k: int| 0 <= k < g.ent.len() && g.ent[k] == v;
        assert(listed_ok(t, m, g, k));
        assert(m.walk.assigned[k] == m.place(t, v));
    }
    assert forall|v: int| t.has(v) implies m.walk.assigned.contains(#[trigger] m.place(t, v)) by {
        assert(pdu::board(m.boards[v].addr));
    }
    assert forall|v: int| t.has(v) implies (#[trigger] m.stores[v]).persisted() == seq![
        m.boards[v].addr,
    ] by {
        assert(pdu::board(m.boards[v].addr));
    }
    assert forall|v: int, w: int| t.has(v) && t.has(w) && v != w implies (
    #[trigger] m.boards[v]).addr != (#[trigger] m.boards[w]).addr by {
        lemma_distinct(t, m, g, v, w);
    }
    assert forall|u: int, v: int| #[trigger] t.below(u, v) && u
        >= 0 implies m.boards[u].routes[m.boards[v].addr as int] == t.at[t.via(u, v)] by {
        assert(pdu::board(m.boards[v].addr));
        assert(m.addr(v) != NO_ADDRESS);
    }
    lemma_map(t, m, g);
    assert forall|v: int| t.has(v) implies #[trigger] g.ent.contains(v) by {
        assert(pdu::board(m.boards[v].addr));
    }
    lemma_everyone(g.ent, t.len() as int);
}

/// What is in the map are boards.
proof fn lemma_map(t: Tree, m: Mesh, g: Log)
    requires
        m.walk.assigned.len() == g.ent.len(),
        forall|i: int| 0 <= i < g.ent.len() ==> #[trigger] listed_ok(t, m, g, i),
    ensures
        forall|i: int| 0 <= i < g.ent.len() ==> 0 <= (#[trigger] g.ent[i]) < t.len(),
        forall|i: int|
            0 <= i < m.walk.assigned.len() ==> m.is_place(t, #[trigger] m.walk.assigned[i]),
{
    assert forall|i: int| 0 <= i < g.ent.len() implies 0 <= (#[trigger] g.ent[i]) < t.len() by {
        assert(listed_ok(t, m, g, i));
    }
    assert forall|i: int| 0 <= i < m.walk.assigned.len() implies m.is_place(
        t,
        #[trigger] m.walk.assigned[i],
    ) by {
        assert(listed_ok(t, m, g, i));
        assert(m.walk.assigned[i] == m.place(t, g.ent[i]));
    }
}

proof fn lemma_all_reported(t: Tree, m: Mesh, g: Log, v: int)
    requires
        t.wf(),
        inv(t, m, g, Stage::Quiet),
        m.walk.queue.len() == 0,
        t.has(v),
    ensures
        g.rep.contains(v),
    decreases v,
{
    if v > 0 {
        lemma_all_reported(t, m, g, t.above[v]);
    }
    assert(board_ok(t, m, g, v));
    assert(g.num[v] != 0);
    if g.who.contains(v) {
        let i = choose|i: int| 0 <= i < g.who.len() && g.who[i] == v;
        assert(queued_ok(t, m, g, i));
    }
}

proof fn lemma_run(t: Tree, run: Seq<Mesh>, events: Seq<Event>, k: int) -> (r: (Log, Stage))
    requires
        t.wf(),
        is_run(t, run, events),
        run[0].fresh(t),
        0 <= k <= events.len(),
    ensures
        inv(t, run[k], r.0, r.1),
        rank(t, r.0, r.1) + k <= 200 * t.len() + 63,
    decreases k,
{
    if k == 0 {
        let g = Log {
            num: Seq::empty(),
            born: Seq::empty(),
            who: Seq::empty(),
            cur: None,
            ent: Seq::empty(),
            rep: Seq::empty(),
        };
        (g, Stage::Start)
    } else {
        let (g, st) = lemma_run(t, run, events, k - 1);
        let e = events[k - 1];
        assert(run[k - 1].enabled(t, e) && run[k] == run[k - 1].next(t, e));
        lemma_step(t, run[k - 1], g, st, e)
    }
}

/// The walk addresses every board. Take any tree of boards that have no address and are not armed,
/// no larger than the map of the controller, and of whatever depth; let every frame that is sent
/// arrive, in whatever order, and let no board end its probe before the answers are in. Then the
/// walk ends, after a bounded number of events; and it does not end before every board has a board
/// address that no other has, and has persisted it, and the map of the controller holds each board
/// once, under that address and at the place where it sits, with no step owed or under way.
pub proof fn lemma_walk_addresses_every_board(t: Tree, run: Seq<Mesh>, events: Seq<Event>)
    requires
        t.wf(),
        run[0].fresh(t),
        is_run(t, run, events),
    ensures
        events.len() <= 200 * t.len() + 63,
        (forall|e: Event| !#[trigger] run.last().enabled(t, e)) ==> run.last().walked(t),
{
    let (g, st) = lemma_run(t, run, events, events.len() as int);
    if !(st is Start || st is Greeting || st is Greeted) {
        lemma_once_each(t, run.last(), g);
    }
    if forall|e: Event| !#[trigger] run.last().enabled(t, e) {
        lemma_rests(t, run.last(), g, st);
    }
}

} // verus!
