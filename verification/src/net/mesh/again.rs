//! A walk over boards that have their addresses already.
//!
//! The law is that it finds every board, and assigns nothing. The boards may have come from a power
//! cycle, with no routes: a request is then flooded, and all its copies but one go astray.

use super::{Event, Flight, Log, Mesh, Stage, Tree};
use crate::net::controller;
use crate::net::controller::{Placed, Task, Walk, MAX_NODES};
use crate::net::forward;
use crate::net::pdu;
use crate::net::pdu::{Opcode, NO_ADDRESS};
use crate::net::protocol;
use crate::net::protocol::{Settled, Store};
use crate::net::walk;
use crate::net::walk::{Board, EGRESS_SELF, MAX_PDU, MAX_PORTS, NB_EMPTY};
use vstd::prelude::*;

verus! {

// ---- what holds between steps ----

/// Board `v` knows the way back to the controller.
spec fn knows(t: Tree, m: Mesh, v: int) -> bool {
    m.boards[v].routes[m.walk.guest_addr as int] == t.up[v]
}

spec fn probe_queued(t: Tree, m: Mesh, g: Log, i: int) -> bool {
    let v = g.who[i];
    &&& t.has(v)
    &&& g.ent.contains(v)
    &&& !g.rep.contains(v)
    &&& g.cur != Some(v)
    &&& m.walk.queue[i] == (Task::Probe { addr: m.addr(v) })
}

/// What holds of such a walk between its steps. Nothing is numbered.
spec fn again(t: Tree, m: Mesh, g: Log) -> bool {
    &&& super::sound(t, m)
    &&& m.unmisled(t)
    &&& forall|v: int| t.has(v) ==> #[trigger] m.addr(v) != NO_ADDRESS
    &&& m.walk.assigned.len() == g.ent.len()
    &&& g.ent.no_duplicates()
    &&& forall|i: int| 0 <= i < g.ent.len() ==> #[trigger] super::listed_ok(t, m, g, i)
    &&& m.walk.queue.len() == g.who.len()
    &&& g.who.no_duplicates()
    &&& forall|i: int| 0 <= i < g.who.len() ==> #[trigger] probe_queued(t, m, g, i)
    &&& g.rep.no_duplicates()
    &&& forall|i: int|
        0 <= i < g.rep.len() ==> t.has(#[trigger] g.rep[i]) && g.ent.contains(g.rep[i]) && knows(
            t,
            m,
            g.rep[i],
        )
    &&& g.ent.contains(0)
    &&& forall|v: int|
        1 <= v < t.len() ==> (#[trigger] g.ent.contains(v) <==> g.rep.contains(t.above[v]))
    &&& forall|v: int|
        #[trigger] g.ent.contains(v) ==> g.rep.contains(v) || g.who.contains(v) || g.cur == Some(v)
    &&& g.cur matches Some(v) ==> t.has(v) && g.ent.contains(v) && !g.rep.contains(v)
}

/// What holds at stage `st` of such a walk.
spec fn inv_again(t: Tree, m: Mesh, g: Log, st: Stage) -> bool {
    let w = m.walk;
    match st {
        Stage::Start => {
            &&& m.named(t)
            &&& m.unmisled(t)
            &&& w == Walk::first()
            &&& m.flying.len() == 0
            &&& pdu::controller(m.boards[0].guest_next)
        },
        Stage::Greeting => {
            &&& m.named(t)
            &&& m.unmisled(t)
            &&& super::greeting(t, m)
            &&& pdu::controller(m.boards[0].guest_next)
            &&& super::one(m, 0, t.up[0], w.request(Task::Hello))
        },
        Stage::Greeted => {
            &&& m.named(t)
            &&& m.unmisled(t)
            &&& super::greeting(t, m)
            &&& super::greeted(t, m)
        },
        Stage::Quiet => {
            &&& again(t, m, g)
            &&& super::calm(t, m, -1)
            &&& g.cur is None
            &&& w.outstanding is None
            &&& m.flying.len() == 0
        },
        Stage::Going { u } => {
            &&& again(t, m, g)
            &&& super::calm(t, m, -1)
            &&& g.cur matches Some(v) && {
                let task = Task::Probe { addr: m.addr(v) };
                &&& w.outstanding == Some(task)
                &&& t.has(u)
                &&& u == v || t.below(u, v)
                &&& super::one(m, u, t.up[u], w.request(task))
            }
        },
        Stage::Gathering { open } => {
            &&& again(t, m, g)
            &&& g.cur matches Some(x) && {
                &&& super::calm(t, m, x)
                &&& knows(t, m, x)
                &&& w.outstanding == Some(Task::Probe { addr: m.addr(x) })
                &&& super::gathering(t, m, x, open)
            }
        },
        Stage::Reporting { u } => {
            &&& again(t, m, g)
            &&& super::calm(t, m, -1)
            &&& g.cur matches Some(x) && {
                &&& knows(t, m, x)
                &&& w.outstanding == Some(Task::Probe { addr: m.addr(x) })
                &&& super::report_at(t, m, x, u)
            }
        },
        Stage::Handed => false,
        Stage::Acking { .. } => false,
    }
}

/// The boards have the addresses that they had, and the stores what they held.
spec fn unchanged(t: Tree, m: Mesh, n: Mesh) -> bool {
    n.stores == m.stores && forall|v: int| t.has(v) ==> #[trigger] n.addr(v) == m.addr(v)
}

/// What a board learns does not disturb the walk.
proof fn lemma_learns_again(t: Tree, m: Mesh, n: Mesh, g: Log, u: int, src: u8, port: u8)
    requires
        t.wf(),
        t.has(u),
        again(t, m, g),
        super::learns(m, n, u, src, port),
        n.boards[u].wf(),
        super::fair(t, m, u, src, port),
    ensures
        again(t, n, g),
        unchanged(t, m, n),
        forall|v: int| t.has(v) && #[trigger] knows(t, m, v) ==> knows(t, n, v),
{
    assert forall|v: int| t.has(v) implies #[trigger] n.addr(v) == m.addr(v) by {
        if v != u {
            assert(n.boards[v] == m.boards[v]);
        }
    }
    assert forall|v: int| t.has(v) implies #[trigger] super::board_sound(t, n, v) by {
        assert(super::board_sound(t, m, v));
        assert(n.addr(v) == m.addr(v));
        assert forall|w: int| t.has(w) && w != v implies #[trigger] n.addr(w) != n.addr(v) by {
            assert(m.addr(w) != m.addr(v));
        }
    }
    assert forall|v: int| t.has(v) implies #[trigger] n.addr(v) != NO_ADDRESS by {
        assert(m.addr(v) != NO_ADDRESS);
    }
    assert(super::board_sound(t, m, u));
    assert forall|v: int| t.has(v) && #[trigger] knows(t, m, v) implies knows(t, n, v) by {
        if v == u {
            assert(n.boards[u].routes == forward::learned(m.boards[u].routes, src, port));
        }
    }
    assert forall|x: int, v: int| #[trigger] t.below(x, v) && x >= 0 implies ({
        let r = n.boards[x].routes[n.boards[v].addr as int];
        r == t.at[t.via(x, v)] || r == forward::NO_PORT
    }) by {
        super::lemma_via(t, x, v);
        assert(n.addr(v) == m.addr(v));
        assert(m.addr(v) != NO_ADDRESS);
        assert(super::board_sound(t, m, v));
        if x == u {
            assert(n.boards[x].routes == forward::learned(m.boards[u].routes, src, port));
        } else {
            assert(n.boards[x] == m.boards[x]);
        }
    }
    assert forall|i: int| 0 <= i < g.ent.len() implies #[trigger] super::listed_ok(t, n, g, i) by {
        assert(super::listed_ok(t, m, g, i));
        let v = g.ent[i];
        assert(n.addr(v) == m.addr(v));
        assert(n.addr(0) == m.addr(0));
        assert(v > 0 ==> n.addr(t.above[v]) == m.addr(t.above[v]));
    }
    assert forall|i: int| 0 <= i < g.who.len() implies #[trigger] probe_queued(t, n, g, i) by {
        assert(probe_queued(t, m, g, i));
        assert(n.addr(g.who[i]) == m.addr(g.who[i]));
    }
    assert forall|i: int| 0 <= i < g.rep.len() implies t.has(#[trigger] g.rep[i])
        && g.ent.contains(g.rep[i]) && knows(t, n, g.rep[i]) by {
        assert(knows(t, m, g.rep[i]));
    }
}

/// Everyone above a board in the map has reported.
proof fn lemma_reported_above(t: Tree, m: Mesh, g: Log, u: int, v: int)
    requires
        t.wf(),
        again(t, m, g),
        t.below(u, v),
        u >= 0,
        g.ent.contains(v),
    ensures
        g.rep.contains(u),
        knows(t, m, u),
    decreases v,
{
    let a = t.above[v];
    assert(g.rep.contains(a));
    let i = choose|i: int| 0 <= i < g.rep.len() && g.rep[i] == a;
    assert(knows(t, m, g.rep[i]));
    assert(g.ent.contains(g.rep[i]));
    if a != u {
        assert(t.below(u, a));
        lemma_reported_above(t, m, g, u, a);
    }
}

/// The answer of the first board has come to the controller, which leaves it its address.
proof fn lemma_takes_guest_again(t: Tree, m: Mesh, g: Log) -> (h: Log)
    requires
        t.wf(),
        inv_again(t, m, g, Stage::Greeted),
    ensures
        inv_again(t, m.delivered(t, 0), h, Stage::Quiet),
        unchanged(t, m, m.delivered(t, 0)),
        h.ent.len() == 1,
        h.rep.len() == 0,
{
    let n = m.delivered(t, 0);
    let h = Log {
        num: Seq::empty(),
        born: Seq::empty(),
        who: seq![0int],
        cur: None,
        ent: seq![0int],
        rep: Seq::empty(),
    };
    let a = m.addr(0);
    assert(super::idle_board(t, m.boards[0], 0) && pdu::board(m.boards[0].addr));
    assert(n.walk.assigned =~= seq![Placed { addr: a, relay: 0, egress: EGRESS_SELF }]);
    assert(n.walk.queue =~= seq![Task::Probe { addr: a }]);
    assert forall|v: int| t.has(v) implies #[trigger] super::board_sound(t, n, v) by {
        assert(super::idle_board(t, m.boards[v], v) && pdu::board(m.boards[v].addr));
        assert forall|w: int| t.has(w) && w != v implies #[trigger] n.addr(w) != n.addr(v) by {
            assert(m.boards[v].addr != m.boards[w].addr);
        }
    }
    assert forall|v: int| t.has(v) implies #[trigger] n.addr(v) != NO_ADDRESS by {
        assert(pdu::board(m.boards[v].addr));
    }
    assert(h.ent[0] == 0);
    assert(h.who[0] == 0);
    assert(h.ent.contains(0));
    assert(n.addr(0) != NO_ADDRESS);
    assert(super::listed_ok(t, n, h, 0));
    assert(probe_queued(t, n, h, 0));
    assert forall|v: int| t.has(v) implies (#[trigger] n.boards[v]).probe is None by {
        assert(super::idle_board(t, m.boards[v], v));
    }
    h
}

/// The request of the next probe goes out.
proof fn lemma_asks_again(t: Tree, m: Mesh, g: Log) -> (h: Log)
    requires
        t.wf(),
        inv_again(t, m, g, Stage::Quiet),
        m.walk.queue.len() > 0,
    ensures
        inv_again(t, m.asked(t), h, Stage::Going { u: 0 }),
        unchanged(t, m, m.asked(t)),
        h.ent.len() == g.ent.len(),
        h.rep.len() == g.rep.len(),
{
    let v = g.who[0];
    let n = m.asked(t);
    let h = Log { cur: Some(v), who: g.who.skip(1), ..g };
    assert(probe_queued(t, m, g, 0));
    let frame = m.walk.request(Task::Probe { addr: m.addr(v) });
    super::lemma_child(t, 0);
    super::lemma_one_arrives(t, -1, 0, frame, 0, t.up[0]);
    assert(n.flying =~= seq![Flight { node: 0, port: t.up[0], frame }]);
    super::lemma_root(t, v);
    assert forall|w: int| t.has(w) implies #[trigger] n.addr(w) == m.addr(w) by {}
    assert forall|w: int| t.has(w) implies #[trigger] super::board_sound(t, n, w) by {
        assert(super::board_sound(t, m, w));
        assert forall|y: int| t.has(y) && y != w implies #[trigger] n.addr(y) != n.addr(w) by {
            assert(m.addr(w) != NO_ADDRESS);
            assert(m.addr(y) != m.addr(w));
        }
    }
    assert forall|w: int| t.has(w) implies #[trigger] n.addr(w) != NO_ADDRESS by {
        assert(m.addr(w) != NO_ADDRESS);
    }
    assert forall|i: int| 0 <= i < h.ent.len() implies #[trigger] super::listed_ok(t, n, h, i) by {
        assert(super::listed_ok(t, m, g, i));
    }
    assert forall|i: int| 0 <= i < h.who.len() implies #[trigger] probe_queued(t, n, h, i) by {
        assert(probe_queued(t, m, g, i + 1));
        assert(g.who[0] != g.who[i + 1]);
    }
    assert forall|i: int| 0 <= i < h.rep.len() implies t.has(#[trigger] h.rep[i])
        && h.ent.contains(h.rep[i]) && knows(t, n, h.rep[i]) by {
        assert(knows(t, m, g.rep[i]));
    }
    assert forall|w: int| #[trigger] h.ent.contains(w) implies h.rep.contains(w) || h.who.contains(
        w,
    ) || h.cur == Some(w) by {
        assert(g.ent.contains(w));
        if g.who.contains(w) && w != v {
            let i = choose|i: int| 0 <= i < g.who.len() && g.who[i] == w;
            assert(h.who[i - 1] == w);
        }
    }
    h
}

/// The places of some boards.
spec fn places(t: Tree, m: Mesh, s: Seq<int>) -> Seq<Placed> {
    Seq::new(s.len(), |i: int| m.place(t, s[i]))
}

/// The probes of some boards.
spec fn probes(m: Mesh, s: Seq<int>) -> Seq<Task> {
    Seq::new(s.len(), |i: int| Task::Probe { addr: m.addr(s[i]) })
}

/// The way back from board `x` is the board above it.
proof fn lemma_parent_again(t: Tree, m: Mesh, g: Log, x: int)
    requires
        t.wf(),
        again(t, m, g),
        t.has(x),
        g.ent.contains(x),
    ensures
        m.walk.settled().parent(m.addr(x)) == if x == 0 {
            None
        } else {
            Some(m.addr(t.above[x]))
        },
{
    let a = m.addr(x);
    let assigned = m.walk.assigned;
    let k = choose|k: int| 0 <= k < g.ent.len() && g.ent[k] == x;
    assert(super::listed_ok(t, m, g, k));
    controller::lemma_place_of(assigned, a);
    assert(assigned[k].addr == a);
    let place = controller::place_of(assigned, a)->0;
    let j = choose|j: int| 0 <= j < assigned.len() && assigned[j] == place;
    assert(super::listed_ok(t, m, g, j));
    assert(super::board_sound(t, m, x));
    assert(m.addr(g.ent[j]) == a);
    assert(g.ent[j] == x);
    if x > 0 {
        assert(m.addr(t.above[x]) != NO_ADDRESS);
        assert(super::board_sound(t, m, t.above[x]));
    }
}

/// The controller reads the first `k` entries of the report of board `x`: it enters each board
/// below in the map, under the address that it has, and has it probed.
proof fn lemma_entries_read_again(t: Tree, m: Mesh, g: Log, x: int, b: Seq<u8>, k: int)
    requires
        t.wf(),
        again(t, m, g),
        g.cur == Some(x),
        super::reports(t, m, x, b),
        0 <= k <= t.ports[x],
        g.ent.len() + super::kids(t, x, t.ports[x] as int).len() <= MAX_NODES,
        g.who.len() + super::kids(t, x, t.ports[x] as int).len() <= MAX_NODES,
        super::kids(t, x, k).len() <= super::kids(t, x, t.ports[x] as int).len(),
    ensures
        ({
            let w = m.walk.settled();
            let parent = if x == 0 {
                None
            } else {
                Some(m.addr(t.above[x]))
            };
            w.port_entries(m.addr(x), parent, b, k) == (Walk {
                assigned: w.assigned + places(t, m, super::kids(t, x, k)),
                queue: w.queue + probes(m, super::kids(t, x, k)),
                ..w
            })
        }),
    decreases k,
{
    let w = m.walk.settled();
    let a = m.addr(x);
    let parent = if x == 0 {
        None
    } else {
        Some(m.addr(t.above[x]))
    };
    let now = super::kids(t, x, k);
    let end = w.port_entries(a, parent, b, k);
    if k == 0 {
        assert(w.assigned + places(t, m, now) =~= w.assigned);
        assert(w.queue + probes(m, now) =~= w.queue);
    } else {
        let p = (k - 1) as u8;
        let s = w.port_entries(a, parent, b, k - 1);
        let before = super::kids(t, x, k - 1);
        lemma_entries_read_again(t, m, g, x, b, k - 1);
        assert(t.ports[x] <= MAX_PORTS);
        super::lemma_kids(t, x, k);
        assert(m.addr(x) != NO_ADDRESS);
        assert(super::board_sound(t, m, x));
        assert(super::entry_ok(t, m, x, b, p));
        assert(b.len() == 1 + 4 * t.ports[x]);
        let (state, naddr) = super::neighbour(t, m, x, p);
        assert(end == s.port_entry(a, parent, p, state, naddr));
        match t.child(x, p) {
            Some(c) => {
                assert(t.sits(c, x, p));
                super::lemma_child(t, c);
                assert(t.at[c] != t.up[x]);
                assert(now == before.push(c));
                assert(m.addr(c) != NO_ADDRESS);
                assert(super::board_sound(t, m, c));
                if x > 0 {
                    assert(m.addr(t.above[x]) != m.addr(c));
                }
                controller::lemma_place_of(s.assigned, naddr);
                assert forall|i: int| 0 <= i < s.assigned.len() implies (
                #[trigger] s.assigned[i]).addr != naddr by {
                    if i < g.ent.len() {
                        assert(super::listed_ok(t, m, g, i));
                        assert(s.assigned[i] == w.assigned[i]);
                        assert(g.ent.contains(g.ent[i]));
                        assert(g.ent.contains(c) ==> g.rep.contains(x));
                        assert(m.addr(g.ent[i]) != m.addr(c));
                    } else {
                        let d = before[i - g.ent.len()];
                        assert(now[i - g.ent.len()] == d);
                        assert(now[before.len() as int] == c);
                        assert(t.has(d) && d != c);
                        assert(m.addr(d) != m.addr(c));
                    }
                }
                assert(m.place(t, c) == (Placed { addr: naddr, relay: a, egress: p }));
                assert(w.assigned + places(t, m, now) =~= s.assigned.push(m.place(t, c)));
                assert(w.queue + probes(m, now) =~= s.queue.push(Task::Probe { addr: naddr }));
            },
            None => {
                if t.far(x, p) is Some {
                    assert(p == t.up[x]);
                    if x > 0 {
                        assert(m.addr(t.above[x]) != NO_ADDRESS);
                        assert(super::board_sound(t, m, t.above[x]));
                    }
                } else {
                    assert(state == NB_EMPTY);
                }
                assert(end == s);
            },
        }
    }
}

/// The report has come to the controller.
proof fn lemma_report_is_read_again(t: Tree, m: Mesh, g: Log) -> (h: Log)
    requires
        t.wf(),
        inv_again(t, m, g, Stage::Reporting { u: -1 }),
    ensures
        inv_again(t, m.delivered(t, 0), h, Stage::Quiet),
        unchanged(t, m, m.delivered(t, 0)),
        m.delivered(t, 0).walk.guest_addr == m.walk.guest_addr,
        h.ent.len() >= g.ent.len(),
        h.rep.len() == g.rep.len() + 1,
{
    let x = g.cur->0;
    let a = m.addr(x);
    let b = m.flying[0].frame.skip(3);
    let n = m.delivered(t, 0);
    let np = t.ports[x] as int;
    let s = super::kids(t, x, np);
    let h = Log { ent: g.ent + s, who: g.who + s, cur: None, rep: g.rep.push(x), ..g };
    assert(t.ports[x] <= MAX_PORTS);
    assert(m.addr(x) != NO_ADDRESS);
    assert(super::board_sound(t, m, x));
    super::lemma_kids(t, x, np);
    assert forall|i: int| 0 <= i < s.len() implies !g.ent.contains(#[trigger] s[i]) by {
        assert(t.above[s[i]] == x);
        assert(g.ent.contains(s[i]) ==> g.rep.contains(x));
    }
    assert forall|i: int| 0 <= i < g.ent.len() implies 0 <= (#[trigger] g.ent[i]) < t.len() by {
        assert(super::listed_ok(t, m, g, i));
    }
    super::lemma_joined(g.ent, s, t.len() as int);
    assert forall|i: int| 0 <= i < g.who.len() implies 0 <= (#[trigger] g.who[i]) < t.len()
        && g.ent.contains(g.who[i]) by {
        assert(probe_queued(t, m, g, i));
    }
    assert forall|i: int| 0 <= i < s.len() implies !g.who.contains(#[trigger] s[i]) by {
        if g.who.contains(s[i]) {
            let j = choose|j: int| 0 <= j < g.who.len() && g.who[j] == s[i];
            assert(g.ent.contains(g.who[j]));
        }
    }
    super::lemma_joined(g.who, s, t.len() as int);
    lemma_parent_again(t, m, g, x);
    pdu::lemma_pdu_round_trip(Opcode::Ports.byte(), a, m.walk.guest_addr, b);
    lemma_entries_read_again(t, m, g, x, b, np);
    assert(n.walk.assigned == m.walk.assigned + places(t, m, s));
    assert(n.walk.queue == m.walk.queue + probes(m, s));
    assert(m.flying.remove(0) =~= Seq::empty());
    assert forall|v: int| t.has(v) implies #[trigger] n.addr(v) == m.addr(v) by {}
    assert forall|v: int| t.has(v) implies #[trigger] super::board_sound(t, n, v) by {
        assert(super::board_sound(t, m, v));
        assert forall|w: int| t.has(w) && w != v implies #[trigger] n.addr(w) != n.addr(v) by {
            assert(m.addr(v) != NO_ADDRESS);
            assert(m.addr(w) != m.addr(v));
        }
    }
    assert forall|v: int| t.has(v) implies #[trigger] n.addr(v) != NO_ADDRESS by {
        assert(m.addr(v) != NO_ADDRESS);
    }
    assert forall|v: int| #[trigger] h.rep.contains(v) <==> g.rep.contains(v) || v == x by {
        super::lemma_pushed(g.rep, x, v);
    }
    assert forall|i: int| 0 <= i < h.ent.len() implies #[trigger] super::listed_ok(t, n, h, i) by {
        if i < g.ent.len() {
            assert(super::listed_ok(t, m, g, i));
            assert(n.walk.assigned[i] == m.walk.assigned[i]);
        } else {
            let c = s[i - g.ent.len()];
            assert(t.has(c));
            assert(m.addr(c) != NO_ADDRESS);
            assert(n.walk.assigned[i] == places(t, m, s)[i - g.ent.len()]);
        }
    }
    assert forall|i: int| 0 <= i < h.who.len() implies #[trigger] probe_queued(t, n, h, i) by {
        if i < g.who.len() {
            assert(probe_queued(t, m, g, i));
            assert(n.walk.queue[i] == m.walk.queue[i]);
            assert(h.ent.contains(g.who[i]));
        } else {
            let c = s[i - g.who.len()];
            assert(t.has(c) && c > x && t.above[c] == x);
            assert(n.walk.queue[i] == probes(m, s)[i - g.who.len()]);
            assert(s.contains(c));
            assert(h.ent.contains(c));
            if g.rep.contains(c) {
                let j = choose|j: int| 0 <= j < g.rep.len() && g.rep[j] == c;
                assert(g.ent.contains(g.rep[j]));
            }
        }
    }
    assert forall|i: int| 0 <= i < h.rep.len() implies t.has(#[trigger] h.rep[i])
        && h.ent.contains(h.rep[i]) && knows(t, n, h.rep[i]) by {
        if i < g.rep.len() {
            assert(knows(t, m, g.rep[i]));
            assert(g.ent.contains(g.rep[i]));
        }
    }
    assert forall|v: int| 1 <= v < t.len() implies (#[trigger] h.ent.contains(v)
        <==> h.rep.contains(t.above[v])) by {
        assert(g.ent.contains(v) <==> g.rep.contains(t.above[v]));
        assert(h.rep.contains(t.above[v]) <==> g.rep.contains(t.above[v]) || t.above[v] == x);
        if t.above[v] == x {
            assert(t.at[v] < np);
            let i = super::kids(t, x, t.at[v] as int).len() as int;
            assert(s[i] == v);
        } else if s.contains(v) {
            let i = choose|i: int| 0 <= i < s.len() && s[i] == v;
            assert(t.above[s[i]] == x);
        }
    }
    assert forall|v: int| #[trigger] h.ent.contains(v) implies h.rep.contains(v) || h.who.contains(
        v,
    ) by {
        if g.ent.contains(v) {
            assert(g.rep.contains(v) || g.who.contains(v) || v == x);
            assert(h.rep.contains(v) || h.who.contains(v));
        }
    }
    h
}

/// A report goes one node further up.
proof fn lemma_report_goes_up_again(t: Tree, m: Mesh, g: Log, u: int)
    requires
        t.wf(),
        inv_again(t, m, g, Stage::Reporting { u }),
        u >= 0,
    ensures
        inv_again(t, m.delivered(t, 0), g, Stage::Reporting { u: t.above[u] }),
        unchanged(t, m, m.delivered(t, 0)),
        t.above[u] < u,
{
    let x = g.cur->0;
    let n = m.delivered(t, 0);
    let p = t.at[t.via(u, x)];
    let frame = m.flying[0].frame;
    super::lemma_via(t, u, x);
    assert(m.flying =~= seq![Flight { node: u, port: p, frame }]);
    assert(t.ports[x] <= MAX_PORTS);
    assert(m.addr(x) != NO_ADDRESS);
    lemma_reported_above(t, m, g, u, x);
    super::lemma_climbs(t, m, u, x, frame);
    assert(super::board_sound(t, m, u));
    lemma_learns_again(t, m, n, g, u, m.addr(x), p);
    super::lemma_calm(t, m, n, u, m.addr(x), p, -1);
    assert(n.addr(x) == m.addr(x));
    assert(knows(t, m, x));
    assert forall|q: u8| q < t.ports[x] implies #[trigger] super::entry_ok(
        t,
        n,
        x,
        frame.skip(3),
        q,
    ) by {
        assert(super::entry_ok(t, m, x, frame.skip(3), q));
        super::lemma_neighbour_kept(t, m, n, x, q);
    }
}

/// First contact leaves the boards their addresses.
proof fn lemma_named_kept(t: Tree, m: Mesh, n: Mesh)
    requires
        t.wf(),
        m.named(t),
        m.unmisled(t),
        super::greeting(t, n),
        pdu::controller(m.walk.guest_addr),
        n.boards == m.boards.update(
            0,
            Board {
                routes: forward::learned(m.boards[0].routes, m.walk.guest_addr, t.up[0]),
                guest_next: n.boards[0].guest_next,
                ..m.boards[0]
            },
        ),
        n.stores == m.stores,
    ensures
        n.named(t),
        n.unmisled(t),
        unchanged(t, m, n),
{
    assert forall|v: int| t.has(v) implies super::idle_board(t, #[trigger] n.boards[v], v)
        && pdu::board(n.boards[v].addr) && n.boards[v].addr == m.boards[v].addr by {
        assert(super::idle_board(t, m.boards[v], v) && pdu::board(m.boards[v].addr));
    }
    assert forall|v: int, w: int| t.has(v) && t.has(w) && v != w implies (
    #[trigger] n.boards[v]).addr != (#[trigger] n.boards[w]).addr by {
        assert(m.boards[v].addr != m.boards[w].addr);
    }
    assert forall|u: int, v: int| #[trigger] t.below(u, v) && u >= 0 implies ({
        let r = n.boards[u].routes[n.boards[v].addr as int];
        r == t.at[t.via(u, v)] || r == forward::NO_PORT
    }) by {
        super::lemma_via(t, u, v);
        assert(pdu::board(m.boards[v].addr));
        assert(super::idle_board(t, m.boards[0], 0));
    }
    assert forall|v: int| t.has(v) implies #[trigger] n.addr(v) == m.addr(v) by {
        assert(n.boards[v].addr == m.boards[v].addr);
    }
}

/// The request has come to a board that does not know the way on.
spec fn lost(t: Tree, m: Mesh, g: Log, st: Stage) -> bool {
    &&& st matches Stage::Going { u }
    &&& g.cur matches Some(v)
    &&& u != v
    &&& m.boards[u].routes[m.addr(v) as int] == forward::NO_PORT
}

/// Every event takes such a walk on.
proof fn lemma_step_again(t: Tree, m: Mesh, g: Log, st: Stage, e: Event) -> (r: (Log, Stage))
    requires
        t.wf(),
        inv_again(t, m, g, st),
        !lost(t, m, g, st),
        m.enabled(t, e),
    ensures
        inv_again(t, m.next(t, e), r.0, r.1),
        unchanged(t, m, m.next(t, e)),
        !(st is Greeted) ==> m.next(t, e).walk.guest_addr == m.walk.guest_addr,
        !(r.1 is Start || r.1 is Greeting || r.1 is Greeted) || st is Start || st is Greeting,
        super::rank(t, r.0, r.1) < super::rank(t, g, st),
{
    let n = m.next(t, e);
    let guest = m.walk.guest_addr;
    match st {
        Stage::Start => {
            assert forall|v: int| t.has(v) implies (#[trigger] m.boards[v]).probe is None by {
                assert(super::idle_board(t, m.boards[v], v));
            }
            super::lemma_greets(t, m);
            (g, Stage::Greeting)
        },
        Stage::Greeting => {
            super::lemma_is_greeted(t, m);
            lemma_named_kept(t, m, n);
            (g, Stage::Greeted)
        },
        Stage::Greeted => {
            let h = lemma_takes_guest_again(t, m, g);
            (h, Stage::Quiet)
        },
        Stage::Quiet => {
            let h = lemma_asks_again(t, m, g);
            (h, Stage::Going { u: 0 })
        },
        Stage::Going { u } => {
            let v = g.cur->0;
            assert(m.addr(v) != NO_ADDRESS);
            assert(super::board_sound(t, m, v));
            assert(super::board_sound(t, m, u));
            if u != v {
                assert(m.boards[u].routes[m.addr(v) as int] == t.at[t.via(u, v)]);
                super::lemma_descends(t, m, u, v, m.walk.request(Task::Probe { addr: m.addr(v) }));
                lemma_learns_again(t, m, n, g, u, guest, t.up[u]);
                super::lemma_calm(t, m, n, u, guest, t.up[u], -1);
                assert(n.addr(v) == m.addr(v));
                (g, Stage::Going { u: t.via(u, v) })
            } else {
                super::lemma_starts_probe(t, m, v);
                lemma_learns_again(t, m, n, g, v, guest, t.up[v]);
                super::lemma_calm(t, m, n, v, guest, t.up[v], v);
                assert(n.addr(v) == m.addr(v));
                (g, Stage::Gathering { open: super::wired(t, v, t.ports[v] as int) })
            }
        },
        Stage::Gathering { open } => {
            let x = g.cur->0;
            assert(m.addr(x) != NO_ADDRESS);
            assert(knows(t, m, x));
            match e {
                Event::Request => (g, st),
                Event::Deliver { i } => {
                    let p = open[i].0;
                    if open[i].1 {
                        super::lemma_notes(t, m, x, open, i);
                        lemma_learns_again(t, m, n, g, x, super::neighbour(t, m, x, p).1, p);
                        assert(n.addr(x) == m.addr(x));
                        (g, Stage::Gathering { open: open.remove(i) })
                    } else {
                        let (u, src, port) = super::heard(t, m, x, p);
                        super::lemma_is_asked(t, m, x, open, i);
                        lemma_learns_again(t, m, n, g, u, src, port);
                        assert(n.addr(x) == m.addr(x));
                        (g, Stage::Gathering { open: open.remove(i).push((p, true)) })
                    }
                },
                Event::Elapse { v } => {
                    assert(v == x);
                    super::lemma_ends_probe(t, m, x, open);
                    lemma_learns_again(t, m, n, g, x, NO_ADDRESS, 0);
                    assert(n.addr(x) == m.addr(x));
                    (g, Stage::Reporting { u: t.above[x] })
                },
            }
        },
        Stage::Reporting { u } => if u >= 0 {
            lemma_report_goes_up_again(t, m, g, u);
            (g, Stage::Reporting { u: t.above[u] })
        } else {
            let h = lemma_report_is_read_again(t, m, g);
            (h, Stage::Quiet)
        },
        _ => (g, st),
    }
}

/// Where nothing can happen any more, such a walk is done.
proof fn lemma_rests_again(t: Tree, m: Mesh, g: Log, st: Stage)
    requires
        t.wf(),
        inv_again(t, m, g, st),
        forall|e: Event| !#[trigger] m.enabled(t, e),
    ensures
        m.mapped(t),
{
    assert(!m.enabled(t, Event::Request));
    assert(!m.enabled(t, Event::Deliver { i: 0 }));
    assert(m.flying.len() == 0);
    if st is Gathering {
        assert(!m.enabled(t, Event::Elapse { v: g.cur->0 }));
    }
    assert(st is Quiet);
    assert(m.walk.queue.len() == 0);
    assert forall|v: int| t.has(v) implies #[trigger] g.ent.contains(v) by {
        lemma_all_entered(t, m, g, v);
    }
    assert forall|v: int| t.has(v) implies m.walk.assigned.contains(#[trigger] m.place(t, v)) by {
        assert(g.ent.contains(v));
        let k = choose|k: int| 0 <= k < g.ent.len() && g.ent[k] == v;
        assert(super::listed_ok(t, m, g, k));
        assert(m.walk.assigned[k] == m.place(t, v));
    }
    super::lemma_map(t, m, g);
    super::lemma_everyone(g.ent, t.len() as int);
}

proof fn lemma_all_entered(t: Tree, m: Mesh, g: Log, v: int)
    requires
        t.wf(),
        inv_again(t, m, g, Stage::Quiet),
        m.walk.queue.len() == 0,
        t.has(v),
    ensures
        g.ent.contains(v),
        g.rep.contains(v),
    decreases v,
{
    if v > 0 {
        lemma_all_entered(t, m, g, t.above[v]);
        assert(g.ent.contains(v) <==> g.rep.contains(t.above[v]));
    }
    assert(g.ent.contains(v));
}

// ---- frames that go astray ----
//
// A request for a board to which the way is not known is flooded. One copy goes on toward the
// board; the others go down, find nobody, and end at the leaves.

/// The frames of `f` that are not marked in `lab`.
spec fn kept(f: Seq<Flight>, lab: Seq<bool>) -> Seq<Flight>
    decreases f.len(),
{
    if f.len() == 0 {
        Seq::empty()
    } else {
        let before = kept(f.drop_last(), lab.drop_last());
        if lab.last() {
            before
        } else {
            before.push(f.last())
        }
    }
}

/// How many of the first `i` are not marked.
spec fn unmarked(lab: Seq<bool>, i: int) -> nat
    decreases i,
{
    if i <= 0 {
        0
    } else {
        unmarked(lab, i - 1) + if lab[i - 1] {
            0nat
        } else {
            1nat
        }
    }
}

proof fn lemma_unmarked_prefix(lab: Seq<bool>, i: int)
    requires
        0 <= i < lab.len(),
    ensures
        unmarked(lab.drop_last(), i) == unmarked(lab, i),
    decreases i,
{
    if i > 0 {
        lemma_unmarked_prefix(lab, i - 1);
    }
}

proof fn lemma_kept_len(f: Seq<Flight>, lab: Seq<bool>)
    requires
        f.len() == lab.len(),
    ensures
        kept(f, lab).len() == unmarked(lab, lab.len() as int),
    decreases f.len(),
{
    if f.len() > 0 {
        lemma_kept_len(f.drop_last(), lab.drop_last());
        lemma_unmarked_prefix(lab, lab.len() - 1);
    }
}

proof fn lemma_kept_at(f: Seq<Flight>, lab: Seq<bool>, i: int)
    requires
        f.len() == lab.len(),
        0 <= i < f.len(),
        !lab[i],
    ensures
        unmarked(lab, i) < kept(f, lab).len(),
        kept(f, lab)[unmarked(lab, i) as int] == f[i],
    decreases f.len(),
{
    let last = f.len() - 1;
    lemma_unmarked_prefix(lab, i);
    lemma_kept_len(f.drop_last(), lab.drop_last());
    if i < last {
        lemma_kept_at(f.drop_last(), lab.drop_last(), i);
    }
}

proof fn lemma_kept_removed(f: Seq<Flight>, lab: Seq<bool>, i: int)
    requires
        f.len() == lab.len(),
        0 <= i < f.len(),
    ensures
        kept(f.remove(i), lab.remove(i)) == if lab[i] {
            kept(f, lab)
        } else {
            kept(f, lab).remove(unmarked(lab, i) as int)
        },
    decreases f.len(),
{
    let last = f.len() - 1;
    let g = f.drop_last();
    let l = lab.drop_last();
    lemma_unmarked_prefix(lab, i);
    lemma_kept_len(g, l);
    if i == last {
        assert(f.remove(i) =~= g);
        assert(lab.remove(i) =~= l);
        assert(kept(g, l) =~= kept(g, l).push(f.last()).remove(kept(g, l).len() as int));
    } else {
        let k = unmarked(lab, i) as int;
        lemma_kept_removed(g, l, i);
        assert(f.remove(i).drop_last() =~= g.remove(i));
        assert(lab.remove(i).drop_last() =~= l.remove(i));
        assert(f.remove(i).last() == f.last());
        assert(lab.remove(i).last() == lab.last());
        if !lab[i] {
            lemma_kept_at(g, l, i);
            assert(kept(g, l).push(f.last()).remove(k) =~= kept(g, l).remove(k).push(f.last()));
        }
    }
}

proof fn lemma_kept_joined(f: Seq<Flight>, lab: Seq<bool>, a: Seq<Flight>, b: Seq<bool>)
    requires
        f.len() == lab.len(),
        a.len() == b.len(),
    ensures
        kept(f + a, lab + b) == kept(f, lab) + kept(a, b),
    decreases a.len(),
{
    if a.len() == 0 {
        assert(f + a =~= f);
        assert(lab + b =~= lab);
        assert(kept(f, lab) + kept(a, b) =~= kept(f, lab));
    } else {
        lemma_kept_joined(f, lab, a.drop_last(), b.drop_last());
        assert((f + a).drop_last() =~= f + a.drop_last());
        assert((lab + b).drop_last() =~= lab + b.drop_last());
        assert((f + a).last() == a.last());
        assert((lab + b).last() == b.last());
        assert(kept(f + a, lab + b) =~= kept(f, lab) + kept(a, b));
    }
}

/// All of them, none of them, or one.
proof fn lemma_kept_alike(a: Seq<Flight>, b: Seq<bool>, j: int)
    requires
        a.len() == b.len(),
    ensures
        (forall|i: int| 0 <= i < b.len() ==> !#[trigger] b[i]) ==> kept(a, b) == a,
        (forall|i: int| 0 <= i < b.len() ==> #[trigger] b[i]) ==> kept(a, b).len() == 0,
        0 <= j < a.len() && (forall|i: int| 0 <= i < b.len() ==> (#[trigger] b[i] <==> i != j))
            ==> kept(a, b) == seq![a[j]],
    decreases a.len(),
{
    if a.len() > 0 {
        let c = b.drop_last();
        lemma_kept_alike(a.drop_last(), c, j);
        assert forall|i: int| 0 <= i < c.len() implies #[trigger] c[i] == b[i] by {}
        assert(b.last() == b[b.len() - 1]);
        if forall|i: int| 0 <= i < b.len() ==> !#[trigger] b[i] {
            assert(kept(a, b) =~= a);
        }
        if 0 <= j < a.len() && (forall|i: int| 0 <= i < b.len() ==> (#[trigger] b[i] <==> i != j)) {
            if j == a.len() - 1 {
                assert forall|i: int| 0 <= i < c.len() implies #[trigger] c[i] by {
                    assert(b[i]);
                }
                assert(kept(a, b) =~= seq![a[j]]);
            }
        }
    } else if 0 <= j < a.len() {
    } else {
        assert(kept(a, b) =~= a);
    }
}

/// A frame from the controller that has come to board `y` from above, for an address that neither
/// that board nor one below it has.
spec fn stray(t: Tree, m: Mesh, f: Flight) -> bool {
    &&& t.has(f.node)
    &&& f.port == t.up[f.node]
    &&& 3 <= f.frame.len() <= MAX_PDU
    &&& pdu::valid_opcode(f.frame[0])
    &&& f.frame[1] == m.walk.guest_addr
    &&& pdu::board(f.frame[2])
    &&& m.addr(f.node) != f.frame[2]
    &&& forall|z: int| #[trigger] t.below(f.node, z) ==> m.addr(z) != f.frame[2]
}

spec fn strays_ok(t: Tree, m: Mesh, lab: Seq<bool>) -> bool {
    &&& lab.len() == m.flying.len()
    &&& forall|i: int| 0 <= i < lab.len() && #[trigger] lab[i] ==> stray(t, m, m.flying[i])
}

/// The mesh without the marked frames.
spec fn cleared(m: Mesh, lab: Seq<bool>) -> Mesh {
    Mesh { flying: kept(m.flying, lab), ..m }
}

/// The mesh with one frame on its way.
spec fn alone(m: Mesh, f: Flight) -> Mesh {
    Mesh { flying: seq![f], ..m }
}

/// What follows the arrival of a frame does not depend on the others.
proof fn lemma_apart(t: Tree, m: Mesh, i: int)
    requires
        0 <= i < m.flying.len(),
    ensures
        ({
            let n = m.delivered(t, i);
            let o = alone(m, m.flying[i]).delivered(t, 0);
            n == (Mesh { flying: m.flying.remove(i) + o.flying, ..o })
        }),
{
    let f = m.flying[i];
    let n = m.delivered(t, i);
    let o = alone(m, f).delivered(t, 0);
    assert(seq![f].remove(0) =~= Seq::<Flight>::empty());
    assert(n.flying =~= m.flying.remove(i) + o.flying);
}

/// Copies of a frame to the boards on the first `k` ports of board `u`, below it.
spec fn fan(t: Tree, u: int, k: int, frame: Seq<u8>) -> Seq<Flight> {
    Seq::new(
        super::kids(t, u, k).len(),
        |i: int|
            Flight {
                node: super::kids(t, u, k)[i],
                port: t.up[super::kids(t, u, k)[i]],
                frame,
            },
    )
}

/// A flood from above goes to the boards below.
proof fn lemma_fan(t: Tree, u: int, k: int, frame: Seq<u8>)
    requires
        t.wf(),
        t.has(u),
        0 <= k <= MAX_PORTS,
        frame.len() <= MAX_PDU,
    ensures
        ({
            let ports = forward::flood_ports(k as nat, Some(t.up[u]));
            &&& super::arrivals(t, u, walk::sent_out(ports, frame)) == fan(t, u, k, frame)
            &&& ports.len() <= k
            &&& super::kids(t, u, k).len() <= if t.up[u] < k {
                k - 1
            } else {
                k
            }
        }),
    decreases k,
{
    let ports = forward::flood_ports(k as nat, Some(t.up[u]));
    let sent = walk::sent_out(ports, frame);
    if k == 0 {
        assert(sent.len() == 0);
        assert(super::arrivals(t, u, sent) =~= fan(t, u, k, frame));
    } else {
        let p = (k - 1) as u8;
        let fewer = forward::flood_ports((k - 1) as nat, Some(t.up[u]));
        lemma_fan(t, u, k - 1, frame);
        if t.child(u, p) is Some {
            let c = t.child(u, p)->0;
            assert(t.sits(c, u, p));
            assert(t.at[c] != t.up[u]);
        }
        if p == t.up[u] {
            assert(fan(t, u, k, frame) =~= fan(t, u, k - 1, frame));
        } else {
            assert(sent.drop_last() =~= walk::sent_out(fewer, frame));
            assert(sent.last() == (p, frame));
            assert(super::arrivals(t, u, sent) =~= fan(t, u, k, frame));
        }
    }
}

/// A board that does not know the way for a frame floods it.
proof fn lemma_spreads(b: Board, store: Store, ingress: u8, frame: Seq<u8>, steps: nat)
    requires
        3 <= frame.len() <= MAX_PDU,
        pdu::valid_opcode(frame[0]),
        frame[2] != NO_ADDRESS,
        frame[2] != pdu::BROADCAST,
        frame[2] != b.addr,
        forward::learned(b.routes, frame[1], ingress)[frame[2] as int] == forward::NO_PORT,
    ensures
        protocol::settled(b.ingests(ingress, frame), store, steps) == (Settled {
            board: protocol::with_route(b, frame[1], ingress),
            store,
            emits: walk::sent_out(forward::flood_ports(b.n_ports as nat, Some(ingress)), frame),
        }),
{
    let r = b.ingests(ingress, frame);
    let sent = walk::sent_out(forward::flood_ports(b.n_ports as nat, Some(ingress)), frame);
    assert(r.emits =~= sent);
}

/// The one frame on its way is flooded by board `u`.
proof fn lemma_fans_out(t: Tree, m: Mesh, u: int, frame: Seq<u8>)
    requires
        t.wf(),
        super::sound(t, m),
        t.has(u),
        m.flying == seq![Flight { node: u, port: t.up[u], frame }],
        3 <= frame.len() <= MAX_PDU,
        pdu::valid_opcode(frame[0]),
        frame[1] == m.walk.guest_addr,
        pdu::board(frame[2]),
        frame[2] != m.addr(u),
        m.boards[u].routes[frame[2] as int] == forward::NO_PORT,
    ensures
        ({
            let n = m.delivered(t, 0);
            &&& super::learns(m, n, u, m.walk.guest_addr, t.up[u])
            &&& n.boards[u].probe == m.boards[u].probe
            &&& n.flying == fan(t, u, t.ports[u] as int, frame)
            &&& n.flying.len() <= 3
        }),
{
    let n = m.delivered(t, 0);
    let b = m.boards[u];
    assert(super::board_sound(t, m, u));
    assert(t.ports[u] <= MAX_PORTS);
    assert(t.up[u] < t.ports[u]);
    lemma_spreads(b, m.stores[u], t.up[u], frame, MAX_PDU as nat);
    lemma_fan(t, u, t.ports[u] as int, frame);
    let sent = walk::sent_out(forward::flood_ports(b.n_ports as nat, Some(t.up[u])), frame);
    assert(walk::appended(Seq::empty(), sent) =~= sent);
    assert(m.flying.remove(0) =~= Seq::empty());
    assert(n.flying =~= fan(t, u, t.ports[u] as int, frame));
    assert(n.stores =~= m.stores);
}

/// A stray frame teaches a board the way to the controller, and goes further down or ends.
proof fn lemma_strays_on(t: Tree, m: Mesh, f: Flight)
    requires
        t.wf(),
        super::sound(t, m),
        stray(t, m, f),
    ensures
        ({
            let n = alone(m, f).delivered(t, 0);
            let y = f.node;
            &&& super::learns(m, n, y, m.walk.guest_addr, t.up[y])
            &&& n.boards[y].probe == m.boards[y].probe
            &&& n.flying.len() <= 3
            &&& forall|i: int|
                0 <= i < n.flying.len() ==> stray(t, n, #[trigger] n.flying[i])
                    && n.flying[i].node > y
        }),
{
    let y = f.node;
    let frame = f.frame;
    let o = alone(m, f);
    let n = o.delivered(t, 0);
    let b = m.boards[y];
    let guest = m.walk.guest_addr;
    assert(super::board_sound(t, m, y));
    assert forall|v: int| t.has(v) implies #[trigger] super::board_sound(t, o, v) by {
        assert(super::board_sound(t, m, v));
        assert forall|w: int|
            t.has(w) && w != v && m.addr(v) != NO_ADDRESS implies #[trigger] o.addr(w) != o.addr(
            v,
        ) by {
            assert(m.addr(w) != m.addr(v));
        }
    }
    let p = forward::learned(b.routes, guest, t.up[y])[frame[2] as int];
    assert(p == b.routes[frame[2] as int]);
    if p == forward::NO_PORT {
        lemma_fans_out(t, o, y, frame);
        super::lemma_kids(t, y, t.ports[y] as int);
        assert forall|i: int| 0 <= i < n.flying.len() implies t.has((#[trigger] n.flying[i]).node)
            && t.above[n.flying[i].node] == y && n.flying[i].node > 0 && n.flying[i] == (Flight {
            node: n.flying[i].node,
            port: t.up[n.flying[i].node],
            frame,
        }) by {
            assert(t.has(super::kids(t, y, t.ports[y] as int)[i]));
        }
    } else {
        let sent = if p == t.up[y] {
            Seq::<(u8, Seq<u8>)>::empty()
        } else {
            seq![(p, frame)]
        };
        let r = b.ingests(t.up[y], frame);
        assert(r.emits =~= sent);
        assert(r.store is None);
        assert(walk::appended(Seq::empty(), sent) =~= sent);
        assert(o.flying.remove(0) =~= Seq::empty());
        assert(n.stores =~= m.stores);
        if p == t.up[y] {
            assert(super::arrivals(t, y, sent).len() == 0);
        } else {
            assert(sent.drop_last() =~= Seq::empty());
            assert(super::arrivals(t, y, sent.drop_last()).len() == 0);
            match t.child(y, p) {
                Some(c) => {
                    assert(t.sits(c, y, p));
                    assert(n.flying =~= seq![Flight { node: c, port: t.up[c], frame }]);
                },
                None => {
                    assert(n.flying.len() == 0);
                },
            }
        }
    }
    assert forall|v: int| t.has(v) implies #[trigger] n.addr(v) == m.addr(v) by {
        if v != y {
            assert(n.boards[v] == m.boards[v]);
        }
    }
    assert forall|i: int| 0 <= i < n.flying.len() implies stray(t, n, #[trigger] n.flying[i])
        && n.flying[i].node > y by {
        let z = n.flying[i].node;
        assert(t.has(z) && t.above[z] == y);
        assert(t.below(y, z));
        assert(n.addr(z) == m.addr(z));
        assert forall|w: int| #[trigger] t.below(z, w) implies n.addr(w) != frame[2] by {
            super::lemma_below_above(t, z, w);
            assert(t.below(y, w));
            assert(n.addr(w) == m.addr(w));
        }
    }
}

/// What a board overhears does not disturb the walk.
proof fn lemma_overheard(t: Tree, m: Mesh, n: Mesh, g: Log, st: Stage, y: int)
    requires
        t.wf(),
        inv_again(t, m, g, st),
        !(st is Start || st is Greeting || st is Greeted),
        t.has(y),
        super::learns(m, n, y, m.walk.guest_addr, t.up[y]),
        n.boards[y].probe == m.boards[y].probe,
        n.flying == m.flying,
    ensures
        inv_again(t, n, g, st),
        unchanged(t, m, n),
{
    assert(super::board_sound(t, m, y));
    lemma_learns_again(t, m, n, g, y, m.walk.guest_addr, t.up[y]);
    assert forall|v: int| t.has(v) implies (#[trigger] n.boards[v]).probe == m.boards[v].probe by {
        if v != y {
            assert(n.boards[v] == m.boards[v]);
        }
    }
    if let Some(x) = g.cur {
        assert(n.addr(x) == m.addr(x));
        if st is Gathering {
            let open = st->open;
            assert(knows(t, m, x));
            assert forall|i: int| 0 <= i < open.len() implies #[trigger] super::flight_ok(
                t,
                n,
                x,
                open,
                i,
            ) by {
                assert(super::flight_ok(t, m, x, open, i));
                super::lemma_flight_kept(t, m, n, x, open, open, i, i);
            }
            let pr = n.boards[x].probe->0;
            assert forall|p: u8|
                p < t.ports[x] && !#[trigger] super::about(open, p) implies pr.states[p as int]
                == super::neighbour(t, n, x, p) by {
                super::lemma_neighbour_kept(t, m, n, x, p);
            }
            assert(super::calm(t, n, x)) by {
                assert forall|v: int| t.has(v) && v != x implies (
                #[trigger] n.boards[v]).probe is None by {
                    assert(m.boards[v].probe is None);
                }
            }
        }
        if st is Reporting {
            assert(knows(t, m, x));
            let b = n.flying[0].frame.skip(3);
            assert forall|p: u8| p < t.ports[x] implies #[trigger] super::entry_ok(
                t,
                n,
                x,
                b,
                p,
            ) by {
                assert(super::entry_ok(t, m, x, b, p));
                super::lemma_neighbour_kept(t, m, n, x, p);
            }
        }
    }
    if !(st is Gathering) {
        assert forall|v: int| t.has(v) implies (#[trigger] n.boards[v]).probe is None by {
            assert(m.boards[v].probe is None);
        }
    }
}

/// A board that does not know the way on floods the request: one copy goes on, the others stray.
proof fn lemma_floods(t: Tree, m: Mesh, g: Log, u: int) -> (lab: Seq<bool>)
    requires
        t.wf(),
        inv_again(t, m, g, Stage::Going { u }),
        lost(t, m, g, Stage::Going { u }),
    ensures
        ({
            let n = m.delivered(t, 0);
            let c = t.via(u, g.cur->0);
            &&& strays_ok(t, n, lab)
            &&& inv_again(t, cleared(n, lab), g, Stage::Going { u: c })
            &&& unchanged(t, m, n)
            &&& n.walk == m.walk
            &&& c > u
            &&& t.has(c)
            &&& n.flying.len() <= 3
            &&& forall|i: int| 0 <= i < n.flying.len() ==> (#[trigger] n.flying[i]).node > u
        }),
{
    let x = g.cur->0;
    let guest = m.walk.guest_addr;
    let frame = m.walk.request(Task::Probe { addr: m.addr(x) });
    let n = m.delivered(t, 0);
    let c = t.via(u, x);
    let s = super::kids(t, u, t.ports[u] as int);
    assert(t.ports[u] <= MAX_PORTS);
    assert(m.addr(x) != NO_ADDRESS);
    assert(super::board_sound(t, m, x));
    assert(super::board_sound(t, m, u));
    super::lemma_via(t, u, x);
    super::lemma_kids(t, u, t.ports[u] as int);
    lemma_fans_out(t, m, u, frame);
    assert(t.at[c] < t.ports[u]);
    let j = super::kids(t, u, t.at[c] as int).len() as int;
    assert(s[j] == c);
    let lab = Seq::new(s.len(), |i: int| i != j);
    lemma_kept_alike(n.flying, lab, j);
    let d = cleared(n, lab);
    assert(super::one(d, c, t.up[c], frame));
    lemma_learns_again(t, m, d, g, u, guest, t.up[u]);
    super::lemma_calm(t, m, d, u, guest, t.up[u], -1);
    assert forall|v: int| t.has(v) implies #[trigger] n.addr(v) == m.addr(v) by {
        assert(d.addr(v) == m.addr(v));
    }
    assert(d.addr(x) == m.addr(x));
    assert forall|i: int| 0 <= i < n.flying.len() implies (#[trigger] n.flying[i]).node > u by {
        assert(t.above[s[i]] == u);
    }
    assert forall|i: int| 0 <= i < lab.len() && #[trigger] lab[i] implies stray(
        t,
        n,
        n.flying[i],
    ) by {
        let z = s[i];
        assert(t.has(z) && t.above[z] == u && z != c);
        assert(n.addr(z) == m.addr(z));
        assert(z != x);
        assert(m.addr(z) != m.addr(x));
        assert forall|w: int| #[trigger] t.below(z, w) implies n.addr(w) != frame[2] by {
            if w == x {
                super::lemma_below_above(t, z, x);
            }
            assert(n.addr(w) == m.addr(w));
            assert(m.addr(w) != m.addr(x));
        }
    }
    lab
}

spec fn pow4(k: int) -> nat
    decreases k,
{
    if k <= 0 {
        1
    } else {
        4 * pow4(k - 1)
    }
}

proof fn lemma_pow4(j: int, k: int)
    requires
        j <= k,
    ensures
        pow4(j) <= pow4(k),
    decreases k - j,
{
    if j < k {
        lemma_pow4(j, k - 1);
    }
}

/// A bound on the number of arrivals that the marked frames can lead to.
spec fn load(t: Tree, f: Seq<Flight>, lab: Seq<bool>) -> nat
    decreases f.len(),
{
    if f.len() == 0 {
        0
    } else {
        load(t, f.drop_last(), lab.drop_last()) + if lab.last() {
            pow4(t.len() - f.last().node)
        } else {
            0nat
        }
    }
}

proof fn lemma_load_removed(t: Tree, f: Seq<Flight>, lab: Seq<bool>, i: int)
    requires
        f.len() == lab.len(),
        0 <= i < f.len(),
    ensures
        load(t, f, lab) == load(t, f.remove(i), lab.remove(i)) + if lab[i] {
            pow4(t.len() - f[i].node)
        } else {
            0nat
        },
    decreases f.len(),
{
    if i == f.len() - 1 {
        assert(f.remove(i) =~= f.drop_last());
        assert(lab.remove(i) =~= lab.drop_last());
    } else {
        lemma_load_removed(t, f.drop_last(), lab.drop_last(), i);
        assert(f.remove(i).drop_last() =~= f.drop_last().remove(i));
        assert(lab.remove(i).drop_last() =~= lab.drop_last().remove(i));
        assert(f.remove(i).last() == f.last());
        assert(lab.remove(i).last() == lab.last());
    }
}

proof fn lemma_load_joined(t: Tree, f: Seq<Flight>, lab: Seq<bool>, a: Seq<Flight>, b: Seq<bool>)
    requires
        f.len() == lab.len(),
        a.len() == b.len(),
    ensures
        load(t, f + a, lab + b) == load(t, f, lab) + load(t, a, b),
    decreases a.len(),
{
    if a.len() == 0 {
        assert(f + a =~= f);
        assert(lab + b =~= lab);
    } else {
        lemma_load_joined(t, f, lab, a.drop_last(), b.drop_last());
        assert((f + a).drop_last() =~= f + a.drop_last());
        assert((lab + b).drop_last() =~= lab + b.drop_last());
        assert((f + a).last() == a.last());
        assert((lab + b).last() == b.last());
    }
}

proof fn lemma_load_none(t: Tree, a: Seq<Flight>, b: Seq<bool>)
    requires
        a.len() == b.len(),
        forall|i: int| 0 <= i < b.len() ==> !#[trigger] b[i],
    ensures
        load(t, a, b) == 0,
    decreases a.len(),
{
    if a.len() > 0 {
        let c = b.drop_last();
        assert forall|i: int| 0 <= i < c.len() implies !#[trigger] c[i] by {
            assert(!b[i]);
        }
        lemma_load_none(t, a.drop_last(), c);
        assert(b.last() == b[b.len() - 1]);
    }
}

/// Three frames one board further down weigh less than one.
proof fn lemma_load_few(t: Tree, a: Seq<Flight>, b: Seq<bool>, y: int)
    requires
        a.len() == b.len(),
        a.len() <= 3,
        forall|i: int| 0 <= i < a.len() ==> (#[trigger] a[i]).node > y,
        y < t.len(),
    ensures
        load(t, a, b) <= a.len() * pow4(t.len() - y - 1),
        load(t, a, b) < pow4(t.len() - y),
    decreases a.len(),
{
    let w = pow4(t.len() - y - 1) as int;
    lemma_pow4(0, t.len() - y - 1);
    if a.len() > 0 {
        let n = a.len() as int;
        let f = a.drop_last();
        assert forall|i: int| 0 <= i < f.len() implies (#[trigger] f[i]).node > y by {
            assert(a[i].node > y);
        }
        lemma_load_few(t, f, b.drop_last(), y);
        assert(a[n - 1].node > y);
        lemma_pow4(t.len() - a.last().node, t.len() - y - 1);
        assert(n * w == (n - 1) * w + w) by (nonlinear_arith);
        assert(n * w <= 3 * w) by (nonlinear_arith)
            requires
                n <= 3,
                w >= 0,
        ;
    }
}

proof fn lemma_sound_alike(t: Tree, m: Mesh, n: Mesh)
    requires
        super::sound(t, m),
        n.boards == m.boards,
        n.stores == m.stores,
        n.walk == m.walk,
    ensures
        super::sound(t, n),
{
    assert forall|v: int| t.has(v) implies #[trigger] super::board_sound(t, n, v) by {
        assert(super::board_sound(t, m, v));
        assert forall|w: int|
            t.has(w) && w != v && m.addr(v) != NO_ADDRESS implies #[trigger] n.addr(w) != n.addr(
            v,
        ) by {
            assert(m.addr(w) != m.addr(v));
        }
    }
}

/// What holds of a walk over boards that have their addresses, with frames gone astray.
spec fn inv_astray(t: Tree, m: Mesh, lab: Seq<bool>, g: Log, st: Stage) -> bool {
    &&& strays_ok(t, m, lab)
    &&& inv_again(t, cleared(m, lab), g, st)
    &&& st is Start || st is Greeting || st is Greeted ==> forall|i: int|
        0 <= i < lab.len() ==> !#[trigger] lab[i]
}

/// A bound on the number of events to come.
spec fn rank_astray(t: Tree, m: Mesh, lab: Seq<bool>, g: Log, st: Stage) -> int {
    super::rank(t, g, st) * 65536 + load(t, m.flying, lab)
}

/// Frames that have strayed are astray still, where no address has changed.
proof fn lemma_strays_kept(t: Tree, m: Mesh, n: Mesh, f: Flight)
    requires
        t.wf(),
        stray(t, m, f),
        unchanged(t, m, n),
        n.walk.guest_addr == m.walk.guest_addr,
    ensures
        stray(t, n, f),
{
    assert(n.addr(f.node) == m.addr(f.node));
    assert forall|z: int| #[trigger] t.below(f.node, z) implies n.addr(z) != f.frame[2] by {
        assert(n.addr(z) == m.addr(z));
    }
}

/// The marks after frame `i` has arrived and others, marked by `more`, have been sent.
proof fn lemma_remarked(
    t: Tree,
    m: Mesh,
    n: Mesh,
    lab: Seq<bool>,
    i: int,
    a: Seq<Flight>,
    more: Seq<bool>,
)
    requires
        t.wf(),
        strays_ok(t, m, lab),
        0 <= i < lab.len(),
        n.flying == m.flying.remove(i) + a,
        a.len() == more.len(),
        unchanged(t, m, n),
        (exists|j: int| 0 <= j < lab.len() && #[trigger] lab[j]) ==> n.walk.guest_addr
            == m.walk.guest_addr,
        forall|j: int| 0 <= j < more.len() && #[trigger] more[j] ==> stray(t, n, a[j]),
    ensures
        strays_ok(t, n, lab.remove(i) + more),
{
    let lab2 = lab.remove(i) + more;
    assert forall|j: int| 0 <= j < lab2.len() && #[trigger] lab2[j] implies stray(
        t,
        n,
        n.flying[j],
    ) by {
        if j < lab.len() - 1 {
            let k = if j < i {
                j
            } else {
                j + 1
            };
            assert(lab[k]);
            assert(n.flying[j] == m.flying[k]);
            lemma_strays_kept(t, m, n, m.flying[k]);
        } else {
            assert(more[j - (lab.len() - 1)]);
        }
    }
}

/// Every event takes such a walk on.
proof fn lemma_step_astray(t: Tree, m: Mesh, lab: Seq<bool>, g: Log, st: Stage, e: Event) -> (r: (
    Seq<bool>,
    Log,
    Stage,
))
    requires
        t.wf(),
        inv_astray(t, m, lab, g, st),
        m.enabled(t, e),
    ensures
        inv_astray(t, m.next(t, e), r.0, r.1, r.2),
        unchanged(t, m, m.next(t, e)),
        rank_astray(t, m.next(t, e), r.0, r.1, r.2) < rank_astray(t, m, lab, g, st),
{
    let n = m.next(t, e);
    let c = cleared(m, lab);
    match e {
        Event::Request => {
            let none = seq![false];
            let (h, s) = lemma_step_again(t, c, g, st, e);
            let a = super::arrivals(t, -1, seq![(0u8, m.walk.request(m.walk.queue[0]))]);
            super::lemma_child(t, 0);
            super::lemma_one_arrives(t, -1, 0, m.walk.request(m.walk.queue[0]), 0, t.up[0]);
            lemma_kept_joined(m.flying, lab, a, none);
            lemma_kept_alike(a, none, 0);
            lemma_load_joined(t, m.flying, lab, a, none);
            lemma_load_none(t, a, none);
            assert(cleared(n, lab + none) == c.asked(t));
            assert forall|i: int| 0 <= i < (lab + none).len() && #[trigger] (lab
                + none)[i] implies stray(t, n, n.flying[i]) by {
                assert(lab[i]);
                lemma_strays_kept(t, m, n, m.flying[i]);
            }
            (lab + none, h, s)
        },
        Event::Elapse { v } => {
            assert(lab =~= Seq::empty());
            assert(m.flying =~= Seq::empty());
            assert(c.flying =~= m.flying);
            assert(c == m);
            let (h, s) = lemma_step_again(t, c, g, st, e);
            let none = Seq::new(n.flying.len(), |i: int| false);
            lemma_kept_alike(n.flying, none, 0);
            lemma_load_none(t, n.flying, none);
            assert(cleared(n, none) == n);
            (none, h, s)
        },
        Event::Deliver { i } => {
            let f = m.flying[i];
            let o = alone(m, f).delivered(t, 0);
            let a = o.flying;
            lemma_apart(t, m, i);
            lemma_kept_removed(m.flying, lab, i);
            lemma_load_removed(t, m.flying, lab, i);
            if lab[i] {
                let more = Seq::new(a.len(), |j: int| true);
                let y = f.node;
                assert(stray(t, m, f));
                assert(again(t, c, g));
                lemma_sound_alike(t, c, m);
                lemma_strays_on(t, m, f);
                lemma_kept_joined(m.flying.remove(i), lab.remove(i), a, more);
                lemma_kept_alike(a, more, 0);
                lemma_load_joined(t, m.flying.remove(i), lab.remove(i), a, more);
                lemma_load_few(t, a, more, y);
                let lab2 = lab.remove(i) + more;
                let d = cleared(n, lab2);
                assert(d.flying =~= c.flying);
                lemma_overheard(t, c, d, g, st, y);
                assert forall|v: int| t.has(v) implies #[trigger] n.addr(v) == m.addr(v) by {
                    assert(d.addr(v) == c.addr(v));
                }
                assert forall|j: int| 0 <= j < more.len() && #[trigger] more[j] implies stray(
                    t,
                    n,
                    a[j],
                ) by {
                    assert(stray(t, o, o.flying[j]));
                    lemma_strays_kept(t, o, n, a[j]);
                }
                lemma_remarked(t, m, n, lab, i, a, more);
                (lab2, g, st)
            } else {
                let k = unmarked(lab, i) as int;
                lemma_kept_at(m.flying, lab, i);
                lemma_apart(t, c, k);
                assert(alone(c, f) == alone(m, f));
                if lost(t, c, g, st) {
                    let u = st->Going_u;
                    assert(c.flying =~= seq![f]);
                    assert(c == alone(m, f));
                    let more = lemma_floods(t, c, g, u);
                    let x = t.via(u, g.cur->0);
                    let lab2 = lab.remove(i) + more;
                    lemma_kept_joined(m.flying.remove(i), lab.remove(i), a, more);
                    lemma_load_joined(t, m.flying.remove(i), lab.remove(i), a, more);
                    lemma_load_few(t, a, more, u);
                    lemma_pow4(t.len() - u, 8);
                    assert(pow4(8) == 65536) by {
                        reveal_with_fuel(pow4, 9);
                    }
                    assert(kept(m.flying.remove(i), lab.remove(i)) =~= Seq::empty());
                    assert(cleared(n, lab2).flying =~= cleared(o, more).flying);
                    assert(cleared(n, lab2) == cleared(o, more));
                    assert forall|v: int| t.has(v) implies #[trigger] n.addr(v) == m.addr(v) by {
                        assert(o.addr(v) == c.addr(v));
                    }
                    assert forall|j: int| 0 <= j < more.len() && #[trigger] more[j] implies stray(
                        t,
                        n,
                        a[j],
                    ) by {
                        assert(stray(t, o, o.flying[j]));
                        lemma_strays_kept(t, o, n, a[j]);
                    }
                    lemma_remarked(t, m, n, lab, i, a, more);
                    (lab2, g, Stage::Going { u: x })
                } else {
                    let more = Seq::new(a.len(), |j: int| false);
                    let lab2 = lab.remove(i) + more;
                    let (h, s) = lemma_step_again(t, c, g, st, Event::Deliver { i: k });
                    lemma_kept_joined(m.flying.remove(i), lab.remove(i), a, more);
                    lemma_kept_alike(a, more, 0);
                    lemma_load_joined(t, m.flying.remove(i), lab.remove(i), a, more);
                    lemma_load_none(t, a, more);
                    assert(cleared(n, lab2) == c.delivered(t, k));
                    assert forall|v: int| t.has(v) implies #[trigger] n.addr(v) == m.addr(v) by {
                        assert(c.delivered(t, k).addr(v) == c.addr(v));
                    }
                    lemma_remarked(t, m, n, lab, i, a, more);
                    (lab2, h, s)
                }
            }
        },
    }
}

/// Boards that have their addresses, and a controller about to make first contact.
pub open spec fn ready(t: Tree, m: Mesh) -> bool {
    &&& m.named(t)
    &&& m.unmisled(t)
    &&& m.walk == Walk::first()
    &&& m.flying.len() == 0
    &&& pdu::controller(m.boards[0].guest_next)
}

proof fn lemma_run_again(t: Tree, run: Seq<Mesh>, events: Seq<Event>, k: int) -> (r: (
    Seq<bool>,
    Log,
    Stage,
))
    requires
        t.wf(),
        ready(t, run[0]),
        super::is_run(t, run, events),
        0 <= k <= events.len(),
    ensures
        inv_astray(t, run[k], r.0, r.1, r.2),
        unchanged(t, run[0], run[k]),
        rank_astray(t, run[k], r.0, r.1, r.2) + k <= (200 * t.len() + 63) * 65536,
    decreases k,
{
    if k == 0 {
        let g = Log {
            num: Seq::empty(),
            born: Seq::empty(),
            who: Seq::empty(),
            cur: None,
            ent: Seq::empty(),
            rep: Seq::empty(),
        };
        assert(cleared(run[0], Seq::empty()).flying =~= run[0].flying);
        (Seq::empty(), g, Stage::Start)
    } else {
        let (lab, g, st) = lemma_run_again(t, run, events, k - 1);
        let e = events[k - 1];
        assert(run[k - 1].enabled(t, e) && run[k] == run[k - 1].next(t, e));
        let r = lemma_step_astray(t, run[k - 1], lab, g, st, e);
        assert forall|v: int| t.has(v) implies #[trigger] run[k].addr(v) == run[0].addr(v) by {
            assert(run[k - 1].addr(v) == run[0].addr(v));
        }
        r
    }
}

/// A walk over boards that all have their addresses, armed or not, assigns nothing: whatever has
/// happened, every board has the address that it had, and its store holds what it held. The walk
/// ends, after a bounded number of events, and does not end before the map of the controller holds
/// each board once, under its address and at the place where it sits, with no step owed or under
/// way. The boards may have forgotten their routes: what they have learned of the way to a board
/// below them has to be right, no more.
pub proof fn lemma_rewalk_assigns_nothing(t: Tree, run: Seq<Mesh>, events: Seq<Event>)
    requires
        t.wf(),
        ready(t, run[0]),
        super::is_run(t, run, events),
    ensures
        events.len() <= (200 * t.len() + 63) * 65536,
        run.last().stores == run[0].stores,
        forall|v: int|
            t.has(v) ==> (#[trigger] run.last().boards[v]).addr == run[0].boards[v].addr,
        (forall|e: Event| !#[trigger] run.last().enabled(t, e)) ==> run.last().mapped(t),
{
    let m = run.last();
    let (lab, g, st) = lemma_run_again(t, run, events, events.len() as int);
    let c = cleared(m, lab);
    assert forall|v: int| t.has(v) implies (#[trigger] m.boards[v]).addr
        == run[0].boards[v].addr by {
        assert(m.addr(v) == run[0].addr(v));
    }
    if !(st is Start || st is Greeting || st is Greeted) {
        super::lemma_once_each(t, c, g);
    }
    if forall|e: Event| !#[trigger] m.enabled(t, e) {
        assert(!m.enabled(t, Event::Deliver { i: 0 }));
        assert(c.flying =~= m.flying);
        lemma_rests_again(t, c, g, st);
    }
}

/// The places of the boards are the same, and so are the two maps.
spec fn same_map(t: Tree, a: Mesh, b: Mesh) -> bool {
    &&& forall|v: int| t.has(v) ==> b.place(t, v) == #[trigger] a.place(t, v)
    &&& forall|p: Placed| #[trigger]
        b.walk.assigned.contains(p) <==> a.walk.assigned.contains(p)
}

proof fn lemma_same_map(t: Tree, a: Mesh, b: Mesh)
    requires
        t.wf(),
        a.mapped(t),
        b.mapped(t),
        forall|v: int| t.has(v) ==> (#[trigger] b.boards[v]).addr == a.boards[v].addr,
    ensures
        same_map(t, a, b),
{
    assert forall|v: int| t.has(v) implies b.place(t, v) == #[trigger] a.place(t, v) by {
        assert(b.boards[v].addr == a.boards[v].addr);
        assert(b.boards[0].addr == a.boards[0].addr);
        if v > 0 {
            assert(b.boards[t.above[v]].addr == a.boards[t.above[v]].addr);
        }
    }
    assert forall|p: Placed| #[trigger] b.walk.assigned.contains(p) <==> a.walk.assigned.contains(
        p,
    ) by {
        if b.walk.assigned.contains(p) {
            let i = choose|i: int| 0 <= i < b.walk.assigned.len() && b.walk.assigned[i] == p;
            assert(b.is_place(t, b.walk.assigned[i]));
            let v = choose|v: int| t.has(v) && p == #[trigger] b.place(t, v);
            assert(a.walk.assigned.contains(a.place(t, v)));
        }
        if a.walk.assigned.contains(p) {
            let i = choose|i: int| 0 <= i < a.walk.assigned.len() && a.walk.assigned[i] == p;
            assert(a.is_place(t, a.walk.assigned[i]));
            let v = choose|v: int| t.has(v) && p == #[trigger] a.place(t, v);
            assert(b.walk.assigned.contains(b.place(t, v)));
        }
    }
}

/// A second walk finds what the first one made: after a walk that came to its end, another
/// controller that walks the same boards, be it after a power cycle of all of them, comes to the
/// same map, board for board, and no board writes to its store.
pub proof fn lemma_second_walk_agrees(
    t: Tree,
    first: Seq<Mesh>,
    events: Seq<Event>,
    power_cycle: bool,
    second: Seq<Mesh>,
    more: Seq<Event>,
)
    requires
        t.wf(),
        first[0].fresh(t),
        super::is_run(t, first, events),
        forall|e: Event| !#[trigger] first.last().enabled(t, e),
        second[0] == (if power_cycle {
            first.last().rebooted().attached()
        } else {
            first.last().attached()
        }),
        pdu::controller(second[0].boards[0].guest_next),
        super::is_run(t, second, more),
        forall|e: Event| !#[trigger] second.last().enabled(t, e),
    ensures
        first.last().walked(t),
        second.last().mapped(t),
        second.last().stores == first.last().stores,
        forall|v: int|
            t.has(v) ==> (#[trigger] second.last().boards[v]).addr == first.last().boards[v].addr,
        forall|p: Placed| #[trigger]
            second.last().walk.assigned.contains(p) <==> first.last().walk.assigned.contains(p),
{
    super::lemma_walk_addresses_every_board(t, first, events);
    let a = first.last();
    let m = second[0];
    let b = second.last();
    assert forall|v: int| t.has(v) implies super::idle_board(t, #[trigger] m.boards[v], v)
        && pdu::board(m.boards[v].addr) && m.boards[v].addr == a.boards[v].addr by {
        assert(super::idle_board(t, a.boards[v], v) && pdu::board(a.boards[v].addr));
        assert(a.stores[v].persisted() == seq![a.boards[v].addr]);
        assert(a.stores[v].persisted()[0] == a.boards[v].addr);
    }
    assert forall|v: int, w: int| t.has(v) && t.has(w) && v != w implies (
    #[trigger] m.boards[v]).addr != (#[trigger] m.boards[w]).addr by {
        assert(a.boards[v].addr != a.boards[w].addr);
    }
    assert(m.unmisled(t)) by {
        assert forall|u: int, v: int| #[trigger] t.below(u, v) && u >= 0 implies ({
            let r = m.boards[u].routes[m.boards[v].addr as int];
            r == t.at[t.via(u, v)] || r == forward::NO_PORT
        }) by {
            assert(m.boards[v].addr == a.boards[v].addr);
        }
    }
    lemma_rewalk_assigns_nothing(t, second, more);
    assert forall|v: int| t.has(v) implies (#[trigger] b.boards[v]).addr == a.boards[v].addr by {
        assert(b.boards[v].addr == m.boards[v].addr);
    }
    lemma_same_map(t, a, b);
}

} // verus!
