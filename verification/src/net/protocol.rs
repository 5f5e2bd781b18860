//! What the sides of the walk and of the configuration exchange do together.
//!
//! The laws here are about whole exchanges: a request that a board takes in, the store that does
//! what the board asks for, and the reply that goes back. The store is one that keeps what it is
//! given.

use crate::net::controller::{Placed, Task, Walk};
use crate::net::forward;
use crate::net::forward::NO_PORT;
use crate::net::pdu;
use crate::net::pdu::{Opcode, NO_ADDRESS};
use crate::net::walk;
use crate::net::walk::{
    Answered, Board, Key, Reaction, StoreFault, Waiting, Wanted, CFG_ARMED, CFG_BAD, CFG_OK,
    CFG_UNKNOWN_KEY, EGRESS_SELF, MAX_PDU, STATUS_OK,
};
use vstd::prelude::*;

verus! {

/// The fields of a store: the type and the encoded value of each.
pub type Fields = Map<Key, (u8, Seq<u8>)>;

/// A store: its fields, and the one that holds the address of the board.
pub struct Store {
    pub fields: Fields,
    pub address: Key,
}

impl Store {
    /// The store with another value in a field.
    pub open spec fn with(self, key: Key, type_tag: u8, value: Seq<u8>) -> Store {
        Store { fields: self.fields.insert(key, (type_tag, value)), ..self }
    }

    /// The address that a board reads back when it boots.
    pub open spec fn persisted(self) -> Seq<u8> {
        self.fields[self.address].1
    }

    /// The store after it has done what it was asked, and its answer. A field is only written with
    /// a value of its own type.
    pub open spec fn served(self, w: Wanted) -> (Store, Answered) {
        match w {
            Wanted::Read { key } => if self.fields.contains_key(key) {
                let (type_tag, value) = self.fields[key];
                (self, Answered::Value { type_tag, value })
            } else {
                (self, Answered::Refused(StoreFault::UnknownKey))
            },
            Wanted::Write { key, type_tag, value } => if !self.fields.contains_key(key) {
                (self, Answered::Refused(StoreFault::UnknownKey))
            } else if self.fields[key].0 != type_tag {
                (self, Answered::Refused(StoreFault::TypeMismatch))
            } else {
                (self.with(key, type_tag, value), Answered::Done)
            },
            Wanted::WriteAddress { addr } => (
                self.with(self.address, self.fields[self.address].0, seq![addr]),
                Answered::Done,
            ),
        }
    }
}

/// A board and its store, and what the board has sent.
#[verifier::ext_equal]
pub struct Settled {
    pub board: Board,
    pub store: Store,
    pub emits: Seq<(u8, Seq<u8>)>,
}

/// A board and its store after at most `steps` requests to the store, from the reaction `r` on.
pub open spec fn settled(r: Reaction, store: Store, steps: nat) -> Settled
    decreases steps,
{
    if steps == 0 || r.store is None {
        Settled { board: r.board, store, emits: r.emits }
    } else {
        let (after, answer) = store.served(r.store->0);
        let rest = settled(r.board.answered(answer), after, (steps - 1) as nat);
        Settled { emits: r.emits + rest.emits, ..rest }
    }
}

/// The board handles a frame from `src` to `dst` itself, and can answer it by the port it came in
/// on.
pub open spec fn reached(b: Board, ingress: u8, src: u8, dst: u8) -> bool {
    &&& b.wf()
    &&& b.job is None
    &&& ingress != NO_PORT
    &&& pdu::unicast(src)
    &&& src != b.addr
    &&& dst == NO_ADDRESS || dst == b.addr
}

/// The board with `src` learned.
pub open spec fn with_route(b: Board, src: u8, ingress: u8) -> Board {
    Board { routes: forward::learned(b.routes, src, ingress), ..b }
}

/// A frame that reaches a board is handled there, and goes nowhere else.
proof fn lemma_handled(b: Board, ingress: u8, op: Opcode, src: u8, dst: u8, payload: Seq<u8>)
    requires
        reached(b, ingress, src, dst),
        payload.len() + 3 <= MAX_PDU,
    ensures
        ({
            let r = b.ingests(ingress, pdu::pdu_bytes(op.byte(), src, dst, payload));
            let here = with_route(b, src, ingress).local(ingress, op.byte(), src, payload);
            &&& r.board == here.board
            &&& r.store == here.store
            &&& r.emits == here.emits
            &&& r.handed == here.handed
        }),
{
    let frame = pdu::pdu_bytes(op.byte(), src, dst, payload);
    pdu::lemma_pdu_round_trip(op.byte(), src, dst, payload);
    let here = with_route(b, src, ingress).local(ingress, op.byte(), src, payload);
    assert(Seq::<(u8, Seq<u8>)>::empty() + here.emits =~= here.emits);
    assert(forward::route(
        b.addr,
        b.n_ports,
        with_route(b, src, ingress).routes,
        Some(ingress),
        dst,
    ) == (true, Seq::<u8>::empty()));
    assert(walk::sent_out(Seq::empty(), frame) =~= Seq::empty());
}

/// What a board sends back to a source that it has learned goes out of that one port.
proof fn lemma_goes_back(b: Board, ingress: u8, op: u8, from: u8, src: u8, payload: Seq<u8>)
    requires
        b.routes.len() == 256,
        ingress != NO_PORT,
        pdu::unicast(src),
        src != b.addr,
        payload.len() + 3 <= MAX_PDU,
    ensures
        with_route(b, src, ingress).originates(op, from, src, payload) == seq![
            (ingress, pdu::pdu_bytes(op, from, src, payload)),
        ],
{
    forward::lemma_reply_route(b.addr, b.n_ports, b.routes, src, ingress);
    assert(with_route(b, src, ingress).originates(op, from, src, payload) =~= seq![
        (ingress, pdu::pdu_bytes(op, from, src, payload)),
    ]);
}

/// The payload of a `CONFIG_WRITE`.
pub open spec fn write_payload(key: Key, type_tag: u8, value: Seq<u8>) -> Seq<u8> {
    seq![key.field_id, key.index, type_tag] + value
}

/// The payload of a `CONFIG_READ`.
pub open spec fn read_payload(key: Key) -> Seq<u8> {
    seq![key.field_id, key.index]
}

/// The payload of the `CONFIG_RESP` that carries a value.
pub open spec fn value_payload(key: Key, type_tag: u8, value: Seq<u8>) -> Seq<u8> {
    seq![key.field_id, key.index, CFG_OK, type_tag] + value
}

/// A `CONFIG_READ` of a field is answered with the value that the store holds, by the port that the
/// request came in on. The value has to fit a reply.
pub proof fn lemma_read_answers(
    b: Board,
    store: Store,
    ingress: u8,
    src: u8,
    dst: u8,
    key: Key,
    steps: nat,
)
    requires
        reached(b, ingress, src, dst),
        store.fields.contains_key(key),
        store.fields[key].1.len() + 7 <= MAX_PDU,
        steps >= 1,
    ensures
        ({
            let request = pdu::pdu_bytes(Opcode::ConfigRead.byte(), src, dst, read_payload(key));
            let s = settled(b.ingests(ingress, request), store, steps);
            let reply = pdu::pdu_bytes(
                Opcode::ConfigResp.byte(),
                b.addr,
                src,
                value_payload(key, store.fields[key].0, store.fields[key].1),
            );
            &&& s.emits == seq![(ingress, reply)]
            &&& s.store == store
            &&& s.board == with_route(b, src, ingress)
        }),
{
    reveal_with_fuel(settled, 3);
    let (type_tag, value) = store.fields[key];
    let payload = read_payload(key);
    let c = with_route(b, src, ingress);
    lemma_handled(b, ingress, Opcode::ConfigRead, src, dst, payload);
    lemma_goes_back(
        b,
        ingress,
        Opcode::ConfigResp.byte(),
        b.addr,
        src,
        value_payload(key, type_tag, value),
    );
    let r = b.ingests(ingress, pdu::pdu_bytes(Opcode::ConfigRead.byte(), src, dst, payload));
    assert(r.store == Some(Wanted::Read { key }));
    assert(r.board == (Board { job: Some(Waiting::Answer { to: src, key }), ..c }));
    assert(r.board.without_job() == c);
    let last = r.board.answered(Answered::Value { type_tag, value });
    assert(last.store is None);
    assert(r.emits + last.emits =~= last.emits);
    assert(settled(r, store, steps).emits =~= last.emits);
}

/// A `CONFIG_WRITE` of a known field with a value of its type, to a board that is not armed, is
/// persisted and answered with the value, by the port that the request came in on. The value has to
/// fit a reply.
pub proof fn lemma_write_persists(
    b: Board,
    store: Store,
    ingress: u8,
    src: u8,
    dst: u8,
    key: Key,
    value: Seq<u8>,
    steps: nat,
)
    requires
        reached(b, ingress, src, dst),
        !b.armed,
        store.fields.contains_key(key),
        value.len() + 7 <= MAX_PDU,
        steps >= 2,
    ensures
        ({
            let type_tag = store.fields[key].0;
            let request = pdu::pdu_bytes(
                Opcode::ConfigWrite.byte(),
                src,
                dst,
                write_payload(key, type_tag, value),
            );
            let s = settled(b.ingests(ingress, request), store, steps);
            let reply = pdu::pdu_bytes(
                Opcode::ConfigResp.byte(),
                b.addr,
                src,
                value_payload(key, type_tag, value),
            );
            &&& s.emits == seq![(ingress, reply)]
            &&& s.store == store.with(key, type_tag, value)
            &&& s.board == with_route(b, src, ingress)
        }),
{
    reveal_with_fuel(settled, 4);
    let type_tag = store.fields[key].0;
    let payload = write_payload(key, type_tag, value);
    let c = with_route(b, src, ingress);
    lemma_handled(b, ingress, Opcode::ConfigWrite, src, dst, payload);
    lemma_goes_back(
        b,
        ingress,
        Opcode::ConfigResp.byte(),
        b.addr,
        src,
        value_payload(key, type_tag, value),
    );
    let r = b.ingests(ingress, pdu::pdu_bytes(Opcode::ConfigWrite.byte(), src, dst, payload));
    assert(payload.skip(3) =~= value);
    assert(r.store == Some(Wanted::Write { key, type_tag, value }));
    assert(r.board == (Board { job: Some(Waiting::Acknowledge { to: src, key }), ..c }));
    assert(r.board.without_job() == c);
    let second = r.board.answered(Answered::Done);
    assert(second.store == Some(Wanted::Read { key }));
    assert(second.board == (Board { job: Some(Waiting::Echo { to: src, key }), ..c }));
    assert(second.board.without_job() == c);
    let after = store.with(key, type_tag, value);
    assert(after.fields[key] == (type_tag, value));
    let last = second.board.answered(Answered::Value { type_tag, value });
    assert(last.store is None);
    assert(r.emits + (second.emits + last.emits) =~= last.emits);
    assert(settled(r, store, steps).emits =~= last.emits);
}

/// A read gives back what a write wrote: after a `CONFIG_WRITE` that the store takes, a
/// `CONFIG_READ` of the field, from whoever and by whatever port, is answered with the value that
/// was written.
pub proof fn lemma_read_gives_back_write(
    b: Board,
    store: Store,
    ingress: u8,
    src: u8,
    dst: u8,
    key: Key,
    value: Seq<u8>,
    reader_port: u8,
    reader: u8,
)
    requires
        reached(b, ingress, src, dst),
        reached(b, reader_port, reader, dst),
        !b.armed,
        store.fields.contains_key(key),
        value.len() + 7 <= MAX_PDU,
    ensures
        ({
            let type_tag = store.fields[key].0;
            let write = pdu::pdu_bytes(
                Opcode::ConfigWrite.byte(),
                src,
                dst,
                write_payload(key, type_tag, value),
            );
            let written = settled(b.ingests(ingress, write), store, 2);
            let read = pdu::pdu_bytes(Opcode::ConfigRead.byte(), reader, dst, read_payload(key));
            settled(written.board.ingests(reader_port, read), written.store, 1).emits == seq![
                (
                    reader_port,
                    pdu::pdu_bytes(
                        Opcode::ConfigResp.byte(),
                        b.addr,
                        reader,
                        value_payload(key, type_tag, value),
                    ),
                ),
            ]
        }),
{
    lemma_write_persists(b, store, ingress, src, dst, key, value, 2);
    let c = with_route(b, src, ingress);
    lemma_read_answers(
        c,
        store.with(key, store.fields[key].0, value),
        reader_port,
        reader,
        dst,
        key,
        1,
    );
}

/// One entry of a multiple write.
pub struct Entry {
    pub key: Key,
    pub type_tag: u8,
    pub value: Seq<u8>,
}

/// The bytes of an entry: key, type, length, value.
pub open spec fn entry_bytes(e: Entry) -> Seq<u8> {
    seq![e.key.field_id, e.key.index, e.type_tag, e.value.len() as u8] + e.value
}

/// The bytes of some entries, one after the other.
pub open spec fn entries_bytes(es: Seq<Entry>) -> Seq<u8>
    decreases es.len(),
{
    if es.len() == 0 {
        Seq::empty()
    } else {
        entry_bytes(es[0]) + entries_bytes(es.skip(1))
    }
}

/// The store after some entries were written, in order.
pub open spec fn applied(store: Store, es: Seq<Entry>) -> Store
    decreases es.len(),
{
    if es.len() == 0 {
        store
    } else {
        applied(store.with(es[0].key, es[0].type_tag, es[0].value), es.skip(1))
    }
}

/// Why the store refuses an entry, if it does: its field is not there, or of another type.
pub open spec fn refusal(store: Store, e: Entry) -> Option<StoreFault> {
    if !store.fields.contains_key(e.key) {
        Some(StoreFault::UnknownKey)
    } else if store.fields[e.key].0 != e.type_tag {
        Some(StoreFault::TypeMismatch)
    } else {
        None
    }
}

/// The store takes every entry.
pub open spec fn takes(store: Store, es: Seq<Entry>) -> bool {
    forall|i: int| 0 <= i < es.len() ==> refusal(store, #[trigger] es[i]) is None
}

/// Writing entries that the store takes changes no refusal.
proof fn lemma_applied_refuses_alike(store: Store, es: Seq<Entry>, e: Entry)
    requires
        takes(store, es),
    ensures
        refusal(applied(store, es), e) == refusal(store, e),
    decreases es.len(),
{
    if es.len() > 0 {
        let after = store.with(es[0].key, es[0].type_tag, es[0].value);
        assert(refusal(store, es[0]) is None);
        assert forall|i: int| 0 <= i < es.skip(1).len() implies refusal(
            after,
            #[trigger] es.skip(1)[i],
        ) is None by {
            assert(es.skip(1)[i] == es[i + 1]);
        }
        lemma_applied_refuses_alike(after, es.skip(1), e);
    }
}

/// The bytes of some entries begin with those of the first `k`.
proof fn lemma_entries_split(es: Seq<Entry>, k: int)
    requires
        0 <= k <= es.len(),
    ensures
        entries_bytes(es) == entries_bytes(es.take(k)) + entries_bytes(es.skip(k)),
    decreases k,
{
    if k == 0 {
        assert(es.skip(0) =~= es);
        assert(entries_bytes(es) =~= entries_bytes(es.take(0)) + entries_bytes(es));
    } else {
        lemma_entries_split(es.skip(1), k - 1);
        assert(es.take(k).skip(1) =~= es.skip(1).take(k - 1));
        assert(es.skip(1).skip(k - 1) =~= es.skip(k));
        assert(entries_bytes(es) =~= entries_bytes(es.take(k)) + entries_bytes(es.skip(k)));
    }
}

/// A multiple write that has come to `off`, where the entry `e` begins, asks for it to be written.
proof fn lemma_entry_asked(
    b: Board,
    to: u8,
    p: Seq<u8>,
    off: int,
    e: Entry,
    rest: Seq<u8>,
    left: int,
)
    requires
        0 <= off <= p.len() <= 255,
        p.skip(off) == entry_bytes(e) + rest,
        left > 0,
    ensures
        ({
            let end = off + 4 + e.value.len();
            &&& b.multi(to, p, off, left) == b.asks(
                Wanted::Write { key: e.key, type_tag: e.type_tag, value: e.value },
                Waiting::Multi { to, payload: p, off: end, left: left - 1 },
            )
            &&& end <= p.len()
            &&& p.skip(end) == rest
        }),
{
    let bytes = entry_bytes(e) + rest;
    let end = off + 4 + e.value.len();
    assert(bytes.len() == p.len() - off);
    assert(bytes[0] == p[off]);
    assert(bytes[1] == p[off + 1]);
    assert(bytes[2] == p[off + 2]);
    assert(bytes[3] == p[off + 3]);
    assert(p.subrange(off + 4, end) =~= e.value) by {
        assert forall|i: int| 0 <= i < e.value.len() implies p[off + 4 + i] == e.value[i] by {
            assert(bytes[4 + i] == p.skip(off)[4 + i]);
        }
    }
    assert(p.skip(end) =~= rest) by {
        assert forall|i: int| 0 <= i < p.len() - end implies p[end + i] == rest[i] by {
            assert(bytes[4 + e.value.len() + i] == p.skip(off)[4 + e.value.len() + i]);
        }
    }
}

/// A multiple write that has come to `off`, where the entries `es` begin, with `tail` and a count
/// of `more` after them: once the entries are written, it goes on at the tail.
proof fn lemma_entries_applied(
    b: Board,
    store: Store,
    to: u8,
    p: Seq<u8>,
    off: int,
    es: Seq<Entry>,
    tail: Seq<u8>,
    more: int,
    steps: nat,
)
    requires
        b.job is None,
        0 <= off <= p.len() <= 255,
        p.skip(off) == entries_bytes(es) + tail,
        more >= 0,
        takes(store, es),
        steps >= es.len(),
    ensures
        settled(b.multi(to, p, off, es.len() + more), store, steps) == settled(
            b.multi(to, p, p.len() - tail.len(), more),
            applied(store, es),
            (steps - es.len()) as nat,
        ),
        p.skip(p.len() - tail.len()) == tail,
        off <= p.len() - tail.len(),
    decreases es.len(),
{
    let r = b.multi(to, p, off, es.len() + more);
    assert(p.skip(off).len() == p.len() - off);
    if es.len() == 0 {
        assert(entries_bytes(es) + tail =~= tail);
    } else {
        let e = es[0];
        let rest = es.skip(1);
        let end = off + 4 + e.value.len();
        let left = rest.len() + more;
        assert(p.skip(off) =~= entry_bytes(e) + (entries_bytes(rest) + tail));
        lemma_entry_asked(b, to, p, off, e, entries_bytes(rest) + tail, es.len() + more);
        assert(r.board.without_job() == b);
        let after = store.with(e.key, e.type_tag, e.value);
        assert(refusal(store, es[0]) is None);
        assert(store.served(r.store->0) == (after, Answered::Done));
        assert forall|i: int| 0 <= i < rest.len() implies refusal(
            after,
            #[trigger] rest[i],
        ) is None by {
            assert(rest[i] == es[i + 1]);
        }
        lemma_entries_applied(b, after, to, p, end, rest, tail, more, (steps - 1) as nat);
        assert(r.board.answered(Answered::Done) == b.multi(to, p, end, left));
        let s = settled(b.multi(to, p, end, left), after, (steps - 1) as nat);
        assert(r.emits + s.emits =~= s.emits);
    }
}

/// A `CONFIG_WRITE_MULTI` whose entries the store takes, to a board that is not armed, persists
/// every entry, in order, and is acknowledged once, by the port that the request came in on.
pub proof fn lemma_multi_write_persists(
    b: Board,
    store: Store,
    ingress: u8,
    src: u8,
    dst: u8,
    es: Seq<Entry>,
    steps: nat,
)
    requires
        reached(b, ingress, src, dst),
        !b.armed,
        es.len() < 256,
        entries_bytes(es).len() + 4 <= MAX_PDU,
        takes(store, es),
        steps >= es.len(),
    ensures
        ({
            let request = pdu::pdu_bytes(
                Opcode::ConfigWriteMulti.byte(),
                src,
                dst,
                seq![es.len() as u8] + entries_bytes(es),
            );
            let s = settled(b.ingests(ingress, request), store, steps);
            &&& s.emits == seq![
                (
                    ingress,
                    pdu::pdu_bytes(
                        Opcode::ConfigResp.byte(),
                        b.addr,
                        src,
                        seq![0u8, 0, CFG_OK, 0],
                    ),
                ),
            ]
            &&& s.store == applied(store, es)
            &&& s.board == with_route(b, src, ingress)
        }),
{
    let p = seq![es.len() as u8] + entries_bytes(es);
    let c = with_route(b, src, ingress);
    lemma_handled(b, ingress, Opcode::ConfigWriteMulti, src, dst, p);
    lemma_goes_back(
        b,
        ingress,
        Opcode::ConfigResp.byte(),
        b.addr,
        src,
        seq![0u8, 0, CFG_OK, 0],
    );
    assert(p.skip(1) =~= entries_bytes(es) + Seq::<u8>::empty());
    lemma_entries_applied(c, store, src, p, 1, es, Seq::empty(), 0, steps);
    let r = b.ingests(
        ingress,
        pdu::pdu_bytes(Opcode::ConfigWriteMulti.byte(), src, dst, p),
    );
    let m = c.multi(src, p, 1, es.len() as int);
    assert(r.board == m.board && r.store == m.store && r.emits == m.emits);
    assert(settled(r, store, steps) == settled(m, store, steps));
}

/// A multiple write that has come to an entry that the store refuses is answered with the status of
/// the refusal.
proof fn lemma_entry_refused(
    b: Board,
    store: Store,
    to: u8,
    p: Seq<u8>,
    off: int,
    e: Entry,
    rest: Seq<u8>,
    left: int,
    steps: nat,
)
    requires
        b.job is None,
        0 <= off <= p.len() <= 255,
        p.skip(off) == entry_bytes(e) + rest,
        left > 0,
        refusal(store, e) is Some,
        steps >= 1,
    ensures
        settled(b.multi(to, p, off, left), store, steps) == (Settled {
            board: b,
            store,
            emits: b.responds(
                to,
                seq![0u8, 0, walk::status_of(refusal(store, e)->0), 0],
            ).emits,
        }),
{
    reveal_with_fuel(settled, 3);
    let fault = refusal(store, e)->0;
    let at = b.multi(to, p, off, left);
    lemma_entry_asked(b, to, p, off, e, rest, left);
    assert(at.board.without_job() == b);
    assert(store.served(at.store->0) == (store, Answered::Refused(fault)));
    let last = at.board.answered(Answered::Refused(fault));
    assert(last.store is None);
    assert(at.emits + last.emits =~= last.emits);
}

/// A `CONFIG_WRITE_MULTI` to a board that is not armed stops at the first entry that the store
/// refuses: the entries before it are persisted, that one and those after it are not, and the one
/// answer carries the status of the refused entry.
pub proof fn lemma_multi_write_stops_at_refusal(
    b: Board,
    store: Store,
    ingress: u8,
    src: u8,
    dst: u8,
    es: Seq<Entry>,
    k: int,
    steps: nat,
)
    requires
        reached(b, ingress, src, dst),
        !b.armed,
        es.len() < 256,
        entries_bytes(es).len() + 4 <= MAX_PDU,
        0 <= k < es.len(),
        takes(store, es.take(k)),
        refusal(store, es[k]) is Some,
        steps >= k + 1,
    ensures
        ({
            let request = pdu::pdu_bytes(
                Opcode::ConfigWriteMulti.byte(),
                src,
                dst,
                seq![es.len() as u8] + entries_bytes(es),
            );
            let s = settled(b.ingests(ingress, request), store, steps);
            &&& s.emits == seq![
                (
                    ingress,
                    pdu::pdu_bytes(
                        Opcode::ConfigResp.byte(),
                        b.addr,
                        src,
                        seq![0u8, 0, walk::status_of(refusal(store, es[k])->0), 0],
                    ),
                ),
            ]
            &&& s.store == applied(store, es.take(k))
            &&& s.board == with_route(b, src, ingress)
        }),
{
    let p = seq![es.len() as u8] + entries_bytes(es);
    let c = with_route(b, src, ingress);
    let fault = refusal(store, es[k])->0;
    let head = es.take(k);
    let tail = entries_bytes(es.skip(k));
    let after = applied(store, head);
    lemma_handled(b, ingress, Opcode::ConfigWriteMulti, src, dst, p);
    lemma_goes_back(
        b,
        ingress,
        Opcode::ConfigResp.byte(),
        b.addr,
        src,
        seq![0u8, 0, walk::status_of(fault), 0],
    );
    lemma_entries_split(es, k);
    assert(p.skip(1) =~= entries_bytes(head) + tail);
    lemma_entries_applied(c, store, src, p, 1, head, tail, es.len() - k, steps);
    lemma_applied_refuses_alike(store, head, es[k]);
    let r = b.ingests(
        ingress,
        pdu::pdu_bytes(Opcode::ConfigWriteMulti.byte(), src, dst, p),
    );
    let m = c.multi(src, p, 1, es.len() as int);
    assert(r.board == m.board && r.store == m.store && r.emits == m.emits);
    assert(settled(r, store, steps) == settled(m, store, steps));

    assert(es.skip(k)[0] == es[k]);
    lemma_entry_refused(
        c,
        after,
        src,
        p,
        p.len() - tail.len(),
        es[k],
        entries_bytes(es.skip(k).skip(1)),
        es.len() - k,
        (steps - k) as nat,
    );
}

/// A `CONFIG_WRITE_MULTI` to a board that is not armed whose payload ends before its count is
/// reached: the whole entries before that are persisted, and the one answer says that the request
/// is malformed.
pub proof fn lemma_multi_write_truncated(
    b: Board,
    store: Store,
    ingress: u8,
    src: u8,
    dst: u8,
    count: u8,
    es: Seq<Entry>,
    tail: Seq<u8>,
    steps: nat,
)
    requires
        reached(b, ingress, src, dst),
        !b.armed,
        es.len() < count,
        entries_bytes(es).len() + tail.len() + 4 <= MAX_PDU,
        tail.len() < 4 || tail.len() < 4 + tail[3],
        takes(store, es),
        steps >= es.len(),
    ensures
        ({
            let request = pdu::pdu_bytes(
                Opcode::ConfigWriteMulti.byte(),
                src,
                dst,
                seq![count] + (entries_bytes(es) + tail),
            );
            let s = settled(b.ingests(ingress, request), store, steps);
            &&& s.emits == seq![
                (
                    ingress,
                    pdu::pdu_bytes(
                        Opcode::ConfigResp.byte(),
                        b.addr,
                        src,
                        seq![0u8, 0, CFG_BAD, 0],
                    ),
                ),
            ]
            &&& s.store == applied(store, es)
            &&& s.board == with_route(b, src, ingress)
        }),
{
    let p = seq![count] + (entries_bytes(es) + tail);
    let c = with_route(b, src, ingress);
    lemma_handled(b, ingress, Opcode::ConfigWriteMulti, src, dst, p);
    lemma_goes_back(
        b,
        ingress,
        Opcode::ConfigResp.byte(),
        b.addr,
        src,
        seq![0u8, 0, CFG_BAD, 0],
    );
    assert(p.skip(1) =~= entries_bytes(es) + tail);
    lemma_entries_applied(c, store, src, p, 1, es, tail, count - es.len(), steps);
    let r = b.ingests(
        ingress,
        pdu::pdu_bytes(Opcode::ConfigWriteMulti.byte(), src, dst, p),
    );
    let m = c.multi(src, p, 1, count as int);
    assert(r.board == m.board && r.store == m.store && r.emits == m.emits);
    assert(settled(r, store, steps) == settled(m, store, steps));
    let off = p.len() - tail.len();
    if tail.len() >= 4 {
        assert(tail[3] == p.skip(off)[3]);
    }
}

/// A `CONFIG_WRITE` to an armed board is refused: the answer says that the board is armed, and the
/// store is as it was.
pub proof fn lemma_armed_refuses_write(
    b: Board,
    store: Store,
    ingress: u8,
    src: u8,
    dst: u8,
    key: Key,
    type_tag: u8,
    value: Seq<u8>,
    steps: nat,
)
    requires
        reached(b, ingress, src, dst),
        b.armed,
        value.len() + 6 <= MAX_PDU,
    ensures
        ({
            let request = pdu::pdu_bytes(
                Opcode::ConfigWrite.byte(),
                src,
                dst,
                write_payload(key, type_tag, value),
            );
            let s = settled(b.ingests(ingress, request), store, steps);
            &&& s.emits == seq![
                (
                    ingress,
                    pdu::pdu_bytes(
                        Opcode::ConfigResp.byte(),
                        b.addr,
                        src,
                        seq![key.field_id, key.index, CFG_ARMED, 0],
                    ),
                ),
            ]
            &&& s.store == store
            &&& s.board == with_route(b, src, ingress)
        }),
{
    let payload = write_payload(key, type_tag, value);
    lemma_handled(b, ingress, Opcode::ConfigWrite, src, dst, payload);
    lemma_goes_back(
        b,
        ingress,
        Opcode::ConfigResp.byte(),
        b.addr,
        src,
        seq![key.field_id, key.index, CFG_ARMED, 0],
    );
}

/// A `CONFIG_WRITE_MULTI` to an armed board is refused whole: the answer says that the board is
/// armed, and the store is as it was.
pub proof fn lemma_armed_refuses_multi_write(
    b: Board,
    store: Store,
    ingress: u8,
    src: u8,
    dst: u8,
    payload: Seq<u8>,
    steps: nat,
)
    requires
        reached(b, ingress, src, dst),
        b.armed,
        0 < payload.len() <= MAX_PDU - 3,
    ensures
        ({
            let request = pdu::pdu_bytes(Opcode::ConfigWriteMulti.byte(), src, dst, payload);
            let s = settled(b.ingests(ingress, request), store, steps);
            &&& s.emits == seq![
                (
                    ingress,
                    pdu::pdu_bytes(
                        Opcode::ConfigResp.byte(),
                        b.addr,
                        src,
                        seq![0u8, 0, CFG_ARMED, 0],
                    ),
                ),
            ]
            &&& s.store == store
            &&& s.board == with_route(b, src, ingress)
        }),
{
    lemma_handled(b, ingress, Opcode::ConfigWriteMulti, src, dst, payload);
    lemma_goes_back(
        b,
        ingress,
        Opcode::ConfigResp.byte(),
        b.addr,
        src,
        seq![0u8, 0, CFG_ARMED, 0],
    );
}

/// A `CONFIG_WRITE` that the store refuses, to a board that is not armed, is answered with the
/// status of the refusal, and the store is as it was.
pub proof fn lemma_write_refused(
    b: Board,
    store: Store,
    ingress: u8,
    src: u8,
    dst: u8,
    e: Entry,
    steps: nat,
)
    requires
        reached(b, ingress, src, dst),
        !b.armed,
        refusal(store, e) is Some,
        e.value.len() + 6 <= MAX_PDU,
        steps >= 1,
    ensures
        ({
            let request = pdu::pdu_bytes(
                Opcode::ConfigWrite.byte(),
                src,
                dst,
                write_payload(e.key, e.type_tag, e.value),
            );
            let s = settled(b.ingests(ingress, request), store, steps);
            &&& s.emits == seq![
                (
                    ingress,
                    pdu::pdu_bytes(
                        Opcode::ConfigResp.byte(),
                        b.addr,
                        src,
                        seq![e.key.field_id, e.key.index, walk::status_of(refusal(store, e)->0), 0],
                    ),
                ),
            ]
            &&& s.store == store
            &&& s.board == with_route(b, src, ingress)
        }),
{
    reveal_with_fuel(settled, 3);
    let fault = refusal(store, e)->0;
    let payload = write_payload(e.key, e.type_tag, e.value);
    let c = with_route(b, src, ingress);
    lemma_handled(b, ingress, Opcode::ConfigWrite, src, dst, payload);
    lemma_goes_back(
        b,
        ingress,
        Opcode::ConfigResp.byte(),
        b.addr,
        src,
        seq![e.key.field_id, e.key.index, walk::status_of(fault), 0],
    );
    let r = b.ingests(ingress, pdu::pdu_bytes(Opcode::ConfigWrite.byte(), src, dst, payload));
    assert(payload.skip(3) =~= e.value);
    assert(r.store == Some(Wanted::Write { key: e.key, type_tag: e.type_tag, value: e.value }));
    assert(r.board.without_job() == c);
    let last = r.board.answered(Answered::Refused(fault));
    assert(last.store is None);
    assert(r.emits + last.emits =~= last.emits);
}

/// A `CONFIG_READ` of a field that the store does not have is answered so.
pub proof fn lemma_read_refused(
    b: Board,
    store: Store,
    ingress: u8,
    src: u8,
    dst: u8,
    key: Key,
    steps: nat,
)
    requires
        reached(b, ingress, src, dst),
        !store.fields.contains_key(key),
        steps >= 1,
    ensures
        ({
            let request = pdu::pdu_bytes(
                Opcode::ConfigRead.byte(),
                src,
                dst,
                read_payload(key),
            );
            let s = settled(b.ingests(ingress, request), store, steps);
            &&& s.emits == seq![
                (
                    ingress,
                    pdu::pdu_bytes(
                        Opcode::ConfigResp.byte(),
                        b.addr,
                        src,
                        seq![key.field_id, key.index, CFG_UNKNOWN_KEY, 0],
                    ),
                ),
            ]
            &&& s.store == store
            &&& s.board == with_route(b, src, ingress)
        }),
{
    reveal_with_fuel(settled, 3);
    let payload = read_payload(key);
    let c = with_route(b, src, ingress);
    lemma_handled(b, ingress, Opcode::ConfigRead, src, dst, payload);
    lemma_goes_back(
        b,
        ingress,
        Opcode::ConfigResp.byte(),
        b.addr,
        src,
        seq![key.field_id, key.index, CFG_UNKNOWN_KEY, 0],
    );
    let r = b.ingests(ingress, pdu::pdu_bytes(Opcode::ConfigRead.byte(), src, dst, payload));
    assert(r.store == Some(Wanted::Read { key }));
    assert(r.board.without_job() == c);
    let last = r.board.answered(Answered::Refused(StoreFault::UnknownKey));
    assert(last.store is None);
    assert(r.emits + last.emits =~= last.emits);
}

/// An address that is handed to a board which is not armed is persisted and taken on, and the board
/// says so, under its new address, by the port that the request came in on.
pub proof fn lemma_assignment_taken(
    b: Board,
    store: Store,
    ingress: u8,
    src: u8,
    dst: u8,
    addr: u8,
    steps: nat,
)
    requires
        reached(b, ingress, src, dst),
        !b.armed,
        src != addr,
        steps >= 1,
    ensures
        ({
            let request = pdu::pdu_bytes(
                Opcode::Assign.byte(),
                src,
                dst,
                seq![EGRESS_SELF, addr],
            );
            let s = settled(b.ingests(ingress, request), store, steps);
            &&& s.board == (Board { addr, ..with_route(b, src, ingress) })
            &&& s.store.persisted() == seq![addr]
            &&& s.emits == seq![
                (
                    ingress,
                    pdu::pdu_bytes(
                        Opcode::AssignAck.byte(),
                        addr,
                        src,
                        seq![addr, STATUS_OK],
                    ),
                ),
            ]
        }),
{
    reveal_with_fuel(settled, 3);
    let payload = seq![EGRESS_SELF, addr];
    let c = with_route(b, src, ingress);
    lemma_handled(b, ingress, Opcode::Assign, src, dst, payload);
    let r = b.ingests(ingress, pdu::pdu_bytes(Opcode::Assign.byte(), src, dst, payload));
    assert(r.store == Some(Wanted::WriteAddress { addr }));
    assert(r.board == (Board { job: Some(Waiting::Adopt { to: src, addr }), ..c }));
    assert(r.board.without_job() == c);
    let taken = Board { addr, ..b };
    assert(Board { addr, ..c } == with_route(taken, src, ingress));
    lemma_goes_back(
        taken,
        ingress,
        Opcode::AssignAck.byte(),
        addr,
        src,
        seq![addr, STATUS_OK],
    );
    let last = r.board.answered(Answered::Done);
    assert(last.store is None);
    assert(r.emits + last.emits =~= last.emits);
    assert(settled(r, store, steps).emits =~= last.emits);
}

/// First contact with a board that has no address and is not armed: the address that the controller
/// hands out is the one that the board persists, and its acknowledgement enters the board in the
/// map and has it probed next.
pub proof fn lemma_gateway_is_entered(w: Walk, b: Board, store: Store, ingress: u8, addr: u8)
    requires
        w.wf(),
        w.outstanding == Some(Task::AssignGateway { new_addr: addr }),
        w.assigned.len() == 0,
        w.queue.len() == 0,
        pdu::controller(w.guest_addr),
        reached(b, ingress, w.guest_addr, NO_ADDRESS),
        !b.armed,
        pdu::board(addr),
    ensures
        ({
            let s = settled(b.ingests(ingress, w.request(w.outstanding->0)), store, 1);
            let after = w.replied(s.emits[0].1);
            &&& s.board.addr == addr
            &&& s.store.persisted() == seq![addr]
            &&& s.emits.len() == 1
            &&& s.emits[0].0 == ingress
            &&& after.assigned == seq![Placed { addr, relay: 0, egress: EGRESS_SELF }]
            &&& after.queue == seq![Task::Probe { addr }]
            &&& after.outstanding is None
        }),
{
    lemma_assignment_taken(b, store, ingress, w.guest_addr, NO_ADDRESS, addr, 1);
    let ack = pdu::pdu_bytes(
        Opcode::AssignAck.byte(),
        addr,
        w.guest_addr,
        seq![addr, STATUS_OK],
    );
    pdu::lemma_pdu_round_trip(
        Opcode::AssignAck.byte(),
        addr,
        w.guest_addr,
        seq![addr, STATUS_OK],
    );
    let after = w.replied(ack);
    assert(after.assigned =~= seq![Placed { addr, relay: 0, egress: EGRESS_SELF }]);
    assert(after.queue =~= seq![Task::Probe { addr }]);
}

/// Assignment over two hops: a board hands the assignment on to the neighbour on the egress port,
/// the neighbour persists and takes on the address, its acknowledgement comes back through the board
/// to the controller, and enters the neighbour in the map, at the place where it was found, and has
/// it probed next.
pub proof fn lemma_neighbour_is_entered(
    w: Walk,
    relay: Board,
    ingress: u8,
    egress: u8,
    n: Board,
    n_port: u8,
    n_store: Store,
    store: Store,
    addr: u8,
)
    requires
        w.wf(),
        w.outstanding == Some(
            Task::AssignNeighbor { relay: relay.addr, egress, new_addr: addr },
        ),
        w.assigned.len() < 8,
        w.queue.len() < 16,
        crate::net::controller::free(w.assigned, addr),
        pdu::controller(w.guest_addr),
        pdu::board(relay.addr),
        reached(relay, ingress, w.guest_addr, relay.addr),
        egress != NO_PORT,
        egress != ingress,
        reached(n, n_port, w.guest_addr, NO_ADDRESS),
        !n.armed,
    ensures
        ({
            let down = settled(relay.ingests(ingress, w.request(w.outstanding->0)), store, 1);
            let there = settled(n.ingests(n_port, down.emits[0].1), n_store, 1);
            let up = settled(down.board.ingests(egress, there.emits[0].1), store, 1);
            let after = w.replied(up.emits[0].1);
            &&& down.emits.len() == 1
            &&& down.emits[0].0 == egress
            &&& there.emits.len() == 1
            &&& there.emits[0].0 == n_port
            &&& there.board.addr == addr
            &&& there.store.persisted() == seq![addr]
            &&& up.emits.len() == 1
            &&& up.emits[0].0 == ingress
            &&& up.store == store
            &&& after.assigned == w.assigned.push(Placed { addr, relay: relay.addr, egress })
            &&& after.queue == w.queue.push(Task::Probe { addr })
            &&& after.outstanding is None
        }),
{
    reveal_with_fuel(settled, 2);
    let guest = w.guest_addr;
    let handed = pdu::pdu_bytes(
        Opcode::Assign.byte(),
        guest,
        NO_ADDRESS,
        seq![EGRESS_SELF, addr],
    );
    let ack = pdu::pdu_bytes(Opcode::AssignAck.byte(), addr, guest, seq![addr, STATUS_OK]);
    pdu::lemma_pdu_round_trip(Opcode::AssignAck.byte(), addr, guest, seq![addr, STATUS_OK]);
    lemma_handled(relay, ingress, Opcode::Assign, guest, relay.addr, seq![egress, addr]);
    let r = relay.ingests(ingress, w.request(w.outstanding->0));
    assert(r.emits =~= seq![(egress, handed)]);
    lemma_assignment_taken(n, n_store, n_port, guest, NO_ADDRESS, addr, 1);
    let c = with_route(relay, guest, ingress);
    assert(r.board == c);
    let d = with_route(c, addr, egress);
    assert(d.routes[guest as int] == ingress);
    let back = c.ingests(egress, ack);
    assert(forward::route(d.addr, d.n_ports, d.routes, Some(egress), guest) == (false, seq![ingress]));
    assert(back.emits =~= seq![(ingress, ack)]);
    let after = w.replied(ack);
    assert(after.assigned =~= w.assigned.push(Placed { addr, relay: relay.addr, egress }));
    assert(after.queue =~= w.queue.push(Task::Probe { addr }));
}

/// The report of a probe, entry by entry: the controller finds under each port what the board has
/// recorded for it.
pub proof fn lemma_report_entries(b: Board, port: int)
    requires
        b.wf(),
        b.probe is Some,
        0 <= port < b.probe->0.n_ports,
    ensures
        ({
            let p = b.ports_payload();
            let base = 1 + port * 4;
            &&& p.len() == 1 + 4 * b.probe->0.n_ports
            &&& p[0] == b.probe->0.n_ports
            &&& p[base] == port
            &&& p[base + 1] == b.port_kinds[port]
            &&& p[base + 2] == b.probe->0.states[port].0
            &&& p[base + 3] == b.probe->0.states[port].1
        }),
{
    lemma_entries_prefix(b, b.probe->0.n_ports as int, port);
}

proof fn lemma_entries_prefix(b: Board, n: int, port: int)
    requires
        b.wf(),
        b.probe is Some,
        0 <= port < n <= 4,
    ensures
        ({
            let p = b.port_entries(n);
            &&& p.len() == 4 * n
            &&& p[4 * port] == port
            &&& p[4 * port + 1] == b.port_kinds[port]
            &&& p[4 * port + 2] == b.probe->0.states[port].0
            &&& p[4 * port + 3] == b.probe->0.states[port].1
        }),
    decreases n,
{
    reveal_with_fuel(Board::port_entries, 2);
    if n == 1 {
        assert(b.port_entries(0).len() == 0);
    } else if port < n - 1 {
        lemma_entries_prefix(b, n - 1, port);
    } else {
        lemma_entries_prefix(b, n - 1, port - 1);
    }
}

} // verus!
