//! Fragmentation and reassembly, whatever the transport.
//!
//! A packet is split into chunks, each prefixed with a [`FragHdr`], and reassembled on the far
//! side under the atomic-or-discard rule. All fragments of a packet share one `PID`; `FRAG_IDX`
//! runs 0, 1, 2, ...; `MORE` is set on every fragment except the last. A packet is delivered only
//! when every fragment of the same packet has arrived; a torn set (a dropped fragment, a skipped
//! index, or fragments of two packets interleaved) is discarded whole.

use crate::bounded::BoundedVec;
use crate::bytes;
use crate::link::frag;
use crate::link::frag::{FragHdr, MAX_FRAGMENTS, MAX_PID};
use vstd::prelude::*;

verus! {

/// Reassembly buffer bound of the format: 16 fragments of the 254-byte chunk that a 255-byte
/// frame has room for. A link with smaller frames or packets picks a smaller one.
pub const MAX_PACKET: usize = 4064;

/// Reason [`fragment`] can fail.
#[derive(Debug, Clone, Copy, PartialEq, Eq, Structural)]
pub enum FragError {
    /// The packet needs more than [`MAX_FRAGMENTS`] fragments at this chunk capacity.
    PacketTooLarge,
    /// The chunk capacity is 0 (a frame capacity of at most 1 leaves no room for a chunk).
    ZeroChunkCap,
}

/// The number of fragments of a packet of `len` bytes; an empty packet has one.
pub open spec fn fragment_count(len: int, cap: int) -> int {
    if len == 0 {
        1
    } else {
        (len + cap - 1) / cap
    }
}

/// Fragment `i` of `packet`: its header and its chunk.
pub open spec fn fragment_at(packet: Seq<u8>, cap: int, pid: int, i: int) -> (FragHdr, Seq<u8>) {
    (
        FragHdr {
            more: i + 1 < fragment_count(packet.len() as int, cap),
            pid: (pid % 8) as u8,
            frag_idx: i as u8,
        },
        packet.subrange(i * cap, vstd::math::min((i + 1) * cap, packet.len() as int)),
    )
}

/// The fragments of `packet` at `cap` bytes per chunk, under packet id `pid`.
pub open spec fn fragments_of(packet: Seq<u8>, cap: int, pid: int) -> Seq<(FragHdr, Seq<u8>)> {
    Seq::new(
        fragment_count(packet.len() as int, cap) as nat,
        |i: int| fragment_at(packet, cap, pid, i),
    )
}

/// The contents of a list of fragments.
pub open spec fn fragment_views(v: Seq<(FragHdr, Vec<u8>)>) -> Seq<(FragHdr, Seq<u8>)> {
    Seq::new(v.len(), |i: int| (v[i].0, v[i].1@))
}

/// Bounds on the place of chunk `i`.
proof fn lemma_chunk_place(len: int, cap: int, i: int)
    requires
        cap > 0,
        len > 0,
        0 <= i < fragment_count(len, cap),
    ensures
        0 <= i * cap < len,
        (i + 1) * cap == i * cap + cap,
        i + 1 < fragment_count(len, cap) ==> (i + 1) * cap < len,
        i + 1 == fragment_count(len, cap) ==> len <= (i + 1) * cap,
{
    let n = fragment_count(len, cap);
    vstd::arithmetic::div_mod::lemma_fundamental_div_mod(len + cap - 1, cap);
    assert(cap * n == n * cap) by (nonlinear_arith);
    assert(i * cap <= (n - 1) * cap) by (nonlinear_arith)
        requires
            i <= n - 1,
            cap > 0,
    ;
    assert((n - 1) * cap == n * cap - cap) by (nonlinear_arith);
    assert((i + 1) * cap == i * cap + cap) by (nonlinear_arith);
    assert(0 <= i * cap) by (nonlinear_arith)
        requires
            i >= 0,
            cap > 0,
    ;
    if i + 1 < n {
        assert((i + 1) * cap <= (n - 1) * cap) by (nonlinear_arith)
            requires
                i + 1 <= n - 1,
                cap > 0,
        ;
    }
}

/// Splits `packet` into fragments at `chunk_cap` bytes per chunk, in order. All fragments carry
/// `pid`; the index runs from 0; `MORE` is set on all but the last. An empty packet yields exactly
/// one fragment with an empty chunk.
pub fn fragment(packet: &[u8], chunk_cap: usize, pid: u8) -> (r: Result<
    Vec<(FragHdr, Vec<u8>)>,
    FragError,
>)
    ensures
        match r {
            Err(FragError::ZeroChunkCap) => chunk_cap == 0,
            Err(FragError::PacketTooLarge) => chunk_cap > 0 && packet@.len() > MAX_FRAGMENTS
                * chunk_cap,
            Ok(v) => chunk_cap > 0 && packet@.len() <= MAX_FRAGMENTS * chunk_cap && fragment_views(
                v@,
            ) == fragments_of(packet@, chunk_cap as int, pid as int),
        },
{
    if chunk_cap == 0 {
        return Err(FragError::ZeroChunkCap);
    }
    assert(pid & 7 == pid % 8) by (bit_vector);
    let id: u8 = pid & MAX_PID;
    let len: usize = packet.len();
    let mut out: Vec<(FragHdr, Vec<u8>)> = Vec::new();
    if len == 0 {
        out.push((FragHdr { more: false, pid: id, frag_idx: 0 }, Vec::new()));
        proof {
            assert(out@[0].1@ =~= packet@.subrange(
                0 * chunk_cap as int,
                vstd::math::min(1 * chunk_cap as int, 0),
            )) by {
                assert(0 * chunk_cap as int == 0) by (nonlinear_arith);
                assert(1 * chunk_cap as int >= 0) by (nonlinear_arith);
            }
            assert(fragment_views(out@) =~= fragments_of(packet@, chunk_cap as int, pid as int));
        }
        return Ok(out);
    }
    proof {
        lemma_count(len as int, chunk_cap as int);
    }
    let whole: usize = len / chunk_cap;
    let n: usize = if len % chunk_cap == 0 {
        whole
    } else {
        whole + 1
    };
    if n > MAX_FRAGMENTS {
        proof {
            assert(len > 16 * chunk_cap) by {
                lemma_chunk_place(len as int, chunk_cap as int, 16);
            }
        }
        return Err(FragError::PacketTooLarge);
    }
    proof {
        lemma_chunk_place(len as int, chunk_cap as int, n - 1);
        assert(n * chunk_cap <= 16 * chunk_cap) by (nonlinear_arith)
            requires
                n <= 16,
                chunk_cap >= 0,
        ;
    }
    let mut i: usize = 0;
    let mut at: usize = 0;
    while i < n
        invariant
            chunk_cap > 0,
            len == packet@.len(),
            len > 0,
            n == fragment_count(len as int, chunk_cap as int),
            n <= MAX_FRAGMENTS,
            i <= n,
            i < n ==> at == i * chunk_cap,
            id == pid % 8,
            out@.len() == i,
            forall|j: int|
                0 <= j < i ==> (#[trigger] out@[j]).0 == fragment_at(
                    packet@,
                    chunk_cap as int,
                    pid as int,
                    j,
                ).0 && out@[j].1@ == fragment_at(packet@, chunk_cap as int, pid as int, j).1,
        decreases n - i,
    {
        proof {
            lemma_chunk_place(len as int, chunk_cap as int, i as int);
        }
        let end: usize = if chunk_cap <= len - at {
            at + chunk_cap
        } else {
            len
        };
        let hdr = FragHdr { more: i + 1 < n, pid: id, frag_idx: i as u8 };
        out.push((hdr, bytes::to_vec(&packet[at..end])));
        at = end;
        i += 1;
    }
    assert(fragment_views(out@) =~= fragments_of(packet@, chunk_cap as int, pid as int));
    Ok(out)
}

/// The ceiling of a quotient, from its floor and remainder.
proof fn lemma_count(len: int, cap: int)
    requires
        len > 0,
        cap > 0,
    ensures
        fragment_count(len, cap) == len / cap + (if len % cap == 0 { 0int } else { 1 }),
        1 <= fragment_count(len, cap) <= len,
{
    let q = len / cap;
    let r = len % cap;
    vstd::arithmetic::div_mod::lemma_fundamental_div_mod(len, cap);
    vstd::arithmetic::div_mod::lemma_div_pos_is_pos(len, cap);
    assert(cap * q >= q) by (nonlinear_arith)
        requires
            cap >= 1,
            q >= 0,
    ;
    assert(q == 0 ==> cap * q == 0) by (nonlinear_arith);
    if r == 0 {
        vstd::arithmetic::div_mod::lemma_fundamental_div_mod_converse(
            len + cap - 1,
            cap,
            q,
            cap - 1,
        );
    } else {
        assert(cap * (q + 1) == cap * q + cap) by (nonlinear_arith);
        vstd::arithmetic::div_mod::lemma_fundamental_div_mod_converse(
            len + cap - 1,
            cap,
            q + 1,
            r - 1,
        );
    }
}

/// A fragment set in progress: fragments `0..next` of packet `pid` have arrived, in order, and
/// `data` is their chunks joined.
pub struct Partial {
    pub pid: u8,
    pub next: int,
    pub data: Seq<u8>,
}

/// What becomes of the set in progress when the fragment `h`, `chunk` arrives at a reassembler
/// with room for `cap` bytes, and the packet that it completes, if any.
pub open spec fn reasm_step(set: Option<Partial>, h: FragHdr, chunk: Seq<u8>, cap: int) -> (
    Option<Partial>,
    Option<Seq<u8>>,
) {
    let data = if h.frag_idx == 0 {
        chunk
    } else {
        set->0.data + chunk
    };
    if h.frag_idx != 0 && (set is None || h.pid != set->0.pid || h.frag_idx != set->0.next) {
        // A stray fragment, or a set torn by another packet or a skipped index.
        (None, None)
    } else if data.len() > cap {
        (None, None)
    } else if h.more {
        (Some(Partial { pid: h.pid, next: h.frag_idx + 1, data }), None)
    } else {
        (None, Some(data))
    }
}

/// Reassembles fragments into whole packets under the atomic-or-discard rule.
///
/// `N` is the reassembly buffer bound: the largest packet this instance delivers.
pub struct Reassembler<const N: usize> {
    /// Whether a fragment set is currently being assembled.
    active: bool,
    /// The packet id of the set in progress.
    pid: u8,
    /// The next expected index.
    next_idx: u8,
    /// The chunks of the set in progress, joined.
    buf: BoundedVec<u8, N>,
}

impl<const N: usize> View for Reassembler<N> {
    type V = Option<Partial>;

    /// The set in progress.
    closed spec fn view(&self) -> Option<Partial> {
        if self.active {
            Some(Partial { pid: self.pid, next: self.next_idx as int, data: self.buf@ })
        } else {
            None
        }
    }
}

impl<const N: usize> Default for Reassembler<N> {
    fn default() -> (r: Self)
        ensures
            r@ is None,
    {
        Reassembler::new()
    }
}

impl<const N: usize> Reassembler<N> {
    /// A fresh reassembler with no set in progress.
    pub fn new() -> (r: Reassembler<N>)
        ensures
            r@ is None,
    {
        Reassembler { active: false, pid: 0, next_idx: 0, buf: BoundedVec::new() }
    }

    /// Drops any set in progress.
    pub fn reset(&mut self)
        ensures
            final(self)@ is None,
    {
        self.active = false;
        self.next_idx = 0;
        self.buf.clear();
    }

    /// Takes in the header byte and the chunk of one L2 frame. Returns the packet exactly when
    /// this fragment completes one; otherwise more fragments are expected, or the frame was
    /// discarded as torn or stray.
    pub fn push(&mut self, hdr_byte: u8, chunk: &[u8]) -> (r: Option<&[u8]>)
        ensures
            final(self)@ == reasm_step(old(self)@, frag::header_of(hdr_byte), chunk@, N as int).0,
            ({
                let packet = reasm_step(old(self)@, frag::header_of(hdr_byte), chunk@, N as int).1;
                &&& (r is Some <==> packet is Some)
                &&& (r is Some ==> r->0@ == packet->0 && packet->0.len() <= N)
            }),
    {
        let h = FragHdr::decode(hdr_byte);
        if h.frag_idx == 0 {
            // Index 0 starts a fresh set; a set in progress is dropped.
            self.buf.clear();
            if self.buf.extend_from_slice(chunk).is_err() {
                self.reset();
                return None;
            }
            assert(self.buf@ =~= chunk@);
            self.pid = h.pid;
            if h.more {
                self.active = true;
                self.next_idx = 1;
                return None;
            }
            self.active = false;
            self.next_idx = 0;
            return Some(self.buf.as_slice());
        }
        if !self.active {
            return None;
        }
        if h.pid != self.pid || h.frag_idx != self.next_idx {
            self.reset();
            return None;
        }
        if self.buf.extend_from_slice(chunk).is_err() {
            self.reset();
            return None;
        }
        self.next_idx += 1;
        if h.more {
            None
        } else {
            self.active = false;
            self.next_idx = 0;
            Some(self.buf.as_slice())
        }
    }
}

/// The set in progress after the fragments `frags` have arrived, one by one, on top of `set`.
pub open spec fn reasm_after(
    set: Option<Partial>,
    frags: Seq<(FragHdr, Seq<u8>)>,
    cap: int,
) -> Option<Partial>
    decreases frags.len(),
{
    if frags.len() == 0 {
        set
    } else {
        reasm_step(
            reasm_after(set, frags.drop_last(), cap),
            frags.last().0,
            frags.last().1,
            cap,
        ).0
    }
}

/// The packet delivered when fragment `k` of `frags` arrives.
pub open spec fn delivered_at(
    set: Option<Partial>,
    frags: Seq<(FragHdr, Seq<u8>)>,
    k: int,
    cap: int,
) -> Option<Seq<u8>> {
    reasm_step(reasm_after(set, frags.take(k), cap), frags[k].0, frags[k].1, cap).1
}

/// The chunks of `frags`, joined.
pub open spec fn joined(frags: Seq<(FragHdr, Seq<u8>)>) -> Seq<u8>
    decreases frags.len(),
{
    if frags.len() == 0 {
        Seq::empty()
    } else {
        joined(frags.drop_last()) + frags.last().1
    }
}

/// The headers of `frags` are those of one complete packet: indices from 0, one packet id, `MORE`
/// on all but the last.
pub open spec fn complete_set(frags: Seq<(FragHdr, Seq<u8>)>) -> bool {
    forall|j: int|
        0 <= j < frags.len() ==> (#[trigger] frags[j]).0 == (FragHdr {
            more: j + 1 < frags.len(),
            pid: frags[0].0.pid,
            frag_idx: j as u8,
        })
}

/// The fragments of a packet survive the trip through the header byte: each header packs into its
/// byte and unpacks to itself.
pub proof fn lemma_headers_survive(packet: Seq<u8>, chunk_cap: int, pid: int, i: int)
    requires
        chunk_cap > 0,
        packet.len() <= MAX_FRAGMENTS * chunk_cap,
        0 <= pid,
        0 <= i < fragments_of(packet, chunk_cap, pid).len(),
    ensures
        ({
            let h = fragments_of(packet, chunk_cap, pid)[i].0;
            h.wf() && 0 <= h.byte() < 256 && frag::header_of(h.byte() as u8) == h
        }),
{
    lemma_few_fragments(packet.len() as int, chunk_cap);
    frag::lemma_encode_decode(fragments_of(packet, chunk_cap, pid)[i].0);
}

proof fn lemma_few_fragments(len: int, cap: int)
    requires
        cap > 0,
        0 <= len <= MAX_FRAGMENTS * cap,
    ensures
        1 <= fragment_count(len, cap) <= MAX_FRAGMENTS,
{
    if len > 0 {
        lemma_count(len, cap);
        if fragment_count(len, cap) > 16 {
            lemma_chunk_place(len, cap, 16);
        }
    }
}

/// Sending and receiving are inverse: whatever set was in progress, the fragments of a packet that
/// fits deliver nothing before the last of them, and the packet with it.
pub proof fn lemma_fragments_deliver(
    set: Option<Partial>,
    packet: Seq<u8>,
    chunk_cap: int,
    pid: int,
    cap: int,
)
    requires
        chunk_cap > 0,
        packet.len() <= MAX_FRAGMENTS * chunk_cap,
        packet.len() <= cap,
        0 <= pid,
    ensures
        ({
            let frags = fragments_of(packet, chunk_cap, pid);
            &&& 1 <= frags.len() <= MAX_FRAGMENTS
            &&& forall|k: int|
                0 <= k < frags.len() - 1 ==> #[trigger] delivered_at(set, frags, k, cap) is None
            &&& delivered_at(set, frags, frags.len() - 1, cap) == Some(packet)
            &&& reasm_after(set, frags, cap) is None
        }),
{
    let frags = fragments_of(packet, chunk_cap, pid);
    let n = frags.len() as int;
    lemma_few_fragments(packet.len() as int, chunk_cap);
    assert forall|k: int| 0 <= k < n - 1 implies #[trigger] delivered_at(
        set,
        frags,
        k,
        cap,
    ) is None by {
        lemma_prefix(set, packet, chunk_cap, pid, cap, k);
    }
    lemma_prefix(set, packet, chunk_cap, pid, cap, n - 1);
    if packet.len() > 0 {
        lemma_chunk_place(packet.len() as int, chunk_cap, n - 1);
        if n > 1 {
            assert(packet.take((n - 1) * chunk_cap) + frags[n - 1].1 =~= packet);
        } else {
            assert(0 * chunk_cap == 0) by (nonlinear_arith);
            assert(frags[0].1 =~= packet);
        }
    } else {
        assert(0 * chunk_cap == 0) by (nonlinear_arith);
        assert(frags[0].1 =~= packet);
    }
    assert(frags.drop_last() =~= frags.take(n - 1));
}

/// The set in progress after the first `k` fragments of a packet, of which there are more.
proof fn lemma_prefix(
    set: Option<Partial>,
    packet: Seq<u8>,
    chunk_cap: int,
    pid: int,
    cap: int,
    k: int,
)
    requires
        chunk_cap > 0,
        packet.len() <= MAX_FRAGMENTS * chunk_cap,
        packet.len() <= cap,
        0 <= pid,
        0 <= k < fragments_of(packet, chunk_cap, pid).len(),
    ensures
        k > 0 ==> reasm_after(set, fragments_of(packet, chunk_cap, pid).take(k), cap) == Some(
            Partial { pid: (pid % 8) as u8, next: k, data: packet.take(k * chunk_cap) },
        ),
        k > 0 ==> 0 < k * chunk_cap < packet.len(),
    decreases k,
{
    let frags = fragments_of(packet, chunk_cap, pid);
    lemma_few_fragments(packet.len() as int, chunk_cap);
    if k > 0 {
        lemma_prefix(set, packet, chunk_cap, pid, cap, k - 1);
        lemma_chunk_place(packet.len() as int, chunk_cap, k - 1);
        lemma_chunk_place(packet.len() as int, chunk_cap, k);
        assert(frags.take(k).drop_last() =~= frags.take(k - 1));
        assert(frags.take(k).last() == frags[k - 1]);
        if k == 1 {
            assert(0 * chunk_cap == 0) by (nonlinear_arith);
            assert(frags[0].1 =~= packet.take(chunk_cap));
        } else {
            assert(packet.take((k - 1) * chunk_cap) + frags[k - 1].1 =~= packet.take(
                k * chunk_cap,
            ));
        }
    }
}

/// Any complete set that arrives in order and fits is delivered, whoever made it and whatever set
/// was in progress: nothing before its last fragment, and its joined chunks with that.
pub proof fn lemma_complete_set_delivers(
    set: Option<Partial>,
    frags: Seq<(FragHdr, Seq<u8>)>,
    cap: int,
)
    requires
        1 <= frags.len() <= 256,
        complete_set(frags),
        joined(frags).len() <= cap,
    ensures
        forall|k: int|
            0 <= k < frags.len() - 1 ==> #[trigger] delivered_at(set, frags, k, cap) is None,
        delivered_at(set, frags, frags.len() - 1, cap) == Some(joined(frags)),
        reasm_after(set, frags, cap) is None,
{
    let n = frags.len() as int;
    assert forall|k: int| 0 <= k < n - 1 implies #[trigger] delivered_at(
        set,
        frags,
        k,
        cap,
    ) is None by {
        lemma_set_so_far(set, frags, cap, k);
        assert(frags[k].0.more);
    }
    lemma_set_so_far(set, frags, cap, n - 1);
    assert(frags.drop_last() =~= frags.take(n - 1));
    assert(!frags[n - 1].0.more);
    if n == 1 {
        assert(joined(frags.drop_last()).len() == 0);
        assert(joined(frags) =~= frags[0].1);
    }
}

/// The set in progress after the first `k` fragments of a complete set, of which there are more.
proof fn lemma_set_so_far(
    set: Option<Partial>,
    frags: Seq<(FragHdr, Seq<u8>)>,
    cap: int,
    k: int,
)
    requires
        0 <= k < frags.len() <= 256,
        complete_set(frags),
        joined(frags).len() <= cap,
    ensures
        k > 0 ==> reasm_after(set, frags.take(k), cap) == Some(
            Partial { pid: frags[0].0.pid, next: k, data: joined(frags.take(k)) },
        ),
    decreases k,
{
    if k > 0 {
        lemma_set_so_far(set, frags, cap, k - 1);
        lemma_joined_prefix(frags, k);
        assert(frags.take(k).drop_last() =~= frags.take(k - 1));
        assert(frags.take(k).last() == frags[k - 1]);
        assert(frags[k - 1].0.more);
        if k == 1 {
            assert(joined(frags.take(0)).len() == 0);
            assert(joined(frags.take(1)) =~= frags[0].1);
        }
    }
}

/// The chunks of the first fragments are no longer than all of them.
proof fn lemma_joined_prefix(frags: Seq<(FragHdr, Seq<u8>)>, k: int)
    requires
        0 <= k <= frags.len(),
    ensures
        joined(frags.take(k)).len() <= joined(frags).len(),
    decreases frags.len(),
{
    if k == frags.len() {
        assert(frags.take(k) =~= frags);
    } else {
        lemma_joined_prefix(frags.drop_last(), k);
        assert(frags.drop_last().take(k) =~= frags.take(k));
    }
}

/// No partial packet ever surfaces: a packet delivered to a reassembler that started idle is the
/// joined chunks of the fragments that arrived last, and these are one complete set.
pub proof fn lemma_atomic_or_discard(frags: Seq<(FragHdr, Seq<u8>)>, cap: int)
    requires
        frags.len() > 0,
        delivered_at(None, frags, frags.len() - 1, cap) is Some,
    ensures
        ({
            let k = frags.last().0.frag_idx + 1;
            &&& k <= frags.len()
            &&& complete_set(frags.skip(frags.len() - k))
            &&& delivered_at(None, frags, frags.len() - 1, cap) == Some(
                joined(frags.skip(frags.len() - k)),
            )
        }),
{
    let n = frags.len() as int;
    let before = frags.drop_last();
    assert(frags.take(n - 1) =~= before);
    lemma_in_progress(before, cap);
    let k = frags.last().0.frag_idx + 1;
    let tail = frags.skip(n - k);
    if k > 1 {
        let rest = before.skip(before.len() - (k - 1));
        assert(tail.drop_last() =~= rest);
        assert(tail.last() == frags.last());
        assert forall|j: int| 0 <= j < tail.len() implies (#[trigger] tail[j]).0 == (FragHdr {
            more: j + 1 < tail.len(),
            pid: tail[0].0.pid,
            frag_idx: j as u8,
        }) by {
            if j < tail.len() - 1 {
                assert(tail[j] == rest[j]);
            }
            assert(tail[0] == rest[0]);
        }
    } else {
        assert(tail.drop_last() =~= Seq::empty());
        assert(tail[0] == frags.last());
        assert(joined(tail.drop_last()) =~= Seq::<u8>::empty());
        assert(joined(tail) =~= frags.last().1);
    }
}

/// What a set in progress stands for, in a reassembler that started idle.
proof fn lemma_in_progress(frags: Seq<(FragHdr, Seq<u8>)>, cap: int)
    ensures
        reasm_after(None, frags, cap) matches Some(p) ==> {
            &&& 1 <= p.next <= frags.len()
            &&& p.next <= 256
            &&& p.data == joined(frags.skip(frags.len() - p.next))
            &&& forall|j: int|
                0 <= j < p.next ==> (#[trigger] frags.skip(frags.len() - p.next)[j]).0 == (FragHdr {
                    more: true,
                    pid: p.pid,
                    frag_idx: j as u8,
                })
        },
    decreases frags.len(),
{
    if frags.len() > 0 {
        let before = frags.drop_last();
        lemma_in_progress(before, cap);
        let now = reasm_after(None, frags, cap);
        if now is Some {
            let p = now->0;
            let tail = frags.skip(frags.len() - p.next);
            if p.next > 1 {
                let rest = before.skip(before.len() - (p.next - 1));
                assert(tail.drop_last() =~= rest);
                assert forall|j: int| 0 <= j < p.next implies (#[trigger] tail[j]).0 == (FragHdr {
                    more: true,
                    pid: p.pid,
                    frag_idx: j as u8,
                }) by {
                    if j < p.next - 1 {
                        assert(tail[j] == rest[j]);
                    }
                }
            } else {
                assert(tail.drop_last() =~= Seq::empty());
                assert(joined(tail.drop_last()) =~= Seq::<u8>::empty());
                assert(joined(tail) =~= frags.last().1);
            }
        }
    }
}

/// A chunk is no longer than the chunk capacity.
pub proof fn lemma_chunk_fits(packet: Seq<u8>, chunk_cap: int, pid: int, i: int)
    requires
        chunk_cap > 0,
        0 <= i < fragments_of(packet, chunk_cap, pid).len(),
    ensures
        fragments_of(packet, chunk_cap, pid)[i].1.len() <= chunk_cap,
{
    if packet.len() > 0 {
        lemma_chunk_place(packet.len() as int, chunk_cap, i);
    } else {
        assert(0 * chunk_cap == 0) by (nonlinear_arith);
    }
}

/// A packet that fits one chunk has one fragment.
pub proof fn lemma_single_fragment(len: int, cap: int)
    requires
        0 <= len <= cap,
        cap > 0,
    ensures
        fragment_count(len, cap) == 1,
{
    if len > 0 {
        vstd::arithmetic::div_mod::lemma_fundamental_div_mod_converse(
            len + cap - 1,
            cap,
            1,
            len - 1,
        );
    }
}

/// What the fragments of a packet look like: all carry its id, they are numbered in order, every
/// one but the last announces more and is full, and the last holds what is left.
pub proof fn lemma_fragments(packet: Seq<u8>, chunk_cap: int, pid: int, i: int)
    requires
        chunk_cap > 0,
        packet.len() <= MAX_FRAGMENTS * chunk_cap,
        0 <= pid,
        0 <= i < fragments_of(packet, chunk_cap, pid).len(),
    ensures
        ({
            let frags = fragments_of(packet, chunk_cap, pid);
            let (h, chunk) = frags[i];
            &&& h.pid as int == pid % 8
            &&& h.frag_idx == i
            &&& h.more <==> i < frags.len() - 1
            &&& h.more ==> chunk.len() == chunk_cap
            &&& !h.more ==> chunk.len() == packet.len() - chunk_cap * (frags.len() - 1)
            &&& !h.more && packet.len() > 0 ==> 0 < chunk.len() <= chunk_cap
            &&& forall|j: int| 0 <= j < chunk.len() ==> #[trigger] chunk[j] == packet[chunk_cap * i + j]
        }),
{
    lemma_few_fragments(packet.len() as int, chunk_cap);
    let n = fragment_count(packet.len() as int, chunk_cap);
    assert(chunk_cap * i == i * chunk_cap) by (nonlinear_arith);
    assert(0 * chunk_cap == 0) by (nonlinear_arith);
    assert(chunk_cap * (n - 1) == (n - 1) * chunk_cap) by (nonlinear_arith);
    if packet.len() > 0 {
        lemma_chunk_place(packet.len() as int, chunk_cap, i);
    }
}

/// A fragment out of turn ends the set in progress and delivers nothing: one of another packet, or
/// one whose index is not the next. Whatever follows then has to start again from index 0.
pub proof fn lemma_out_of_turn(p: Partial, h: FragHdr, chunk: Seq<u8>, cap: int)
    requires
        h.frag_idx != 0,
        h.pid != p.pid || h.frag_idx != p.next,
    ensures
        reasm_step(Some(p), h, chunk, cap) == (None::<Partial>, None::<Seq<u8>>),
        reasm_step(None, h, chunk, cap) == (None::<Partial>, None::<Seq<u8>>),
{
}

/// Index 0 starts afresh: the set in progress has no say in what becomes of it.
pub proof fn lemma_first_index_starts_afresh(
    a: Option<Partial>,
    b: Option<Partial>,
    h: FragHdr,
    chunk: Seq<u8>,
    cap: int,
)
    requires
        h.frag_idx == 0,
    ensures
        reasm_step(a, h, chunk, cap) == reasm_step(b, h, chunk, cap),
        chunk.len() > cap ==> reasm_step(a, h, chunk, cap) == (None::<Partial>, None::<Seq<u8>>),
        chunk.len() <= cap && !h.more ==> reasm_step(a, h, chunk, cap) == (
            None::<Partial>,
            Some(chunk),
        ),
        chunk.len() <= cap && h.more ==> reasm_step(a, h, chunk, cap) == (
            Some(Partial { pid: h.pid, next: 1, data: chunk }),
            None::<Seq<u8>>,
        ),
{
}

/// The fragment that is due is appended, and completes the packet if it announces no more; a
/// packet that outgrows the buffer is dropped whole.
pub proof fn lemma_fragment_that_is_due(p: Partial, h: FragHdr, chunk: Seq<u8>, cap: int)
    requires
        h.frag_idx != 0,
        h.pid == p.pid,
        h.frag_idx == p.next,
    ensures
        ({
            let (set, packet) = reasm_step(Some(p), h, chunk, cap);
            let fits = p.data.len() + chunk.len() <= cap;
            &&& set is Some <==> fits && h.more
            &&& packet is Some <==> fits && !h.more
            &&& set is Some ==> set->0.pid == p.pid && set->0.next == p.next + 1 && set->0.data
                == p.data + chunk
            &&& packet is Some ==> packet->0 == p.data + chunk
        }),
{
}

} // verus!
