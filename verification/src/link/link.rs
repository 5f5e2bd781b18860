//! The packet service: fragmentation and reassembly tied to one transport.
//!
//! A best-effort, atomic, one-hop packet datagram service. [`Link`] is generic over a
//! [`Transport`] that carries opaque L2 frames (`[ frag-hdr ][ chunk ]`) on its wire; the same
//! logic runs over every transport, each with its own per-frame capacity.

use crate::bounded::BoundedVec;
use crate::bytes;
use crate::link::frag;
use crate::link::frag::{FragHdr, MAX_FRAGMENTS, MAX_PID};
use crate::link::reasm;
use crate::link::reasm::{fragment, Reassembler};
use vstd::prelude::*;

verus! {

/// Largest L2 frame (`frag-hdr` + chunk) any link emits: the one-byte length of a stream frame
/// caps the inner frame at 255.
pub const MAX_L2_FRAME: usize = 255;

/// A byte string, as the contracts speak of it.
pub type Octets = Seq<u8>;

/// A sequence of L2 frames, as the contracts speak of it.
pub type Frames = Seq<Octets>;

/// A length in bytes, as the contracts speak of it.
pub type Size = int;

/// One per-link transport that carries opaque L2 frames (`[ frag-hdr ][ chunk ]`).
///
/// What an implementation owes is stated over four things that its state stands for: its frame
/// capacity, the frames it has put on the wire, the frames it has ready to hand out, and the
/// encoding that it gives a frame. The four have no default: every implementation says what they
/// are. They are ghost, so nothing ever calls them; an implementation in ordinary Rust writes them
/// over [`Size`], [`Frames`] and [`Octets`], with a body that is never reached.
pub trait Transport {
    /// The largest L2 frame, in bytes, this link puts in one frame.
    spec fn capacity(&self) -> Size;

    /// The L2 frames put on the wire so far.
    spec fn sent(&self) -> Frames;

    /// The received L2 frames that are ready to be pulled, the next one first.
    spec fn ready(&self) -> Frames;

    /// The bytes that the frame `l2` becomes on the wire, if it can be encoded.
    spec fn wire_form(&self, l2: Octets) -> Option<Octets>;

    /// The largest L2 frame, in bytes, this link puts in one frame: `frag-hdr` + chunk. The
    /// usable chunk is one byte less.
    fn frame_capacity(&self) -> (n: usize)
        ensures
            n == self.capacity(),
    ;

    /// Puts one L2 frame on the wire.
    fn send_l2_frame(&mut self, l2: &[u8])
        requires
            l2@.len() <= old(self).capacity(),
        ensures
            final(self).capacity() == old(self).capacity(),
            final(self).sent() == old(self).sent().push(l2@),
    ;

    /// Encodes one L2 frame into `out` exactly as `send_l2_frame` would put it on the wire, and
    /// returns the encoded length, or `None` if `out` is too small or the frame is unencodable.
    /// Nothing is written to the wire.
    fn encode_l2_frame(&self, l2: &[u8], out: &mut [u8]) -> (r: Option<usize>)
        ensures
            final(out)@.len() == old(out)@.len(),
            r is Some <==> self.wire_form(l2@) is Some && self.wire_form(l2@)->0.len() <= old(
                out,
            )@.len(),
            r is Some ==> r->0 == self.wire_form(l2@)->0.len() && final(out)@.take(r->0 as int)
                == self.wire_form(l2@)->0,
    ;

    /// Pulls the next received L2 frame into `out`, as much of it as fits, and returns the length
    /// written, or `None` if no frame is ready.
    fn recv_l2_frame(&mut self, out: &mut [u8]) -> (r: Option<usize>)
        ensures
            final(self).capacity() == old(self).capacity(),
            final(self).sent() == old(self).sent(),
            final(out)@.len() == old(out)@.len(),
            old(self).ready().len() == 0 ==> r is None && final(self).ready() == old(self).ready(),
            old(self).ready().len() > 0 ==> {
                let frame = old(self).ready()[0];
                let n = vstd::math::min(frame.len() as int, old(out)@.len() as int);
                &&& r is Some
                &&& r->0 == n
                &&& final(out)@.take(n) == frame.take(n)
                &&& final(self).ready() == old(self).ready().skip(1)
            },
    ;
}

/// Reason [`Link::send`] can fail.
#[derive(Debug, Clone, Copy, PartialEq, Eq, Structural)]
pub enum SendError {
    /// The packet is larger than this link can carry (more than [`MAX_FRAGMENTS`] fragments).
    PacketTooLarge,
}

/// The L2 frame of a fragment: its header byte, then its chunk.
pub open spec fn l2_frame(f: (FragHdr, Seq<u8>)) -> Seq<u8> {
    seq![f.0.byte() as u8] + f.1
}

/// The L2 frames that carry `packet` over a link of frame capacity `capacity`.
pub open spec fn packet_frames(packet: Seq<u8>, capacity: int, pid: int) -> Seq<Seq<u8>> {
    let frags = reasm::fragments_of(packet, capacity - 1, pid);
    Seq::new(frags.len(), |i: int| l2_frame(frags[i]))
}

/// The outcome of pulling frames off a transport until a packet is complete.
pub struct Polled {
    /// The packet completed, if any.
    pub packet: Option<Seq<u8>>,
    /// The fragment set in progress afterwards.
    pub set: Option<reasm::Partial>,
    /// The frames still ready.
    pub ready: Seq<Seq<u8>>,
}

/// Runs the frames of `ready`, cut to `width` bytes each, through reassembly until one completes
/// a packet. A frame with no header byte is passed over.
pub open spec fn poll(
    set: Option<reasm::Partial>,
    ready: Seq<Seq<u8>>,
    width: int,
    cap: int,
) -> Polled
    decreases ready.len(),
{
    if ready.len() == 0 {
        Polled { packet: None, set, ready }
    } else {
        let frame = ready[0].take(vstd::math::min(ready[0].len() as int, width));
        if frame.len() == 0 {
            poll(set, ready.skip(1), width, cap)
        } else {
            let step = reasm::reasm_step(set, frag::header_of(frame[0]), frame.skip(1), cap);
            if step.1 is Some {
                Polled { packet: step.1, set: step.0, ready: ready.skip(1) }
            } else {
                poll(step.0, ready.skip(1), width, cap)
            }
        }
    }
}

/// A packet that a poll completes fits the reassembly buffer.
pub proof fn lemma_poll_fits(
    set: Option<reasm::Partial>,
    ready: Seq<Seq<u8>>,
    width: int,
    cap: int,
)
    ensures
        poll(set, ready, width, cap).packet is Some ==> poll(
            set,
            ready,
            width,
            cap,
        ).packet->0.len() <= cap,
    decreases ready.len(),
{
    if ready.len() > 0 {
        let frame = ready[0].take(vstd::math::min(ready[0].len() as int, width));
        let step = reasm::reasm_step(set, frag::header_of(frame[0]), frame.skip(1), cap);
        lemma_poll_fits(set, ready.skip(1), width, cap);
        lemma_poll_fits(step.0, ready.skip(1), width, cap);
    }
}

/// Packets over one transport: fragments outgoing ones, reassembles incoming ones.
///
/// `N` is the reassembly buffer size, the largest packet this link delivers. `F` is the frame
/// scratch size; it is at least the transport's frame capacity.
pub struct Link<T, const N: usize, const F: usize> {
    transport: T,
    /// The packet id of the next outgoing packet (increments per packet, wraps).
    tx_pid: u8,
    reasm: Reassembler<N>,
}

impl<T: Transport, const N: usize, const F: usize> Link<T, N, F> {
    /// The transport underneath.
    pub closed spec fn carrier(&self) -> T {
        self.transport
    }

    /// The packet id of the next outgoing packet.
    pub closed spec fn next_pid(&self) -> int {
        self.tx_pid as int
    }

    /// The fragment set in progress.
    pub closed spec fn in_progress(&self) -> Option<reasm::Partial> {
        self.reasm@
    }

    /// The frame scratch holds any frame of the transport, and the packet id is in its field.
    pub open spec fn wf(&self) -> bool {
        &&& 0 <= self.carrier().capacity() <= F
        &&& 0 <= self.next_pid() <= MAX_PID
    }

    /// What the next poll comes to.
    pub open spec fn polled(&self) -> Polled {
        poll(self.in_progress(), self.carrier().ready(), F as int, N as int)
    }

    /// What the next poll completes is at most `N` bytes long, so a buffer of `N` bytes is always
    /// enough for [`Link::poll_recv`].
    pub proof fn lemma_polled_fits(&self)
        ensures
            self.polled().packet is Some ==> self.polled().packet->0.len() <= N,
    {
        lemma_poll_fits(self.in_progress(), self.carrier().ready(), F as int, N as int);
    }

    /// Wraps a transport in a link.
    pub fn new(transport: T) -> (link: Link<T, N, F>)
        requires
            0 <= transport.capacity() <= F,
        ensures
            link.wf(),
            link.carrier() == transport,
            link.next_pid() == 0,
            link.in_progress() is None,
    {
        Link { transport, tx_pid: 0, reasm: Reassembler::new() }
    }

    /// The transport underneath.
    pub fn transport(&self) -> (t: &T)
        ensures
            *t == self.carrier(),
    {
        &self.transport
    }

    /// The transport underneath, for changing it.
    pub fn transport_mut(&mut self) -> (t: &mut T)
        ensures
            *t == old(self).carrier(),
            final(self).carrier() == *final(t),
            final(self).next_pid() == old(self).next_pid(),
            final(self).in_progress() == old(self).in_progress(),
    {
        &mut self.transport
    }

    /// The largest packet this link will carry: [`MAX_FRAGMENTS`] usable chunks.
    pub fn mtu_hint(&self) -> (n: usize)
        requires
            self.carrier().capacity() >= 1,
            MAX_FRAGMENTS * (self.carrier().capacity() - 1) <= usize::MAX,
        ensures
            n == MAX_FRAGMENTS * (self.carrier().capacity() - 1),
    {
        MAX_FRAGMENTS * (self.transport.frame_capacity() - 1)
    }

    /// Delivers one opaque packet to the peer, in fragments of the link's frame capacity.
    pub fn send(&mut self, packet: &[u8]) -> (r: Result<(), SendError>)
        requires
            old(self).wf(),
            old(self).carrier().capacity() >= 1,
        ensures
            final(self).wf(),
            final(self).carrier().capacity() == old(self).carrier().capacity(),
            final(self).in_progress() == old(self).in_progress(),
            r is Ok <==> old(self).carrier().capacity() > 1 && packet@.len() <= MAX_FRAGMENTS * (
            old(self).carrier().capacity() - 1),
            r is Ok ==> {
                &&& final(self).carrier().sent() == old(self).carrier().sent() + packet_frames(
                    packet@,
                    old(self).carrier().capacity(),
                    old(self).next_pid(),
                )
                &&& final(self).next_pid() == (old(self).next_pid() + 1) % 8
            },
            r is Err ==> *final(self) == *old(self),
    {
        let chunk_cap: usize = self.transport.frame_capacity() - 1;
        let pid: u8 = self.tx_pid;
        let frags = match fragment(packet, chunk_cap, pid) {
            Ok(v) => v,
            Err(e) => {
                return Err(SendError::PacketTooLarge);
            },
        };
        let ghost cap = self.transport.capacity();
        let ghost all = packet_frames(packet@, cap, pid as int);
        let ghost before = self.transport.sent();
        let ghost want = reasm::fragments_of(packet@, chunk_cap as int, pid as int);
        assert(reasm::fragment_views(frags@) == want);
        assert(frags@.len() == want.len());
        let mut i: usize = 0;
        assert(before + all.take(0) =~= before);
        while i < frags.len()
            invariant
                i <= frags@.len(),
                1 <= cap <= F,
                cap == chunk_cap + 1,
                self.transport.capacity() == cap,
                self.tx_pid == pid,
                self.reasm == old(self).reasm,
                want == reasm::fragments_of(packet@, chunk_cap as int, pid as int),
                reasm::fragment_views(frags@) == want,
                frags@.len() == want.len(),
                chunk_cap > 0,
                packet@.len() <= MAX_FRAGMENTS * chunk_cap,
                all == packet_frames(packet@, cap, pid as int),
                self.transport.sent() == before + all.take(i as int),
            decreases frags@.len() - i,
        {
            proof {
                assert(want[i as int] == (frags@[i as int].0, frags@[i as int].1@));
                reasm::lemma_headers_survive(packet@, chunk_cap as int, pid as int, i as int);
                reasm::lemma_chunk_fits(packet@, chunk_cap as int, pid as int, i as int);
            }
            let mut frame: BoundedVec<u8, F> = BoundedVec::new();
            let _ = frame.push(frags[i].0.encode());
            let _ = frame.extend_from_slice(frags[i].1.as_slice());
            proof {
                assert(frame@ =~= all[i as int]);
                assert(all.take(i + 1) =~= all.take(i as int).push(all[i as int]));
                assert(before + all.take(i + 1) =~= (before + all.take(i as int)).push(
                    all[i as int],
                ));
            }
            self.transport.send_l2_frame(frame.as_slice());
            i += 1;
        }
        assert(all.take(frags@.len() as int) =~= all);
        self.tx_pid = frag::next_pid(pid);
        Ok(())
    }

    /// Encodes `packet` into `out` as the complete wire bytes of one frame, without touching the
    /// wire, and uses up a packet id exactly as `send` would. Returns the encoded length, or
    /// `None` if the packet does not fit a single fragment or the transport cannot encode it into
    /// `out`.
    ///
    /// For a link whose blocking write costs more time than the caller has. The bytes are one
    /// frame: the caller has to finish putting them on the wire before anything else goes out.
    pub fn stage(&mut self, packet: &[u8], out: &mut [u8]) -> (r: Option<usize>)
        requires
            old(self).wf(),
            old(self).carrier().capacity() >= 1,
        ensures
            final(self).wf(),
            final(self).carrier() == old(self).carrier(),
            final(self).in_progress() == old(self).in_progress(),
            final(out)@.len() == old(out)@.len(),
            ({
                let capacity = old(self).carrier().capacity();
                let frames = packet_frames(packet@, capacity, old(self).next_pid());
                let wire = old(self).carrier().wire_form(frames[0]);
                &&& (r is Some <==> capacity > 1 && packet@.len() <= capacity - 1 && wire is Some
                    && wire->0.len() <= old(out)@.len())
                &&& (r is Some ==> frames.len() == 1 && r->0 == wire->0.len() && final(out)@.take(
                    r->0 as int,
                ) == wire->0 && final(self).next_pid() == (old(self).next_pid() + 1) % 8)
                &&& (r is None ==> final(self).next_pid() == old(self).next_pid())
            }),
    {
        let chunk_cap: usize = self.transport.frame_capacity() - 1;
        if packet.len() > chunk_cap {
            return None;
        }
        let pid: u8 = self.tx_pid;
        let ghost all = packet_frames(packet@, chunk_cap + 1, pid as int);
        let frags = match fragment(packet, chunk_cap, pid) {
            Ok(v) => v,
            Err(e) => {
                return None;
            },
        };
        let mut frame: BoundedVec<u8, F> = BoundedVec::new();
        proof {
            let want = reasm::fragments_of(packet@, chunk_cap as int, pid as int);
            assert(reasm::fragment_views(frags@) == want);
            assert(frags@.len() == want.len());
            reasm::lemma_single_fragment(packet@.len() as int, chunk_cap as int);
            assert(want[0] == (frags@[0].0, frags@[0].1@));
            reasm::lemma_headers_survive(packet@, chunk_cap as int, pid as int, 0);
            reasm::lemma_chunk_fits(packet@, chunk_cap as int, pid as int, 0);
        }
        let _ = frame.push(frags[0].0.encode());
        let _ = frame.extend_from_slice(frags[0].1.as_slice());
        assert(frame@ =~= all[0]);
        let n: usize = match self.transport.encode_l2_frame(frame.as_slice(), out) {
            Some(n) => n,
            None => {
                return None;
            },
        };
        self.tx_pid = frag::next_pid(pid);
        Some(n)
    }

    /// The next fully reassembled packet, written to the front of `out`: its length, or `None`.
    /// Pulls the transport's ready frames through reassembly up to the first completed packet.
    pub fn poll_recv(&mut self, out: &mut [u8]) -> (r: Option<usize>)
        requires
            old(self).wf(),
            old(self).polled().packet is Some ==> old(self).polled().packet->0.len() <= old(
                out,
            )@.len(),
        ensures
            final(self).wf(),
            final(self).carrier().capacity() == old(self).carrier().capacity(),
            final(self).carrier().sent() == old(self).carrier().sent(),
            final(self).carrier().ready() == old(self).polled().ready,
            final(self).in_progress() == old(self).polled().set,
            final(self).next_pid() == old(self).next_pid(),
            final(out)@.len() == old(out)@.len(),
            r is Some <==> old(self).polled().packet is Some,
            r is Some ==> final(out)@ == old(self).polled().packet->0 + old(out)@.skip(
                r->0 as int,
            ) && r->0 == old(self).polled().packet->0.len(),
            r is None ==> final(out)@ == old(out)@,
    {
        let mut frame_buf = vstd::array::array_fill_for_copy_types::<u8, F>(0);
        loop
            invariant
                old(self).wf(),
                old(self).polled().packet is Some ==> old(self).polled().packet->0.len() <= old(
                    out,
                )@.len(),
                self.wf(),
                self.carrier().capacity() == old(self).carrier().capacity(),
                self.carrier().sent() == old(self).carrier().sent(),
                self.next_pid() == old(self).next_pid(),
                out@ == old(out)@,
                old(self).polled() == self.polled(),
            decreases self.carrier().ready().len(),
        {
            let n: usize = match self.transport.recv_l2_frame(&mut frame_buf) {
                Some(n) => n,
                None => {
                    return None;
                },
            };
            if n == 0 {
                continue;
            }
            let frame = &frame_buf[0..n];
            if let Some(packet) = self.reasm.push(frame[0], &frame[1..n]) {
                let len: usize = packet.len();
                bytes::copy_into(out, 0, packet);
                return Some(len);
            }
        }
    }
}

/// What one link sends, another delivers: when the frames of a packet are ready on a link whose
/// scratch holds them and whose reassembly buffer holds the packet, a poll delivers the packet and
/// uses up exactly these frames, whatever set was in progress.
pub proof fn lemma_end_to_end(
    set: Option<reasm::Partial>,
    packet: Seq<u8>,
    capacity: int,
    pid: int,
    more: Seq<Seq<u8>>,
    width: int,
    cap: int,
)
    requires
        capacity > 1,
        packet.len() <= MAX_FRAGMENTS * (capacity - 1),
        packet.len() <= cap,
        capacity <= width,
        0 <= pid,
    ensures
        poll(set, packet_frames(packet, capacity, pid) + more, width, cap) == (Polled {
            packet: Some(packet),
            set: None,
            ready: more,
        }),
{
    reasm::lemma_fragments_deliver(set, packet, capacity - 1, pid, cap);
    let frags = reasm::fragments_of(packet, capacity - 1, pid);
    assert(frags.take(0) =~= Seq::empty());
    assert(packet_frames(packet, capacity, pid).skip(0) =~= packet_frames(packet, capacity, pid));
    lemma_poll_from(set, packet, capacity, pid, more, width, cap, 0);
}

proof fn lemma_poll_from(
    set: Option<reasm::Partial>,
    packet: Seq<u8>,
    capacity: int,
    pid: int,
    more: Seq<Seq<u8>>,
    width: int,
    cap: int,
    k: int,
)
    requires
        capacity > 1,
        packet.len() <= MAX_FRAGMENTS * (capacity - 1),
        packet.len() <= cap,
        capacity <= width,
        0 <= pid,
        0 <= k < packet_frames(packet, capacity, pid).len(),
    ensures
        poll(
            reasm::reasm_after(
                set,
                reasm::fragments_of(packet, capacity - 1, pid).take(k),
                cap,
            ),
            packet_frames(packet, capacity, pid).skip(k) + more,
            width,
            cap,
        ) == (Polled { packet: Some(packet), set: None, ready: more }),
    decreases packet_frames(packet, capacity, pid).len() - k,
{
    let frags = reasm::fragments_of(packet, capacity - 1, pid);
    let frames = packet_frames(packet, capacity, pid);
    let n = frags.len() as int;
    let ready = frames.skip(k) + more;
    reasm::lemma_fragments_deliver(set, packet, capacity - 1, pid, cap);
    reasm::lemma_headers_survive(packet, capacity - 1, pid, k);
    reasm::lemma_chunk_fits(packet, capacity - 1, pid, k);
    assert(ready[0] =~= l2_frame(frags[k]));
    assert(ready[0].take(ready[0].len() as int) =~= ready[0]);
    assert(ready[0].skip(1) =~= frags[k].1);
    assert(frags.take(k + 1).drop_last() =~= frags.take(k));
    assert(frags.take(k + 1).last() == frags[k]);
    assert(ready.skip(1) =~= frames.skip(k + 1) + more);
    if k < n - 1 {
        assert(reasm::delivered_at(set, frags, k, cap) is None);
        lemma_poll_from(set, packet, capacity, pid, more, width, cap, k + 1);
    } else {
        assert(frags.take(n) =~= frags);
        assert(ready.skip(1) =~= more);
    }
}

/// A frame without a header byte makes no difference to what a poll delivers.
pub proof fn lemma_empty_frame_passed_over(
    set: Option<reasm::Partial>,
    more: Seq<Seq<u8>>,
    width: int,
    cap: int,
)
    requires
        width >= 0,
    ensures
        poll(set, seq![Seq::<u8>::empty()] + more, width, cap) == poll(set, more, width, cap),
{
    let ready = seq![Seq::<u8>::empty()] + more;
    assert(ready.skip(1) =~= more);
}

/// What goes on the wire for a packet: as many frames as it has fragments, each the fragment's
/// header byte and then its chunk, and none longer than the link carries.
pub proof fn lemma_frames_of_a_packet(packet: Seq<u8>, capacity: int, pid: int, i: int)
    requires
        capacity > 1,
        packet.len() <= MAX_FRAGMENTS * (capacity - 1),
        0 <= pid,
        0 <= i < packet_frames(packet, capacity, pid).len(),
    ensures
        ({
            let frames = packet_frames(packet, capacity, pid);
            let h = frag::header_of(frames[i][0]);
            &&& 1 <= frames.len() <= MAX_FRAGMENTS
            &&& 1 <= frames[i].len() <= capacity
            &&& h.pid as int == pid % 8 && h.frag_idx == i
            &&& h.more <==> i < frames.len() - 1
            &&& h.more ==> frames[i].len() == capacity
            &&& forall|j: int|
                1 <= j < frames[i].len() ==> #[trigger] frames[i][j] == packet[(capacity - 1) * i + j
                    - 1]
        }),
{
    reasm::lemma_fragments_deliver(None, packet, capacity - 1, pid, packet.len() as int);
    reasm::lemma_fragments(packet, capacity - 1, pid, i);
    reasm::lemma_headers_survive(packet, capacity - 1, pid, i);
    reasm::lemma_chunk_fits(packet, capacity - 1, pid, i);
    let chunk = reasm::fragments_of(packet, capacity - 1, pid)[i].1;
    let frame = packet_frames(packet, capacity, pid)[i];
    assert(frame.skip(1) =~= chunk);
    assert forall|j: int| 1 <= j < frame.len() implies #[trigger] frame[j] == packet[(capacity - 1)
        * i + j - 1] by {
        assert(chunk[j - 1] == packet[(capacity - 1) * i + (j - 1)]);
    }
}

} // verus!
