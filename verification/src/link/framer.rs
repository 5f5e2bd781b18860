//! Byte-stream framing: a self-delimiting, CRC-protected frame and a resyncing decoder.
//!
//! A raw stream has no boundaries and no integrity, so the link supplies both. Every shipped
//! carrier (the debug mailbox, the inter-board UART, BLE) holds this same frame:
//!
//! ```text
//! [ SOF : 1 = 0x5A ][ len : 1 ][ frag-hdr : 1 ][ chunk : len-1 ][ CRC-16 : 2 ]
//! ```
//!
//! `len` counts the bytes from `frag-hdr` through the end of `chunk`; these are the L2 frame. The
//! CRC-16/MODBUS covers `SOF..chunk` and is little-endian on the wire.

use crate::bounded::BoundedVec;
use crate::bytes;
use crate::link::crc16;
use vstd::prelude::*;

verus! {

/// Start-of-frame marker.
pub const SOF: u8 = 0x5A;

/// Fixed leading bytes before the L2 frame: `SOF` and `len`.
pub const STREAM_HEADER_LEN: usize = 2;

/// Trailing CRC length.
pub const STREAM_CRC_LEN: usize = 2;

/// Largest `len` value (the field is one byte), which is the largest inner L2 frame.
pub const MAX_L2_LEN: usize = 255;

/// Largest total stream frame on the wire: `SOF + len + (frag-hdr..chunk) + CRC`.
pub const MAX_STREAM_FRAME: usize = 259;

/// Reasons [`encode`] can fail.
#[derive(Debug, Clone, Copy, PartialEq, Eq, Structural)]
pub enum FrameError {
    /// The L2 frame is empty (no `frag-hdr`) or longer than [`MAX_L2_LEN`].
    BadLen,
    /// The supplied `out` buffer is smaller than the encoded stream frame.
    OutTooSmall,
}

/// The bytes of the frame that its CRC covers.
pub open spec fn covered(l2: Seq<u8>) -> Seq<u8> {
    seq![SOF, l2.len() as u8] + l2
}

/// The stream frame that carries `l2`.
pub open spec fn frame_of(l2: Seq<u8>) -> Seq<u8> {
    covered(l2) + bytes::le16_bytes(crc16::crc16(covered(l2)) as int)
}

/// Wraps one L2 frame (`[ frag-hdr ][ chunk ]`) into a stream frame at the start of `out`.
/// Returns the total encoded length.
pub fn encode(l2: &[u8], out: &mut [u8]) -> (r: Result<usize, FrameError>)
    ensures
        match r {
            Err(FrameError::BadLen) => l2@.len() == 0 || l2@.len() > MAX_L2_LEN,
            Err(FrameError::OutTooSmall) => 1 <= l2@.len() <= MAX_L2_LEN && old(out)@.len()
                < l2@.len() + 4,
            Ok(n) => 1 <= l2@.len() <= MAX_L2_LEN && n == l2@.len() + 4 && n <= old(out)@.len(),
        },
        r is Err ==> final(out)@ == old(out)@,
        r is Ok ==> final(out)@ == frame_of(l2@) + old(out)@.skip(r->Ok_0 as int),
{
    let len: usize = l2.len();
    if len == 0 || len > MAX_L2_LEN {
        return Err(FrameError::BadLen);
    }
    let total: usize = STREAM_HEADER_LEN + len + STREAM_CRC_LEN;
    if out.len() < total {
        return Err(FrameError::OutTooSmall);
    }
    out[0] = SOF;
    out[1] = len as u8;
    bytes::copy_into(out, STREAM_HEADER_LEN, l2);
    let ghost body = out@;
    let crc: u16 = crc16::modbus(&out[0..STREAM_HEADER_LEN + len]);
    assert(body.take(2 + len as int) =~= covered(l2@));
    out[STREAM_HEADER_LEN + len] = bytes::lo(crc);
    out[STREAM_HEADER_LEN + len + 1] = bytes::hi(crc);
    assert(out@ =~= frame_of(l2@) + old(out)@.skip(total as int));
    Ok(total)
}

/// What the bytes at the front of a stream amount to, for a decoder of capacity `cap`.
pub enum Front {
    /// Nothing to decide yet: no byte, or the start of a frame that is not all there.
    Wait,
    /// The first byte starts no frame; that shows after `seen` bytes.
    Noise { seen: int },
    /// A whole frame with an L2 frame of `len` bytes.
    Frame { len: int },
}

/// Judges the front of the stream `s`. A frame starts with `SOF`, has at least one byte of L2
/// frame, is no longer than `cap` in all, and ends in its CRC.
pub open spec fn front(s: Seq<u8>, cap: int) -> Front {
    if s.len() == 0 {
        Front::Wait
    } else if s[0] != SOF {
        Front::Noise { seen: 1 }
    } else if s.len() == 1 {
        Front::Wait
    } else if s[1] == 0 || s[1] + 4 > cap {
        Front::Noise { seen: 2 }
    } else if s.len() < s[1] + 4 {
        Front::Wait
    } else if crc16::crc16(s.take(s[1] + 2)) == bytes::le16(s[s[1] + 2], s[s[1] + 3]) {
        Front::Frame { len: s[1] as int }
    } else {
        Front::Noise { seen: s[1] + 4 }
    }
}

/// The L2 frames in the stream `s`, and the bytes that stay behind for more to come: at each
/// point a whole frame is taken out, or one byte is dropped.
pub open spec fn decode_stream(s: Seq<u8>, cap: int) -> (Seq<Seq<u8>>, Seq<u8>)
    decreases s.len(),
{
    match front(s, cap) {
        Front::Wait => (Seq::empty(), s),
        Front::Noise { .. } => decode_stream(s.skip(1), cap),
        Front::Frame { len } => {
            let later = decode_stream(s.skip(len + 4), cap);
            (seq![s.subrange(2, len + 2)] + later.0, later.1)
        },
    }
}

/// Where a decoder that stops at the first frame comes to rest.
pub struct Pull {
    /// The L2 frame found, if any.
    pub frame: Option<Seq<u8>>,
    /// The bytes that stay behind in the decoder.
    pub held: Seq<u8>,
    /// The input that was not consumed.
    pub coming: Seq<u8>,
}

/// Decodes the stream up to its first frame, the bytes `held` being in the decoder and `coming`
/// in its input. No byte is consumed before the frame candidate at hand needs it.
pub open spec fn pull(held: Seq<u8>, coming: Seq<u8>, cap: int) -> Pull
    decreases held.len() + coming.len(),
{
    let s = held + coming;
    match front(s, cap) {
        Front::Wait => Pull { frame: None, held: s, coming: Seq::empty() },
        Front::Noise { seen } => {
            let n = vstd::math::max(held.len() as int, seen);
            pull(s.subrange(1, n), s.skip(n), cap)
        },
        Front::Frame { len } => {
            let n = vstd::math::max(held.len() as int, len + 4);
            Pull {
                frame: Some(s.subrange(2, len + 2)),
                held: s.subrange(len + 4, n),
                coming: s.skip(n),
            }
        },
    }
}

/// A resyncing stream framer over a bounded buffer.
///
/// Takes arbitrary byte chunks, resyncs on `SOF`, checks `len` and the CRC, and hands out every
/// whole CRC-valid L2 frame. A bad CRC drops that candidate and the framer resyncs at the next
/// `SOF`.
///
/// `N` is the buffer size, the largest stream frame this framer can hold: [`MAX_STREAM_FRAME`] in
/// general, less on a carrier with a small MTU. A candidate whose declared length exceeds `N`
/// cannot be a frame on that carrier, so it is resynced past as a false `SOF`. `N` has room for
/// the header at least.
pub struct StreamFramer<const N: usize> {
    /// Bytes taken in and not yet decided on.
    buf: BoundedVec<u8, N>,
}

impl<const N: usize> View for StreamFramer<N> {
    type V = Seq<u8>;

    /// The bytes taken in and not yet decided on.
    closed spec fn view(&self) -> Seq<u8> {
        self.buf@
    }
}

impl<const N: usize> Default for StreamFramer<N> {
    fn default() -> (f: Self)
        ensures
            f@ == Seq::<u8>::empty(),
    {
        StreamFramer::new()
    }
}

impl<const N: usize> StreamFramer<N> {
    /// A fresh framer in the hunt state.
    pub fn new() -> (f: StreamFramer<N>)
        ensures
            f@ == Seq::<u8>::empty(),
    {
        StreamFramer { buf: BoundedVec::new() }
    }

    /// Back to the hunt state, dropping any partial frame.
    pub fn reset(&mut self)
        ensures
            final(self)@ == Seq::<u8>::empty(),
    {
        self.buf.clear();
    }

    /// Takes in a chunk of bytes, whole, and returns every complete CRC-valid L2 frame in order.
    pub fn feed(&mut self, bytes: &[u8]) -> (frames: Vec<Vec<u8>>)
        requires
            N >= STREAM_HEADER_LEN,
        ensures
            bytes::views(frames@) == decode_stream(old(self)@ + bytes@, N as int).0,
            final(self)@ == decode_stream(old(self)@ + bytes@, N as int).1,
    {
        let (frames, pos) = self.drain(bytes, false);
        frames
    }

    /// Takes in bytes up to the first complete CRC-valid frame, or all of them. Returns the frame,
    /// if there is one, and the number of bytes consumed; the caller carries the rest over to the
    /// next call.
    pub fn feed_one(&mut self, bytes: &[u8]) -> (r: (Option<Vec<u8>>, usize))
        requires
            N >= STREAM_HEADER_LEN,
        ensures
            ({
                let p = pull(old(self)@, bytes@, N as int);
                &&& (r.0 is Some <==> p.frame is Some)
                &&& (r.0 is Some ==> r.0->0@ == p.frame->0)
                &&& r.1 <= bytes@.len()
                &&& bytes@.skip(r.1 as int) == p.coming
                &&& final(self)@ == p.held
            }),
    {
        let (mut frames, pos) = self.drain(bytes, true);
        let ghost fv = bytes::views(frames@);
        let one = frames.pop();
        proof {
            if one is Some {
                assert(fv[0] == one->0@);
            }
        }
        (one, pos)
    }

    /// Consumes `bytes`, appending to the candidate buffer in runs, and collects every complete
    /// CRC-valid frame; with `stop_after_one`, comes back the moment one frame is found. Returns
    /// the frames and the number of bytes consumed. The resync is a bounded loop: drop one byte,
    /// scan again.
    fn drain(&mut self, bytes: &[u8], stop_after_one: bool) -> (r: (Vec<Vec<u8>>, usize))
        requires
            N >= STREAM_HEADER_LEN,
        ensures
            r.1 <= bytes@.len(),
            !stop_after_one ==> {
                &&& bytes::views(r.0@) == decode_stream(old(self)@ + bytes@, N as int).0
                &&& final(self)@ == decode_stream(old(self)@ + bytes@, N as int).1
                &&& r.1 == bytes@.len()
            },
            stop_after_one ==> {
                let p = pull(old(self)@, bytes@, N as int);
                &&& r.0@.len() == (if p.frame is Some { 1int } else { 0 })
                &&& (p.frame is Some ==> bytes::views(r.0@)[0] == p.frame->0)
                &&& bytes@.skip(r.1 as int) == p.coming
                &&& final(self)@ == p.held
            },
    {
        let ghost cap = N as int;
        let ghost all = decode_stream(self@ + bytes@, cap);
        let ghost one = pull(self@, bytes@, cap);
        let mut frames: Vec<Vec<u8>> = Vec::new();
        let mut pos: usize = 0;
        assert(bytes@.skip(0) =~= bytes@);
        assert(bytes::views(frames@) + all.0 =~= all.0);
        loop
            invariant
                N >= STREAM_HEADER_LEN,
                cap == N,
                all == decode_stream(old(self)@ + bytes@, cap),
                one == pull(old(self)@, bytes@, cap),
                pos <= bytes@.len(),
                all == (
                    bytes::views(frames@) + decode_stream(self@ + bytes@.skip(pos as int), cap).0,
                    decode_stream(self@ + bytes@.skip(pos as int), cap).1,
                ),
                stop_after_one ==> frames@.len() == 0 && one == pull(
                    self@,
                    bytes@.skip(pos as int),
                    cap,
                ),
            decreases self@.len() + bytes@.len() - pos,
        {
            pos = self.hunt(bytes, pos);
            let ghost held = self@;
            let ghost coming = bytes@.skip(pos as int);
            let ghost s = held + coming;
            assert(s.len() > 0 ==> s[0] == SOF);
            // Fill up to the header, so that the length is known.
            pos = self.top_up(bytes, pos, STREAM_HEADER_LEN);
            if self.buf.len() < STREAM_HEADER_LEN {
                proof {
                    lemma_all_in(self@, bytes@, pos as int);
                    assert(front(s, cap) is Wait);
                    assert(bytes::views(frames@) + Seq::<Seq<u8>>::empty() =~= bytes::views(frames@));
                }
                return (frames, pos);
            }
            let len: usize = self.buf.as_slice()[1] as usize;
            assert(s[0] == SOF && s[1] == len);
            let total: usize = STREAM_HEADER_LEN + len + STREAM_CRC_LEN;
            if len == 0 || total > N {
                // A frame always has a header byte, and always fits: a false SOF.
                self.drop_sof(bytes, pos, Ghost(held), Ghost(coming));
                continue;
            }
            // Take in what the candidate still needs, in one run.
            pos = self.top_up(bytes, pos, total);
            if self.buf.len() < total {
                proof {
                    lemma_all_in(self@, bytes@, pos as int);
                    assert(front(s, cap) is Wait);
                    assert(bytes::views(frames@) + Seq::<Seq<u8>>::empty() =~= bytes::views(frames@));
                }
                return (frames, pos);
            }
            let candidate = self.buf.as_slice();
            let crc_calc: u16 = crc16::modbus(&candidate[0..STREAM_HEADER_LEN + len]);
            let crc_wire: u16 = bytes::rd_u16(candidate, STREAM_HEADER_LEN + len);
            assert(candidate@.subrange(0, 2 + len) =~= s.take(len + 2));
            if crc_calc == crc_wire {
                let frame = bytes::to_vec(&candidate[STREAM_HEADER_LEN..STREAM_HEADER_LEN + len]);
                self.buf.discard_front(total);
                proof {
                    let n = vstd::math::max(held.len() as int, len + 4);
                    assert(frame@ =~= s.subrange(2, len + 2));
                    assert(self@ =~= s.subrange(len + 4, n));
                    assert(bytes@.skip(pos as int) =~= s.skip(n));
                    assert(self@ + bytes@.skip(pos as int) =~= s.skip(len + 4));
                    let later = decode_stream(s.skip(len + 4), cap);
                    assert(bytes::views(frames@.push(frame)) + later.0 =~= bytes::views(frames@) + (
                    seq![frame@] + later.0));
                }
                frames.push(frame);
                if stop_after_one {
                    return (frames, pos);
                }
            } else {
                // Drop the candidate SOF alone, so that a false one still locks onto the next
                // frame.
                self.drop_sof(bytes, pos, Ghost(held), Ghost(coming));
            }
        }
    }

    /// Drops leading bytes that are not `SOF`: from the buffer, and, once that is empty, from the
    /// input at `pos`. Returns the new position in the input.
    fn hunt(&mut self, bytes: &[u8], pos: usize) -> (next: usize)
        requires
            pos <= bytes@.len(),
        ensures
            pos <= next <= bytes@.len(),
            final(self)@.len() - next <= old(self)@.len() - pos,
            final(self)@.len() > 0 ==> final(self)@[0] == SOF,
            final(self)@.len() == 0 && next < bytes@.len() ==> bytes@[next as int] == SOF,
            decode_stream(final(self)@ + bytes@.skip(next as int), N as int) == decode_stream(
                old(self)@ + bytes@.skip(pos as int),
                N as int,
            ),
            pull(final(self)@, bytes@.skip(next as int), N as int) == pull(
                old(self)@,
                bytes@.skip(pos as int),
                N as int,
            ),
    {
        let ghost held = self@;
        let ghost coming = bytes@.skip(pos as int);
        let mut k: usize = 0;
        let n: usize = self.buf.len();
        assert(held.skip(0) =~= held);
        while k < n && self.buf.as_slice()[k] != SOF
            invariant
                k <= n,
                n == self@.len(),
                self@ == held,
                decode_stream(held.skip(k as int) + coming, N as int) == decode_stream(
                    held + coming,
                    N as int,
                ),
                pull(held.skip(k as int), coming, N as int) == pull(held, coming, N as int),
            decreases n - k,
        {
            proof {
                lemma_noise_held(held.skip(k as int), coming, N as int);
                assert(held.skip(k as int).skip(1) =~= held.skip(k + 1));
            }
            k += 1;
        }
        self.buf.discard_front(k);
        let mut next: usize = pos;
        if self.buf.is_empty() {
            assert(self@ =~= Seq::<u8>::empty());
            while next < bytes.len() && bytes[next] != SOF
                invariant
                    pos <= next <= bytes@.len(),
                    self@ == Seq::<u8>::empty(),
                    decode_stream(self@ + bytes@.skip(next as int), N as int) == decode_stream(
                        held + coming,
                        N as int,
                    ),
                    pull(self@, bytes@.skip(next as int), N as int) == pull(
                        held,
                        coming,
                        N as int,
                    ),
                decreases bytes@.len() - next,
            {
                proof {
                    lemma_noise_coming(bytes@.skip(next as int), N as int);
                    assert(bytes@.skip(next as int).skip(1) =~= bytes@.skip(next + 1));
                }
                next += 1;
            }
        }
        next
    }

    /// Moves bytes of the input, from `pos` on, to the buffer until it holds `want` of them or
    /// the input ends. Returns the new position in the input.
    fn top_up(&mut self, bytes: &[u8], pos: usize, want: usize) -> (next: usize)
        requires
            pos <= bytes@.len(),
            want <= N,
        ensures
            pos <= next <= bytes@.len(),
            final(self)@.len() == (if old(self)@.len() >= want {
                old(self)@.len() as int
            } else {
                vstd::math::min(want as int, old(self)@.len() + bytes@.len() - pos)
            }),
            final(self)@.len() - next == old(self)@.len() - pos,
            final(self)@ == (old(self)@ + bytes@.skip(pos as int)).take(final(self)@.len() as int),
            bytes@.skip(next as int) == (old(self)@ + bytes@.skip(pos as int)).skip(
                final(self)@.len() as int,
            ),
            final(self)@ + bytes@.skip(next as int) == old(self)@ + bytes@.skip(pos as int),
    {
        let n: usize = self.buf.len();
        let mut next: usize = pos;
        if n < want {
            let take: usize = at_most(want - n, bytes.len() - pos);
            let _ = self.buf.extend_from_slice(&bytes[pos..pos + take]);
            next = pos + take;
        }
        proof {
            let s = old(self)@ + bytes@.skip(pos as int);
            assert(self@ =~= s.take(self@.len() as int));
            assert(bytes@.skip(next as int) =~= s.skip(self@.len() as int));
            assert(self@ + bytes@.skip(next as int) =~= s);
        }
        next
    }

    /// Drops the first byte of the buffer, which is known to start no frame. `held` and `coming`
    /// are what the buffer and the input held before the candidate was taken in.
    fn drop_sof(&mut self, bytes: &[u8], pos: usize, held: Ghost<Seq<u8>>, coming: Ghost<Seq<u8>>)
        requires
            pos <= bytes@.len(),
            old(self)@ + bytes@.skip(pos as int) == held@ + coming@,
            front(held@ + coming@, N as int) matches Front::Noise { seen } && old(self)@.len()
                == vstd::math::max(held@.len() as int, seen),
        ensures
            final(self)@.len() == old(self)@.len() - 1,
            decode_stream(final(self)@ + bytes@.skip(pos as int), N as int) == decode_stream(
                held@ + coming@,
                N as int,
            ),
            pull(final(self)@, bytes@.skip(pos as int), N as int) == pull(
                held@,
                coming@,
                N as int,
            ),
    {
        self.buf.discard_front(1);
        proof {
            let s = held@ + coming@;
            let n = old(self)@.len() as int;
            assert(self@ =~= s.subrange(1, n));
            assert(bytes@.skip(pos as int) =~= s.skip(n));
            assert(self@ + bytes@.skip(pos as int) =~= s.skip(1));
        }
    }
}

/// The smaller of the two.
fn at_most(a: usize, b: usize) -> (m: usize)
    ensures
        m == vstd::math::min(a as int, b as int),
{
    if a < b {
        a
    } else {
        b
    }
}

/// A buffered byte that is not `SOF` can be dropped.
proof fn lemma_noise_held(held: Seq<u8>, coming: Seq<u8>, cap: int)
    requires
        held.len() > 0,
        held[0] != SOF,
    ensures
        decode_stream(held + coming, cap) == decode_stream(held.skip(1) + coming, cap),
        pull(held, coming, cap) == pull(held.skip(1), coming, cap),
{
    let s = held + coming;
    assert(s.skip(1) =~= held.skip(1) + coming);
    assert(s.subrange(1, held.len() as int) =~= held.skip(1));
    assert(s.skip(held.len() as int) =~= coming);
}

/// An input byte that is not `SOF` can be dropped while the buffer is empty.
proof fn lemma_noise_coming(coming: Seq<u8>, cap: int)
    requires
        coming.len() > 0,
        coming[0] != SOF,
    ensures
        decode_stream(Seq::<u8>::empty() + coming, cap) == decode_stream(
            Seq::<u8>::empty() + coming.skip(1),
            cap,
        ),
        pull(Seq::empty(), coming, cap) == pull(Seq::empty(), coming.skip(1), cap),
{
    let s = Seq::<u8>::empty() + coming;
    assert(s.skip(1) =~= Seq::<u8>::empty() + coming.skip(1));
    assert(s.skip(1) =~= coming.skip(1));
    assert(s.subrange(1, 1) =~= Seq::<u8>::empty());
}

/// Nothing is left of the input once it has been taken in to its end.
proof fn lemma_all_in(held: Seq<u8>, bytes: Seq<u8>, pos: int)
    requires
        pos == bytes.len(),
    ensures
        held + bytes.skip(pos) == held,
        bytes.skip(pos) == Seq::<u8>::empty(),
{
    assert(bytes.skip(pos) =~= Seq::<u8>::empty());
    assert(held + bytes.skip(pos) =~= held);
}

/// Chunking does not matter: feeding `s` and then `t` gives the frames, and leaves behind the
/// bytes, that feeding the two at once does.
pub proof fn lemma_chunking(s: Seq<u8>, t: Seq<u8>, cap: int)
    ensures
        decode_stream(s + t, cap).0 == decode_stream(s, cap).0 + decode_stream(
            decode_stream(s, cap).1 + t,
            cap,
        ).0,
        decode_stream(s + t, cap).1 == decode_stream(decode_stream(s, cap).1 + t, cap).1,
    decreases s.len(),
{
    let first = decode_stream(s, cap);
    match front(s, cap) {
        Front::Wait => {
            assert(first.0 + decode_stream(s + t, cap).0 =~= decode_stream(s + t, cap).0);
        },
        Front::Noise { .. } => {
            lemma_front_settled(s, t, cap);
            lemma_chunking(s.skip(1), t, cap);
            assert((s + t).skip(1) =~= s.skip(1) + t);
        },
        Front::Frame { len } => {
            lemma_front_settled(s, t, cap);
            lemma_chunking(s.skip(len + 4), t, cap);
            assert((s + t).skip(len + 4) =~= s.skip(len + 4) + t);
            assert((s + t).subrange(2, len + 2) =~= s.subrange(2, len + 2));
            let one = seq![s.subrange(2, len + 2)];
            let mid = decode_stream(s.skip(len + 4), cap);
            let end = decode_stream(mid.1 + t, cap);
            assert(one + (mid.0 + end.0) =~= (one + mid.0) + end.0);
        },
    }
}

/// A front that is decided stays decided, whatever follows.
proof fn lemma_front_settled(s: Seq<u8>, t: Seq<u8>, cap: int)
    requires
        !(front(s, cap) is Wait),
    ensures
        front(s + t, cap) == front(s, cap),
{
    if s[0] == SOF && s[1] != 0 && s[1] + 4 <= cap {
        assert((s + t).take(s[1] + 2) =~= s.take(s[1] + 2));
    }
}

/// What [`encode`] writes, a framer with room for it decodes: the L2 frame comes out whole, and
/// the bytes behind the frame are decoded as if they stood alone.
pub proof fn lemma_round_trip(l2: Seq<u8>, t: Seq<u8>, cap: int)
    requires
        1 <= l2.len() <= MAX_L2_LEN,
        l2.len() + 4 <= cap,
    ensures
        decode_stream(frame_of(l2) + t, cap).0 == seq![l2] + decode_stream(t, cap).0,
        decode_stream(frame_of(l2) + t, cap).1 == decode_stream(t, cap).1,
{
    let s = frame_of(l2) + t;
    let n = l2.len() as int;
    assert(s.take(n + 2) =~= covered(l2));
    assert(front(s, cap) == Front::Frame { len: n });
    assert(s.subrange(2, n + 2) =~= l2);
    assert(s.skip(n + 4) =~= t);
}

/// Garbage without a `SOF` in it, in front of a stream, changes nothing of what is decoded.
pub proof fn lemma_garbage_skipped(garbage: Seq<u8>, s: Seq<u8>, cap: int)
    requires
        !garbage.contains(SOF),
    ensures
        decode_stream(garbage + s, cap) == decode_stream(s, cap),
    decreases garbage.len(),
{
    if garbage.len() == 0 {
        assert(garbage + s =~= s);
    } else {
        assert(garbage[0] != SOF) by {
            assert(garbage.contains(garbage[0]));
        }
        assert((garbage + s).skip(1) =~= garbage.skip(1) + s);
        assert forall|i: int| 0 <= i < garbage.skip(1).len() implies garbage.skip(1)[i] != SOF by {
            assert(garbage.contains(garbage[i + 1]));
        }
        lemma_garbage_skipped(garbage.skip(1), s, cap);
    }
}

/// A frame with one byte of its L2 frame changed is not delivered: its `SOF` is dropped and the
/// stream is scanned again from the byte after it.
pub proof fn lemma_corrupt_byte_dropped(l2: Seq<u8>, i: int, b: u8, t: Seq<u8>, cap: int)
    requires
        1 <= l2.len() <= MAX_L2_LEN,
        l2.len() + 4 <= cap,
        0 <= i < l2.len(),
        b != l2[i],
    ensures
        decode_stream(frame_of(l2).update(i + 2, b) + t, cap) == decode_stream(
            (frame_of(l2).update(i + 2, b) + t).skip(1),
            cap,
        ),
{
    let s = frame_of(l2).update(i + 2, b) + t;
    let n = l2.len() as int;
    let bad = covered(l2).update(i + 2, b);
    assert(s.take(n + 2) =~= bad);
    crc16::lemma_single_byte_error(covered(l2), bad, i + 2);
    let crc = crc16::crc16(covered(l2)) as int;
    assert(s[n + 2] == (crc % 256) as u8);
    assert(s[n + 3] == (crc / 256) as u8);
}

/// The two ways to decode agree: the frames of a stream are the frame that a pull stops at,
/// followed by the frames of what it left held and unconsumed. Where it finds none, there is none,
/// and all of the input has been consumed.
pub proof fn lemma_pull_agrees(held: Seq<u8>, coming: Seq<u8>, cap: int)
    ensures
        ({
            let all = decode_stream(held + coming, cap);
            let p = pull(held, coming, cap);
            let later = decode_stream(p.held + p.coming, cap);
            &&& p.frame is Some ==> all.0 == seq![p.frame->0] + later.0 && all.1 == later.1
            &&& p.frame is None ==> all.0.len() == 0 && all.1 == p.held && p.coming.len() == 0
        }),
    decreases held.len() + coming.len(),
{
    let s = held + coming;
    match front(s, cap) {
        Front::Wait => {},
        Front::Noise { seen } => {
            let n = vstd::math::max(held.len() as int, seen);
            assert(s.subrange(1, n) + s.skip(n) =~= s.skip(1));
            lemma_pull_agrees(s.subrange(1, n), s.skip(n), cap);
        },
        Front::Frame { len } => {
            let n = vstd::math::max(held.len() as int, len + 4);
            assert(s.subrange(len + 4, n) + s.skip(n) =~= s.skip(len + 4));
        },
    }
}

/// A pull consumes a prefix of its input and moves every byte of the stream forward only: what is
/// held and unconsumed afterwards is a tail of what was there before.
pub proof fn lemma_pull_accounts(held: Seq<u8>, coming: Seq<u8>, cap: int)
    ensures
        ({
            let p = pull(held, coming, cap);
            &&& p.coming.len() <= coming.len()
            &&& p.coming == coming.skip(coming.len() - p.coming.len())
            &&& p.held.len() + p.coming.len() <= held.len() + coming.len()
            &&& p.held + p.coming == (held + coming).skip(
                held.len() + coming.len() - p.held.len() - p.coming.len(),
            )
        }),
    decreases held.len() + coming.len(),
{
    let s = held + coming;
    let p = pull(held, coming, cap);
    match front(s, cap) {
        Front::Wait => {
            assert(p.coming =~= coming.skip(coming.len() as int));
            assert(p.held + p.coming =~= s.skip(0));
        },
        Front::Noise { seen } => {
            let n = vstd::math::max(held.len() as int, seen);
            assert(s.subrange(1, n) + s.skip(n) =~= s.skip(1));
            lemma_pull_accounts(s.subrange(1, n), s.skip(n), cap);
            assert(p.coming =~= coming.skip(coming.len() - p.coming.len()));
            assert(p.held + p.coming =~= s.skip(s.len() - p.held.len() - p.coming.len()));
        },
        Front::Frame { len } => {
            let n = vstd::math::max(held.len() as int, len + 4);
            assert(p.coming =~= coming.skip(n - held.len()));
            assert(p.held + p.coming =~= s.skip(len + 4));
        },
    }
}

/// Where the stream frames begin that [`decode_stream`] finds in `s`.
pub open spec fn frame_starts(s: Seq<u8>, cap: int) -> Seq<int>
    decreases s.len(),
{
    match front(s, cap) {
        Front::Wait => Seq::empty(),
        Front::Noise { .. } => moved(frame_starts(s.skip(1), cap), 1),
        Front::Frame { len } => seq![0int] + moved(frame_starts(s.skip(len + 4), cap), len + 4),
    }
}

/// Positions, counted from a point `by` bytes further on.
pub open spec fn moved(at: Seq<int>, by: int) -> Seq<int> {
    Seq::new(at.len(), |i: int| at[i] + by)
}

/// Every frame that comes out stands in the stream, whole, from its start byte to its CRC; they
/// stand there in the order in which they come out, without overlap; and what stays behind is the
/// end of the stream, after the last of them.
pub proof fn lemma_frames_stand_in_stream(s: Seq<u8>, cap: int)
    ensures
        ({
            let (frames, rest) = decode_stream(s, cap);
            let at = frame_starts(s, cap);
            &&& at.len() == frames.len()
            &&& rest.len() <= s.len()
            &&& rest == s.skip(s.len() - rest.len())
            &&& forall|i: int|
                0 <= i < frames.len() ==> 0 <= (#[trigger] at[i]) && at[i] + frames[i].len() + 4
                    <= s.len() - rest.len() && s.subrange(at[i], at[i] + frames[i].len() + 4)
                    == frame_of(frames[i])
            &&& forall|i: int, j: int|
                0 <= i < j < frames.len() ==> (#[trigger] at[i]) + frames[i].len() + 4
                    <= #[trigger] at[j]
        }),
    decreases s.len(),
{
    let (frames, rest) = decode_stream(s, cap);
    let at = frame_starts(s, cap);
    match front(s, cap) {
        Front::Wait => {
            assert(rest =~= s.skip(0));
        },
        Front::Noise { .. } => {
            let t = s.skip(1);
            lemma_frames_stand_in_stream(t, cap);
            let before = frame_starts(t, cap);
            assert(rest =~= s.skip(s.len() - rest.len()));
            assert forall|i: int| 0 <= i < frames.len() implies 0 <= (#[trigger] at[i]) && at[i]
                + frames[i].len() + 4 <= s.len() - rest.len() && s.subrange(
                at[i],
                at[i] + frames[i].len() + 4,
            ) == frame_of(frames[i]) by {
                assert(at[i] == before[i] + 1);
                assert(s.subrange(at[i], at[i] + frames[i].len() + 4) =~= t.subrange(
                    before[i],
                    before[i] + frames[i].len() + 4,
                ));
            }
            assert forall|i: int, j: int| 0 <= i < j < frames.len() implies (#[trigger] at[i])
                + frames[i].len() + 4 <= #[trigger] at[j] by {
                assert(at[i] == before[i] + 1 && at[j] == before[j] + 1);
            }
        },
        Front::Frame { len } => {
            let t = s.skip(len + 4);
            lemma_frames_stand_in_stream(t, cap);
            let before = frame_starts(t, cap);
            let later = decode_stream(t, cap);
            let l2 = s.subrange(2, len + 2);
            assert(rest =~= s.skip(s.len() - rest.len()));
            assert(s.take(len + 2) =~= covered(l2));
            assert(s.subrange(0, len + 4) =~= frame_of(l2));
            assert forall|i: int| 0 <= i < frames.len() implies 0 <= (#[trigger] at[i]) && at[i]
                + frames[i].len() + 4 <= s.len() - rest.len() && s.subrange(
                at[i],
                at[i] + frames[i].len() + 4,
            ) == frame_of(frames[i]) by {
                if i > 0 {
                    assert(at[i] == before[i - 1] + len + 4);
                    assert(frames[i] == later.0[i - 1]);
                    assert(s.subrange(at[i], at[i] + frames[i].len() + 4) =~= t.subrange(
                        before[i - 1],
                        before[i - 1] + frames[i].len() + 4,
                    ));
                }
            }
            assert forall|i: int, j: int| 0 <= i < j < frames.len() implies (#[trigger] at[i])
                + frames[i].len() + 4 <= #[trigger] at[j] by {
                assert(at[j] == before[j - 1] + len + 4);
                if i > 0 {
                    assert(at[i] == before[i - 1] + len + 4);
                    assert(frames[i] == later.0[i - 1]);
                }
            }
        },
    }
}

/// What a framer holds between feeds is short of a frame and fits its buffer: decoding it alone
/// gives nothing, and every frame that came out has between 1 and 255 bytes and fits too.
pub proof fn lemma_bounded(s: Seq<u8>, cap: int)
    requires
        cap >= STREAM_HEADER_LEN,
    ensures
        decode_stream(s, cap).1.len() < cap,
        decode_stream(decode_stream(s, cap).1, cap) == (
            Seq::<Seq<u8>>::empty(),
            decode_stream(s, cap).1,
        ),
        forall|i: int|
            0 <= i < decode_stream(s, cap).0.len() ==> 1 <= (#[trigger] decode_stream(
                s,
                cap,
            ).0[i]).len() <= vstd::math::min(MAX_L2_LEN as int, cap - 4),
    decreases s.len(),
{
    match front(s, cap) {
        Front::Wait => {},
        Front::Noise { .. } => {
            lemma_bounded(s.skip(1), cap);
        },
        Front::Frame { len } => {
            lemma_bounded(s.skip(len + 4), cap);
        },
    }
}

/// Where everything stands in a stream frame: the marker, the length of the L2 frame, the L2
/// frame, and behind it the CRC of all that, low byte first.
pub proof fn lemma_layout(l2: Seq<u8>)
    requires
        l2.len() <= MAX_L2_LEN,
    ensures
        ({
            let w = frame_of(l2);
            let n = l2.len() as int;
            &&& w.len() == n + 4
            &&& w[0] == 0x5A && w[1] == n
            &&& forall|i: int| 0 <= i < n ==> #[trigger] w[i + 2] == l2[i]
            &&& w[n + 2] + 256 * w[n + 3] == crc16::crc16(w.take(n + 2))
        }),
{
    let w = frame_of(l2);
    let n = l2.len() as int;
    assert(w.take(n + 2) =~= covered(l2));
}

/// Resynchronising costs one byte: where no frame starts at the front of the stream, the stream
/// without its first byte holds the same frames.
pub proof fn lemma_resync(s: Seq<u8>, cap: int)
    requires
        s.len() > 0,
        s[0] != 0x5A || (s.len() >= 2 && (s[1] == 0 || s[1] + 4 > cap)) || (s.len() >= 2 && s.len()
            >= s[1] + 4 && s[s[1] + 2] + 256 * s[s[1] + 3] != crc16::crc16(s.take(s[1] + 2))),
    ensures
        decode_stream(s, cap) == decode_stream(s.skip(1), cap),
{
}

/// The start of a frame that is not all there is kept, whole, until the rest of it comes.
pub proof fn lemma_part_is_kept(l2: Seq<u8>, n: int, cap: int)
    requires
        1 <= l2.len() <= MAX_L2_LEN,
        l2.len() + 4 <= cap,
        0 <= n < l2.len() + 4,
    ensures
        decode_stream(frame_of(l2).take(n), cap) == (
            Seq::<Seq<u8>>::empty(),
            frame_of(l2).take(n),
        ),
{
}

/// A pull stops right behind the frame: nothing that follows it is consumed, and nothing of it is
/// still held, wherever the frame was cut between what was held and what came.
pub proof fn lemma_pull_stops_behind_frame(l2: Seq<u8>, n: int, t: Seq<u8>, cap: int)
    requires
        1 <= l2.len() <= MAX_L2_LEN,
        l2.len() + 4 <= cap,
        0 <= n <= l2.len() + 4,
    ensures
        pull(frame_of(l2).take(n), frame_of(l2).skip(n) + t, cap) == (Pull {
            frame: Some(l2),
            held: Seq::empty(),
            coming: t,
        }),
{
    let w = frame_of(l2);
    let s = w.take(n) + (w.skip(n) + t);
    let m = l2.len() as int;
    assert(s =~= w + t);
    assert(s.take(m + 2) =~= covered(l2));
    assert(s.subrange(2, m + 2) =~= l2);
    assert(s.subrange(m + 4, m + 4) =~= Seq::<u8>::empty());
    assert(s.skip(m + 4) =~= t);
}

} // verus!
