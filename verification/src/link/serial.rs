//! A byte-stream transport over any serial line.
//!
//! The bridge between frames and a serial device: it runs the [`StreamFramer`] over the received
//! bytes and wraps each outgoing frame with [`encode`]. The device itself is opaque; whoever
//! drives it hands over what was read, and writes what is to be written.

use crate::bytes;
use crate::link::framer;
use crate::link::framer::{encode, StreamFramer};
use vstd::prelude::*;

verus! {

/// Most bytes that one read of the device stages. A read is expensive, so bytes are pulled in
/// chunks and fed to the framer from the stage.
pub const PULL_CHUNK: usize = 24;

/// A transport that wraps a serial device and frames the byte stream.
///
/// `N` is the framer and send buffer size, the largest stream frame.
pub struct SerialTransport<S, const N: usize> {
    serial: S,
    framer: StreamFramer<N>,
    frame_capacity: usize,
    /// Bytes read in one go but not yet fed to the framer: `stage[stage_pos..]`, carried across
    /// calls so that one call hands out one frame.
    stage: Vec<u8>,
    stage_pos: usize,
}

/// The frames that come out of `held` and `staged` one by one, when each call hands out one: the
/// frame, if any, what the framer then holds, and what is then staged.
pub open spec fn next_of(held: Seq<u8>, staged: Seq<u8>, cap: int) -> framer::Pull {
    if staged.len() == 0 {
        framer::Pull { frame: None, held, coming: staged }
    } else {
        framer::pull(held, staged, cap)
    }
}

impl<S, const N: usize> SerialTransport<S, N> {
    /// The device.
    pub closed spec fn device(&self) -> S {
        self.serial
    }

    /// The bytes taken into the framer and not yet decided on.
    pub closed spec fn held(&self) -> Seq<u8> {
        self.framer@
    }

    /// The bytes read and not yet fed to the framer.
    pub closed spec fn staged(&self) -> Seq<u8> {
        self.stage@.skip(self.stage_pos as int)
    }

    /// The largest L2 frame that the carrier puts in one stream frame.
    pub closed spec fn capacity(&self) -> usize {
        self.frame_capacity
    }

    /// The position in the stage is within it.
    pub closed spec fn wf(&self) -> bool {
        self.stage_pos <= self.stage@.len()
    }

    /// Wraps `serial`, advertising `frame_capacity`: the largest L2 frame this carrier puts in one
    /// stream frame (the usable chunk is one byte less).
    pub fn new(serial: S, frame_capacity: usize) -> (t: Self)
        ensures
            t.wf(),
            t.device() == serial,
            t.held() == Seq::<u8>::empty(),
            t.staged() == Seq::<u8>::empty(),
            t.capacity() == frame_capacity,
    {
        let t = SerialTransport {
            serial,
            framer: StreamFramer::new(),
            frame_capacity,
            stage: Vec::new(),
            stage_pos: 0,
        };
        assert(t.staged() =~= Seq::<u8>::empty());
        t
    }

    /// Drops any partial frame and any staged byte, so that nothing read before surfaces later.
    pub fn reset(&mut self)
        ensures
            final(self).wf(),
            final(self).device() == old(self).device(),
            final(self).held() == Seq::<u8>::empty(),
            final(self).staged() == Seq::<u8>::empty(),
            final(self).capacity() == old(self).capacity(),
    {
        self.framer.reset();
        self.stage = Vec::new();
        self.stage_pos = 0;
        assert(self.staged() =~= Seq::<u8>::empty());
    }

    /// The device.
    pub fn serial(&self) -> (s: &S)
        ensures
            *s == self.device(),
    {
        &self.serial
    }

    /// The device, for reading and writing.
    pub fn serial_mut(&mut self) -> (s: &mut S)
        ensures
            *s == old(self).device(),
            final(self).device() == *final(s),
            final(self).held() == old(self).held(),
            final(self).staged() == old(self).staged(),
            final(self).capacity() == old(self).capacity(),
            final(self).wf() == old(self).wf(),
    {
        &mut self.serial
    }

    /// The largest L2 frame, in bytes, of this carrier.
    pub fn frame_capacity(&self) -> (n: usize)
        ensures
            n == self.capacity(),
    {
        self.frame_capacity
    }

    /// The bytes that put the frame `l2` on the wire, or `None` where it is empty, too long for
    /// the length field, or too long for the send buffer; such a frame is dropped.
    pub fn send_l2_frame(&self, l2: &[u8]) -> (wire: Option<Vec<u8>>)
        ensures
            wire is Some <==> 1 <= l2@.len() <= framer::MAX_L2_LEN && l2@.len() + 4 <= N,
            wire is Some ==> wire->0@ == framer::frame_of(l2@),
    {
        let mut buf = vstd::array::array_fill_for_copy_types::<u8, N>(0);
        match encode(l2, &mut buf) {
            Ok(n) => {
                let wire = bytes::to_vec(&buf[0..n]);
                assert(wire@ =~= framer::frame_of(l2@));
                Some(wire)
            },
            Err(e) => None,
        }
    }

    /// Encodes one L2 frame into `out` exactly as it would go on the wire, and returns the encoded
    /// length, or `None` if `out` is too small or the frame is unencodable.
    pub fn encode_l2_frame(&self, l2: &[u8], out: &mut [u8]) -> (r: Option<usize>)
        ensures
            final(out)@.len() == old(out)@.len(),
            r is Some <==> 1 <= l2@.len() <= framer::MAX_L2_LEN && l2@.len() + 4 <= old(out)@.len(),
            r is Some ==> r->0 == l2@.len() + 4 && final(out)@ == framer::frame_of(l2@) + old(
                out,
            )@.skip(r->0 as int),
            r is None ==> final(out)@ == old(out)@,
    {
        match encode(l2, out) {
            Ok(n) => Some(n),
            Err(e) => None,
        }
    }

    /// Pulls the next L2 frame out of what is staged into `out`, as much of it as fits, and
    /// returns the length written. With `None`, all that was staged has gone into the framer, and
    /// the next step is to read the device and [`refill`](Self::refill) the stage.
    pub fn recv_l2_frame(&mut self, out: &mut [u8]) -> (r: Option<usize>)
        requires
            old(self).wf(),
            N >= framer::STREAM_HEADER_LEN,
        ensures
            final(self).wf(),
            final(self).device() == old(self).device(),
            final(self).capacity() == old(self).capacity(),
            final(out)@.len() == old(out)@.len(),
            ({
                let p = next_of(old(self).held(), old(self).staged(), N as int);
                &&& final(self).held() == p.held
                &&& final(self).staged() == p.coming
                &&& (r is Some <==> p.frame is Some)
                &&& (r is Some ==> {
                    let n = vstd::math::min(p.frame->0.len() as int, old(out)@.len() as int);
                    r->0 == n && final(out)@ == p.frame->0.take(n) + old(out)@.skip(n)
                })
                &&& (r is None ==> final(out)@ == old(out)@ && final(self).staged().len() == 0)
            }),
    {
        if self.stage_pos < self.stage.len() {
            let ghost staged = self.staged();
            let run = &self.stage.as_slice()[self.stage_pos..self.stage.len()];
            assert(run@ =~= staged);
            let (got, consumed) = self.framer.feed_one(run);
            proof {
                framer::lemma_pull_agrees(old(self).held(), staged, N as int);
                assert(self.stage@.skip(self.stage_pos + consumed) =~= staged.skip(
                    consumed as int,
                ));
            }
            self.stage_pos += consumed;
            if let Some(f) = got {
                let n: usize = if f.len() < out.len() {
                    f.len()
                } else {
                    out.len()
                };
                bytes::copy_into(out, 0, &f.as_slice()[0..n]);
                assert(out@ =~= f@.take(n as int) + old(out)@.skip(n as int));
                return Some(n);
            }
        } else {
            assert(self.staged().len() == 0);
        }
        None
    }

    /// Stages the bytes of one read of the device. The stage has been used up before.
    pub fn refill(&mut self, chunk: &[u8])
        requires
            old(self).wf(),
            old(self).staged().len() == 0,
            chunk@.len() <= PULL_CHUNK,
        ensures
            final(self).wf(),
            final(self).device() == old(self).device(),
            final(self).capacity() == old(self).capacity(),
            final(self).held() == old(self).held(),
            final(self).staged() == chunk@,
    {
        self.stage = bytes::to_vec(chunk);
        self.stage_pos = 0;
        assert(self.staged() =~= chunk@);
    }
}

/// The bytes of the frames `frames`, one behind the other, on the wire.
pub open spec fn wire_of(frames: Seq<Seq<u8>>) -> Seq<u8>
    decreases frames.len(),
{
    if frames.len() == 0 {
        Seq::empty()
    } else {
        framer::frame_of(frames[0]) + wire_of(frames.skip(1))
    }
}

/// Frames written one behind the other are all decoded, in order, and nothing is left over.
pub proof fn lemma_wire_round_trip(frames: Seq<Seq<u8>>, cap: int)
    requires
        forall|i: int|
            0 <= i < frames.len() ==> 1 <= (#[trigger] frames[i]).len() <= framer::MAX_L2_LEN
                && frames[i].len() + 4 <= cap,
    ensures
        framer::decode_stream(wire_of(frames), cap) == (frames, Seq::<u8>::empty()),
    decreases frames.len(),
{
    if frames.len() == 0 {
        assert(framer::decode_stream(wire_of(frames), cap).0 =~= frames);
    } else {
        let rest = frames.skip(1);
        assert forall|i: int| 0 <= i < rest.len() implies 1 <= (#[trigger] rest[i]).len()
            <= framer::MAX_L2_LEN && rest[i].len() + 4 <= cap by {
            assert(rest[i] == frames[i + 1]);
        }
        lemma_wire_round_trip(rest, cap);
        framer::lemma_round_trip(frames[0], wire_of(rest), cap);
        assert(seq![frames[0]] + rest =~= frames);
    }
}

} // verus!
