//! The addressed frame: layout, encode, and decode.
//!
//! Wire format (all multi-byte fields little-endian):
//!
//! | offset | field    | meaning                                        |
//! |--------|----------|------------------------------------------------|
//! | 0      | `SOF`    | start of frame, 0x5A                            |
//! | 1      | `ver`    | protocol version, 1                             |
//! | 2      | `opcode` | see [`Opcode`]                                  |
//! | 3      | `src`    | source node id                                  |
//! | 4      | `dst`    | destination node id (0xFF = broadcast)          |
//! | 5      | `len`    | payload length in bytes (0..=255)               |
//! | 6      | payload  | exactly `len` bytes                             |
//! | 6+len  | `crc`    | CRC-16/MODBUS over bytes 0..(6+len), LE         |

use crate::bounded::BoundedVec;
use crate::bytes;
use crate::link::crc16;
use crate::link::opcode;
use crate::link::opcode::Opcode;
use vstd::prelude::*;

verus! {

/// Start-of-frame marker.
pub const SOF: u8 = 0x5A;

/// Protocol version.
pub const PROTO_VER: u8 = 1;

/// Fixed header length: SOF, ver, opcode, src, dst, len.
pub const HEADER_LEN: usize = 6;

/// Trailing CRC length.
pub const CRC_LEN: usize = 2;

/// Maximum payload (the `len` field is a single byte).
pub const MAX_PAYLOAD: usize = 255;

/// Maximum total frame length on the wire.
pub const MAX_FRAME: usize = 263;

/// Broadcast destination address.
pub const BROADCAST: u8 = 0xFF;

/// The fixed 6-byte header, parsed.
#[derive(Debug, Clone, Copy, PartialEq, Eq, Structural)]
pub struct FrameHeader {
    pub ver: u8,
    pub opcode: Opcode,
    pub src: u8,
    pub dst: u8,
    pub len: u8,
}

/// A decoded frame: the header and the payload bytes.
#[derive(Debug, Clone, Copy, PartialEq, Eq)]
pub struct DecodedFrame<'a> {
    pub header: FrameHeader,
    pub payload: &'a [u8],
}

/// Reasons [`encode`] can fail.
#[derive(Debug, Clone, Copy, PartialEq, Eq, Structural)]
pub enum EncodeError {
    /// The payload is longer than [`MAX_PAYLOAD`].
    PayloadTooLong,
    /// The supplied `out` buffer is smaller than the encoded frame.
    OutTooSmall,
}

/// Reasons [`decode`] can fail.
#[derive(Debug, Clone, Copy, PartialEq, Eq, Structural)]
pub enum DecodeError {
    /// Byte 0 is not `SOF`.
    BadSof,
    /// `ver` is not [`PROTO_VER`].
    BadVersion,
    /// Fewer bytes than a header.
    TooShort,
    /// Fewer bytes than the declared `len` asks for.
    LenMismatch,
    /// The trailing CRC does not match the computed CRC.
    CrcMismatch,
}

/// The header and payload bytes of a frame: what its CRC covers. The length byte is that of the
/// payload, whatever the header says.
pub open spec fn covered(hdr: FrameHeader, payload: Seq<u8>) -> Seq<u8> {
    seq![SOF, hdr.ver, hdr.opcode.byte(), hdr.src, hdr.dst, payload.len() as u8] + payload
}

/// The frame on the wire.
pub open spec fn frame_bytes(hdr: FrameHeader, payload: Seq<u8>) -> Seq<u8> {
    covered(hdr, payload) + bytes::le16_bytes(crc16::crc16(covered(hdr, payload)) as int)
}

/// Encodes `hdr` and `payload` into `out`, with the CRC behind them. Returns the total length.
pub fn encode(hdr: &FrameHeader, payload: &[u8], out: &mut [u8]) -> (r: Result<usize, EncodeError>)
    ensures
        match r {
            Err(EncodeError::PayloadTooLong) => payload@.len() > MAX_PAYLOAD,
            Err(EncodeError::OutTooSmall) => payload@.len() <= MAX_PAYLOAD && old(out)@.len()
                < payload@.len() + 8,
            Ok(n) => payload@.len() <= MAX_PAYLOAD && n == payload@.len() + 8 && n <= old(
                out,
            )@.len(),
        },
        r is Err ==> final(out)@ == old(out)@,
        r is Ok ==> final(out)@ == frame_bytes(*hdr, payload@) + old(out)@.skip(r->Ok_0 as int),
{
    let len: usize = payload.len();
    if len > MAX_PAYLOAD {
        return Err(EncodeError::PayloadTooLong);
    }
    let total: usize = HEADER_LEN + len + CRC_LEN;
    if out.len() < total {
        return Err(EncodeError::OutTooSmall);
    }
    out[0] = SOF;
    out[1] = hdr.ver;
    out[2] = hdr.opcode.to_u8();
    out[3] = hdr.src;
    out[4] = hdr.dst;
    out[5] = len as u8;
    bytes::copy_into(out, HEADER_LEN, payload);
    let ghost body = out@;
    let crc: u16 = crc16::modbus(&out[0..HEADER_LEN + len]);
    assert(body.take(6 + len as int) =~= covered(*hdr, payload@));
    out[HEADER_LEN + len] = bytes::lo(crc);
    out[HEADER_LEN + len + 1] = bytes::hi(crc);
    assert(out@ =~= frame_bytes(*hdr, payload@) + old(out)@.skip(total as int));
    Ok(total)
}

/// What the bytes `b` amount to as a frame: its header, the payload being the `len` bytes behind
/// it, or the first thing wrong with them.
pub open spec fn parse(b: Seq<u8>) -> Result<FrameHeader, DecodeError> {
    if b.len() < 6 {
        Err(DecodeError::TooShort)
    } else if b[0] != SOF {
        Err(DecodeError::BadSof)
    } else if b[1] != PROTO_VER {
        Err(DecodeError::BadVersion)
    } else if b.len() < b[5] + 8 {
        Err(DecodeError::LenMismatch)
    } else if crc16::crc16(b.take(b[5] + 6)) != bytes::le16(b[b[5] + 6], b[b[5] + 7]) {
        Err(DecodeError::CrcMismatch)
    } else {
        Ok(
            FrameHeader {
                ver: b[1],
                opcode: opcode::opcode_of(b[2]),
                src: b[3],
                dst: b[4],
                len: b[5],
            },
        )
    }
}

/// Decodes a single frame from the front of `b`: checks SOF, version, that enough bytes are there
/// for the declared length, and the CRC. Bytes behind the frame are not looked at.
pub fn decode<'a>(b: &'a [u8]) -> (r: Result<DecodedFrame<'a>, DecodeError>)
    ensures
        r is Ok <==> parse(b@) is Ok,
        r is Err ==> r->Err_0 == parse(b@)->Err_0,
        r is Ok ==> r->Ok_0.header == parse(b@)->Ok_0 && r->Ok_0.payload@ == b@.subrange(
            6,
            b@[5] + 6,
        ),
{
    if b.len() < HEADER_LEN {
        return Err(DecodeError::TooShort);
    }
    if b[0] != SOF {
        return Err(DecodeError::BadSof);
    }
    if b[1] != PROTO_VER {
        return Err(DecodeError::BadVersion);
    }
    let len: usize = b[5] as usize;
    let total: usize = HEADER_LEN + len + CRC_LEN;
    if b.len() < total {
        return Err(DecodeError::LenMismatch);
    }
    let crc_calc: u16 = crc16::modbus(&b[0..HEADER_LEN + len]);
    let crc_wire: u16 = bytes::rd_u16(b, HEADER_LEN + len);
    assert(b@.subrange(0, len + 6) =~= b@.take(len + 6));
    if crc_calc != crc_wire {
        return Err(DecodeError::CrcMismatch);
    }
    let header = FrameHeader {
        ver: b[1],
        opcode: Opcode::from_u8(b[2]),
        src: b[3],
        dst: b[4],
        len: b[5],
    };
    Ok(DecodedFrame { header, payload: &b[HEADER_LEN..HEADER_LEN + len] })
}

/// Decoding what was encoded gives the header and the payload back, whatever follows the frame.
/// The version has to be the one spoken here, and the opcode one that its byte stands for; the
/// length field comes out as the length of the payload.
pub proof fn lemma_round_trip(hdr: FrameHeader, payload: Seq<u8>, t: Seq<u8>)
    requires
        payload.len() <= MAX_PAYLOAD,
        hdr.ver == PROTO_VER,
        opcode::opcode_of(hdr.opcode.byte()) == hdr.opcode,
    ensures
        parse(frame_bytes(hdr, payload) + t) == Ok::<FrameHeader, DecodeError>(
            FrameHeader { len: payload.len() as u8, ..hdr },
        ),
        (frame_bytes(hdr, payload) + t).subrange(6, 6 + payload.len() as int) == payload,
{
    let b = frame_bytes(hdr, payload) + t;
    assert(b.take(6 + payload.len() as int) =~= covered(hdr, payload));
    assert(b.subrange(6, 6 + payload.len() as int) =~= payload);
}

/// A frame with one byte of its payload changed does not decode.
pub proof fn lemma_corrupt_payload(hdr: FrameHeader, payload: Seq<u8>, i: int, v: u8, t: Seq<u8>)
    requires
        payload.len() <= MAX_PAYLOAD,
        hdr.ver == PROTO_VER,
        0 <= i < payload.len(),
        v != payload[i],
    ensures
        parse(frame_bytes(hdr, payload).update(i + 6, v) + t) == Err::<FrameHeader, DecodeError>(
            DecodeError::CrcMismatch,
        ),
{
    let b = frame_bytes(hdr, payload).update(i + 6, v) + t;
    let n = payload.len() as int;
    let bad = covered(hdr, payload).update(i + 6, v);
    assert(b.take(n + 6) =~= bad);
    crc16::lemma_single_byte_error(covered(hdr, payload), bad, i + 6);
    let crc = crc16::crc16(covered(hdr, payload)) as int;
    assert(b[n + 6] == (crc % 256) as u8);
    assert(b[n + 7] == (crc / 256) as u8);
}

/// What the bytes at the front of a stream of frames amount to.
pub enum Scan {
    /// Nothing to decide yet.
    Wait,
    /// The first byte starts no frame.
    Noise,
    /// A whole frame.
    Frame,
}

/// Judges the front of the stream `s`.
pub open spec fn scan(s: Seq<u8>) -> Scan {
    if s.len() == 0 {
        Scan::Wait
    } else if s[0] != SOF {
        Scan::Noise
    } else if s.len() == 1 {
        Scan::Wait
    } else if s[1] != PROTO_VER {
        Scan::Noise
    } else if s.len() < 6 || s.len() < s[5] + 8 {
        Scan::Wait
    } else if parse(s) is Ok {
        Scan::Frame
    } else {
        Scan::Noise
    }
}

/// The frames in the stream `s`, each as its header and payload, and the bytes that stay behind
/// for more to come.
pub open spec fn decode_frames(s: Seq<u8>) -> (Seq<(FrameHeader, Seq<u8>)>, Seq<u8>)
    decreases s.len(),
{
    match scan(s) {
        Scan::Wait => (Seq::empty(), s),
        Scan::Noise => decode_frames(s.skip(1)),
        Scan::Frame => {
            let later = decode_frames(s.skip(s[5] + 8));
            (seq![(parse(s)->Ok_0, s.subrange(6, s[5] + 6))] + later.0, later.1)
        },
    }
}

/// A frame taken out of a stream.
#[derive(Debug, Clone, PartialEq, Eq)]
pub struct OwnedFrame {
    pub header: FrameHeader,
    pub payload: Vec<u8>,
}

impl OwnedFrame {
    /// The same frame, with its payload borrowed.
    pub fn as_decoded(&self) -> (f: DecodedFrame<'_>)
        ensures
            f.header == self.header,
            f.payload@ == self.payload@,
    {
        DecodedFrame { header: self.header, payload: self.payload.as_slice() }
    }
}

/// The contents of a list of frames.
pub open spec fn frame_views(v: Seq<OwnedFrame>) -> Seq<(FrameHeader, Seq<u8>)> {
    Seq::new(v.len(), |i: int| (v[i].header, v[i].payload@))
}

/// A resyncing decoder of a stream of addressed frames: takes arbitrary chunks of bytes and hands
/// out every whole CRC-valid frame. A candidate that turns out bad loses its first byte alone.
pub struct FrameScanner {
    buf: BoundedVec<u8, MAX_FRAME>,
}

impl View for FrameScanner {
    type V = Seq<u8>;

    /// The bytes taken in and not yet decided on.
    closed spec fn view(&self) -> Seq<u8> {
        self.buf@
    }
}

impl FrameScanner {
    /// The bytes held are the start of a frame at most, so that there is room for one more.
    pub open spec fn wf(&self) -> bool {
        scan(self@) is Wait
    }

    /// A fresh scanner.
    pub fn new() -> (s: FrameScanner)
        ensures
            s.wf(),
            s@ == Seq::<u8>::empty(),
    {
        FrameScanner { buf: BoundedVec::new() }
    }

    /// Drops any partial frame.
    pub fn reset(&mut self)
        ensures
            final(self).wf(),
            final(self)@ == Seq::<u8>::empty(),
    {
        self.buf.clear();
    }

    /// Takes in a chunk of bytes and returns every frame that is now complete, in order.
    pub fn feed(&mut self, bytes: &[u8]) -> (frames: Vec<OwnedFrame>)
        requires
            old(self).wf(),
        ensures
            final(self).wf(),
            frame_views(frames@) == decode_frames(old(self)@ + bytes@).0,
            final(self)@ == decode_frames(old(self)@ + bytes@).1,
    {
        let ghost all = decode_frames(self@ + bytes@);
        let mut frames: Vec<OwnedFrame> = Vec::new();
        let mut i: usize = 0;
        assert(bytes@.skip(0) =~= bytes@);
        assert(frame_views(frames@) + all.0 =~= all.0);
        while i < bytes.len()
            invariant
                i <= bytes@.len(),
                self.wf(),
                all == decode_frames(old(self)@ + bytes@),
                all.0 == frame_views(frames@) + decode_frames(self@ + bytes@.skip(i as int)).0,
                all.1 == decode_frames(self@ + bytes@.skip(i as int)).1,
            decreases bytes@.len() - i,
        {
            let ghost before = self@;
            let _ = self.buf.push(bytes[i]);
            i += 1;
            proof {
                assert(before + bytes@.skip(i - 1) =~= self@ + bytes@.skip(i as int));
            }
            self.settle(&mut frames, Ghost(bytes@.skip(i as int)));
        }
        proof {
            assert(self@ + bytes@.skip(i as int) =~= self@);
            assert(frame_views(frames@) + Seq::<(FrameHeader, Seq<u8>)>::empty() =~= frame_views(
                frames@,
            ));
        }
        frames
    }

    /// Takes whole frames and noise off the front of the buffer until it waits for more. `rest`
    /// is what is still to come.
    fn settle(&mut self, frames: &mut Vec<OwnedFrame>, rest: Ghost<Seq<u8>>)
        ensures
            final(self).wf(),
            frame_views(final(frames)@) + decode_frames(final(self)@ + rest@).0 == frame_views(
                old(frames)@,
            ) + decode_frames(old(self)@ + rest@).0,
            decode_frames(final(self)@ + rest@).1 == decode_frames(old(self)@ + rest@).1,
    {
        let ghost want = frame_views(frames@) + decode_frames(self@ + rest@).0;
        loop
            invariant
                want == frame_views(old(frames)@) + decode_frames(old(self)@ + rest@).0,
                frame_views(frames@) + decode_frames(self@ + rest@).0 == want,
                decode_frames(self@ + rest@).1 == decode_frames(old(self)@ + rest@).1,
            decreases self@.len(),
        {
            let held = self.buf.as_slice();
            let n: usize = held.len();
            let ghost s = self@;
            if n == 0 {
                return;
            }
            if held[0] == SOF && n == 1 {
                return;
            }
            let candidate = held[0] == SOF && held[1] == PROTO_VER;
            if candidate && (n < HEADER_LEN || n < held[5] as usize + HEADER_LEN + CRC_LEN) {
                return;
            }
            if candidate {
                if let Ok(f) = decode(held) {
                    let total: usize = f.payload.len() + HEADER_LEN + CRC_LEN;
                    let frame = OwnedFrame { header: f.header, payload: bytes::to_vec(f.payload) };
                    proof {
                        lemma_scan_settled(s, rest@);
                        let later = decode_frames((s + rest@).skip(total as int));
                        assert((s + rest@).subrange(6, s[5] + 6) =~= s.subrange(6, s[5] + 6));
                        assert(s.skip(total as int) + rest@ =~= (s + rest@).skip(total as int));
                        assert(frame_views(frames@.push(frame)) + later.0 =~= frame_views(frames@)
                            + (seq![(frame.header, frame.payload@)] + later.0));
                    }
                    frames.push(frame);
                    self.buf.discard_front(total);
                    continue;
                }
            }
            proof {
                lemma_scan_settled(s, rest@);
                assert(s.skip(1) + rest@ =~= (s + rest@).skip(1));
            }
            self.buf.discard_front(1);
        }
    }
}

/// A front that is decided stays decided, whatever follows.
proof fn lemma_scan_settled(s: Seq<u8>, t: Seq<u8>)
    requires
        !(scan(s) is Wait),
    ensures
        scan(s + t) == scan(s),
        scan(s) is Frame ==> parse(s + t) == parse(s),
{
    if s.len() >= 6 && s.len() >= s[5] + 8 {
        assert((s + t).take(s[5] + 6) =~= s.take(s[5] + 6));
    }
}

/// Chunking does not matter: feeding `s` and then `t` gives the frames that feeding the two at
/// once does.
pub proof fn lemma_chunking(s: Seq<u8>, t: Seq<u8>)
    ensures
        decode_frames(s + t).0 == decode_frames(s).0 + decode_frames(decode_frames(s).1 + t).0,
        decode_frames(s + t).1 == decode_frames(decode_frames(s).1 + t).1,
    decreases s.len(),
{
    match scan(s) {
        Scan::Wait => {
            assert(decode_frames(s).0 + decode_frames(s + t).0 =~= decode_frames(s + t).0);
        },
        Scan::Noise => {
            lemma_scan_settled(s, t);
            lemma_chunking(s.skip(1), t);
            assert((s + t).skip(1) =~= s.skip(1) + t);
        },
        Scan::Frame => {
            lemma_scan_settled(s, t);
            let n = s[5] + 8;
            lemma_chunking(s.skip(n), t);
            assert((s + t).skip(n) =~= s.skip(n) + t);
            assert((s + t).subrange(6, s[5] + 6) =~= s.subrange(6, s[5] + 6));
            let one = seq![(parse(s)->Ok_0, s.subrange(6, s[5] + 6))];
            let mid = decode_frames(s.skip(n));
            let end = decode_frames(mid.1 + t);
            assert(one + (mid.0 + end.0) =~= (one + mid.0) + end.0);
        },
    }
}

/// A frame that was encoded comes out of the stream whole, and what follows it is decoded as if it
/// stood alone.
pub proof fn lemma_stream_round_trip(hdr: FrameHeader, payload: Seq<u8>, t: Seq<u8>)
    requires
        payload.len() <= MAX_PAYLOAD,
        hdr.ver == PROTO_VER,
        opcode::opcode_of(hdr.opcode.byte()) == hdr.opcode,
    ensures
        decode_frames(frame_bytes(hdr, payload) + t).0 == seq![
            (FrameHeader { len: payload.len() as u8, ..hdr }, payload),
        ] + decode_frames(t).0,
        decode_frames(frame_bytes(hdr, payload) + t).1 == decode_frames(t).1,
{
    lemma_round_trip(hdr, payload, t);
    let s = frame_bytes(hdr, payload) + t;
    assert(s.skip(s[5] + 8) =~= t);
}

/// Where everything stands in a frame: the marker, the header fields, the length of the payload,
/// the payload, and behind it the CRC of all that, low byte first.
pub proof fn lemma_layout(hdr: FrameHeader, payload: Seq<u8>)
    requires
        payload.len() <= MAX_PAYLOAD,
    ensures
        ({
            let w = frame_bytes(hdr, payload);
            let n = payload.len() as int;
            &&& w.len() == n + 8
            &&& w[0] == 0x5A && w[1] == hdr.ver && w[2] == hdr.opcode.byte()
            &&& w[3] == hdr.src && w[4] == hdr.dst && w[5] == n
            &&& forall|i: int| 0 <= i < n ==> #[trigger] w[i + 6] == payload[i]
            &&& w[n + 6] + 256 * w[n + 7] == crc16::crc16(w.take(n + 6))
        }),
{
    let w = frame_bytes(hdr, payload);
    let n = payload.len() as int;
    assert(w.take(n + 6) =~= covered(hdr, payload));
}

/// What makes bytes a frame, and what is said of bytes that are none: the first of the length of
/// the header, the marker, the version, the length of the whole, and the CRC that does not hold.
pub proof fn lemma_verdict(b: Seq<u8>)
    ensures
        ({
            let marked = b.len() >= 6 && b[0] == 0x5A;
            let spoken = marked && b[1] == 1;
            let whole = spoken && b.len() >= b[5] + 8;
            let sound = whole && b[b[5] + 6] + 256 * b[b[5] + 7] == crc16::crc16(
                b.take(b[5] + 6),
            );
            &&& parse(b) is Ok <==> sound
            &&& parse(b) matches Err(e) ==> {
                &&& e is TooShort <==> b.len() < 6
                &&& e is BadSof <==> b.len() >= 6 && !marked
                &&& e is BadVersion <==> marked && !spoken
                &&& e is LenMismatch <==> spoken && !whole
                &&& e is CrcMismatch <==> whole && !sound
            }
            &&& parse(b) matches Ok(h) ==> h.ver == 1 && h.opcode.byte() == b[2] && h.src == b[3]
                && h.dst == b[4] && h.len == b[5]
        }),
{
    if b.len() >= 6 {
        opcode::lemma_byte_round_trip(b[2]);
    }
}

/// Resynchronising costs one byte: where no frame starts at the front of the stream, the stream
/// without its first byte holds the same frames.
pub proof fn lemma_resync(s: Seq<u8>)
    requires
        s.len() > 0,
        s[0] != 0x5A || (s.len() >= 2 && s[1] != 1) || (s.len() >= 6 && s.len() >= s[5] + 8
            && s[s[5] + 6] + 256 * s[s[5] + 7] != crc16::crc16(s.take(s[5] + 6))),
    ensures
        decode_frames(s) == decode_frames(s.skip(1)),
{
}

/// Bytes without a marker among them, in front of a stream, change nothing of what is decoded.
pub proof fn lemma_garbage_skipped(garbage: Seq<u8>, s: Seq<u8>)
    requires
        !garbage.contains(SOF),
    ensures
        decode_frames(garbage + s) == decode_frames(s),
    decreases garbage.len(),
{
    if garbage.len() == 0 {
        assert(garbage + s =~= s);
    } else {
        assert(garbage.contains(garbage[0]));
        assert((garbage + s).skip(1) =~= garbage.skip(1) + s);
        assert forall|i: int| 0 <= i < garbage.skip(1).len() implies garbage.skip(1)[i] != SOF by {
            assert(garbage.contains(garbage[i + 1]));
        }
        lemma_garbage_skipped(garbage.skip(1), s);
    }
}

/// The start of a frame that is not all there is kept, whole, until the rest of it comes.
pub proof fn lemma_part_is_kept(hdr: FrameHeader, payload: Seq<u8>, n: int)
    requires
        payload.len() <= MAX_PAYLOAD,
        hdr.ver == PROTO_VER,
        0 <= n < payload.len() + 8,
    ensures
        decode_frames(frame_bytes(hdr, payload).take(n)) == (
            Seq::<(FrameHeader, Seq<u8>)>::empty(),
            frame_bytes(hdr, payload).take(n),
        ),
{
    lemma_layout(hdr, payload);
}

} // verus!
