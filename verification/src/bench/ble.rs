//! The wireless-link validator. The module bridges writes to its UART without keeping their
//! boundaries: it merges writes that follow each other closely, and splits others. So every frame
//! carries its length, and the receiver parses a byte stream: `[ len ][ frag-hdr ][ chunk ]`, `len`
//! counting the header and the chunk. Packets are echoed.
//!
//! Besides, the length of every burst between two idle gaps is recorded as it arrives: a burst longer
//! than one write shows that the module merged writes.

use crate::bounded::BoundedVec;
use crate::bytes;
use crate::counter;
use crate::link::frag;
use crate::link::frag::MAX_PID;
use crate::link::link;
use crate::link::reasm;
use crate::link::reasm::{fragment, Reassembler};
use vstd::prelude::*;

verus! {

/// The largest write: length byte, header byte, chunk.
pub const FRAME_CAP: usize = 20;

/// The largest chunk.
pub const CHUNK_CAP: usize = 18;

/// The largest packet that is reassembled.
pub const PKT_MAX: usize = 320;

/// The bytes that are held for parsing.
pub const BURST_MAX: usize = 128;

/// Bursts of this length or more share the last bucket.
pub const HIST_MAX: usize = 40;

/// The number of buckets.
pub const HIST_LEN: usize = 41;

/// The block is live.
pub const MAGIC: u32 = 0x4C33_4F42;

/// The frames of a packet, each with its length in front; none for a packet that needs too many
/// fragments.
pub open spec fn delimited(packet: Seq<u8>, pid: int) -> Seq<Seq<u8>> {
    let l2 = link::packet_frames(packet, 19, pid);
    if packet.len() <= 16 * 18 {
        Seq::new(l2.len(), |i: int| seq![l2[i].len() as u8] + l2[i])
    } else {
        Seq::empty()
    }
}

/// The frames of a packet with id `pid`, each with its length in front.
pub fn frame_packet(packet: &[u8], pid: u8) -> (frames: Vec<Vec<u8>>)
    requires
        pid <= MAX_PID,
    ensures
        bytes::views(frames@) == delimited(packet@, pid as int),
{
    let mut frames: Vec<Vec<u8>> = Vec::new();
    let ghost whole = delimited(packet@, pid as int);
    let frags = match fragment(packet, CHUNK_CAP, pid) {
        Ok(v) => v,
        Err(_) => {
            assert(bytes::views(frames@) =~= whole);
            return frames;
        },
    };
    let ghost want = reasm::fragments_of(packet@, 18, pid as int);
    let ghost l2s = link::packet_frames(packet@, 19, pid as int);
    assert(reasm::fragment_views(frags@) == want);
    assert(frags@.len() == want.len());
    let mut i: usize = 0;
    while i < frags.len()
        invariant
            i <= frags@.len(),
            want == reasm::fragments_of(packet@, 18, pid as int),
            l2s == link::packet_frames(packet@, 19, pid as int),
            whole == delimited(packet@, pid as int),
            packet@.len() <= 16 * 18,
            reasm::fragment_views(frags@) == want,
            frags@.len() == want.len(),
            bytes::views(frames@) =~= whole.take(i as int),
        decreases frags@.len() - i,
    {
        proof {
            assert(want[i as int] == (frags@[i as int].0, frags@[i as int].1@));
            reasm::lemma_headers_survive(packet@, 18, pid as int, i as int);
            reasm::lemma_chunk_fits(packet@, 18, pid as int, i as int);
        }
        let mut frame: Vec<u8> = Vec::new();
        frame.push(1 + frags[i].1.len() as u8);
        frame.push(frags[i].0.encode());
        frame.extend_from_slice(frags[i].1.as_slice());
        assert(frame@ =~= seq![l2s[i as int].len() as u8] + l2s[i as int]);
        let ghost before = frames@;
        frames.push(frame);
        assert(bytes::views(frames@) =~= bytes::views(before).push(frame@));
        i += 1;
    }
    assert(whole.take(frags@.len() as int) =~= whole);
    frames
}

/// The counters of the result block.
#[derive(Debug, Clone, Copy, PartialEq, Eq, Structural)]
pub struct BridgeStats {
    /// Bytes received.
    pub raw_bytes: u32,
    /// Idle gaps.
    pub idle_count: u16,
    /// The longest burst, at most 255.
    pub raw_max_burst: u8,
    /// Bursts longer than one write.
    pub raw_oversize: u16,
    /// The longest frame, with its length byte.
    pub max_frame: u8,
    /// Frames parsed.
    pub frames_parsed: u16,
    /// Packets reassembled.
    pub packets: u16,
    /// Packets echoed.
    pub echoes: u16,
    /// The length of the last packet, in a byte.
    pub last_len: u8,
    /// Passes.
    pub alive: u16,
}

/// All counters at zero.
pub open spec fn no_stats() -> BridgeStats {
    BridgeStats {
        raw_bytes: 0,
        idle_count: 0,
        raw_max_burst: 0,
        raw_oversize: 0,
        max_frame: 0,
        frames_parsed: 0,
        packets: 0,
        echoes: 0,
        last_len: 0,
        alive: 0,
    }
}

/// The state of the validator.
#[verifier::ext_equal]
pub struct Bridge {
    /// The bytes not parsed yet.
    pub stream: Seq<u8>,
    /// The fragment set in progress.
    pub set: Option<reasm::Partial>,
    /// The id of the next packet.
    pub pid: int,
    /// The bytes since the last idle gap.
    pub burst: nat,
    /// Bursts by length.
    pub hist: Seq<u16>,
    pub stats: BridgeStats,
}

/// The state after bytes came in: those that the stream has no room for are lost.
pub open spec fn taken(b: Bridge, chunk: Seq<u8>) -> Bridge {
    let all = b.stream + chunk;
    Bridge {
        stream: if all.len() <= BURST_MAX {
            all
        } else {
            all.take(BURST_MAX as int)
        },
        burst: b.burst + chunk.len(),
        stats: BridgeStats {
            raw_bytes: ((b.stats.raw_bytes + chunk.len()) % 0x1_0000_0000) as u32,
            alive: counter::after16(b.stats.alive),
            ..b.stats
        },
        ..b
    }
}

/// The bucket of a burst.
pub open spec fn bucket(len: nat) -> int {
    if len < HIST_MAX {
        len as int
    } else {
        HIST_MAX as int
    }
}

/// The state after an idle gap: a burst that was not empty is recorded.
pub open spec fn gapped(b: Bridge) -> Bridge {
    let s = BridgeStats { idle_count: counter::after16(b.stats.idle_count), ..b.stats };
    if b.burst == 0 {
        Bridge { stats: s, ..b }
    } else {
        let k = bucket(b.burst);
        let seen = vstd::math::min(b.burst as int, 255);
        Bridge {
            burst: 0,
            hist: b.hist.update(
                k,
                if b.hist[k] < u16::MAX {
                    (b.hist[k] + 1) as u16
                } else {
                    u16::MAX
                },
            ),
            stats: BridgeStats {
                raw_max_burst: if seen > s.raw_max_burst {
                    seen as u8
                } else {
                    s.raw_max_burst
                },
                raw_oversize: if b.burst > FRAME_CAP {
                    counter::after16(s.raw_oversize)
                } else {
                    s.raw_oversize
                },
                ..s
            },
            ..b
        }
    }
}

/// The state after the frame `l2` was parsed, and the bytes that it has written.
pub open spec fn framed(b: Bridge, l2: Seq<u8>) -> (Bridge, Seq<Seq<u8>>) {
    let step = reasm::reasm_step(b.set, frag::header_of(l2[0]), l2.skip(1), PKT_MAX as int);
    let s = BridgeStats {
        frames_parsed: counter::after16(b.stats.frames_parsed),
        max_frame: if 1 + l2.len() > b.stats.max_frame {
            (1 + l2.len()) as u8
        } else {
            b.stats.max_frame
        },
        ..b.stats
    };
    match step.1 {
        Some(p) => (
            Bridge {
                set: step.0,
                pid: (b.pid + 1) % 8,
                stats: BridgeStats {
                    packets: counter::after16(s.packets),
                    echoes: counter::after16(s.echoes),
                    last_len: (p.len() % 256) as u8,
                    ..s
                },
                ..b
            },
            delimited(p, b.pid),
        ),
        None => (Bridge { set: step.0, stats: s, ..b }, Seq::empty()),
    }
}

/// The state after every whole frame was taken off the front of the stream, and the frames that the
/// echoes put out. A length that no frame can have means that the stream is out of step: one byte is
/// dropped.
pub open spec fn peeled(b: Bridge) -> (Bridge, Seq<Seq<u8>>)
    decreases b.stream.len(),
{
    if b.stream.len() == 0 {
        (b, Seq::empty())
    } else {
        let len = b.stream[0] as int;
        if len == 0 || len > FRAME_CAP - 1 {
            peeled(Bridge { stream: b.stream.skip(1), ..b })
        } else if b.stream.len() < 1 + len {
            (b, Seq::empty())
        } else {
            let (c, out) = framed(b, b.stream.subrange(1, 1 + len));
            let (d, more) = peeled(Bridge { stream: b.stream.skip(1 + len), ..c });
            (d, out + more)
        }
    }
}

/// A pass: the bytes, the idle gap if there was one, the frames.
pub open spec fn passed(b: Bridge, chunk: Seq<u8>, idle: bool) -> (Bridge, Seq<Seq<u8>>) {
    let c = taken(b, chunk);
    peeled(
        if idle {
            gapped(c)
        } else {
            c
        },
    )
}

/// The validator.
pub struct BleBench {
    stream: BoundedVec<u8, BURST_MAX>,
    reasm: Reassembler<PKT_MAX>,
    pid: u8,
    burst: usize,
    hist: [u16; HIST_LEN],
    stats: BridgeStats,
}

impl View for BleBench {
    type V = Bridge;

    closed spec fn view(&self) -> Bridge {
        Bridge {
            stream: self.stream@,
            set: self.reasm@,
            pid: self.pid as int,
            burst: self.burst as nat,
            hist: self.hist@,
            stats: self.stats,
        }
    }
}

impl BleBench {
    /// The stream fits, there is a bucket for every burst, and ids are three bits wide.
    pub open spec fn wf(&self) -> bool {
        &&& self@.stream.len() <= BURST_MAX
        &&& self@.hist.len() == HIST_LEN
        &&& 0 <= self@.pid <= MAX_PID
    }

    /// Nothing received yet.
    pub fn new() -> (b: Self)
        ensures
            b.wf(),
            b@ == (Bridge {
                stream: Seq::empty(),
                set: None,
                pid: 0,
                burst: 0,
                hist: Seq::new(HIST_LEN as nat, |i: int| 0u16),
                stats: no_stats(),
            }),
    {
        let b = BleBench {
            stream: BoundedVec::new(),
            reasm: Reassembler::new(),
            pid: 0,
            burst: 0,
            hist: [0;HIST_LEN],
            stats: BridgeStats {
                raw_bytes: 0,
                idle_count: 0,
                raw_max_burst: 0,
                raw_oversize: 0,
                max_frame: 0,
                frames_parsed: 0,
                packets: 0,
                echoes: 0,
                last_len: 0,
                alive: 0,
            },
        };
        assert(b@.hist =~= Seq::new(HIST_LEN as nat, |i: int| 0u16));
        b
    }

    /// The counters.
    pub fn stats(&self) -> (s: BridgeStats)
        ensures
            s == self@.stats,
    {
        self.stats
    }

    /// The counters as the result block shows them: the passes are published every 1024 of them.
    pub fn published(&self) -> (s: BridgeStats)
        ensures
            s == (BridgeStats {
                alive: (self@.stats.alive - self@.stats.alive % 1024) as u16,
                ..self@.stats
            }),
    {
        BridgeStats { alive: self.stats.alive - self.stats.alive % 1024, ..self.stats }
    }

    /// The length of the burst so far.
    pub fn burst(&self) -> (n: usize)
        ensures
            n == self@.burst,
    {
        self.burst
    }

    /// Bursts by length; the last bucket holds all the longer ones.
    pub fn histogram(&self) -> (h: [u16; HIST_LEN])
        ensures
            h@ == self@.hist,
    {
        self.hist
    }

    /// One pass over the bytes that were there. `idle` says that the line has gone idle. Returns
    /// what to write.
    pub fn pass(&mut self, chunk: &[u8], idle: bool) -> (out: Vec<Vec<u8>>)
        requires
            old(self).wf(),
            old(self)@.burst + chunk@.len() <= usize::MAX,
        ensures
            final(self).wf(),
            final(self)@ == passed(old(self)@, chunk@, idle).0,
            bytes::views(out@) == passed(old(self)@, chunk@, idle).1,
    {
        self.take(chunk);
        if idle {
            self.gap();
        }
        self.peel()
    }

    fn take(&mut self, chunk: &[u8])
        requires
            old(self).wf(),
            old(self)@.burst + chunk@.len() <= usize::MAX,
        ensures
            final(self).wf(),
            final(self)@ == taken(old(self)@, chunk@),
    {
        self.stats.alive = counter::inc16(self.stats.alive);
        let n: usize = chunk.len();
        self.stats.raw_bytes = ((self.stats.raw_bytes as u64 + (n as u64 % 0x1_0000_0000))
            % 0x1_0000_0000) as u32;
        self.burst = self.burst + n;
        let room: usize = BURST_MAX - self.stream.len();
        let fits: usize = if n < room {
            n
        } else {
            room
        };
        let _ = self.stream.extend_from_slice(&chunk[0..fits]);
        proof {
            let b = old(self)@.stats.raw_bytes as int;
            vstd::arithmetic::div_mod::lemma_add_mod_noop(b, n as int, 0x1_0000_0000);
            assert(b % 0x1_0000_0000 == b);
            assert(self@.stream =~= taken(old(self)@, chunk@).stream);
            assert(self@ =~= taken(old(self)@, chunk@));
        }
    }

    fn gap(&mut self)
        requires
            old(self).wf(),
        ensures
            final(self).wf(),
            final(self)@ == gapped(old(self)@),
    {
        self.stats.idle_count = counter::inc16(self.stats.idle_count);
        if self.burst > 0 {
            let k: usize = if self.burst < HIST_MAX {
                self.burst
            } else {
                HIST_MAX
            };
            let seen: u16 = self.hist[k];
            if seen < u16::MAX {
                self.hist[k] = seen + 1;
            }
            let longest: u8 = if self.burst < 255 {
                self.burst as u8
            } else {
                255
            };
            if longest > self.stats.raw_max_burst {
                self.stats.raw_max_burst = longest;
            }
            if self.burst > FRAME_CAP {
                self.stats.raw_oversize = counter::inc16(self.stats.raw_oversize);
            }
            self.burst = 0;
        }
        assert(self@ =~= gapped(old(self)@));
    }

    fn peel(&mut self) -> (out: Vec<Vec<u8>>)
        requires
            old(self).wf(),
        ensures
            final(self).wf(),
            final(self)@ == peeled(old(self)@).0,
            bytes::views(out@) == peeled(old(self)@).1,
    {
        let ghost end = peeled(old(self)@);
        let mut out: Vec<Vec<u8>> = Vec::new();
        assert(bytes::views(out@) + end.1 =~= end.1);
        while self.stream.len() > 0
            invariant_except_break
                self.wf(),
                end.0 == peeled(self@).0,
                end.1 == bytes::views(out@) + peeled(self@).1,
            ensures
                self.wf(),
                self@ == end.0,
                bytes::views(out@) == end.1,
            decreases self@.stream.len(),
        {
            let ghost here = self@;
            let ghost done = out@;
            let len: usize = self.stream.as_slice()[0] as usize;
            if len == 0 || len > FRAME_CAP - 1 {
                self.stream.discard_front(1);
                assert(self@ =~= (Bridge { stream: here.stream.skip(1), ..here }));
                continue;
            }
            if self.stream.len() < 1 + len {
                assert(bytes::views(out@) + Seq::<Seq<u8>>::empty() =~= bytes::views(out@));
                break;
            }
            let mut echo = self.frame(len);
            let ghost sent = bytes::views(echo@);
            assert(sent == framed(here, here.stream.subrange(1, 1 + len)).1);
            out.append(&mut echo);
            assert(bytes::views(out@) =~= bytes::views(done) + sent);
            self.stream.discard_front(1 + len);
            assert(self@ =~= (Bridge {
                stream: here.stream.skip(1 + len),
                ..framed(here, here.stream.subrange(1, 1 + len)).0
            }));
            assert(bytes::views(out@) + peeled(self@).1 =~= bytes::views(done) + (sent + peeled(
                self@,
            ).1));
        }
        proof {
            if self@.stream.len() == 0 {
                assert(bytes::views(out@) + Seq::<Seq<u8>>::empty() =~= bytes::views(out@));
            }
        }
        out
    }

    /// Takes in the frame of `len` bytes behind the length byte at the front of the stream, and
    /// returns the frames that echo the packet it completes.
    fn frame(&mut self, len: usize) -> (echo: Vec<Vec<u8>>)
        requires
            old(self).wf(),
            1 <= len <= FRAME_CAP - 1,
            1 + len <= old(self)@.stream.len(),
        ensures
            final(self).wf(),
            final(self)@ == framed(old(self)@, old(self)@.stream.subrange(1, 1 + len)).0,
            bytes::views(echo@) == framed(old(self)@, old(self)@.stream.subrange(1, 1 + len)).1,
    {
        let ghost l2 = old(self)@.stream.subrange(1, 1 + len);
        self.stats.frames_parsed = counter::inc16(self.stats.frames_parsed);
        if (1 + len) as u8 > self.stats.max_frame {
            self.stats.max_frame = (1 + len) as u8;
        }
        let held = self.stream.as_slice();
        let hdr: u8 = held[1];
        let chunk = bytes::to_vec(&held[2..1 + len]);
        assert(chunk@ =~= l2.skip(1));
        assert(l2[0] == hdr);
        let mut echo: Vec<Vec<u8>> = Vec::new();
        let packet = match self.reasm.push(hdr, chunk.as_slice()) {
            Some(p) => Some(bytes::to_vec(p)),
            None => None,
        };
        if let Some(p) = packet {
            self.stats.packets = counter::inc16(self.stats.packets);
            self.stats.last_len = (p.len() % 256) as u8;
            echo = frame_packet(p.as_slice(), self.pid);
            self.pid = frag::next_pid(self.pid);
            self.stats.echoes = counter::inc16(self.stats.echoes);
        } else {
            assert(bytes::views(echo@) =~= Seq::empty());
        }
        assert(self@ =~= framed(old(self)@, l2).0);
        echo
    }
}

/// The delimiter splits what the module merged: whatever follows a whole frame in the stream, the
/// frame is parsed by itself, and the rest after it.
pub proof fn lemma_merged_frames_split(b: Bridge, l2: Seq<u8>, rest: Seq<u8>)
    requires
        1 <= l2.len() <= FRAME_CAP - 1,
        b.stream == seq![l2.len() as u8] + l2 + rest,
    ensures
        peeled(b) == ({
            let (c, out) = framed(b, l2);
            let (d, more) = peeled(Bridge { stream: rest, ..c });
            (d, out + more)
        }),
{
    assert(b.stream.subrange(1, 1 + l2.len() as int) =~= l2);
    assert(b.stream.skip(1 + l2.len() as int) =~= rest);
}

/// A frame that is not all there stays for later, and nothing is lost or put out.
pub proof fn lemma_split_frame_waits(b: Bridge, l2: Seq<u8>, n: int)
    requires
        1 <= l2.len() <= FRAME_CAP - 1,
        0 <= n <= l2.len(),
        b.stream == (seq![l2.len() as u8] + l2).take(n),
    ensures
        peeled(b) == (b, Seq::<Seq<u8>>::empty()),
{
    if n > 0 {
        assert(b.stream[0] == l2.len());
    }
}

/// What is kept of the bytes that came in: as many as there is room for, in order; all of them are
/// counted, in the burst and in the total, and so is the pass.
pub proof fn lemma_bytes_are_counted(b: Bridge, chunk: Seq<u8>)
    requires
        b.stream.len() <= 128,
    ensures
        ({
            let n = taken(b, chunk);
            &&& n.stream.len() == vstd::math::min(128, (b.stream.len() + chunk.len()) as int)
            &&& n.stream == (b.stream + chunk).take(n.stream.len() as int)
            &&& n.burst == b.burst + chunk.len()
            &&& n.stats.raw_bytes as int == (b.stats.raw_bytes + chunk.len()) % 0x1_0000_0000
            &&& n.stats.alive as int == (b.stats.alive + 1) % 0x1_0000
            &&& (BridgeStats { raw_bytes: b.stats.raw_bytes, alive: b.stats.alive, ..n.stats })
                == b.stats
            &&& n.set == b.set && n.pid == b.pid && n.hist == b.hist
        }),
{
    let all = b.stream + chunk;
    assert(all.take(all.len() as int) =~= all);
}

/// What an idle gap records: a burst under its length, the long ones together, the longest of all,
/// and whether it was longer than one write; the next burst starts from nothing. A gap without a
/// burst is counted and no more.
pub proof fn lemma_gap_records(b: Bridge, k: int)
    requires
        b.hist.len() == 41,
        0 <= k < 41,
    ensures
        ({
            let n = gapped(b);
            let here = if b.burst < 40 { b.burst as int } else { 40 };
            let more = b.burst > 0 && k == here && b.hist[k] < 0xFFFF;
            &&& n.burst == 0
            &&& n.hist.len() == 41
            &&& n.hist[k] as int == b.hist[k] + if more { 1int } else { 0 }
            &&& n.stats.idle_count as int == (b.stats.idle_count + 1) % 0x1_0000
            &&& n.stats.raw_max_burst as int == vstd::math::max(
                b.stats.raw_max_burst as int,
                vstd::math::min(b.burst as int, 255),
            )
            &&& n.stats.raw_oversize as int == if b.burst > 20 {
                (b.stats.raw_oversize + 1) % 0x1_0000
            } else {
                b.stats.raw_oversize as int
            }
            &&& n.stream == b.stream && n.set == b.set && n.pid == b.pid
        }),
{
}

/// What a frame counts: itself, its length if it is the longest, and the packet that it completes,
/// which is echoed under the next id; no frame touches the bursts.
pub proof fn lemma_frame_counts(b: Bridge, l2: Seq<u8>)
    requires
        1 <= l2.len() <= 19,
    ensures
        ({
            let (n, out) = framed(b, l2);
            let p = reasm::reasm_step(b.set, frag::header_of(l2[0]), l2.skip(1), 320).1;
            &&& n.stats.frames_parsed as int == (b.stats.frames_parsed + 1) % 0x1_0000
            &&& n.stats.max_frame as int == vstd::math::max(
                b.stats.max_frame as int,
                l2.len() as int + 1,
            )
            &&& p is Some ==> {
                &&& n.stats.packets as int == (b.stats.packets + 1) % 0x1_0000
                &&& n.stats.echoes as int == (b.stats.echoes + 1) % 0x1_0000
                &&& n.stats.last_len as int == p->0.len() % 256
                &&& n.pid == (b.pid + 1) % 8
                &&& out == delimited(p->0, b.pid)
            }
            &&& p is None ==> n.stats.packets == b.stats.packets && n.stats.echoes
                == b.stats.echoes && n.stats.last_len == b.stats.last_len && n.pid == b.pid
                && out.len() == 0
            &&& n.hist == b.hist && n.burst == b.burst && n.stream == b.stream
        }),
{
}

/// A byte that can be no length is dropped by itself.
pub proof fn lemma_impossible_length_dropped(b: Bridge)
    requires
        b.stream.len() > 0,
        b.stream[0] == 0 || b.stream[0] >= 20,
    ensures
        peeled(b) == peeled(Bridge { stream: b.stream.skip(1), ..b }),
{
}

/// A packet comes back: its frames, one behind the other in the stream, are all parsed, and put out
/// the same packet under the next id of this side, whatever set was in progress.
pub proof fn lemma_packet_comes_back(b: Bridge, packet: Seq<u8>, pid: int)
    requires
        packet.len() <= 288,
        0 <= pid,
        b.stream == crate::bench::uart::concat(delimited(packet, pid)),
    ensures
        ({
            let (c, out) = peeled(b);
            &&& out == delimited(packet, b.pid)
            &&& c.stream.len() == 0
            &&& c.set is None
            &&& c.pid == (b.pid + 1) % 8
            &&& c.stats.packets == counter::after16(b.stats.packets)
            &&& c.stats.echoes == counter::after16(b.stats.echoes)
            &&& c.stats.last_len as int == packet.len() % 256
            &&& c.hist == b.hist && c.burst == b.burst
        }),
{
    let frags = reasm::fragments_of(packet, 18, pid);
    assert(frags.take(0) =~= Seq::empty());
    assert(delimited(packet, pid).skip(0) =~= delimited(packet, pid));
    reasm::lemma_fragments_deliver(b.set, packet, 18, pid, 320);
    lemma_peel_from(b, b.set, packet, pid, 0);
}

proof fn lemma_peel_from(
    b: Bridge,
    set: Option<reasm::Partial>,
    packet: Seq<u8>,
    pid: int,
    k: int,
)
    requires
        packet.len() <= 288,
        0 <= pid,
        0 <= k < reasm::fragments_of(packet, 18, pid).len(),
        b.set == reasm::reasm_after(set, reasm::fragments_of(packet, 18, pid).take(k), 320),
        b.stream == crate::bench::uart::concat(delimited(packet, pid).skip(k)),
    ensures
        ({
            let (c, out) = peeled(b);
            &&& out == delimited(packet, b.pid)
            &&& c.stream.len() == 0
            &&& c.set is None
            &&& c.pid == (b.pid + 1) % 8
            &&& c.stats.packets == counter::after16(b.stats.packets)
            &&& c.stats.echoes == counter::after16(b.stats.echoes)
            &&& c.stats.last_len as int == packet.len() % 256
            &&& c.hist == b.hist && c.burst == b.burst
        }),
    decreases reasm::fragments_of(packet, 18, pid).len() - k,
{
    let frags = reasm::fragments_of(packet, 18, pid);
    let l2s = link::packet_frames(packet, 19, pid);
    let all = delimited(packet, pid);
    let n = frags.len() as int;
    let l2 = l2s[k];
    let rest = crate::bench::uart::concat(all.skip(k + 1));
    reasm::lemma_fragments_deliver(set, packet, 18, pid, 320);
    reasm::lemma_headers_survive(packet, 18, pid, k);
    reasm::lemma_chunk_fits(packet, 18, pid, k);
    assert(all.skip(k).skip(1) =~= all.skip(k + 1));
    assert(all.skip(k)[0] == seq![l2.len() as u8] + l2);
    assert(b.stream =~= seq![l2.len() as u8] + l2 + rest);
    assert(l2.skip(1) =~= frags[k].1);
    lemma_merged_frames_split(b, l2, rest);
    assert(frags.take(k + 1).drop_last() =~= frags.take(k));
    assert(frags.take(k + 1).last() == frags[k]);
    let (c, out) = framed(b, l2);
    let next = Bridge { stream: rest, ..c };
    if k < n - 1 {
        assert(reasm::delivered_at(set, frags, k, 320) is None);
        lemma_peel_from(next, set, packet, pid, k + 1);
        assert(out + peeled(next).1 =~= peeled(next).1);
    } else {
        assert(frags.take(n) =~= frags);
        assert(all.skip(n).len() == 0);
        assert(rest =~= Seq::<u8>::empty());
        assert(out + peeled(next).1 =~= out);
    }
}

} // verus!
