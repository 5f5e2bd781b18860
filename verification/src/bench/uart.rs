//! The wired-link validator. One board drives a test sequence, the other echoes every packet.
//!
//! The driver warms the link up, then checks that a single-fragment packet and a multi-fragment
//! packet come back, that a frame with a flipped bit is dropped, and that the link works again
//! after it. The frame capacity is small, so that a small packet has to be fragmented.

use crate::bytes;
use crate::counter;
use crate::link::frag;
use crate::link::frag::MAX_PID;
use crate::link::framer;
use crate::link::framer::{StreamFramer, MAX_STREAM_FRAME};
use crate::link::link;
use crate::link::reasm;
use crate::link::reasm::{fragment, Reassembler};
use vstd::prelude::*;

verus! {

/// The largest L2 frame: header byte and chunk.
pub const FRAME_CAP: usize = 32;

/// The largest chunk.
pub const CHUNK_CAP: usize = 31;

/// The largest stream frame on the wire.
pub const MAX_WIRE_FRAME: usize = 36;

/// The largest packet.
pub const PKT_MAX: usize = 512;

/// The length of the multi-fragment packet.
pub const S2_LEN: usize = 50;

/// Warm-up attempts.
pub const WARM_TRIES: u32 = 150;

/// Empty passes to wait for an echo during warm-up.
pub const WARM_BUDGET: u32 = 360_000;

/// Empty passes to wait for an echo.
pub const RESP_BUDGET: u32 = 1_080_000;

/// Empty passes after which a dropped frame has surely produced no echo.
pub const CRC_BUDGET: u32 = 540_000;

/// The block is live.
pub const MAGIC: u32 = 0x4C32_4F42;

/// The stream frames that carry `packet`; none for a packet that needs too many fragments.
pub open spec fn wire_frames(packet: Seq<u8>, pid: int) -> Seq<Seq<u8>> {
    let l2 = link::packet_frames(packet, FRAME_CAP as int, pid);
    if packet.len() <= 16 * 31 {
        Seq::new(l2.len(), |i: int| framer::frame_of(l2[i]))
    } else {
        Seq::empty()
    }
}

/// The sending side: the id of the next packet.
pub struct Sender {
    pid: u8,
}

impl View for Sender {
    type V = int;

    closed spec fn view(&self) -> int {
        self.pid as int
    }
}

impl Sender {
    /// Ids are three bits wide.
    pub open spec fn wf(&self) -> bool {
        0 <= self@ <= MAX_PID
    }

    /// The first packet has id 0.
    pub fn new() -> (s: Self)
        ensures
            s.wf(),
            s@ == 0,
    {
        Sender { pid: 0 }
    }

    /// The stream frames of a packet, in order. The next packet takes the next id.
    pub fn send_packet(&mut self, packet: &[u8]) -> (frames: Vec<Vec<u8>>)
        requires
            old(self).wf(),
        ensures
            final(self).wf(),
            final(self)@ == (old(self)@ + 1) % 8,
            bytes::views(frames@) == wire_frames(packet@, old(self)@),
    {
        let pid: u8 = self.pid;
        self.pid = frag::next_pid(pid);
        let mut frames: Vec<Vec<u8>> = Vec::new();
        let ghost whole = wire_frames(packet@, pid as int);
        let frags = match fragment(packet, CHUNK_CAP, pid) {
            Ok(v) => v,
            Err(_) => {
                assert(bytes::views(frames@) =~= whole);
                return frames;
            },
        };
        let ghost want = reasm::fragments_of(packet@, 31, pid as int);
        let ghost l2s = link::packet_frames(packet@, 32, pid as int);
        assert(reasm::fragment_views(frags@) == want);
        assert(frags@.len() == want.len());
        let mut i: usize = 0;
        while i < frags.len()
            invariant
                i <= frags@.len(),
                want == reasm::fragments_of(packet@, 31, pid as int),
                l2s == link::packet_frames(packet@, 32, pid as int),
                whole == wire_frames(packet@, pid as int),
                packet@.len() <= 16 * 31,
                reasm::fragment_views(frags@) == want,
                frags@.len() == want.len(),
                bytes::views(frames@) =~= whole.take(i as int),
            decreases frags@.len() - i,
        {
            proof {
                assert(want[i as int] == (frags@[i as int].0, frags@[i as int].1@));
                reasm::lemma_headers_survive(packet@, 31, pid as int, i as int);
                reasm::lemma_chunk_fits(packet@, 31, pid as int, i as int);
            }
            let mut l2: Vec<u8> = Vec::new();
            l2.push(frags[i].0.encode());
            l2.extend_from_slice(frags[i].1.as_slice());
            assert(l2@ =~= l2s[i as int]);
            let mut wire = [0u8;MAX_WIRE_FRAME];
            if let Ok(n) = framer::encode(l2.as_slice(), &mut wire) {
                let ghost before = frames@;
                let frame = bytes::to_vec(&wire[0..n]);
                assert(frame@ =~= framer::frame_of(l2@));
                frames.push(frame);
                assert(bytes::views(frames@) =~= bytes::views(before).push(frame@));
            }
            i += 1;
        }
        assert(whole.take(frags@.len() as int) =~= whole);
        frames
    }
}

/// The L2 frame of the corrupted one before it is corrupted.
pub open spec fn victim() -> Seq<u8> {
    seq![0x00u8, 0xDE, 0xAD, 0xBE, 0xEF]
}

/// A frame of the right shape with one byte inverted.
pub fn corrupted_frame() -> (wire: Vec<u8>)
    ensures
        wire@ == framer::frame_of(victim()).update(4, !0xADu8),
{
    let l2: [u8; 5] = [0x00, 0xDE, 0xAD, 0xBE, 0xEF];
    assert(l2@ =~= victim());
    let mut buf = [0u8;MAX_WIRE_FRAME];
    let mut wire: Vec<u8> = Vec::new();
    if let Ok(n) = framer::encode(&l2, &mut buf) {
        wire = bytes::to_vec(&buf[0..n]);
        assert(wire@ =~= framer::frame_of(victim()));
        let b: u8 = wire[4];
        assert(b == 0xAD);
        wire.set(4, !b);
    }
    wire
}

/// The receiving side.
pub struct Receiver {
    framer: StreamFramer<MAX_STREAM_FRAME>,
    reasm: Reassembler<PKT_MAX>,
}

/// The state of the receiving side: the bytes not decided on, and the fragment set in progress.
pub struct Inbound {
    pub held: Seq<u8>,
    pub set: Option<reasm::Partial>,
}

impl View for Receiver {
    type V = Inbound;

    closed spec fn view(&self) -> Inbound {
        Inbound { held: self.framer@, set: self.reasm@ }
    }
}

/// The first packet that a chunk of bytes completes, and the state after it. Frames behind that
/// packet in the same chunk are passed over.
pub open spec fn drained(r: Inbound, chunk: Seq<u8>) -> (Option<Seq<u8>>, Inbound) {
    let d = framer::decode_stream(r.held + chunk, MAX_STREAM_FRAME as int);
    let p = link::poll(r.set, d.0, 255, PKT_MAX as int);
    (p.packet, Inbound { held: d.1, set: p.set })
}

/// No frame is longer than its length field can say.
proof fn lemma_frames_short(s: Seq<u8>, cap: int)
    ensures
        forall|i: int|
            0 <= i < framer::decode_stream(s, cap).0.len() ==> 1 <= (
            #[trigger] framer::decode_stream(s, cap).0[i]).len() <= 255,
    decreases s.len(),
{
    match framer::front(s, cap) {
        framer::Front::Wait => {
            assert(framer::decode_stream(s, cap).0.len() == 0);
        },
        framer::Front::Noise { .. } => {
            lemma_frames_short(s.skip(1), cap);
            assert(framer::decode_stream(s, cap) == framer::decode_stream(s.skip(1), cap));
        },
        framer::Front::Frame { len } => {
            let later = framer::decode_stream(s.skip(len + 4), cap).0;
            lemma_frames_short(s.skip(len + 4), cap);
            let all = framer::decode_stream(s, cap).0;
            assert(all == seq![s.subrange(2, len + 2)] + later);
            assert forall|i: int| 0 <= i < all.len() implies 1 <= (#[trigger] all[i]).len()
                <= 255 by {
                if i > 0 {
                    assert(all[i] == later[i - 1]);
                }
            }
        },
    }
}

impl Receiver {
    /// Nothing received yet.
    pub fn new() -> (r: Self)
        ensures
            r@ == (Inbound { held: Seq::empty(), set: None }),
    {
        Receiver { framer: StreamFramer::new(), reasm: Reassembler::new() }
    }

    /// Takes in a chunk of bytes and returns the packet that it completes, if it does.
    pub fn drain(&mut self, chunk: &[u8]) -> (packet: Option<Vec<u8>>)
        ensures
            final(self)@ == drained(old(self)@, chunk@).1,
            packet is Some <==> drained(old(self)@, chunk@).0 is Some,
            packet is Some ==> packet->0@ == drained(old(self)@, chunk@).0->0 && packet->0@.len()
                <= PKT_MAX,
    {
        let frames = self.framer.feed(chunk);
        let ghost all = bytes::views(frames@);
        proof {
            lemma_frames_short(old(self)@.held + chunk@, MAX_STREAM_FRAME as int);
            assert(all.skip(0) =~= all);
        }
        let ghost held = self.framer@;
        let mut i: usize = 0;
        while i < frames.len()
            invariant
                i <= frames@.len(),
                all == bytes::views(frames@),
                self.framer@ == held,
                forall|k: int| 0 <= k < all.len() ==> 1 <= (#[trigger] all[k]).len() <= 255,
                link::poll(self.reasm@, all.skip(i as int), 255, PKT_MAX as int) == link::poll(
                    old(self)@.set,
                    all,
                    255,
                    PKT_MAX as int,
                ),
                held == framer::decode_stream(old(self)@.held + chunk@, MAX_STREAM_FRAME as int).1,
                all == framer::decode_stream(old(self)@.held + chunk@, MAX_STREAM_FRAME as int).0,
            decreases frames@.len() - i,
        {
            let l2 = frames[i].as_slice();
            proof {
                assert(l2@ == all[i as int]);
                assert(all.skip(i as int)[0] == l2@);
                assert(l2@.take(l2@.len() as int) =~= l2@);
                assert(all.skip(i as int).skip(1) =~= all.skip(i + 1));
                assert(l2@.subrange(1, l2@.len() as int) =~= l2@.skip(1));
            }
            if let Some(pkt) = self.reasm.push(l2[0], &l2[1..l2.len()]) {
                return Some(bytes::to_vec(pkt));
            }
            i += 1;
        }
        None
    }
}

/// The warm-up packet.
pub open spec fn ping() -> Seq<u8> {
    seq![0xF0u8, 0x01, 0x02, 0x03]
}

/// The single-fragment packet.
pub open spec fn s1() -> Seq<u8> {
    seq![0xA1u8, 0x11, 0x22, 0x33, 0x44, 0x55, 0x66, 0x77]
}

/// The multi-fragment packet: byte `i` is `0xB0 ^ i`.
pub open spec fn s2() -> Seq<u8> {
    Seq::new(50, |i: int| 0xB0u8 ^ (i as u8))
}

/// The packet after the corrupted frame.
pub open spec fn rec() -> Seq<u8> {
    seq![0xC3u8, 0xAB, 0xCD, 0xEF]
}

/// Fills the front of `out` with the multi-fragment packet and returns its length.
pub fn build_s2(out: &mut [u8]) -> (n: usize)
    requires
        old(out)@.len() >= S2_LEN,
    ensures
        n == S2_LEN,
        final(out)@ == s2() + old(out)@.skip(S2_LEN as int),
{
    let mut i: usize = 0;
    while i < S2_LEN
        invariant
            i <= S2_LEN <= out@.len(),
            out@.len() == old(out)@.len(),
            forall|k: int| 0 <= k < i ==> out@[k] == s2()[k],
            forall|k: int| i <= k < out@.len() ==> out@[k] == old(out)@[k],
        decreases S2_LEN - i,
    {
        out[i] = 0xB0u8 ^ (i as u8);
        i += 1;
    }
    assert(out@ =~= s2() + old(out)@.skip(S2_LEN as int));
    S2_LEN
}

/// Where the driver is in its sequence.
#[derive(Debug, Clone, Copy, PartialEq, Eq, Structural)]
pub enum MasterPhase {
    Warm,
    Single,
    Multi,
    Corrupt,
    Recover,
    Finished,
}

/// The driver's part of the result block.
#[derive(Debug, Clone, Copy, PartialEq, Eq, Structural)]
pub struct Checks {
    pub warmed: bool,
    pub warm_tries: u8,
    /// The length of the echo, in a byte; 0 = none.
    pub s1_recv: u8,
    pub s1_match: bool,
    pub s2_recv: u8,
    pub s2_match: bool,
    pub crc_dropped: bool,
    pub crc_recovered: bool,
    pub pass: bool,
}

/// The state of the driver.
pub struct Sequence {
    pub phase: MasterPhase,
    pub checks: Checks,
}

/// What each phase puts on the wire, as packets with id `pid`.
pub open spec fn phase_frames(phase: MasterPhase, pid: int) -> Seq<Seq<u8>> {
    match phase {
        MasterPhase::Warm => wire_frames(ping(), pid),
        MasterPhase::Single => wire_frames(s1(), pid),
        MasterPhase::Multi => wire_frames(s2(), pid),
        MasterPhase::Corrupt => seq![framer::frame_of(victim()).update(4, !0xADu8)],
        MasterPhase::Recover => wire_frames(rec(), pid),
        MasterPhase::Finished => Seq::empty(),
    }
}

/// How long each phase waits.
pub open spec fn phase_budget(phase: MasterPhase) -> u32 {
    match phase {
        MasterPhase::Warm => WARM_BUDGET,
        MasterPhase::Corrupt => CRC_BUDGET,
        _ => RESP_BUDGET,
    }
}

/// The length of an echo, as the block holds it.
pub open spec fn recv_byte(echo: Option<Seq<u8>>) -> u8 {
    match echo {
        Some(e) => (e.len() % 256) as u8,
        None => 0,
    }
}

/// The sequence after an echo, or after the wait for one ran out. Warm-up repeats until its packet
/// comes back or the attempts are used up; the rest runs in order whatever comes back.
pub open spec fn judged(m: Sequence, echo: Option<Seq<u8>>) -> Sequence {
    let c = m.checks;
    match m.phase {
        MasterPhase::Warm => {
            let warmed = echo == Some(ping());
            let tries = (c.warm_tries + 1) as u8;
            Sequence {
                phase: if warmed || tries >= WARM_TRIES {
                    MasterPhase::Single
                } else {
                    MasterPhase::Warm
                },
                checks: Checks { warmed, warm_tries: tries, ..c },
            }
        },
        MasterPhase::Single => Sequence {
            phase: MasterPhase::Multi,
            checks: Checks { s1_recv: recv_byte(echo), s1_match: echo == Some(s1()), ..c },
        },
        MasterPhase::Multi => Sequence {
            phase: MasterPhase::Corrupt,
            checks: Checks { s2_recv: recv_byte(echo), s2_match: echo == Some(s2()), ..c },
        },
        MasterPhase::Corrupt => Sequence {
            phase: MasterPhase::Recover,
            checks: Checks { crc_dropped: echo is None, ..c },
        },
        MasterPhase::Recover => {
            let crc_recovered = echo == Some(rec());
            Sequence {
                phase: MasterPhase::Finished,
                checks: Checks {
                    crc_recovered,
                    pass: c.warmed && c.s1_match && c.s2_match && c.crc_dropped && crc_recovered,
                    ..c
                },
            }
        },
        MasterPhase::Finished => m,
    }
}

/// The driving board.
pub struct Master {
    sender: Sender,
    phase: MasterPhase,
    checks: Checks,
}

impl View for Master {
    type V = Sequence;

    closed spec fn view(&self) -> Sequence {
        Sequence { phase: self.phase, checks: self.checks }
    }
}

impl Master {
    /// The id of the next packet.
    pub closed spec fn pid(&self) -> int {
        self.sender@
    }

    /// Attempts are left while the warm-up goes on.
    pub closed spec fn wf(&self) -> bool {
        &&& self.sender.wf()
        &&& self.phase is Warm ==> self.checks.warm_tries < WARM_TRIES
    }

    /// The start of the sequence.
    pub fn new() -> (m: Self)
        ensures
            m.wf(),
            m.pid() == 0,
            m@ == (Sequence {
                phase: MasterPhase::Warm,
                checks: Checks {
                    warmed: false,
                    warm_tries: 0,
                    s1_recv: 0,
                    s1_match: false,
                    s2_recv: 0,
                    s2_match: false,
                    crc_dropped: false,
                    crc_recovered: false,
                    pass: false,
                },
            }),
    {
        Master {
            sender: Sender::new(),
            phase: MasterPhase::Warm,
            checks: Checks {
                warmed: false,
                warm_tries: 0,
                s1_recv: 0,
                s1_match: false,
                s2_recv: 0,
                s2_match: false,
                crc_dropped: false,
                crc_recovered: false,
                pass: false,
            },
        }
    }

    /// The outcome so far.
    pub fn checks(&self) -> (c: Checks)
        ensures
            c == self@.checks,
    {
        self.checks
    }

    /// Where the sequence is.
    pub fn phase(&self) -> (p: MasterPhase)
        ensures
            p == self@.phase,
    {
        self.phase
    }

    /// What to write now, and how many empty passes to wait for the echo. The corrupted frame takes
    /// no packet id.
    pub fn send(&mut self) -> (r: (Vec<Vec<u8>>, u32))
        requires
            old(self).wf(),
        ensures
            final(self).wf(),
            final(self)@ == old(self)@,
            final(self).pid() == if old(self)@.phase is Corrupt || old(self)@.phase is Finished {
                old(self).pid()
            } else {
                (old(self).pid() + 1) % 8
            },
            bytes::views(r.0@) == phase_frames(old(self)@.phase, old(self).pid()),
            r.1 == phase_budget(old(self)@.phase),
    {
        match self.phase {
            MasterPhase::Warm => {
                let p: [u8; 4] = [0xF0, 0x01, 0x02, 0x03];
                assert(p@ =~= ping());
                (self.sender.send_packet(&p), WARM_BUDGET)
            },
            MasterPhase::Single => {
                let p: [u8; 8] = [0xA1, 0x11, 0x22, 0x33, 0x44, 0x55, 0x66, 0x77];
                assert(p@ =~= s1());
                (self.sender.send_packet(&p), RESP_BUDGET)
            },
            MasterPhase::Multi => {
                let mut p = [0u8;S2_LEN];
                let _ = build_s2(&mut p);
                assert(p@ =~= s2());
                (self.sender.send_packet(&p), RESP_BUDGET)
            },
            MasterPhase::Corrupt => {
                let mut frames: Vec<Vec<u8>> = Vec::new();
                frames.push(corrupted_frame());
                assert(bytes::views(frames@) =~= phase_frames(MasterPhase::Corrupt, self.pid()));
                (frames, CRC_BUDGET)
            },
            MasterPhase::Recover => {
                let p: [u8; 4] = [0xC3, 0xAB, 0xCD, 0xEF];
                assert(p@ =~= rec());
                (self.sender.send_packet(&p), RESP_BUDGET)
            },
            MasterPhase::Finished => {
                let frames: Vec<Vec<u8>> = Vec::new();
                assert(bytes::views(frames@) =~= Seq::empty());
                (frames, RESP_BUDGET)
            },
        }
    }

    /// Takes the echo, or `None` where the wait ran out.
    pub fn receive(&mut self, echo: Option<Vec<u8>>)
        requires
            old(self).wf(),
        ensures
            final(self).wf(),
            final(self).pid() == old(self).pid(),
            final(self)@ == judged(
                old(self)@,
                match echo {
                    Some(e) => Some(e@),
                    None => None,
                },
            ),
    {
        match self.phase {
            MasterPhase::Warm => {
                let p: [u8; 4] = [0xF0, 0x01, 0x02, 0x03];
                assert(p@ =~= ping());
                let warmed = echoes(&echo, &p);
                self.checks.warmed = warmed;
                self.checks.warm_tries = self.checks.warm_tries + 1;
                if warmed || self.checks.warm_tries as u32 >= WARM_TRIES {
                    self.phase = MasterPhase::Single;
                }
            },
            MasterPhase::Single => {
                let p: [u8; 8] = [0xA1, 0x11, 0x22, 0x33, 0x44, 0x55, 0x66, 0x77];
                assert(p@ =~= s1());
                self.checks.s1_match = echoes(&echo, &p);
                self.checks.s1_recv = echo_len(&echo);
                self.phase = MasterPhase::Multi;
            },
            MasterPhase::Multi => {
                let mut p = [0u8;S2_LEN];
                let _ = build_s2(&mut p);
                assert(p@ =~= s2());
                self.checks.s2_match = echoes(&echo, &p);
                self.checks.s2_recv = echo_len(&echo);
                self.phase = MasterPhase::Corrupt;
            },
            MasterPhase::Corrupt => {
                self.checks.crc_dropped = echo.is_none();
                self.phase = MasterPhase::Recover;
            },
            MasterPhase::Recover => {
                let p: [u8; 4] = [0xC3, 0xAB, 0xCD, 0xEF];
                assert(p@ =~= rec());
                self.checks.crc_recovered = echoes(&echo, &p);
                self.checks.pass = self.checks.warmed && self.checks.s1_match
                    && self.checks.s2_match && self.checks.crc_dropped && self.checks.crc_recovered;
                self.phase = MasterPhase::Finished;
            },
            MasterPhase::Finished => {},
        }
    }
}

/// Whether the echo is `packet`.
fn echoes(echo: &Option<Vec<u8>>, packet: &[u8]) -> (b: bool)
    ensures
        b == (echo is Some && echo->0@ == packet@),
{
    match echo {
        Some(e) => bytes::same(e.as_slice(), packet),
        None => false,
    }
}

/// The length of the echo, in a byte.
fn echo_len(echo: &Option<Vec<u8>>) -> (n: u8)
    ensures
        n == recv_byte(
            match *echo {
                Some(e) => Some(e@),
                None => None,
            },
        ),
{
    match echo {
        Some(e) => (e.len() % 256) as u8,
        None => 0,
    }
}

/// A wait for a packet, in empty passes.
pub struct Wait {
    spins: u32,
    budget: u32,
}

impl View for Wait {
    type V = (u32, u32);

    /// The empty passes so far, and how many there may be.
    closed spec fn view(&self) -> (u32, u32) {
        (self.spins, self.budget)
    }
}

impl Wait {
    /// A wait of `budget` empty passes.
    pub fn new(budget: u32) -> (w: Self)
        ensures
            w@ == (0u32, budget),
    {
        Wait { spins: 0, budget }
    }

    /// One more empty pass. Returns whether the wait has run out: whether `budget` empty passes
    /// have gone by.
    pub fn spin(&mut self) -> (out: bool)
        requires
            old(self)@.0 < u32::MAX,
        ensures
            final(self)@ == ((old(self)@.0 + 1) as u32, old(self)@.1),
            out == (final(self)@.0 >= final(self)@.1),
    {
        self.spins = self.spins + 1;
        self.spins >= self.budget
    }
}

/// The state of the echoing board.
pub struct Echo {
    pub inbound: Inbound,
    pub pid: int,
    pub echo_count: u16,
    pub last_len: u8,
    pub alive: u16,
}

/// The echoing board after a pass over a chunk of bytes.
pub open spec fn echoed(s: Echo, chunk: Seq<u8>) -> Echo {
    let d = drained(s.inbound, chunk);
    let t = Echo { inbound: d.1, alive: counter::after16(s.alive), ..s };
    match d.0 {
        Some(p) => Echo {
            pid: (s.pid + 1) % 8,
            echo_count: counter::after16(s.echo_count),
            last_len: (p.len() % 256) as u8,
            ..t
        },
        None => t,
    }
}

/// The echoing board.
pub struct Slave {
    receiver: Receiver,
    sender: Sender,
    echo_count: u16,
    last_len: u8,
    alive: u16,
}

impl View for Slave {
    type V = Echo;

    closed spec fn view(&self) -> Echo {
        Echo {
            inbound: self.receiver@,
            pid: self.sender@,
            echo_count: self.echo_count,
            last_len: self.last_len,
            alive: self.alive,
        }
    }
}

impl Slave {
    /// Packet ids are three bits wide.
    pub open spec fn wf(&self) -> bool {
        0 <= self@.pid <= MAX_PID
    }

    /// Nothing echoed yet.
    pub fn new() -> (s: Self)
        ensures
            s.wf(),
            s@ == (Echo {
                inbound: Inbound { held: Seq::empty(), set: None },
                pid: 0,
                echo_count: 0,
                last_len: 0,
                alive: 0,
            }),
    {
        Slave {
            receiver: Receiver::new(),
            sender: Sender::new(),
            echo_count: 0,
            last_len: 0,
            alive: 0,
        }
    }

    /// Packets echoed.
    pub fn echo_count(&self) -> (n: u16)
        ensures
            n == self@.echo_count,
    {
        self.echo_count
    }

    /// The length of the last packet, in a byte.
    pub fn last_len(&self) -> (n: u8)
        ensures
            n == self@.last_len,
    {
        self.last_len
    }

    /// Passes.
    pub fn alive(&self) -> (n: u16)
        ensures
            n == self@.alive,
    {
        self.alive
    }

    /// One pass over the bytes that were there. Returns the frames that echo the packet they
    /// completed, if they did, and whether the heartbeat is due.
    pub fn pass(&mut self, chunk: &[u8]) -> (r: (Option<Vec<Vec<u8>>>, bool))
        requires
            old(self).wf(),
        ensures
            final(self).wf(),
            final(self)@ == echoed(old(self)@, chunk@),
            r.1 == (final(self)@.alive % 1024 == 0),
            r.0 is Some <==> drained(old(self)@.inbound, chunk@).0 is Some,
            r.0 is Some ==> bytes::views(r.0->0@) == wire_frames(
                drained(old(self)@.inbound, chunk@).0->0,
                old(self)@.pid,
            ),
    {
        self.alive = counter::inc16(self.alive);
        let beat = self.alive % 1024 == 0;
        match self.receiver.drain(chunk) {
            Some(p) => {
                let frames = self.sender.send_packet(p.as_slice());
                self.echo_count = counter::inc16(self.echo_count);
                self.last_len = (p.len() % 256) as u8;
                (Some(frames), beat)
            },
            None => (None, beat),
        }
    }
}

/// The bytes of several frames, one after the other.
pub open spec fn concat(frames: Seq<Seq<u8>>) -> Seq<u8>
    decreases frames.len(),
{
    if frames.len() == 0 {
        Seq::empty()
    } else {
        frames[0] + concat(frames.skip(1))
    }
}

proof fn lemma_stream_of_frames(l2s: Seq<Seq<u8>>)
    requires
        forall|i: int| 0 <= i < l2s.len() ==> 1 <= (#[trigger] l2s[i]).len() <= 255,
    ensures
        framer::decode_stream(
            concat(Seq::new(l2s.len(), |i: int| framer::frame_of(l2s[i]))),
            MAX_STREAM_FRAME as int,
        ) == (l2s, Seq::<u8>::empty()),
    decreases l2s.len(),
{
    let wire = Seq::new(l2s.len(), |i: int| framer::frame_of(l2s[i]));
    if l2s.len() == 0 {
        assert(l2s =~= Seq::empty());
    } else {
        let rest = l2s.skip(1);
        assert(wire.skip(1) =~= Seq::new(rest.len(), |i: int| framer::frame_of(rest[i])));
        assert forall|i: int| 0 <= i < rest.len() implies 1 <= (#[trigger] rest[i]).len()
            <= 255 by {
            assert(rest[i] == l2s[i + 1]);
        }
        lemma_stream_of_frames(rest);
        assert(1 <= l2s[0].len() <= 255);
        framer::lemma_round_trip(l2s[0], concat(wire.skip(1)), MAX_STREAM_FRAME as int);
        assert(seq![l2s[0]] + rest =~= l2s);
    }
}

/// The echo: a packet that arrives on a quiet link in one chunk comes back, under the next id.
pub proof fn lemma_packet_echoed(s: Echo, packet: Seq<u8>, pid: int)
    requires
        s.inbound.held.len() == 0,
        packet.len() <= 16 * 31,
        0 <= pid,
    ensures
        drained(s.inbound, concat(wire_frames(packet, pid))).0 == Some(packet),
        echoed(s, concat(wire_frames(packet, pid))).echo_count == counter::after16(s.echo_count),
        echoed(s, concat(wire_frames(packet, pid))).inbound == (Inbound {
            held: Seq::empty(),
            set: None,
        }),
{
    let l2s = link::packet_frames(packet, 32, pid);
    assert forall|i: int| 0 <= i < l2s.len() implies 1 <= (#[trigger] l2s[i]).len() <= 255 by {
        reasm::lemma_chunk_fits(packet, 31, pid, i);
    }
    lemma_stream_of_frames(l2s);
    let wire = concat(wire_frames(packet, pid));
    assert(s.inbound.held + wire =~= wire);
    link::lemma_end_to_end(s.inbound.set, packet, 32, pid, Seq::empty(), 255, PKT_MAX as int);
    assert(l2s + Seq::<Seq<u8>>::empty() =~= l2s);
}

/// The driver passes exactly the link that echoes every packet and drops the corrupted frame.
pub proof fn lemma_pass_is_all(m: Sequence, e1: Option<Seq<u8>>, e2: Option<Seq<u8>>, e3: Option<Seq<u8>>, e4: Option<Seq<u8>>)
    requires
        m.phase is Single,
    ensures
        ({
            let end = judged(judged(judged(judged(m, e1), e2), e3), e4);
            &&& end.phase is Finished
            &&& end.checks.pass == (m.checks.warmed && e1 == Some(s1()) && e2 == Some(s2())
                && e3 is None && e4 == Some(rec()))
        }),
{
}

/// The driver and an honest link agree: what it sends in a phase comes out of a quiet receiver as
/// the packet of that phase, and that packet is what the phase is satisfied with.
pub proof fn lemma_phase_is_satisfied_by_its_packet(m: Sequence, pid: int, set: Option<reasm::Partial>)
    requires
        0 <= pid,
        m.phase is Warm ==> m.checks.warm_tries < 150,
    ensures
        ({
            let quiet = Inbound { held: Seq::empty(), set };
            let echo = drained(quiet, concat(phase_frames(m.phase, pid))).0;
            let next = judged(m, echo);
            &&& m.phase is Warm ==> next.checks.warmed && next.phase is Single
            &&& m.phase is Single ==> next.checks.s1_match && next.checks.s1_recv == 8
            &&& m.phase is Multi ==> next.checks.s2_match && next.checks.s2_recv == 50
            &&& m.phase is Corrupt ==> echo is None && next.checks.crc_dropped
            &&& m.phase is Recover ==> next.checks.crc_recovered
        }),
{
    let quiet = Inbound { held: Seq::empty(), set };
    let s = Echo { inbound: quiet, pid: 0, echo_count: 0, last_len: 0, alive: 0 };
    lemma_packet_echoed(s, ping(), pid);
    lemma_packet_echoed(s, s1(), pid);
    lemma_packet_echoed(s, s2(), pid);
    lemma_packet_echoed(s, rec(), pid);
    if m.phase is Corrupt {
        let bad = framer::frame_of(victim()).update(4, !0xADu8);
        assert(!0xADu8 == 0x52) by (bit_vector);
        let frames = phase_frames(m.phase, pid);
        assert(frames.skip(1) =~= Seq::empty());
        assert(concat(frames.skip(1)) =~= Seq::<u8>::empty());
        assert(concat(frames) =~= bad);
        framer::lemma_corrupt_byte_dropped(victim(), 2, 0x52, Seq::empty(), 259);
        assert(bad + Seq::<u8>::empty() =~= bad);
        let rest = bad.skip(1);
        let front = rest.take(6);
        let end = rest.skip(6);
        assert(rest =~= front + end);
        assert(front =~= seq![5u8, 0x00, 0xDE, 0x52, 0xBE, 0xEF]);
        assert(!front.contains(0x5A));
        framer::lemma_garbage_skipped(front, end, 259);
        lemma_two_bytes_hold_no_frame(end);
        assert(quiet.held + bad =~= bad);
        assert(drained(quiet, bad).0 is None);
    }
}

/// Two bytes are no frame.
proof fn lemma_two_bytes_hold_no_frame(s: Seq<u8>)
    requires
        s.len() <= 2,
    ensures
        framer::decode_stream(s, 259).0.len() == 0,
    decreases s.len(),
{
    if s.len() > 0 {
        lemma_two_bytes_hold_no_frame(s.skip(1));
    }
}

/// How the driver goes on: the phases come in order, none is left out or done twice but the
/// warm-up, which repeats while its packet does not come back and attempts are left; an answer
/// other than the packet itself satisfies nothing, and nothing found before is changed.
pub proof fn lemma_phases_in_order(m: Sequence, echo: Option<Seq<u8>>)
    requires
        m.phase is Warm ==> m.checks.warm_tries < 150,
    ensures
        ({
            let n = judged(m, echo);
            let c = n.checks;
            let d = m.checks;
            &&& m.phase is Warm ==> c.warm_tries == d.warm_tries + 1 && (c.warmed <==> echo == Some(
                seq![0xF0u8, 1, 2, 3],
            ))
            &&& m.phase is Warm ==> n.phase == if c.warmed || d.warm_tries == 149 {
                MasterPhase::Single
            } else {
                MasterPhase::Warm
            }
            &&& m.phase is Single ==> n.phase is Multi && (c.s1_match <==> echo == Some(
                seq![0xA1u8, 0x11, 0x22, 0x33, 0x44, 0x55, 0x66, 0x77],
            ))
            &&& m.phase is Multi ==> n.phase is Corrupt && (c.s2_match <==> echo is Some
                && echo->0.len() == 50 && forall|i: int|
                0 <= i < 50 ==> #[trigger] echo->0[i] == 0xB0u8 ^ (i as u8))
            &&& m.phase is Corrupt ==> n.phase is Recover && (c.crc_dropped <==> echo is None)
            &&& m.phase is Recover ==> n.phase is Finished && (c.crc_recovered <==> echo == Some(
                seq![0xC3u8, 0xAB, 0xCD, 0xEF],
            ))
            &&& m.phase is Finished ==> n == m
            &&& !(m.phase is Warm) ==> c.warmed == d.warmed && c.warm_tries == d.warm_tries
            &&& !(m.phase is Single) ==> c.s1_match == d.s1_match && c.s1_recv == d.s1_recv
            &&& !(m.phase is Multi) ==> c.s2_match == d.s2_match && c.s2_recv == d.s2_recv
            &&& !(m.phase is Corrupt) ==> c.crc_dropped == d.crc_dropped
            &&& !(m.phase is Recover) ==> c.crc_recovered == d.crc_recovered && c.pass == d.pass
        }),
{    if echo is Some && echo->0.len() == 50 && forall|i: int|
        0 <= i < 50 ==> #[trigger] echo->0[i] == 0xB0u8 ^ (i as u8) {
        assert(echo->0 =~= s2());
    }
}

/// How long each phase waits: longest for a packet, less for the frame that must not come back,
/// least while warming up.
pub proof fn lemma_budgets(p: MasterPhase)
    ensures
        p is Warm ==> phase_budget(p) == 360_000,
        p is Corrupt ==> phase_budget(p) == 540_000,
        p is Single || p is Multi || p is Recover ==> phase_budget(p) == 1_080_000,
{
}

/// What the echoing board keeps of a pass: every pass is counted; a packet is counted too, its
/// length noted and its id used up; without one, nothing else changes.
pub proof fn lemma_echo_counts(s: Echo, chunk: Seq<u8>)
    ensures
        ({
            let n = echoed(s, chunk);
            let p = drained(s.inbound, chunk).0;
            &&& n.alive as int == (s.alive + 1) % 0x1_0000
            &&& p is Some ==> n.echo_count as int == (s.echo_count + 1) % 0x1_0000 && n.last_len
                as int == p->0.len() % 256 && n.pid == (s.pid + 1) % 8
            &&& p is None ==> n.echo_count == s.echo_count && n.last_len == s.last_len && n.pid
                == s.pid
        }),
{
}

/// Of two packets that arrive in one chunk the first is handed out; the frames of the second are
/// passed over, and nothing of them is left behind.
pub proof fn lemma_first_of_two(r: Inbound, a: Seq<u8>, i: int, b: Seq<u8>, j: int)
    requires
        r.held.len() == 0,
        a.len() <= 496,
        b.len() <= 496,
        0 <= i,
        0 <= j,
    ensures
        drained(r, concat(wire_frames(a, i) + wire_frames(b, j))) == (
            Some(a),
            (Inbound { held: Seq::empty(), set: None }),
        ),
{
    let first = link::packet_frames(a, 32, i);
    let second = link::packet_frames(b, 32, j);
    let all = first + second;
    assert forall|k: int| 0 <= k < all.len() implies 1 <= (#[trigger] all[k]).len() <= 255 by {
        if k < first.len() {
            reasm::lemma_chunk_fits(a, 31, i, k);
        } else {
            reasm::lemma_chunk_fits(b, 31, j, k - first.len());
        }
    }
    lemma_stream_of_frames(all);
    let wire = wire_frames(a, i) + wire_frames(b, j);
    assert(wire =~= Seq::new(all.len(), |k: int| framer::frame_of(all[k])));
    assert(r.held + concat(wire) =~= concat(wire));
    link::lemma_end_to_end(r.set, a, 32, i, second, 255, PKT_MAX as int);
}

} // verus!
