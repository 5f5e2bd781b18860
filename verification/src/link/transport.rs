//! The receive drain and frame send of a serial port, and the bring-up of the BLE module.
//!
//! The device is opaque here. Each machine below says what to do with it next (ask whether a byte
//! is ready, read at most so many bytes, write these bytes) and takes what came of it.
//!
//! - [`LinkPort`] moves bytes between a serial and a [`FrameScanner`]. The receive drain is
//!   bounded, so that one pass cannot starve the other tasks; line errors are counted.
//! - [`BleBringup`] is the AT command sequence of the BLE module and what opens its transparent
//!   data mode. Until then received bytes feed the reply check alone, never a decoder.

use crate::bounded::BoundedVec;
use crate::bytes;
use crate::link::frame;
use crate::link::frame::{EncodeError, FrameHeader, FrameScanner, OwnedFrame, MAX_FRAME};
use vstd::prelude::*;
use vstd::string::*;

verus! {

/// Most bytes drained from the serial in one pass.
pub const MAX_RX_PER_PASS: usize = 256;

/// Most bytes of one read.
pub const RX_CHUNK: usize = 64;

/// Outcome of one receive pass.
#[derive(Debug, Clone, Copy, PartialEq, Eq, Structural)]
pub struct RxStatus {
    /// Total bytes read from the serial this pass.
    pub bytes: usize,
    /// True if the drain stopped because it reached [`MAX_RX_PER_PASS`] rather than because the
    /// line went empty. More bytes may be waiting for the next pass.
    pub capped: bool,
    /// Line errors observed during this pass.
    pub errors: u32,
}

impl Default for RxStatus {
    fn default() -> (s: RxStatus)
        ensures
            s == (RxStatus { bytes: 0, capped: false, errors: 0 }),
    {
        RxStatus { bytes: 0, capped: false, errors: 0 }
    }
}

/// What a receive pass does next.
#[derive(Debug, Clone, Copy, PartialEq, Eq, Structural)]
pub enum RxStep {
    /// Ask the serial whether a byte is ready.
    AskReady,
    /// Read at most `want` bytes.
    Read { want: usize },
    /// The pass is over.
    Done,
}

/// What came of a step.
#[derive(Debug, Clone, PartialEq, Eq)]
pub enum RxEvent {
    /// The answer to [`RxStep::AskReady`].
    Ready(bool),
    /// The bytes that [`RxStep::Read`] brought.
    Bytes(Vec<u8>),
    /// The line reported an error.
    LineError,
}

/// A receive pass under way.
#[derive(Debug, Clone, Copy, PartialEq, Eq, Structural)]
pub struct RxPass {
    pub status: RxStatus,
    pub step: RxStep,
}

impl RxPass {
    /// A pass that is not over has room for a byte, and a read stays within it.
    pub open spec fn wf(self) -> bool {
        &&& self.status.bytes <= MAX_RX_PER_PASS
        &&& self.status.capped ==> self.step is Done && self.status.bytes == MAX_RX_PER_PASS
        &&& !(self.step is Done) ==> self.status.bytes < MAX_RX_PER_PASS
        &&& self.step matches RxStep::Read { want } ==> 0 < want <= RX_CHUNK && self.status.bytes
            + want <= MAX_RX_PER_PASS
    }

    /// A fresh pass.
    pub fn new() -> (p: RxPass)
        ensures
            p.wf(),
            p.step is AskReady,
            p.status == (RxStatus { bytes: 0, capped: false, errors: 0 }),
    {
        RxPass { status: RxStatus { bytes: 0, capped: false, errors: 0 }, step: RxStep::AskReady }
    }
}

/// The event answers the step.
pub open spec fn answers(step: RxStep, event: RxEvent) -> bool {
    match (step, event) {
        (RxStep::AskReady, RxEvent::Ready(_)) => true,
        (RxStep::Read { want }, RxEvent::Bytes(b)) => b@.len() <= want,
        (RxStep::AskReady, RxEvent::LineError) => true,
        (RxStep::Read { .. }, RxEvent::LineError) => true,
        _ => false,
    }
}

/// One more error, up to the largest count.
pub open spec fn one_more(n: u32) -> u32 {
    if n < u32::MAX {
        (n + 1) as u32
    } else {
        n
    }
}

/// The pass after an event: a ready line is read, a line that is not ends the pass, bytes are
/// counted and end the pass once the cap is reached, and an error or an empty read ends it.
pub open spec fn pass_after(p: RxPass, event: RxEvent) -> RxPass {
    match event {
        RxEvent::Ready(true) => RxPass {
            step: RxStep::Read {
                want: vstd::math::min(MAX_RX_PER_PASS - p.status.bytes, RX_CHUNK as int) as usize,
            },
            ..p
        },
        RxEvent::Ready(false) => RxPass { step: RxStep::Done, ..p },
        RxEvent::LineError => RxPass {
            step: RxStep::Done,
            status: RxStatus { errors: one_more(p.status.errors), ..p.status },
        },
        RxEvent::Bytes(b) => {
            let n = p.status.bytes + b@.len();
            if b@.len() == 0 {
                RxPass { step: RxStep::Done, ..p }
            } else if n >= MAX_RX_PER_PASS {
                RxPass {
                    step: RxStep::Done,
                    status: RxStatus { bytes: n as usize, capped: true, ..p.status },
                }
            } else {
                RxPass {
                    step: RxStep::AskReady,
                    status: RxStatus { bytes: n as usize, ..p.status },
                }
            }
        },
    }
}

/// What is left of a pass: the bytes that it may still take, and whether it has yet to ask for them.
pub open spec fn rest_of(p: RxPass) -> int {
    match p.step {
        RxStep::AskReady => 2 * (MAX_RX_PER_PASS - p.status.bytes) + 1,
        RxStep::Read { .. } => 2 * (MAX_RX_PER_PASS - p.status.bytes),
        RxStep::Done => 0,
    }
}

/// A pass comes to its end, however busy the line: every event leaves less of it, and a pass that is
/// over has taken no more than its share of bytes.
pub proof fn lemma_pass_ends(p: RxPass, event: RxEvent)
    requires
        p.wf(),
        answers(p.step, event),
    ensures
        pass_after(p, event).wf(),
        0 <= rest_of(pass_after(p, event)) < rest_of(p),
        pass_after(p, event).status.bytes <= MAX_RX_PER_PASS,
{
}

/// Why a send failed: encoding the frame, or the serial write.
#[derive(Debug, Clone, Copy, PartialEq, Eq)]
pub enum SendError<E> {
    /// The header or payload was rejected.
    Encode(EncodeError),
    /// The serial write failed. Carries the error of the serial.
    Io(E),
}

/// A serial paired with the frame decoder and a send buffer.
pub struct LinkPort<S> {
    serial: S,
    framer: FrameScanner,
    tx_buf: BoundedVec<u8, MAX_FRAME>,
    /// Line errors so far. A health signal, not fatal.
    line_errors: u32,
}

impl<S> LinkPort<S> {
    /// The device.
    pub closed spec fn device(&self) -> S {
        self.serial
    }

    /// The bytes taken into the decoder and not yet decided on.
    pub closed spec fn held(&self) -> Seq<u8> {
        self.framer@
    }

    /// Line errors so far.
    pub closed spec fn errors(&self) -> u32 {
        self.line_errors
    }

    /// The decoder waits for bytes.
    pub closed spec fn wf(&self) -> bool {
        self.framer.wf()
    }

    /// A fresh port.
    pub fn new(serial: S) -> (p: Self)
        ensures
            p.wf(),
            p.device() == serial,
            p.held() == Seq::<u8>::empty(),
            p.errors() == 0,
    {
        LinkPort {
            serial,
            framer: FrameScanner::new(),
            tx_buf: BoundedVec::new(),
            line_errors: 0,
        }
    }

    /// Line errors seen so far.
    pub fn line_errors(&self) -> (n: u32)
        ensures
            n == self.errors(),
    {
        self.line_errors
    }

    /// The device, for reading and writing.
    pub fn serial_mut(&mut self) -> (s: &mut S)
        ensures
            *s == old(self).device(),
            final(self).device() == *final(s),
            final(self).held() == old(self).held(),
            final(self).errors() == old(self).errors(),
            final(self).wf() == old(self).wf(),
    {
        &mut self.serial
    }

    /// Drops any partial frame.
    pub fn reset_framer(&mut self)
        ensures
            final(self).wf(),
            final(self).held() == Seq::<u8>::empty(),
            final(self).device() == old(self).device(),
            final(self).errors() == old(self).errors(),
    {
        self.framer.reset();
    }

    /// Takes what came of the last step of a receive pass, moves the pass on, and returns the
    /// frames that are now complete, in order.
    pub fn poll_rx(&mut self, pass: &mut RxPass, event: RxEvent) -> (frames: Vec<OwnedFrame>)
        requires
            old(self).wf(),
            old(pass).wf(),
            answers(old(pass).step, event),
        ensures
            final(self).wf(),
            final(self).device() == old(self).device(),
            final(pass).wf(),
            *final(pass) == pass_after(*old(pass), event),
            final(self).errors() == (if event is LineError {
                one_more(old(self).errors())
            } else {
                old(self).errors()
            }),
            ({
                let stream = if event is Bytes {
                    old(self).held() + event->Bytes_0@
                } else {
                    old(self).held()
                };
                &&& frame::frame_views(frames@) == frame::decode_frames(stream).0
                &&& final(self).held() == frame::decode_frames(stream).1
            }),
    {
        assert(frame::decode_frames(self.held()) == (
            Seq::<(FrameHeader, Seq<u8>)>::empty(),
            self.held(),
        ));
        let none: Vec<OwnedFrame> = Vec::new();
        assert(frame::frame_views(none@) =~= Seq::<(FrameHeader, Seq<u8>)>::empty());
        match event {
            RxEvent::Ready(true) => {
                let remaining: usize = MAX_RX_PER_PASS - pass.status.bytes;
                let want: usize = if remaining < RX_CHUNK {
                    remaining
                } else {
                    RX_CHUNK
                };
                pass.step = RxStep::Read { want };
                none
            },
            RxEvent::Ready(false) => {
                pass.step = RxStep::Done;
                none
            },
            RxEvent::LineError => {
                self.line_errors = self.line_errors.saturating_add(1);
                pass.status.errors = pass.status.errors.saturating_add(1);
                pass.step = RxStep::Done;
                none
            },
            RxEvent::Bytes(b) => {
                let n: usize = b.len();
                if n == 0 {
                    assert(old(self).held() + b@ =~= old(self).held());
                    pass.step = RxStep::Done;
                    return none;
                }
                pass.status.bytes = pass.status.bytes + n;
                if pass.status.bytes >= MAX_RX_PER_PASS {
                    pass.status.capped = true;
                    pass.step = RxStep::Done;
                } else {
                    pass.step = RxStep::AskReady;
                }
                self.framer.feed(b.as_slice())
            },
        }
    }

    /// Encodes `hdr` and `payload` into the send buffer and returns the whole frame, to be written
    /// to the serial in one go.
    pub fn send_frame(&mut self, hdr: &FrameHeader, payload: &[u8]) -> (r: Result<
        &[u8],
        EncodeError,
    >)
        requires
            old(self).wf(),
        ensures
            final(self).wf(),
            final(self).device() == old(self).device(),
            final(self).held() == old(self).held(),
            final(self).errors() == old(self).errors(),
            payload@.len() <= frame::MAX_PAYLOAD ==> r is Ok && r->Ok_0@ == frame::frame_bytes(
                *hdr,
                payload@,
            ),
            payload@.len() > frame::MAX_PAYLOAD ==> r is Err && r->Err_0
                == EncodeError::PayloadTooLong,
    {
        let mut scratch = vstd::array::array_fill_for_copy_types::<u8, MAX_FRAME>(0);
        let n: usize = match frame::encode(hdr, payload, &mut scratch) {
            Ok(n) => n,
            Err(e) => {
                return Err(e);
            },
        };
        self.tx_buf.clear();
        let _ = self.tx_buf.extend_from_slice(&scratch[0..n]);
        assert(self.tx_buf@ =~= frame::frame_bytes(*hdr, payload@));
        Ok(self.tx_buf.as_slice())
    }
}

/// The result of a send, from what came of encoding the frame and of writing it: the length of
/// the frame, or the first thing that went wrong.
pub fn send_result<E>(encoded: Result<usize, EncodeError>, written: Result<(), E>) -> (r: Result<
    usize,
    SendError<E>,
>)
    ensures
        r == (match encoded {
            Err(e) => Err::<usize, SendError<E>>(SendError::Encode(e)),
            Ok(n) => match written {
                Err(e) => Err(SendError::Io(e)),
                Ok(()) => Ok(n),
            },
        }),
{
    match encoded {
        Err(e) => Err(SendError::Encode(e)),
        Ok(n) => match written {
            Err(e) => Err(SendError::Io(e)),
            Ok(()) => Ok(n),
        },
    }
}

/// Advertised BLE device name where none is given.
pub const DEFAULT_DEVICE_NAME: &'static str = "Hoverboard";

/// Longest device name, in bytes; a longer one is cut.
pub const MAX_DEVICE_NAME: usize = 32;

/// Room for the longest AT command: `AT+NAME=`, the name, and the line end.
pub const AT_TX_CAP: usize = 42;

/// Length of the reply that moves the bring-up on.
pub const AT_LINE_CAP: usize = 7;

/// The last `n` bytes of `s`.
pub open spec fn tail(s: Seq<u8>, n: int) -> Seq<u8> {
    if s.len() <= n {
        s
    } else {
        s.skip(s.len() - n)
    }
}

/// The command that state `state` sends, if the reply `line` is the last to have come in. State 0
/// repeats its probe until the reply to it is there.
pub open spec fn command(state: int, line: Seq<u8>, name: Seq<u8>) -> Seq<u8> {
    if state == 0 && line != "AT+OK\r\n".spec_bytes() {
        "AT\r\n".spec_bytes()
    } else if state == 1 {
        "AT+NAME=".spec_bytes() + name + "\r\n".spec_bytes()
    } else if state == 2 {
        "AT+CONINTERVAL=16\r\n".spec_bytes()
    } else if state == 3 {
        "AT+ADVINTERVAL=32\r\n".spec_bytes()
    } else if state == 4 {
        "AT+SET=1\r\n".spec_bytes()
    } else if state == 5 {
        "AT+MODE=DATA\r\n".spec_bytes()
    } else {
        Seq::empty()
    }
}

/// The state after a step; `replied` says that the reply to the probe is the last to have come in.
pub open spec fn next_state(state: int, replied: bool) -> int {
    if state == 6 || (state == 0 && !replied) {
        state
    } else {
        state + 1
    }
}

/// The state after `n` steps.
pub open spec fn state_after(state: int, replied: bool, n: nat) -> int
    decreases n,
{
    if n == 0 {
        state
    } else {
        next_state(state_after(state, replied, (n - 1) as nat), replied)
    }
}

/// The bring-up waits for the module and then runs through: without the reply to the probe it stays
/// at the probe, with it the last state is reached after six steps and kept.
pub proof fn lemma_bring_up(n: nat)
    ensures
        state_after(0, false, n) == 0,
        state_after(0, true, n) == vstd::math::min(n as int, 6),
    decreases n,
{
    if n > 0 {
        lemma_bring_up((n - 1) as nat);
    }
}

/// The AT bring-up of the BLE module, and what opens its transparent data mode. A slow periodic
/// task steps it, so that each reply arrives before the next step.
///
/// | State | Action | Next |
/// |-------|--------|------|
/// | 0 | send `AT`; go on only when the last line is exactly `AT+OK` | 1 if matched, else 0 |
/// | 1 | send `AT+NAME=<device_name>` | 2 |
/// | 2 | send `AT+CONINTERVAL=16` | 3 |
/// | 3 | send `AT+ADVINTERVAL=32` | 4 |
/// | 4 | send `AT+SET=1` | 5 |
/// | 5 | send `AT+MODE=DATA` | 6 |
/// | 6 | open the data-mode gate, send nothing | 6 |
pub struct BleBringup<S> {
    serial: S,
    state: u8,
    data_mode: bool,
    device_name: BoundedVec<u8, MAX_DEVICE_NAME>,
    /// The bytes received last, as many as the reply has.
    line: BoundedVec<u8, AT_LINE_CAP>,
}

impl<S> BleBringup<S> {
    /// The device.
    pub closed spec fn device(&self) -> S {
        self.serial
    }

    /// The state index.
    pub closed spec fn at_state(&self) -> int {
        self.state as int
    }

    /// Whether the data-mode gate is open.
    pub closed spec fn data(&self) -> bool {
        self.data_mode
    }

    /// The advertised name.
    pub closed spec fn name(&self) -> Seq<u8> {
        self.device_name@
    }

    /// The bytes received last.
    pub closed spec fn last_line(&self) -> Seq<u8> {
        self.line@
    }

    /// The states run to 6, data mode opens in the last one alone, and the name and the line fit
    /// their buffers.
    pub open spec fn wf(&self) -> bool {
        &&& 0 <= self.at_state() <= 6
        &&& self.data() ==> self.at_state() == 6
        &&& self.name().len() <= MAX_DEVICE_NAME
        &&& self.last_line().len() <= 7
    }

    /// Bring-up under the default device name.
    pub fn new(serial: S) -> (b: Self)
        ensures
            b.wf(),
            b.device() == serial,
            b.at_state() == 0,
            !b.data(),
            b.name() == "Hoverboard".spec_bytes(),
            b.last_line() == Seq::<u8>::empty(),
    {
        proof {
            reveal_strlit("Hoverboard");
            lemma_ascii("Hoverboard");
        }
        let b = Self::with_device_name(serial, DEFAULT_DEVICE_NAME);
        assert(b.name() =~= "Hoverboard".spec_bytes());
        b
    }

    /// Bring-up under `device_name`, cut to [`MAX_DEVICE_NAME`] bytes.
    pub fn with_device_name(serial: S, device_name: &str) -> (b: Self)
        ensures
            b.wf(),
            b.device() == serial,
            b.at_state() == 0,
            !b.data(),
            b.name() == device_name.spec_bytes().take(
                vstd::math::min(device_name.spec_bytes().len() as int, MAX_DEVICE_NAME as int),
            ),
            b.last_line() == Seq::<u8>::empty(),
    {
        let all = device_name.as_bytes();
        let n: usize = if all.len() < MAX_DEVICE_NAME {
            all.len()
        } else {
            MAX_DEVICE_NAME
        };
        let mut name: BoundedVec<u8, MAX_DEVICE_NAME> = BoundedVec::new();
        let _ = name.extend_from_slice(&all[0..n]);
        assert(name@ =~= all@.take(n as int));
        BleBringup { serial, state: 0, data_mode: false, device_name: name, line: BoundedVec::new() }
    }

    /// True once the module has been switched into transparent data mode.
    pub fn is_data_mode(&self) -> (b: bool)
        ensures
            b == self.data(),
    {
        self.data_mode
    }

    /// Current state index (0..=6).
    pub fn state(&self) -> (s: u8)
        ensures
            s == self.at_state(),
    {
        self.state
    }

    /// The device, for reading and writing.
    pub fn serial_mut(&mut self) -> (s: &mut S)
        ensures
            *s == old(self).device(),
            final(self).device() == *final(s),
            final(self).at_state() == old(self).at_state(),
            final(self).data() == old(self).data(),
            final(self).name() == old(self).name(),
            final(self).last_line() == old(self).last_line(),
    {
        &mut self.serial
    }

    /// Feeds received bytes into the reply check, which keeps the last few of them. Does nothing
    /// once in data mode.
    pub fn pump_rx(&mut self, bytes: &[u8])
        requires
            old(self).wf(),
        ensures
            final(self).wf(),
            final(self).device() == old(self).device(),
            final(self).at_state() == old(self).at_state(),
            final(self).data() == old(self).data(),
            final(self).name() == old(self).name(),
            final(self).last_line() == (if old(self).data() {
                old(self).last_line()
            } else {
                tail(old(self).last_line() + bytes@, 7)
            }),
    {
        if self.data_mode {
            return;
        }
        let ghost start = self.line@;
        let mut i: usize = 0;
        assert(start + bytes@.take(0) =~= start);
        while i < bytes.len()
            invariant
                i <= bytes@.len(),
                start.len() <= 7,
                self.line@ == tail(start + bytes@.take(i as int), 7),
                self.serial == old(self).serial,
                self.state == old(self).state,
                self.data_mode == old(self).data_mode,
                self.device_name == old(self).device_name,
            decreases bytes@.len() - i,
        {
            if self.line.len() == AT_LINE_CAP {
                let _ = self.line.remove(0);
            }
            let _ = self.line.push(bytes[i]);
            proof {
                assert(start + bytes@.take(i + 1) =~= (start + bytes@.take(i as int)).push(
                    bytes@[i as int],
                ));
                assert(self.line@ =~= tail(start + bytes@.take(i + 1), 7));
            }
            i += 1;
        }
        assert(bytes@.take(i as int) =~= bytes@);
    }

    /// True if the bytes received last are exactly the reply to the probe.
    fn line_is_at_ok(&self) -> (b: bool)
        ensures
            b == (self.last_line() == "AT+OK\r\n".spec_bytes()),
    {
        bytes::same(self.line.as_slice(), "AT+OK\r\n".as_bytes())
    }

    /// Moves the bring-up on by at most one state. Returns the state after the step and the bytes
    /// to write to the module, which may be none.
    pub fn step(&mut self) -> (r: (u8, BoundedVec<u8, AT_TX_CAP>))
        requires
            old(self).wf(),
        ensures
            final(self).wf(),
            final(self).device() == old(self).device(),
            final(self).name() == old(self).name(),
            final(self).last_line() == old(self).last_line(),
            r.0 == final(self).at_state(),
            r.1@ == command(old(self).at_state(), old(self).last_line(), old(self).name()),
            final(self).at_state() == next_state(
                old(self).at_state(),
                old(self).last_line() == "AT+OK\r\n".spec_bytes(),
            ),
            final(self).data() == (old(self).at_state() == 6),
    {
        let mut cmd: BoundedVec<u8, AT_TX_CAP> = BoundedVec::new();
        proof {
            lemma_literals();
        }
        match self.state {
            0 => {
                if self.line_is_at_ok() {
                    self.state = 1;
                } else {
                    let _ = cmd.extend_from_slice("AT\r\n".as_bytes());
                }
            },
            1 => {
                let _ = cmd.extend_from_slice("AT+NAME=".as_bytes());
                let _ = cmd.extend_from_slice(self.device_name.as_slice());
                let _ = cmd.extend_from_slice("\r\n".as_bytes());
                self.state = 2;
            },
            2 => {
                let _ = cmd.extend_from_slice("AT+CONINTERVAL=16\r\n".as_bytes());
                self.state = 3;
            },
            3 => {
                let _ = cmd.extend_from_slice("AT+ADVINTERVAL=32\r\n".as_bytes());
                self.state = 4;
            },
            4 => {
                let _ = cmd.extend_from_slice("AT+SET=1\r\n".as_bytes());
                self.state = 5;
            },
            5 => {
                let _ = cmd.extend_from_slice("AT+MODE=DATA\r\n".as_bytes());
                self.state = 6;
            },
            _ => {
                self.state = 6;
                self.data_mode = true;
            },
        }
        assert(cmd@ =~= command(old(self).at_state(), old(self).last_line(), old(self).name()));
        (self.state, cmd)
    }
}

/// An ASCII literal has one byte per character.
proof fn lemma_ascii(s: &str)
    requires
        is_ascii(s),
    ensures
        s.spec_bytes().len() == s@.len(),
{
    is_ascii_spec_bytes(s);
}

/// The lengths of the commands and replies.
proof fn lemma_literals()
    ensures
        "AT+OK\r\n".spec_bytes().len() == 7,
        "AT\r\n".spec_bytes().len() == 4,
        "AT+NAME=".spec_bytes().len() == 8,
        "\r\n".spec_bytes().len() == 2,
        "AT+CONINTERVAL=16\r\n".spec_bytes().len() == 19,
        "AT+ADVINTERVAL=32\r\n".spec_bytes().len() == 19,
        "AT+SET=1\r\n".spec_bytes().len() == 10,
        "AT+MODE=DATA\r\n".spec_bytes().len() == 14,
{
    reveal_strlit("AT+OK\r\n");
    reveal_strlit("AT\r\n");
    reveal_strlit("AT+NAME=");
    reveal_strlit("\r\n");
    reveal_strlit("AT+CONINTERVAL=16\r\n");
    reveal_strlit("AT+ADVINTERVAL=32\r\n");
    reveal_strlit("AT+SET=1\r\n");
    reveal_strlit("AT+MODE=DATA\r\n");
    lemma_ascii("AT+OK\r\n");
    lemma_ascii("AT\r\n");
    lemma_ascii("AT+NAME=");
    lemma_ascii("\r\n");
    lemma_ascii("AT+CONINTERVAL=16\r\n");
    lemma_ascii("AT+ADVINTERVAL=32\r\n");
    lemma_ascii("AT+SET=1\r\n");
    lemma_ascii("AT+MODE=DATA\r\n");
}

/// How a receive pass goes: it reads only a line that says it is ready, never more than there is
/// room for or a chunk holds, counts what it read, and ends on a quiet line, an empty read, an
/// error, or its share of bytes, of which the last alone is reported as the cap.
pub proof fn lemma_receive_pass(p: RxPass, event: RxEvent)
    requires
        p.wf(),
        answers(p.step, event),
    ensures
        ({
            let q = pass_after(p, event);
            let read = if event is Bytes {
                event->Bytes_0@.len() as int
            } else {
                0
            };
            &&& q.status.bytes == p.status.bytes + read
            &&& q.status.errors as int == if event is LineError && p.status.errors < u32::MAX {
                p.status.errors + 1
            } else {
                p.status.errors as int
            }
            &&& q.status.capped <==> (read > 0 && q.status.bytes == 256) || p.status.capped
            &&& q.step is Read <==> event is Ready && event->Ready_0
            &&& q.step is Read ==> q.step->want + p.status.bytes <= 256 && q.step->want <= 64 && (
            q.step->want == 64 || q.step->want + p.status.bytes == 256)
            &&& q.step is AskReady <==> read > 0 && q.status.bytes < 256
            &&& q.step is Done <==> event is LineError || (event is Ready && !event->Ready_0) || (
            event is Bytes && (read == 0 || q.status.bytes == 256))
        }),
{
}

/// How the bring-up talks: the probe is sent while its reply is missing and never with it, the
/// name is sent as it is in one state alone, and the last state sends nothing and is kept.
pub proof fn lemma_bring_up_talk(line: Seq<u8>, name: Seq<u8>, other: Seq<u8>, state: int)
    requires
        0 <= state <= 6,
    ensures
        command(0, line, name) == if line == "AT+OK\r\n".spec_bytes() {
            Seq::empty()
        } else {
            "AT\r\n".spec_bytes()
        },
        state != 1 ==> command(state, line, name) == command(state, line, other),
        command(1, line, name) == "AT+NAME=".spec_bytes() + name + "\r\n".spec_bytes(),
        command(2, line, name) == "AT+CONINTERVAL=16\r\n".spec_bytes(),
        command(3, line, name) == "AT+ADVINTERVAL=32\r\n".spec_bytes(),
        command(4, line, name) == "AT+SET=1\r\n".spec_bytes(),
        command(5, line, name) == "AT+MODE=DATA\r\n".spec_bytes(),
        1 <= state <= 5 ==> command(state, line, name).len() > 0,
        command(6, line, name).len() == 0,
        state > 0 ==> command(state, line, name) == command(state, other, name),
        next_state(state, true) == vstd::math::min(state + 1, 6),
        state > 0 ==> next_state(state, false) == next_state(state, true),
        next_state(0, false) == 0,
{
    lemma_literals();
}

/// The reply check keeps the end of what came in, however it came: in one piece or in two.
pub proof fn lemma_tail_of_pieces(line: Seq<u8>, a: Seq<u8>, b: Seq<u8>)
    ensures
        tail(tail(line + a, 7) + b, 7) == tail(line + a + b, 7),
        b.len() >= 7 ==> tail(line + b, 7) == b.skip(b.len() - 7),
        line.len() + b.len() <= 7 ==> tail(line + b, 7) == line + b,
{
    let s = line + a;
    assert(tail(tail(s, 7) + b, 7) =~= tail(s + b, 7));
    if b.len() >= 7 {
        assert(tail(line + b, 7) =~= b.skip(b.len() - 7));
    }
}

} // verus!
