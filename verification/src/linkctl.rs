//! Link-control payloads: the control families that ride network PDUs in the opcode block
//! `0x10..0x2F`, and the supervision timeouts.
//!
//! All multi-byte fields are little-endian. A decoder reads its committed prefix and ignores what
//! follows, so fields can be appended. A payload that is too short is dropped by the caller. All
//! families are best-effort and latest-wins: loss is covered by the cyclic cadence and the
//! timeouts.

use crate::bytes;
use vstd::prelude::*;

verus! {

/// `CYCLIC_STATE`: board to board, cyclic.
pub const OP_CYCLIC_STATE: u8 = 0x10;

/// `DRIVE_CMD`: controller to board, on demand.
pub const OP_DRIVE_CMD: u8 = 0x11;

/// `INPUTS`: controller or peer to board, on demand.
pub const OP_INPUTS: u8 = 0x12;

/// `FAULT`: board to peer, when a fault latches.
pub const OP_FAULT: u8 = 0x13;

/// While the last `CYCLIC_STATE` is older than this many ticks, the peer counts as lost. A board
/// that has never seen a peer has none to lose.
pub const CYCLIC_TIMEOUT_TICKS: u32 = 25;

/// While the last `DRIVE_CMD` is older than this many ticks, the drive reference is neutral.
pub const DRIVE_TIMEOUT_TICKS: u32 = 50;

/// Reasons a payload decode can fail.
#[derive(Debug, Clone, Copy, PartialEq, Eq, Structural)]
pub enum DecodeError {
    /// Fewer bytes than the committed prefix requires.
    TooShort,
}

/// The per-tick mirror of a peer's state. The words are those of the control block; nothing is
/// rescaled at the link.
#[derive(Debug, Clone, Copy, PartialEq, Eq, Structural)]
pub struct CyclicState {
    /// Attitude pitch.
    pub pitch: i16,
    /// Attitude roll: the roll mirror of the receiver's shaper.
    pub roll: i16,
    /// Wheel speed: the peer speed of the receiver's engagement blend.
    pub wheel_speed: i16,
    /// Filtered battery word, for boards without a battery sense of their own.
    pub battery: u16,
    /// The mode byte.
    pub mode: u8,
    /// Latched fault code, 0 = healthy.
    pub fault: u8,
    /// Flag bits: [`Self::FLAG_RIDER`], [`Self::FLAG_LOCKDOWN`].
    pub flags: u8,
}

impl CyclicState {
    /// On-wire length of the committed prefix.
    pub const LEN: usize = 11;

    /// `flags` bit 0: rider present.
    pub const FLAG_RIDER: u8 = 0x01;

    /// `flags` bit 7: lockdown. The receiver disengages for as long as it is asserted.
    pub const FLAG_LOCKDOWN: u8 = 0x80;

    /// Rider-present flag.
    pub fn rider_present(&self) -> (b: bool)
        ensures
            b == (self.flags % 2 == 1),
    {
        let f: u8 = self.flags;
        assert((f & 1 != 0) == (f % 2 == 1)) by (bit_vector);
        self.flags & Self::FLAG_RIDER != 0
    }

    /// Lockdown flag.
    pub fn lockdown(&self) -> (b: bool)
        ensures
            b == (self.flags >= 0x80),
    {
        let f: u8 = self.flags;
        assert((f & 0x80 != 0) == (f >= 0x80)) by (bit_vector);
        self.flags & Self::FLAG_LOCKDOWN != 0
    }

    /// The committed prefix on the wire.
    pub open spec fn bytes(self) -> Seq<u8> {
        seq![
            (bytes::pattern16(self.pitch as int) % 256) as u8,
            (bytes::pattern16(self.pitch as int) / 256) as u8,
            (bytes::pattern16(self.roll as int) % 256) as u8,
            (bytes::pattern16(self.roll as int) / 256) as u8,
            (bytes::pattern16(self.wheel_speed as int) % 256) as u8,
            (bytes::pattern16(self.wheel_speed as int) / 256) as u8,
            (self.battery % 256) as u8,
            (self.battery / 256) as u8,
            self.mode,
            self.fault,
            self.flags,
        ]
    }

    /// The fields that the bytes `b` carry.
    pub open spec fn parse(b: Seq<u8>) -> CyclicState {
        CyclicState {
            pitch: bytes::i16_at(b, 0),
            roll: bytes::i16_at(b, 2),
            wheel_speed: bytes::i16_at(b, 4),
            battery: bytes::u16_at(b, 6),
            mode: b[8],
            fault: b[9],
            flags: b[10],
        }
    }

    /// Encodes into the front of `out`, returning the byte count.
    pub fn encode(&self, out: &mut [u8]) -> (n: usize)
        requires
            old(out)@.len() >= Self::LEN,
        ensures
            n == Self::LEN,
            final(out)@ == self.bytes() + old(out)@.skip(Self::LEN as int),
    {
        let pitch: u16 = bytes::pattern(self.pitch);
        out[0] = bytes::lo(pitch);
        out[1] = bytes::hi(pitch);
        let roll: u16 = bytes::pattern(self.roll);
        out[2] = bytes::lo(roll);
        out[3] = bytes::hi(roll);
        let wheel_speed: u16 = bytes::pattern(self.wheel_speed);
        out[4] = bytes::lo(wheel_speed);
        out[5] = bytes::hi(wheel_speed);
        out[6] = bytes::lo(self.battery);
        out[7] = bytes::hi(self.battery);
        out[8] = self.mode;
        out[9] = self.fault;
        out[10] = self.flags;
        assert(out@ =~= self.bytes() + old(out)@.skip(11));
        Self::LEN
    }

    /// Decodes the committed prefix; ignores trailing bytes.
    pub fn decode(b: &[u8]) -> (r: Result<CyclicState, DecodeError>)
        ensures
            b@.len() < Self::LEN ==> r == Err::<CyclicState, DecodeError>(DecodeError::TooShort),
            b@.len() >= Self::LEN ==> r == Ok::<CyclicState, DecodeError>(Self::parse(b@)),
    {
        if b.len() < Self::LEN {
            return Err(DecodeError::TooShort);
        }
        Ok(CyclicState {
            pitch: bytes::rd_i16(b, 0),
            roll: bytes::rd_i16(b, 2),
            wheel_speed: bytes::rd_i16(b, 4),
            battery: bytes::rd_u16(b, 6),
            mode: b[8],
            fault: b[9],
            flags: b[10],
        })
    }

    /// Decoding what was encoded gives the payload back, whatever bytes follow.
    pub proof fn lemma_round_trip(self, t: Seq<u8>)
        ensures
            (self.bytes() + t).len() >= Self::LEN,
            Self::parse(self.bytes() + t) == self,
    {
    }

    /// Where each field stands on the wire, low byte first, and that it is read from there.
    pub proof fn lemma_layout(self, b: Seq<u8>)
        requires
            b.len() >= Self::LEN,
        ensures
            ({
                let w = self.bytes();
                &&& w.len() == 11
                &&& bytes::signed16(w[0] + 256 * w[1]) == self.pitch
                &&& bytes::signed16(w[2] + 256 * w[3]) == self.roll
                &&& bytes::signed16(w[4] + 256 * w[5]) == self.wheel_speed
                &&& w[6] + 256 * w[7] == self.battery
                &&& w[8] == self.mode
                &&& w[9] == self.fault
                &&& w[10] == self.flags
            }),
            ({
                let p = Self::parse(b);
                &&& bytes::pattern16(p.pitch as int) == b[0] + 256 * b[1]
                &&& bytes::pattern16(p.roll as int) == b[2] + 256 * b[3]
                &&& bytes::pattern16(p.wheel_speed as int) == b[4] + 256 * b[5]
                &&& p.battery == b[6] + 256 * b[7]
                &&& p.mode == b[8]
                &&& p.fault == b[9]
                &&& p.flags == b[10]
            }),
    {
    }
}

/// The kind of a drive command.
#[derive(Debug, Clone, Copy, PartialEq, Eq, Structural)]
pub enum DriveKind {
    /// Reference zero; value and steer are not live.
    Neutral,
    /// Value and steer are live.
    Throttle,
}

/// The kind of a byte: any byte but 1 is neutral, to be on the safe side.
pub open spec fn kind_of(b: u8) -> DriveKind {
    if b == 1 {
        DriveKind::Throttle
    } else {
        DriveKind::Neutral
    }
}

impl DriveKind {
    /// The wire byte.
    pub open spec fn byte(self) -> u8 {
        match self {
            DriveKind::Neutral => 0,
            DriveKind::Throttle => 1,
        }
    }

    /// The wire byte of the kind.
    pub fn to_u8(self) -> (b: u8)
        ensures
            b == self.byte(),
    {
        match self {
            DriveKind::Neutral => 0,
            DriveKind::Throttle => 1,
        }
    }

    /// The kind of a wire byte.
    pub fn from_u8(b: u8) -> (k: DriveKind)
        ensures
            k == kind_of(b),
    {
        match b {
            1 => DriveKind::Throttle,
            _ => DriveKind::Neutral,
        }
    }
}

/// A controller's drive reference.
#[derive(Debug, Clone, Copy, PartialEq, Eq, Structural)]
pub struct DriveCmd {
    /// Command kind.
    pub kind: DriveKind,
    /// Speed demand.
    pub value: i16,
    /// Steer demand.
    pub steer: i16,
}

impl DriveCmd {
    /// On-wire length of the committed prefix.
    pub const LEN: usize = 5;

    /// The committed prefix on the wire.
    pub open spec fn bytes(self) -> Seq<u8> {
        seq![
            self.kind.byte(),
            (bytes::pattern16(self.value as int) % 256) as u8,
            (bytes::pattern16(self.value as int) / 256) as u8,
            (bytes::pattern16(self.steer as int) % 256) as u8,
            (bytes::pattern16(self.steer as int) / 256) as u8,
        ]
    }

    /// The fields that the bytes `b` carry.
    pub open spec fn parse(b: Seq<u8>) -> DriveCmd {
        DriveCmd {
            kind: kind_of(b[0]),
            value: bytes::i16_at(b, 1),
            steer: bytes::i16_at(b, 3),
        }
    }

    /// Encodes into the front of `out`, returning the byte count.
    pub fn encode(&self, out: &mut [u8]) -> (n: usize)
        requires
            old(out)@.len() >= Self::LEN,
        ensures
            n == Self::LEN,
            final(out)@ == self.bytes() + old(out)@.skip(Self::LEN as int),
    {
        out[0] = self.kind.to_u8();
        let value: u16 = bytes::pattern(self.value);
        out[1] = bytes::lo(value);
        out[2] = bytes::hi(value);
        let steer: u16 = bytes::pattern(self.steer);
        out[3] = bytes::lo(steer);
        out[4] = bytes::hi(steer);
        assert(out@ =~= self.bytes() + old(out)@.skip(5));
        Self::LEN
    }

    /// Decodes the committed prefix; ignores trailing bytes.
    pub fn decode(b: &[u8]) -> (r: Result<DriveCmd, DecodeError>)
        ensures
            b@.len() < Self::LEN ==> r == Err::<DriveCmd, DecodeError>(DecodeError::TooShort),
            b@.len() >= Self::LEN ==> r == Ok::<DriveCmd, DecodeError>(Self::parse(b@)),
    {
        if b.len() < Self::LEN {
            return Err(DecodeError::TooShort);
        }
        Ok(DriveCmd {
            kind: DriveKind::from_u8(b[0]),
            value: bytes::rd_i16(b, 1),
            steer: bytes::rd_i16(b, 3),
        })
    }

    /// Decoding what was encoded gives the payload back, whatever bytes follow.
    pub proof fn lemma_round_trip(self, t: Seq<u8>)
        ensures
            (self.bytes() + t).len() >= Self::LEN,
            Self::parse(self.bytes() + t) == self,
    {
    }

    /// Where each field stands on the wire, low byte first, and that it is read from there.
    pub proof fn lemma_layout(self, b: Seq<u8>)
        requires
            b.len() >= Self::LEN,
        ensures
            ({
                let w = self.bytes();
                &&& w.len() == 5
                &&& w[0] == 1 <==> self.kind == DriveKind::Throttle
                &&& w[0] == 0 <==> self.kind == DriveKind::Neutral
                &&& bytes::signed16(w[1] + 256 * w[2]) == self.value
                &&& bytes::signed16(w[3] + 256 * w[4]) == self.steer
            }),
            ({
                let p = Self::parse(b);
                &&& p.kind == DriveKind::Throttle <==> b[0] == 1
                &&& bytes::pattern16(p.value as int) == b[1] + 256 * b[2]
                &&& bytes::pattern16(p.steer as int) == b[3] + 256 * b[4]
            }),
    {
    }
}

/// Remote input mirror.
#[derive(Debug, Clone, Copy, PartialEq, Eq, Structural)]
pub struct Inputs {
    /// Raw throttle word.
    pub throttle: i16,
    /// Button bits: [`Self::BUTTON_POWER`].
    pub buttons: u8,
    /// Rider bits: [`Self::RIDER_PRESENT`].
    pub rider: u8,
}

impl Inputs {
    /// On-wire length of the committed prefix.
    pub const LEN: usize = 4;

    /// `buttons` bit 0: power request.
    pub const BUTTON_POWER: u8 = 0x01;

    /// `rider` bit 0: rider present.
    pub const RIDER_PRESENT: u8 = 0x01;

    /// Power-request level.
    pub fn power_request(&self) -> (b: bool)
        ensures
            b == (self.buttons % 2 == 1),
    {
        let f: u8 = self.buttons;
        assert((f & 1 != 0) == (f % 2 == 1)) by (bit_vector);
        self.buttons & Self::BUTTON_POWER != 0
    }

    /// Rider-present level.
    pub fn rider_present(&self) -> (b: bool)
        ensures
            b == (self.rider % 2 == 1),
    {
        let f: u8 = self.rider;
        assert((f & 1 != 0) == (f % 2 == 1)) by (bit_vector);
        self.rider & Self::RIDER_PRESENT != 0
    }

    /// The committed prefix on the wire.
    pub open spec fn bytes(self) -> Seq<u8> {
        seq![
            (bytes::pattern16(self.throttle as int) % 256) as u8,
            (bytes::pattern16(self.throttle as int) / 256) as u8,
            self.buttons,
            self.rider,
        ]
    }

    /// The fields that the bytes `b` carry.
    pub open spec fn parse(b: Seq<u8>) -> Inputs {
        Inputs {
            throttle: bytes::i16_at(b, 0),
            buttons: b[2],
            rider: b[3],
        }
    }

    /// Encodes into the front of `out`, returning the byte count.
    pub fn encode(&self, out: &mut [u8]) -> (n: usize)
        requires
            old(out)@.len() >= Self::LEN,
        ensures
            n == Self::LEN,
            final(out)@ == self.bytes() + old(out)@.skip(Self::LEN as int),
    {
        let throttle: u16 = bytes::pattern(self.throttle);
        out[0] = bytes::lo(throttle);
        out[1] = bytes::hi(throttle);
        out[2] = self.buttons;
        out[3] = self.rider;
        assert(out@ =~= self.bytes() + old(out)@.skip(4));
        Self::LEN
    }

    /// Decodes the committed prefix; ignores trailing bytes.
    pub fn decode(b: &[u8]) -> (r: Result<Inputs, DecodeError>)
        ensures
            b@.len() < Self::LEN ==> r == Err::<Inputs, DecodeError>(DecodeError::TooShort),
            b@.len() >= Self::LEN ==> r == Ok::<Inputs, DecodeError>(Self::parse(b@)),
    {
        if b.len() < Self::LEN {
            return Err(DecodeError::TooShort);
        }
        Ok(Inputs {
            throttle: bytes::rd_i16(b, 0),
            buttons: b[2],
            rider: b[3],
        })
    }

    /// Decoding what was encoded gives the payload back, whatever bytes follow.
    pub proof fn lemma_round_trip(self, t: Seq<u8>)
        ensures
            (self.bytes() + t).len() >= Self::LEN,
            Self::parse(self.bytes() + t) == self,
    {
    }

    /// Where each field stands on the wire, low byte first, and that it is read from there.
    pub proof fn lemma_layout(self, b: Seq<u8>)
        requires
            b.len() >= Self::LEN,
        ensures
            ({
                let w = self.bytes();
                &&& w.len() == 4
                &&& bytes::signed16(w[0] + 256 * w[1]) == self.throttle
                &&& w[2] == self.buttons
                &&& w[3] == self.rider
            }),
            ({
                let p = Self::parse(b);
                &&& bytes::pattern16(p.throttle as int) == b[0] + 256 * b[1]
                &&& p.buttons == b[2]
                &&& p.rider == b[3]
            }),
    {
    }
}

/// Notification of a fault that has latched, sent once per latch.
#[derive(Debug, Clone, Copy, PartialEq, Eq, Structural)]
pub struct Fault {
    /// The latched fault code.
    pub code: u8,
    /// [`Self::ACTION_NOTIFY`] or [`Self::ACTION_STOP_ALL`].
    pub action: u8,
}

impl Fault {
    /// On-wire length of the committed prefix.
    pub const LEN: usize = 2;

    /// Notify only.
    pub const ACTION_NOTIFY: u8 = 0;

    /// Stop everything.
    pub const ACTION_STOP_ALL: u8 = 1;

    /// True when the action is to stop everything.
    pub fn stop_all(&self) -> (b: bool)
        ensures
            b == (self.action == 1),
    {
        self.action == Self::ACTION_STOP_ALL
    }

    /// The committed prefix on the wire.
    pub open spec fn bytes(self) -> Seq<u8> {
        seq![
            self.code,
            self.action,
        ]
    }

    /// The fields that the bytes `b` carry.
    pub open spec fn parse(b: Seq<u8>) -> Fault {
        Fault {
            code: b[0],
            action: b[1],
        }
    }

    /// Encodes into the front of `out`, returning the byte count.
    pub fn encode(&self, out: &mut [u8]) -> (n: usize)
        requires
            old(out)@.len() >= Self::LEN,
        ensures
            n == Self::LEN,
            final(out)@ == self.bytes() + old(out)@.skip(Self::LEN as int),
    {
        out[0] = self.code;
        out[1] = self.action;
        assert(out@ =~= self.bytes() + old(out)@.skip(2));
        Self::LEN
    }

    /// Decodes the committed prefix; ignores trailing bytes.
    pub fn decode(b: &[u8]) -> (r: Result<Fault, DecodeError>)
        ensures
            b@.len() < Self::LEN ==> r == Err::<Fault, DecodeError>(DecodeError::TooShort),
            b@.len() >= Self::LEN ==> r == Ok::<Fault, DecodeError>(Self::parse(b@)),
    {
        if b.len() < Self::LEN {
            return Err(DecodeError::TooShort);
        }
        Ok(Fault {
            code: b[0],
            action: b[1],
        })
    }

    /// Decoding what was encoded gives the payload back, whatever bytes follow.
    pub proof fn lemma_round_trip(self, t: Seq<u8>)
        ensures
            (self.bytes() + t).len() >= Self::LEN,
            Self::parse(self.bytes() + t) == self,
    {
    }

    /// Where each field stands on the wire, low byte first, and that it is read from there.
    pub proof fn lemma_layout(self, b: Seq<u8>)
        requires
            b.len() >= Self::LEN,
        ensures
            ({
                let w = self.bytes();
                &&& w.len() == 2
                &&& w[0] == self.code
                &&& w[1] == self.action
            }),
            ({
                let p = Self::parse(b);
                &&& p.code == b[0]
                &&& p.action == b[1]
            }),
    {
    }
}

/// A decoded control payload.
#[derive(Debug, Clone, Copy, PartialEq, Eq, Structural)]
pub enum Payload {
    CyclicState(CyclicState),
    DriveCmd(DriveCmd),
    Inputs(Inputs),
    Fault(Fault),
}

/// The payload that `b` carries under `opcode`; `None` for an opcode of another family, and for a
/// payload that is too short.
pub open spec fn payload_of(opcode: u8, b: Seq<u8>) -> Option<Payload> {
    if opcode == OP_CYCLIC_STATE && b.len() >= CyclicState::LEN {
        Some(Payload::CyclicState(CyclicState::parse(b)))
    } else if opcode == OP_DRIVE_CMD && b.len() >= DriveCmd::LEN {
        Some(Payload::DriveCmd(DriveCmd::parse(b)))
    } else if opcode == OP_INPUTS && b.len() >= Inputs::LEN {
        Some(Payload::Inputs(Inputs::parse(b)))
    } else if opcode == OP_FAULT && b.len() >= Fault::LEN {
        Some(Payload::Fault(Fault::parse(b)))
    } else {
        None
    }
}

/// Decodes the payload of a control PDU. `None` means: drop it.
pub fn decode(opcode: u8, payload: &[u8]) -> (r: Option<Payload>)
    ensures
        r == payload_of(opcode, payload@),
{
    match opcode {
        OP_CYCLIC_STATE => match CyclicState::decode(payload) {
            Ok(p) => Some(Payload::CyclicState(p)),
            Err(e) => None,
        },
        OP_DRIVE_CMD => match DriveCmd::decode(payload) {
            Ok(p) => Some(Payload::DriveCmd(p)),
            Err(e) => None,
        },
        OP_INPUTS => match Inputs::decode(payload) {
            Ok(p) => Some(Payload::Inputs(p)),
            Err(e) => None,
        },
        OP_FAULT => match Fault::decode(payload) {
            Ok(p) => Some(Payload::Fault(p)),
            Err(e) => None,
        },
        _ => None,
    }
}

/// Which payload an opcode announces, and how long it has to be at least: a cyclic state under
/// 0x10, a drive command under 0x11, inputs under 0x12, a fault under 0x13, and nothing under any
/// other.
pub proof fn lemma_families(opcode: u8, b: Seq<u8>)
    ensures
        payload_of(opcode, b) is Some <==> (opcode == 0x10 && b.len() >= 11) || (opcode == 0x11
            && b.len() >= 5) || (opcode == 0x12 && b.len() >= 4) || (opcode == 0x13 && b.len() >= 2),
        payload_of(opcode, b) matches Some(p) ==> {
            &&& p is CyclicState <==> opcode == 0x10
            &&& p is DriveCmd <==> opcode == 0x11
            &&& p is Inputs <==> opcode == 0x12
            &&& p is Fault <==> opcode == 0x13
        },
{
}

/// What one side encodes, the other decodes under the opcode of its family, to the same value.
pub proof fn lemma_payloads_arrive(c: CyclicState, d: DriveCmd, i: Inputs, f: Fault)
    ensures
        payload_of(0x10, c.bytes()) == Some(Payload::CyclicState(c)),
        payload_of(0x11, d.bytes()) == Some(Payload::DriveCmd(d)),
        payload_of(0x12, i.bytes()) == Some(Payload::Inputs(i)),
        payload_of(0x13, f.bytes()) == Some(Payload::Fault(f)),
{
    let none = Seq::<u8>::empty();
    c.lemma_round_trip(none);
    d.lemma_round_trip(none);
    i.lemma_round_trip(none);
    f.lemma_round_trip(none);
    assert(c.bytes() + none =~= c.bytes());
    assert(d.bytes() + none =~= d.bytes());
    assert(i.bytes() + none =~= i.bytes());
    assert(f.bytes() + none =~= f.bytes());
}

/// Only the byte 1 makes a drive command live.
pub proof fn lemma_kinds(b: u8)
    ensures
        kind_of(b) == DriveKind::Throttle <==> b == 1,
        DriveKind::Throttle.byte() == 1 && DriveKind::Neutral.byte() == 0,
{
}

} // verus!
