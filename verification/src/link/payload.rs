//! Payload codecs.
//!
//! All multi-byte fields are little-endian scaled integers. Decoders read the committed leading
//! fields and ignore any byte behind them, so a later build can append fields and an older one
//! still decodes the prefix.

use crate::bytes;
use vstd::prelude::*;

verus! {

/// Reasons a payload decode can fail.
#[derive(Debug, Clone, Copy, PartialEq, Eq, Structural)]
pub enum PayloadError {
    /// Fewer bytes than the committed leading fields require.
    TooShort,
    /// The supplied encode buffer is too small.
    OutTooSmall,
}

/// Cyclic exchange payload. `status` bits: rider present, stationary, balance engaged, fault
/// pending.
#[derive(Debug, Clone, Copy, PartialEq, Eq, Structural)]
pub struct CyclicState {
    pub pitch: i16,
    pub roll: i16,
    pub wheel_speed: i16,
    pub status: u8,
}

impl CyclicState {
    /// On-wire length of the committed fields.
    pub const LEN: usize = 7;

    /// The committed fields on the wire.
    pub open spec fn bytes(self) -> Seq<u8> {
        seq![
            (bytes::pattern16(self.pitch as int) % 256) as u8,
            (bytes::pattern16(self.pitch as int) / 256) as u8,
            (bytes::pattern16(self.roll as int) % 256) as u8,
            (bytes::pattern16(self.roll as int) / 256) as u8,
            (bytes::pattern16(self.wheel_speed as int) % 256) as u8,
            (bytes::pattern16(self.wheel_speed as int) / 256) as u8,
            self.status,
        ]
    }

    /// The fields that the bytes `b` carry.
    pub open spec fn parse(b: Seq<u8>) -> CyclicState {
        CyclicState {
            pitch: bytes::i16_at(b, 0),
            roll: bytes::i16_at(b, 2),
            wheel_speed: bytes::i16_at(b, 4),
            status: b[6],
        }
    }

    /// Encodes into the front of `out`, returning the byte count.
    pub fn encode(&self, out: &mut [u8]) -> (n: usize)
        requires
            old(out)@.len() >= Self::LEN,
        ensures
            n == Self::LEN,
            final(out)@ == self.bytes() + old(out)@.skip(Self::LEN as int),
    {
        let pitch: u16 = bytes::pattern(self.pitch);
        out[0] = bytes::lo(pitch);
        out[1] = bytes::hi(pitch);
        let roll: u16 = bytes::pattern(self.roll);
        out[2] = bytes::lo(roll);
        out[3] = bytes::hi(roll);
        let wheel_speed: u16 = bytes::pattern(self.wheel_speed);
        out[4] = bytes::lo(wheel_speed);
        out[5] = bytes::hi(wheel_speed);
        out[6] = self.status;
        assert(out@ =~= self.bytes() + old(out)@.skip(7));
        Self::LEN
    }

    /// Decodes the committed prefix; ignores trailing bytes.
    pub fn decode(b: &[u8]) -> (r: Result<CyclicState, PayloadError>)
        ensures
            b@.len() < Self::LEN ==> r == Err::<CyclicState, PayloadError>(PayloadError::TooShort),
            b@.len() >= Self::LEN ==> r == Ok::<CyclicState, PayloadError>(Self::parse(b@)),
    {
        if b.len() < Self::LEN {
            return Err(PayloadError::TooShort);
        }
        Ok(CyclicState {
            pitch: bytes::rd_i16(b, 0),
            roll: bytes::rd_i16(b, 2),
            wheel_speed: bytes::rd_i16(b, 4),
            status: b[6],
        })
    }

    /// Decoding what was encoded gives the payload back, whatever bytes follow.
    pub proof fn lemma_round_trip(self, t: Seq<u8>)
        ensures
            (self.bytes() + t).len() >= Self::LEN,
            Self::parse(self.bytes() + t) == self,
    {
    }

    /// Where each field stands on the wire, low byte first, and that it is read from there.
    pub proof fn lemma_layout(self, b: Seq<u8>)
        requires
            b.len() >= Self::LEN,
        ensures
            ({
                let w = self.bytes();
                &&& w.len() == 7
                &&& bytes::signed16(w[0] + 256 * w[1]) == self.pitch
                &&& bytes::signed16(w[2] + 256 * w[3]) == self.roll
                &&& bytes::signed16(w[4] + 256 * w[5]) == self.wheel_speed
                &&& w[6] == self.status
            }),
            ({
                let p = Self::parse(b);
                &&& bytes::pattern16(p.pitch as int) == b[0] + 256 * b[1]
                &&& bytes::pattern16(p.roll as int) == b[2] + 256 * b[3]
                &&& bytes::pattern16(p.wheel_speed as int) == b[4] + 256 * b[5]
                &&& p.status == b[6]
            }),
    {
    }
}

/// Drive command payload.
#[derive(Debug, Clone, Copy, PartialEq, Eq, Structural)]
pub struct DriveCmd {
    pub kind: u8,
    pub value: i16,
    pub steer: i16,
}

impl DriveCmd {
    /// On-wire length of the committed fields.
    pub const LEN: usize = 5;

    /// The committed fields on the wire.
    pub open spec fn bytes(self) -> Seq<u8> {
        seq![
            self.kind,
            (bytes::pattern16(self.value as int) % 256) as u8,
            (bytes::pattern16(self.value as int) / 256) as u8,
            (bytes::pattern16(self.steer as int) % 256) as u8,
            (bytes::pattern16(self.steer as int) / 256) as u8,
        ]
    }

    /// The fields that the bytes `b` carry.
    pub open spec fn parse(b: Seq<u8>) -> DriveCmd {
        DriveCmd {
            kind: b[0],
            value: bytes::i16_at(b, 1),
            steer: bytes::i16_at(b, 3),
        }
    }

    /// Encodes into the front of `out`, returning the byte count.
    pub fn encode(&self, out: &mut [u8]) -> (n: usize)
        requires
            old(out)@.len() >= Self::LEN,
        ensures
            n == Self::LEN,
            final(out)@ == self.bytes() + old(out)@.skip(Self::LEN as int),
    {
        out[0] = self.kind;
        let value: u16 = bytes::pattern(self.value);
        out[1] = bytes::lo(value);
        out[2] = bytes::hi(value);
        let steer: u16 = bytes::pattern(self.steer);
        out[3] = bytes::lo(steer);
        out[4] = bytes::hi(steer);
        assert(out@ =~= self.bytes() + old(out)@.skip(5));
        Self::LEN
    }

    /// Decodes the committed prefix; ignores trailing bytes.
    pub fn decode(b: &[u8]) -> (r: Result<DriveCmd, PayloadError>)
        ensures
            b@.len() < Self::LEN ==> r == Err::<DriveCmd, PayloadError>(PayloadError::TooShort),
            b@.len() >= Self::LEN ==> r == Ok::<DriveCmd, PayloadError>(Self::parse(b@)),
    {
        if b.len() < Self::LEN {
            return Err(PayloadError::TooShort);
        }
        Ok(DriveCmd {
            kind: b[0],
            value: bytes::rd_i16(b, 1),
            steer: bytes::rd_i16(b, 3),
        })
    }

    /// Decoding what was encoded gives the payload back, whatever bytes follow.
    pub proof fn lemma_round_trip(self, t: Seq<u8>)
        ensures
            (self.bytes() + t).len() >= Self::LEN,
            Self::parse(self.bytes() + t) == self,
    {
    }

    /// Where each field stands on the wire, low byte first, and that it is read from there.
    pub proof fn lemma_layout(self, b: Seq<u8>)
        requires
            b.len() >= Self::LEN,
        ensures
            ({
                let w = self.bytes();
                &&& w.len() == 5
                &&& w[0] == self.kind
                &&& bytes::signed16(w[1] + 256 * w[2]) == self.value
                &&& bytes::signed16(w[3] + 256 * w[4]) == self.steer
            }),
            ({
                let p = Self::parse(b);
                &&& p.kind == b[0]
                &&& bytes::pattern16(p.value as int) == b[1] + 256 * b[2]
                &&& bytes::pattern16(p.steer as int) == b[3] + 256 * b[4]
            }),
    {
    }
}

/// Topology announcement. `caps` is the item mask of what the node produces and consumes.
#[derive(Debug, Clone, Copy, PartialEq, Eq, Structural)]
pub struct NodeHello {
    pub node_id: u8,
    pub role: u8,
    pub motor_count: u8,
    pub proto_ver: u8,
    pub fw_ver: u16,
    pub caps: u16,
}

impl NodeHello {
    /// On-wire length of the committed fields.
    pub const LEN: usize = 8;

    /// The committed fields on the wire.
    pub open spec fn bytes(self) -> Seq<u8> {
        seq![
            self.node_id,
            self.role,
            self.motor_count,
            self.proto_ver,
            (self.fw_ver % 256) as u8,
            (self.fw_ver / 256) as u8,
            (self.caps % 256) as u8,
            (self.caps / 256) as u8,
        ]
    }

    /// The fields that the bytes `b` carry.
    pub open spec fn parse(b: Seq<u8>) -> NodeHello {
        NodeHello {
            node_id: b[0],
            role: b[1],
            motor_count: b[2],
            proto_ver: b[3],
            fw_ver: bytes::u16_at(b, 4),
            caps: bytes::u16_at(b, 6),
        }
    }

    /// Encodes into the front of `out`, returning the byte count.
    pub fn encode(&self, out: &mut [u8]) -> (n: usize)
        requires
            old(out)@.len() >= Self::LEN,
        ensures
            n == Self::LEN,
            final(out)@ == self.bytes() + old(out)@.skip(Self::LEN as int),
    {
        out[0] = self.node_id;
        out[1] = self.role;
        out[2] = self.motor_count;
        out[3] = self.proto_ver;
        out[4] = bytes::lo(self.fw_ver);
        out[5] = bytes::hi(self.fw_ver);
        out[6] = bytes::lo(self.caps);
        out[7] = bytes::hi(self.caps);
        assert(out@ =~= self.bytes() + old(out)@.skip(8));
        Self::LEN
    }

    /// Decodes the committed prefix; ignores trailing bytes.
    pub fn decode(b: &[u8]) -> (r: Result<NodeHello, PayloadError>)
        ensures
            b@.len() < Self::LEN ==> r == Err::<NodeHello, PayloadError>(PayloadError::TooShort),
            b@.len() >= Self::LEN ==> r == Ok::<NodeHello, PayloadError>(Self::parse(b@)),
    {
        if b.len() < Self::LEN {
            return Err(PayloadError::TooShort);
        }
        Ok(NodeHello {
            node_id: b[0],
            role: b[1],
            motor_count: b[2],
            proto_ver: b[3],
            fw_ver: bytes::rd_u16(b, 4),
            caps: bytes::rd_u16(b, 6),
        })
    }

    /// Decoding what was encoded gives the payload back, whatever bytes follow.
    pub proof fn lemma_round_trip(self, t: Seq<u8>)
        ensures
            (self.bytes() + t).len() >= Self::LEN,
            Self::parse(self.bytes() + t) == self,
    {
    }

    /// Where each field stands on the wire, low byte first, and that it is read from there.
    pub proof fn lemma_layout(self, b: Seq<u8>)
        requires
            b.len() >= Self::LEN,
        ensures
            ({
                let w = self.bytes();
                &&& w.len() == 8
                &&& w[0] == self.node_id
                &&& w[1] == self.role
                &&& w[2] == self.motor_count
                &&& w[3] == self.proto_ver
                &&& w[4] + 256 * w[5] == self.fw_ver
                &&& w[6] + 256 * w[7] == self.caps
            }),
            ({
                let p = Self::parse(b);
                &&& p.node_id == b[0]
                &&& p.role == b[1]
                &&& p.motor_count == b[2]
                &&& p.proto_ver == b[3]
                &&& p.fw_ver == b[4] + 256 * b[5]
                &&& p.caps == b[6] + 256 * b[7]
            }),
    {
    }
}

/// Per-motor telemetry.
#[derive(Debug, Clone, Copy, PartialEq, Eq, Structural)]
pub struct Telemetry {
    pub motor_index: u8,
    pub battery_mv: u16,
    pub current_ca: i16,
    pub speed: i16,
    pub fault_code: u8,
    pub flags: u8,
}

impl Telemetry {
    /// On-wire length of the committed fields.
    pub const LEN: usize = 9;

    /// The committed fields on the wire.
    pub open spec fn bytes(self) -> Seq<u8> {
        seq![
            self.motor_index,
            (self.battery_mv % 256) as u8,
            (self.battery_mv / 256) as u8,
            (bytes::pattern16(self.current_ca as int) % 256) as u8,
            (bytes::pattern16(self.current_ca as int) / 256) as u8,
            (bytes::pattern16(self.speed as int) % 256) as u8,
            (bytes::pattern16(self.speed as int) / 256) as u8,
            self.fault_code,
            self.flags,
        ]
    }

    /// The fields that the bytes `b` carry.
    pub open spec fn parse(b: Seq<u8>) -> Telemetry {
        Telemetry {
            motor_index: b[0],
            battery_mv: bytes::u16_at(b, 1),
            current_ca: bytes::i16_at(b, 3),
            speed: bytes::i16_at(b, 5),
            fault_code: b[7],
            flags: b[8],
        }
    }

    /// Encodes into the front of `out`, returning the byte count.
    pub fn encode(&self, out: &mut [u8]) -> (n: usize)
        requires
            old(out)@.len() >= Self::LEN,
        ensures
            n == Self::LEN,
            final(out)@ == self.bytes() + old(out)@.skip(Self::LEN as int),
    {
        out[0] = self.motor_index;
        out[1] = bytes::lo(self.battery_mv);
        out[2] = bytes::hi(self.battery_mv);
        let current_ca: u16 = bytes::pattern(self.current_ca);
        out[3] = bytes::lo(current_ca);
        out[4] = bytes::hi(current_ca);
        let speed: u16 = bytes::pattern(self.speed);
        out[5] = bytes::lo(speed);
        out[6] = bytes::hi(speed);
        out[7] = self.fault_code;
        out[8] = self.flags;
        assert(out@ =~= self.bytes() + old(out)@.skip(9));
        Self::LEN
    }

    /// Decodes the committed prefix; ignores trailing bytes.
    pub fn decode(b: &[u8]) -> (r: Result<Telemetry, PayloadError>)
        ensures
            b@.len() < Self::LEN ==> r == Err::<Telemetry, PayloadError>(PayloadError::TooShort),
            b@.len() >= Self::LEN ==> r == Ok::<Telemetry, PayloadError>(Self::parse(b@)),
    {
        if b.len() < Self::LEN {
            return Err(PayloadError::TooShort);
        }
        Ok(Telemetry {
            motor_index: b[0],
            battery_mv: bytes::rd_u16(b, 1),
            current_ca: bytes::rd_i16(b, 3),
            speed: bytes::rd_i16(b, 5),
            fault_code: b[7],
            flags: b[8],
        })
    }

    /// Decoding what was encoded gives the payload back, whatever bytes follow.
    pub proof fn lemma_round_trip(self, t: Seq<u8>)
        ensures
            (self.bytes() + t).len() >= Self::LEN,
            Self::parse(self.bytes() + t) == self,
    {
    }

    /// Where each field stands on the wire, low byte first, and that it is read from there.
    pub proof fn lemma_layout(self, b: Seq<u8>)
        requires
            b.len() >= Self::LEN,
        ensures
            ({
                let w = self.bytes();
                &&& w.len() == 9
                &&& w[0] == self.motor_index
                &&& w[1] + 256 * w[2] == self.battery_mv
                &&& bytes::signed16(w[3] + 256 * w[4]) == self.current_ca
                &&& bytes::signed16(w[5] + 256 * w[6]) == self.speed
                &&& w[7] == self.fault_code
                &&& w[8] == self.flags
            }),
            ({
                let p = Self::parse(b);
                &&& p.motor_index == b[0]
                &&& p.battery_mv == b[1] + 256 * b[2]
                &&& bytes::pattern16(p.current_ca as int) == b[3] + 256 * b[4]
                &&& bytes::pattern16(p.speed as int) == b[5] + 256 * b[6]
                &&& p.fault_code == b[7]
                &&& p.flags == b[8]
            }),
    {
    }
}

/// Reads a configuration register by key.
#[derive(Debug, Clone, Copy, PartialEq, Eq, Structural)]
pub struct ConfigRead {
    pub key: u16,
}

impl ConfigRead {
    /// On-wire length of the committed fields.
    pub const LEN: usize = 2;

    /// The committed fields on the wire.
    pub open spec fn bytes(self) -> Seq<u8> {
        seq![
            (self.key % 256) as u8,
            (self.key / 256) as u8,
        ]
    }

    /// The fields that the bytes `b` carry.
    pub open spec fn parse(b: Seq<u8>) -> ConfigRead {
        ConfigRead {
            key: bytes::u16_at(b, 0),
        }
    }

    /// Encodes into the front of `out`, returning the byte count.
    pub fn encode(&self, out: &mut [u8]) -> (n: usize)
        requires
            old(out)@.len() >= Self::LEN,
        ensures
            n == Self::LEN,
            final(out)@ == self.bytes() + old(out)@.skip(Self::LEN as int),
    {
        out[0] = bytes::lo(self.key);
        out[1] = bytes::hi(self.key);
        assert(out@ =~= self.bytes() + old(out)@.skip(2));
        Self::LEN
    }

    /// Decodes the committed prefix; ignores trailing bytes.
    pub fn decode(b: &[u8]) -> (r: Result<ConfigRead, PayloadError>)
        ensures
            b@.len() < Self::LEN ==> r == Err::<ConfigRead, PayloadError>(PayloadError::TooShort),
            b@.len() >= Self::LEN ==> r == Ok::<ConfigRead, PayloadError>(Self::parse(b@)),
    {
        if b.len() < Self::LEN {
            return Err(PayloadError::TooShort);
        }
        Ok(ConfigRead {
            key: bytes::rd_u16(b, 0),
        })
    }

    /// Decoding what was encoded gives the payload back, whatever bytes follow.
    pub proof fn lemma_round_trip(self, t: Seq<u8>)
        ensures
            (self.bytes() + t).len() >= Self::LEN,
            Self::parse(self.bytes() + t) == self,
    {
    }

    /// Where each field stands on the wire, low byte first, and that it is read from there.
    pub proof fn lemma_layout(self, b: Seq<u8>)
        requires
            b.len() >= Self::LEN,
        ensures
            ({
                let w = self.bytes();
                &&& w.len() == 2
                &&& w[0] + 256 * w[1] == self.key
            }),
            ({
                let p = Self::parse(b);
                &&& p.key == b[0] + 256 * b[1]
            }),
    {
    }
}

/// A fault report or command. `action` carries e.g. stop-all.
#[derive(Debug, Clone, Copy, PartialEq, Eq, Structural)]
pub struct Fault {
    pub fault_code: u8,
    pub action: u8,
}

impl Fault {
    /// On-wire length of the committed fields.
    pub const LEN: usize = 2;

    /// The committed fields on the wire.
    pub open spec fn bytes(self) -> Seq<u8> {
        seq![
            self.fault_code,
            self.action,
        ]
    }

    /// The fields that the bytes `b` carry.
    pub open spec fn parse(b: Seq<u8>) -> Fault {
        Fault {
            fault_code: b[0],
            action: b[1],
        }
    }

    /// Encodes into the front of `out`, returning the byte count.
    pub fn encode(&self, out: &mut [u8]) -> (n: usize)
        requires
            old(out)@.len() >= Self::LEN,
        ensures
            n == Self::LEN,
            final(out)@ == self.bytes() + old(out)@.skip(Self::LEN as int),
    {
        out[0] = self.fault_code;
        out[1] = self.action;
        assert(out@ =~= self.bytes() + old(out)@.skip(2));
        Self::LEN
    }

    /// Decodes the committed prefix; ignores trailing bytes.
    pub fn decode(b: &[u8]) -> (r: Result<Fault, PayloadError>)
        ensures
            b@.len() < Self::LEN ==> r == Err::<Fault, PayloadError>(PayloadError::TooShort),
            b@.len() >= Self::LEN ==> r == Ok::<Fault, PayloadError>(Self::parse(b@)),
    {
        if b.len() < Self::LEN {
            return Err(PayloadError::TooShort);
        }
        Ok(Fault {
            fault_code: b[0],
            action: b[1],
        })
    }

    /// Decoding what was encoded gives the payload back, whatever bytes follow.
    pub proof fn lemma_round_trip(self, t: Seq<u8>)
        ensures
            (self.bytes() + t).len() >= Self::LEN,
            Self::parse(self.bytes() + t) == self,
    {
    }

    /// Where each field stands on the wire, low byte first, and that it is read from there.
    pub proof fn lemma_layout(self, b: Seq<u8>)
        requires
            b.len() >= Self::LEN,
        ensures
            ({
                let w = self.bytes();
                &&& w.len() == 2
                &&& w[0] == self.fault_code
                &&& w[1] == self.action
            }),
            ({
                let p = Self::parse(b);
                &&& p.fault_code == b[0]
                &&& p.action == b[1]
            }),
    {
    }
}

/// Rider input snapshot.
#[derive(Debug, Clone, Copy, PartialEq, Eq, Structural)]
pub struct Inputs {
    pub throttle: i16,
    pub buttons: u8,
    pub rider: u8,
}

impl Inputs {
    /// On-wire length of the committed fields.
    pub const LEN: usize = 4;

    /// The committed fields on the wire.
    pub open spec fn bytes(self) -> Seq<u8> {
        seq![
            (bytes::pattern16(self.throttle as int) % 256) as u8,
            (bytes::pattern16(self.throttle as int) / 256) as u8,
            self.buttons,
            self.rider,
        ]
    }

    /// The fields that the bytes `b` carry.
    pub open spec fn parse(b: Seq<u8>) -> Inputs {
        Inputs {
            throttle: bytes::i16_at(b, 0),
            buttons: b[2],
            rider: b[3],
        }
    }

    /// Encodes into the front of `out`, returning the byte count.
    pub fn encode(&self, out: &mut [u8]) -> (n: usize)
        requires
            old(out)@.len() >= Self::LEN,
        ensures
            n == Self::LEN,
            final(out)@ == self.bytes() + old(out)@.skip(Self::LEN as int),
    {
        let throttle: u16 = bytes::pattern(self.throttle);
        out[0] = bytes::lo(throttle);
        out[1] = bytes::hi(throttle);
        out[2] = self.buttons;
        out[3] = self.rider;
        assert(out@ =~= self.bytes() + old(out)@.skip(4));
        Self::LEN
    }

    /// Decodes the committed prefix; ignores trailing bytes.
    pub fn decode(b: &[u8]) -> (r: Result<Inputs, PayloadError>)
        ensures
            b@.len() < Self::LEN ==> r == Err::<Inputs, PayloadError>(PayloadError::TooShort),
            b@.len() >= Self::LEN ==> r == Ok::<Inputs, PayloadError>(Self::parse(b@)),
    {
        if b.len() < Self::LEN {
            return Err(PayloadError::TooShort);
        }
        Ok(Inputs {
            throttle: bytes::rd_i16(b, 0),
            buttons: b[2],
            rider: b[3],
        })
    }

    /// Decoding what was encoded gives the payload back, whatever bytes follow.
    pub proof fn lemma_round_trip(self, t: Seq<u8>)
        ensures
            (self.bytes() + t).len() >= Self::LEN,
            Self::parse(self.bytes() + t) == self,
    {
    }

    /// Where each field stands on the wire, low byte first, and that it is read from there.
    pub proof fn lemma_layout(self, b: Seq<u8>)
        requires
            b.len() >= Self::LEN,
        ensures
            ({
                let w = self.bytes();
                &&& w.len() == 4
                &&& bytes::signed16(w[0] + 256 * w[1]) == self.throttle
                &&& w[2] == self.buttons
                &&& w[3] == self.rider
            }),
            ({
                let p = Self::parse(b);
                &&& bytes::pattern16(p.throttle as int) == b[0] + 256 * b[1]
                &&& p.buttons == b[2]
                &&& p.rider == b[3]
            }),
    {
    }
}

/// Writes a configuration register: a key and a value of any length.
#[derive(Debug, Clone, Copy, PartialEq, Eq)]
pub struct ConfigWrite<'a> {
    pub key: u16,
    pub value: &'a [u8],
}

impl<'a> ConfigWrite<'a> {
    /// Committed leading length; `value` is everything after it.
    pub const HEAD_LEN: usize = 2;

    /// Decodes the leading fields; the rest is `value`.
    pub fn decode(b: &'a [u8]) -> (r: Result<ConfigWrite<'a>, PayloadError>)
        ensures
            b@.len() < Self::HEAD_LEN ==> r is Err && r->Err_0 == PayloadError::TooShort,
            b@.len() >= Self::HEAD_LEN ==> {
                &&& r is Ok
                &&& r->Ok_0.key == bytes::u16_at(b@, 0)
                &&& r->Ok_0.value@ == b@.skip(2)
            },
    {
        if b.len() < Self::HEAD_LEN {
            return Err(PayloadError::TooShort);
        }
        let value = &b[Self::HEAD_LEN..b.len()];
        assert(value@ =~= b@.skip(2));
        Ok(ConfigWrite { key: bytes::rd_u16(b, 0), value })
    }
}

/// Response to a configuration read or write: a key, a status byte, and a value of any length.
#[derive(Debug, Clone, Copy, PartialEq, Eq)]
pub struct ConfigResp<'a> {
    pub key: u16,
    pub status: u8,
    pub value: &'a [u8],
}

impl<'a> ConfigResp<'a> {
    /// Committed leading length; `value` is everything after it.
    pub const HEAD_LEN: usize = 3;

    /// Decodes the leading fields; the rest is `value`.
    pub fn decode(b: &'a [u8]) -> (r: Result<ConfigResp<'a>, PayloadError>)
        ensures
            b@.len() < Self::HEAD_LEN ==> r is Err && r->Err_0 == PayloadError::TooShort,
            b@.len() >= Self::HEAD_LEN ==> {
                &&& r is Ok
                &&& r->Ok_0.key == bytes::u16_at(b@, 0)
                &&& r->Ok_0.status == b@[2]
                &&& r->Ok_0.value@ == b@.skip(3)
            },
    {
        if b.len() < Self::HEAD_LEN {
            return Err(PayloadError::TooShort);
        }
        let value = &b[Self::HEAD_LEN..b.len()];
        assert(value@ =~= b@.skip(3));
        Ok(ConfigResp { key: bytes::rd_u16(b, 0), status: b[2], value })
    }
}

/// A generic event: an id and arguments of any length.
#[derive(Debug, Clone, Copy, PartialEq, Eq)]
pub struct Event<'a> {
    pub event_id: u8,
    pub args: &'a [u8],
}

impl<'a> Event<'a> {
    /// Committed leading length; `args` is everything after it.
    pub const HEAD_LEN: usize = 1;

    /// Decodes the leading fields; the rest is `args`.
    pub fn decode(b: &'a [u8]) -> (r: Result<Event<'a>, PayloadError>)
        ensures
            b@.len() < Self::HEAD_LEN ==> r is Err && r->Err_0 == PayloadError::TooShort,
            b@.len() >= Self::HEAD_LEN ==> {
                &&& r is Ok
                &&& r->Ok_0.event_id == b@[0]
                &&& r->Ok_0.args@ == b@.skip(1)
            },
    {
        if b.len() < Self::HEAD_LEN {
            return Err(PayloadError::TooShort);
        }
        let args = &b[Self::HEAD_LEN..b.len()];
        assert(args@ =~= b@.skip(1));
        Ok(Event { event_id: b[0], args })
    }
}

} // verus!
