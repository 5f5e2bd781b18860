//! Frame opcodes.
//!
//! The opcode is byte 2 of the header. An unknown opcode is no error: a node ignores opcodes
//! outside its capabilities once the CRC has passed, so any other value is carried as it is.

use vstd::prelude::*;

verus! {

/// Frame opcode.
#[derive(Debug, Clone, Copy, PartialEq, Eq, Structural)]
pub enum Opcode {
    NodeHello,
    CyclicState,
    DriveCmd,
    Telemetry,
    ConfigRead,
    ConfigWrite,
    ConfigResp,
    Fault,
    Inputs,
    Event,
    /// An opcode byte with no meaning here. Carries the raw value.
    Unknown(u8),
}

/// The opcode that a wire byte stands for.
pub open spec fn opcode_of(v: u8) -> Opcode {
    if v == 0x01 {
        Opcode::NodeHello
    } else if v == 0x10 {
        Opcode::CyclicState
    } else if v == 0x11 {
        Opcode::DriveCmd
    } else if v == 0x20 {
        Opcode::Telemetry
    } else if v == 0x30 {
        Opcode::ConfigRead
    } else if v == 0x31 {
        Opcode::ConfigWrite
    } else if v == 0x32 {
        Opcode::ConfigResp
    } else if v == 0x40 {
        Opcode::Fault
    } else if v == 0x50 {
        Opcode::Inputs
    } else if v == 0x60 {
        Opcode::Event
    } else {
        Opcode::Unknown(v)
    }
}

impl Opcode {
    /// The wire byte of this opcode.
    pub open spec fn byte(self) -> u8 {
        match self {
            Opcode::NodeHello => 0x01,
            Opcode::CyclicState => 0x10,
            Opcode::DriveCmd => 0x11,
            Opcode::Telemetry => 0x20,
            Opcode::ConfigRead => 0x30,
            Opcode::ConfigWrite => 0x31,
            Opcode::ConfigResp => 0x32,
            Opcode::Fault => 0x40,
            Opcode::Inputs => 0x50,
            Opcode::Event => 0x60,
            Opcode::Unknown(v) => v,
        }
    }

    /// The opcode of a raw byte.
    pub fn from_u8(v: u8) -> (op: Opcode)
        ensures
            op == opcode_of(v),
    {
        match v {
            0x01 => Opcode::NodeHello,
            0x10 => Opcode::CyclicState,
            0x11 => Opcode::DriveCmd,
            0x20 => Opcode::Telemetry,
            0x30 => Opcode::ConfigRead,
            0x31 => Opcode::ConfigWrite,
            0x32 => Opcode::ConfigResp,
            0x40 => Opcode::Fault,
            0x50 => Opcode::Inputs,
            0x60 => Opcode::Event,
            other => Opcode::Unknown(other),
        }
    }

    /// The raw byte of this opcode.
    pub fn to_u8(self) -> (v: u8)
        ensures
            v == self.byte(),
    {
        match self {
            Opcode::NodeHello => 0x01,
            Opcode::CyclicState => 0x10,
            Opcode::DriveCmd => 0x11,
            Opcode::Telemetry => 0x20,
            Opcode::ConfigRead => 0x30,
            Opcode::ConfigWrite => 0x31,
            Opcode::ConfigResp => 0x32,
            Opcode::Fault => 0x40,
            Opcode::Inputs => 0x50,
            Opcode::Event => 0x60,
            Opcode::Unknown(v) => v,
        }
    }
}

/// Every byte survives the trip through its opcode, known or not.
pub proof fn lemma_byte_round_trip(v: u8)
    ensures
        opcode_of(v).byte() == v,
{
}

/// Every known opcode survives the trip through its byte.
pub proof fn lemma_known_round_trip(op: Opcode)
    requires
        !(op is Unknown),
    ensures
        opcode_of(op.byte()) == op,
{
}

/// The byte of each opcode, and that no two opcodes known here share one.
pub proof fn lemma_values(a: Opcode, b: Opcode)
    ensures
        Opcode::NodeHello.byte() == 1,
        Opcode::CyclicState.byte() == 16 && Opcode::DriveCmd.byte() == 17,
        Opcode::Telemetry.byte() == 32,
        Opcode::ConfigRead.byte() == 48 && Opcode::ConfigWrite.byte() == 49
            && Opcode::ConfigResp.byte() == 50,
        Opcode::Fault.byte() == 64,
        Opcode::Inputs.byte() == 80,
        Opcode::Event.byte() == 96,
        a is Unknown ==> a.byte() == a->Unknown_0,
        !(a is Unknown) && !(b is Unknown) && a.byte() == b.byte() ==> a == b,
{
}

} // verus!
