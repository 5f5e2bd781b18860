//! The network PDU: one PDU rides inside one link packet.
//!
//! ```text
//! [ opcode : 1 ][ src : 1 ][ dst : 1 ][ payload : ... ]
//! ```
//!
//! The link owns framing, length, and integrity, so the PDU has none of these. `0x00` and `0xFF`
//! are never valid opcodes. An unknown opcode is not an error: any structurally valid PDU decodes,
//! and ignoring an opcode is the business of the node.

use crate::bytes;
use vstd::prelude::*;

verus! {

/// The destination that means everyone.
pub const BROADCAST: u8 = 0xFF;

/// "No address yet": the source of an unassigned board, or "the one peer" on a point-to-point
/// link. It is never a routable destination and is never learned into a routing table.
pub const NO_ADDRESS: u8 = 0x00;

/// The fixed header length: opcode, source, destination.
pub const HEADER_LEN: usize = 3;

/// A board address: persistent, assigned once.
pub open spec fn board(a: u8) -> bool {
    0x01 <= a <= 0x7F
}

/// A controller or guest address: transient, for one session.
pub open spec fn controller(a: u8) -> bool {
    0x80 <= a <= 0xFE
}

/// A routable, learnable address.
pub open spec fn unicast(a: u8) -> bool {
    board(a) || controller(a)
}

/// Is `a` a board address?
pub fn is_board(a: u8) -> (b: bool)
    ensures
        b == board(a),
{
    0x01 <= a && a <= 0x7F
}

/// Is `a` a controller or guest address?
pub fn is_controller(a: u8) -> (b: bool)
    ensures
        b == controller(a),
{
    0x80 <= a && a <= 0xFE
}

/// Is `a` a routable, learnable address? `0x00` and `0xFF` are not.
pub fn is_unicast(a: u8) -> (b: bool)
    ensures
        b == unicast(a),
        b == (a != NO_ADDRESS && a != BROADCAST),
{
    is_board(a) || is_controller(a)
}

/// The opcodes that the network layer interprets. Any other is forwarded by destination, or left
/// to the application of the addressed node.
#[derive(Clone, Copy, PartialEq, Eq, Debug, Structural)]
pub enum Opcode {
    /// First contact: identity, and the grant of a guest address.
    NodeHello,
    /// "Map your links": probe each port and report.
    ProbePorts,
    /// The report: per port its kind and the state of the neighbour.
    Ports,
    /// Hands out an address to be persisted, directly or through a relay.
    Assign,
    /// The board confirms that it persisted the address, or refuses.
    AssignAck,
    /// Reads a configuration field.
    ConfigRead,
    /// Writes a configuration field.
    ConfigWrite,
    /// Read result or write acknowledgement.
    ConfigResp,
    /// Writes a whole board definition.
    ConfigWriteMulti,
}

/// The known opcode of a byte.
pub open spec fn opcode_of(b: u8) -> Option<Opcode> {
    if b == 0x01 {
        Some(Opcode::NodeHello)
    } else if b == 0x02 {
        Some(Opcode::ProbePorts)
    } else if b == 0x03 {
        Some(Opcode::Ports)
    } else if b == 0x06 {
        Some(Opcode::Assign)
    } else if b == 0x07 {
        Some(Opcode::AssignAck)
    } else if b == 0x30 {
        Some(Opcode::ConfigRead)
    } else if b == 0x31 {
        Some(Opcode::ConfigWrite)
    } else if b == 0x32 {
        Some(Opcode::ConfigResp)
    } else if b == 0x33 {
        Some(Opcode::ConfigWriteMulti)
    } else {
        None
    }
}

impl Opcode {
    /// The wire byte.
    pub open spec fn byte(self) -> u8 {
        match self {
            Opcode::NodeHello => 0x01,
            Opcode::ProbePorts => 0x02,
            Opcode::Ports => 0x03,
            Opcode::Assign => 0x06,
            Opcode::AssignAck => 0x07,
            Opcode::ConfigRead => 0x30,
            Opcode::ConfigWrite => 0x31,
            Opcode::ConfigResp => 0x32,
            Opcode::ConfigWriteMulti => 0x33,
        }
    }

    /// The wire byte of the opcode.
    pub fn to_u8(self) -> (b: u8)
        ensures
            b == self.byte(),
    {
        match self {
            Opcode::NodeHello => 0x01,
            Opcode::ProbePorts => 0x02,
            Opcode::Ports => 0x03,
            Opcode::Assign => 0x06,
            Opcode::AssignAck => 0x07,
            Opcode::ConfigRead => 0x30,
            Opcode::ConfigWrite => 0x31,
            Opcode::ConfigResp => 0x32,
            Opcode::ConfigWriteMulti => 0x33,
        }
    }

    /// The opcode of a byte, or `None` for one that the network layer does not interpret.
    pub fn from_u8(b: u8) -> (op: Option<Opcode>)
        ensures
            op == opcode_of(b),
    {
        match b {
            0x01 => Some(Opcode::NodeHello),
            0x02 => Some(Opcode::ProbePorts),
            0x03 => Some(Opcode::Ports),
            0x06 => Some(Opcode::Assign),
            0x07 => Some(Opcode::AssignAck),
            0x30 => Some(Opcode::ConfigRead),
            0x31 => Some(Opcode::ConfigWrite),
            0x32 => Some(Opcode::ConfigResp),
            0x33 => Some(Opcode::ConfigWriteMulti),
            _ => None,
        }
    }
}

/// Every opcode survives the trip through its byte.
pub proof fn lemma_opcode_round_trip(op: Opcode)
    ensures
        opcode_of(op.byte()) == Some(op),
{
}

/// Why [`Pdu::decode`] or [`Pdu::encode`] failed.
#[derive(Clone, Copy, PartialEq, Eq, Debug, Structural)]
pub enum PduError {
    /// Not even a full header.
    TooShort,
    /// The opcode byte is `0x00` or `0xFF`.
    InvalidOpcode,
    /// The `out` buffer is smaller than the encoded PDU.
    OutTooSmall,
}

/// An opcode byte that may stand on the wire.
pub open spec fn valid_opcode(b: u8) -> bool {
    b != 0x00 && b != 0xFF
}

/// One PDU: the header fields and the payload.
#[derive(Clone, Copy, PartialEq, Eq, Debug)]
pub struct Pdu<'a> {
    /// The raw opcode byte.
    pub opcode: u8,
    /// The source address.
    pub src: u8,
    /// The destination address.
    pub dst: u8,
    /// The payload, opaque to the network layer unless it handles the opcode.
    pub payload: &'a [u8],
}

/// The bytes of a PDU.
pub open spec fn pdu_bytes(opcode: u8, src: u8, dst: u8, payload: Seq<u8>) -> Seq<u8> {
    seq![opcode, src, dst] + payload
}

impl<'a> Pdu<'a> {
    /// The encoded form.
    pub open spec fn bytes(self) -> Seq<u8> {
        pdu_bytes(self.opcode, self.src, self.dst, self.payload@)
    }

    /// A PDU from its parts.
    pub fn new(opcode: u8, src: u8, dst: u8, payload: &'a [u8]) -> (r: Result<Self, PduError>)
        ensures
            valid_opcode(opcode) ==> r == Ok::<Self, PduError>(Pdu { opcode, src, dst, payload }),
            !valid_opcode(opcode) ==> r == Err::<Self, PduError>(PduError::InvalidOpcode),
    {
        if opcode == 0x00 || opcode == 0xFF {
            return Err(PduError::InvalidOpcode);
        }
        Ok(Pdu { opcode, src, dst, payload })
    }

    /// A PDU under a known opcode.
    pub fn from_op(opcode: Opcode, src: u8, dst: u8, payload: &'a [u8]) -> (p: Self)
        ensures
            p == (Pdu { opcode: opcode.byte(), src, dst, payload }),
            valid_opcode(p.opcode),
    {
        Pdu { opcode: opcode.to_u8(), src, dst, payload }
    }

    /// Decodes a PDU from one link packet.
    pub fn decode(buf: &'a [u8]) -> (r: Result<Self, PduError>)
        ensures
            match r {
                Err(PduError::TooShort) => buf@.len() < 3,
                Err(PduError::InvalidOpcode) => buf@.len() >= 3 && !valid_opcode(buf@[0]),
                Err(PduError::OutTooSmall) => false,
                Ok(p) => buf@.len() >= 3 && valid_opcode(buf@[0]) && p.opcode == buf@[0] && p.src
                    == buf@[1] && p.dst == buf@[2] && p.payload@ == buf@.skip(3),
            },
    {
        if buf.len() < HEADER_LEN {
            return Err(PduError::TooShort);
        }
        let opcode: u8 = buf[0];
        if opcode == 0x00 || opcode == 0xFF {
            return Err(PduError::InvalidOpcode);
        }
        let payload = &buf[HEADER_LEN..buf.len()];
        assert(payload@ =~= buf@.skip(3));
        Ok(Pdu { opcode, src: buf[1], dst: buf[2], payload })
    }

    /// Encodes the PDU into the front of `out`, returning the encoded length.
    pub fn encode(&self, out: &mut [u8]) -> (r: Result<usize, PduError>)
        ensures
            match r {
                Err(PduError::InvalidOpcode) => !valid_opcode(self.opcode),
                Err(PduError::OutTooSmall) => valid_opcode(self.opcode) && old(out)@.len()
                    < self.payload@.len() + 3,
                Err(PduError::TooShort) => false,
                Ok(n) => valid_opcode(self.opcode) && n == self.payload@.len() + 3 && n <= old(
                    out,
                )@.len(),
            },
            r is Err ==> final(out)@ == old(out)@,
            r is Ok ==> final(out)@ == self.bytes() + old(out)@.skip(r->Ok_0 as int),
    {
        if self.opcode == 0x00 || self.opcode == 0xFF {
            return Err(PduError::InvalidOpcode);
        }
        if out.len() < HEADER_LEN || out.len() - HEADER_LEN < self.payload.len() {
            return Err(PduError::OutTooSmall);
        }
        let total: usize = HEADER_LEN + self.payload.len();
        out[0] = self.opcode;
        out[1] = self.src;
        out[2] = self.dst;
        bytes::copy_into(out, HEADER_LEN, self.payload);
        assert(out@ =~= self.bytes() + old(out)@.skip(total as int));
        Ok(total)
    }

    /// The known opcode this PDU carries, if any.
    pub fn known(&self) -> (op: Option<Opcode>)
        ensures
            op == opcode_of(self.opcode),
    {
        Opcode::from_u8(self.opcode)
    }
}

/// The encoded form of a PDU decodes to its parts.
pub proof fn lemma_pdu_round_trip(opcode: u8, src: u8, dst: u8, payload: Seq<u8>)
    ensures
        ({
            let b = pdu_bytes(opcode, src, dst, payload);
            &&& b.len() == payload.len() + 3
            &&& b[0] == opcode
            &&& b[1] == src
            &&& b[2] == dst
            &&& b.skip(3) == payload
        }),
{
    assert(pdu_bytes(opcode, src, dst, payload).skip(3) =~= payload);
}

/// The bytes of the opcodes, and the addresses: none, boards, guests, and everyone.
pub proof fn lemma_values(a: u8)
    ensures
        Opcode::NodeHello.byte() == 1 && Opcode::ProbePorts.byte() == 2 && Opcode::Ports.byte() == 3,
        Opcode::Assign.byte() == 6 && Opcode::AssignAck.byte() == 7,
        Opcode::ConfigRead.byte() == 48 && Opcode::ConfigWrite.byte() == 49,
        Opcode::ConfigResp.byte() == 50 && Opcode::ConfigWriteMulti.byte() == 51,
        opcode_of(a) matches Some(op) ==> op.byte() == a,
        valid_opcode(a) <==> 1 <= a <= 254,
        board(a) <==> 1 <= a <= 127,
        controller(a) <==> 128 <= a <= 254,
        unicast(a) <==> 1 <= a <= 254,
{
}

} // verus!
