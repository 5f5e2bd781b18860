//! The one-byte fragmentation header.
//!
//! ```text
//! bit 7      MORE       1 = more fragments of this packet follow, 0 = last (or only) fragment
//! bits 6..4  PID        packet id, 0..7, increments per packet on this link (wraps)
//! bits 3..0  FRAG_IDX   fragment index within the packet, 0..15
//! ```
//!
//! It carries no addressing; the chunk it prefixes is an opaque slice of a packet.

use vstd::prelude::*;

verus! {

/// `MORE` bit (bit 7): more fragments of this packet follow.
pub const MORE_BIT: u8 = 0b1000_0000;

/// Shift to the `PID` field (bits 6..4).
const PID_SHIFT: u8 = 4;

/// `PID` is 3 bits, so the largest packet id is 7; also the mask for wrapping.
pub const MAX_PID: u8 = 0b0000_0111;

/// `FRAG_IDX` is 4 bits, so the largest fragment index is 15.
pub const MAX_FRAG_IDX: u8 = 0b0000_1111;

/// A packet is bounded to 16 fragments (`FRAG_IDX` 0..15).
pub const MAX_FRAGMENTS: usize = 16;

/// A parsed fragmentation header.
#[derive(Debug, Clone, Copy, PartialEq, Eq, Structural)]
pub struct FragHdr {
    /// True if more fragments of this packet follow.
    pub more: bool,
    /// Packet id, 0..=7.
    pub pid: u8,
    /// Fragment index within the packet, 0..=15.
    pub frag_idx: u8,
}

impl FragHdr {
    /// The fields are within their widths.
    pub open spec fn wf(self) -> bool {
        self.pid <= MAX_PID && self.frag_idx <= MAX_FRAG_IDX
    }

    /// The wire byte as a number: the three fields, each reduced to its width.
    pub open spec fn byte(self) -> int {
        (if self.more { 128int } else { 0 }) + 16 * (self.pid as int % 8) + self.frag_idx as int % 16
    }

    /// Packs the header into its wire byte. `pid` and `frag_idx` are reduced to their fields, so
    /// an out-of-range value cannot bleed into a neighbouring field.
    pub fn encode(&self) -> (b: u8)
        ensures
            b == self.byte(),
    {
        let more: u8 = if self.more { MORE_BIT } else { 0 };
        let pid: u8 = self.pid;
        let idx: u8 = self.frag_idx;
        assert((more == 0 || more == 0x80) ==> (more | ((pid & 7) << 4) | (idx & 15)) == more + 16 * (pid
            % 8) + idx % 16) by (bit_vector);
        more | ((self.pid & MAX_PID) << PID_SHIFT) | (self.frag_idx & MAX_FRAG_IDX)
    }

    /// Unpacks the wire byte. Every byte is a valid header: all three fields are fixed-width.
    pub fn decode(b: u8) -> (h: FragHdr)
        ensures
            h == header_of(b),
            h.wf(),
    {
        assert((b & 0x80 != 0) == (b >= 128)) by (bit_vector);
        assert((b >> 4) & 7 == b / 16 % 8) by (bit_vector);
        assert(b & 15 == b % 16) by (bit_vector);
        FragHdr {
            more: (b & MORE_BIT) != 0,
            pid: (b >> PID_SHIFT) & MAX_PID,
            frag_idx: b & MAX_FRAG_IDX,
        }
    }
}

/// The header that a wire byte stands for.
pub open spec fn header_of(b: u8) -> FragHdr {
    FragHdr { more: b >= 128, pid: (b / 16 % 8) as u8, frag_idx: (b % 16) as u8 }
}

/// Unpacking a byte and packing the header again gives the byte back.
pub proof fn lemma_decode_encode(b: u8)
    ensures
        header_of(b).byte() == b,
{
}

/// Packing a header whose fields are within their widths and unpacking the byte gives the header
/// back.
pub proof fn lemma_encode_decode(h: FragHdr)
    requires
        h.wf(),
    ensures
        0 <= h.byte() < 256,
        header_of(h.byte() as u8) == h,
{
}

/// The packet id after `pid`: ids run 0..7 and wrap.
pub fn next_pid(pid: u8) -> (next: u8)
    requires
        pid <= MAX_PID,
    ensures
        next == (pid + 1) % 8,
{
    let n: u8 = pid + 1;
    assert(n & 7 == n % 8) by (bit_vector);
    n & MAX_PID
}

/// Where the fields stand in the byte: `MORE` on top, the packet id below it, the index at the
/// bottom, none of them touching another.
pub proof fn lemma_places(h: FragHdr, b: u8)
    ensures
        h.byte() >= 128 <==> h.more,
        h.byte() % 128 / 16 == h.pid as int % 8,
        h.byte() % 16 == h.frag_idx as int % 16,
        0 <= h.byte() < 256,
        header_of(b).more <==> b >= 128,
        header_of(b).pid == b % 128 / 16,
        header_of(b).frag_idx == b % 16,
{
}

} // verus!
