//! CRC-16/MODBUS.

use vstd::prelude::*;

verus! {

/// The register before the first byte.
pub const CRC_INIT: u16 = 0xFFFF;

/// One shift of the register: reflected polynomial `0x8005`, which is `0xA001`.
pub open spec fn crc_shift(r: u16) -> u16 {
    if r & 1 == 1 {
        (r >> 1) ^ 0xA001
    } else {
        r >> 1
    }
}

/// The register after one byte: the byte is folded into the low half and shifted through.
pub open spec fn crc_step(r: u16, b: u8) -> u16 {
    crc_shift(crc_shift(crc_shift(crc_shift(crc_shift(crc_shift(crc_shift(crc_shift(
        r ^ (b as u16)))))))))
}

/// The register after all of `bytes`, from `r`.
pub open spec fn crc_from(r: u16, bytes: Seq<u8>) -> u16
    decreases bytes.len(),
{
    if bytes.len() == 0 {
        r
    } else {
        crc_step(crc_from(r, bytes.drop_last()), bytes.last())
    }
}

/// The CRC-16/MODBUS of `bytes`.
pub open spec fn crc16(bytes: Seq<u8>) -> u16 {
    crc_from(CRC_INIT, bytes)
}

/// CRC-16/MODBUS over `bytes`: `crc::Crc::<u16>::checksum` with `crc::CRC_16_MODBUS`.
///
/// Taken on trust: the result is [`crc16`], the register that starts at all ones, takes each
/// byte reflected through polynomial `0x8005`, and is given out as it stands.
#[verifier::external_body]
pub fn modbus(bytes: &[u8]) -> (crc: u16)
    ensures
        crc == crc16(bytes@),
{
    crc::Crc::<u16>::new(&crc::CRC_16_MODBUS).checksum(bytes)
}

/// A shift loses nothing: different registers stay different.
proof fn lemma_shift_injective(a: u16, b: u16)
    requires
        crc_shift(a) == crc_shift(b),
    ensures
        a == b,
{
    assert(crc_shift(a) == crc_shift(b) ==> a == b) by (bit_vector);
}

/// A step loses nothing of the register or of the byte: with one of the two fixed, a different
/// other one gives a different register.
proof fn lemma_step_injective(r1: u16, b1: u8, r2: u16, b2: u8)
    requires
        crc_step(r1, b1) == crc_step(r2, b2),
    ensures
        r1 == r2 ==> b1 == b2,
        b1 == b2 ==> r1 == r2,
{
    let x1 = crc_shift(r1 ^ (b1 as u16));
    let x2 = crc_shift(r2 ^ (b2 as u16));
    let y1 = crc_shift(crc_shift(x1));
    let y2 = crc_shift(crc_shift(x2));
    let z1 = crc_shift(crc_shift(y1));
    let z2 = crc_shift(crc_shift(y2));
    lemma_shift_injective(crc_shift(crc_shift(z1)), crc_shift(crc_shift(z2)));
    lemma_shift_injective(crc_shift(z1), crc_shift(z2));
    lemma_shift_injective(z1, z2);
    lemma_shift_injective(crc_shift(y1), crc_shift(y2));
    lemma_shift_injective(y1, y2);
    lemma_shift_injective(crc_shift(x1), crc_shift(x2));
    lemma_shift_injective(x1, x2);
    lemma_shift_injective(r1 ^ (b1 as u16), r2 ^ (b2 as u16));
    assert(r1 ^ (b1 as u16) == r2 ^ (b2 as u16) ==> (r1 == r2 ==> b1 == b2) && (b1 == b2 ==> r1
        == r2)) by (bit_vector);
}

/// The CRC tells apart any two byte strings of one length that differ in exactly one byte.
pub proof fn lemma_single_byte_error(s: Seq<u8>, t: Seq<u8>, i: int)
    requires
        s.len() == t.len(),
        0 <= i < s.len(),
        s[i] != t[i],
        forall|j: int| 0 <= j < s.len() && j != i ==> s[j] == t[j],
    ensures
        crc16(s) != crc16(t),
    decreases s.len(),
{
    if i == s.len() - 1 {
        assert(s.drop_last() =~= t.drop_last());
    } else {
        lemma_single_byte_error(s.drop_last(), t.drop_last(), i);
    }
    if crc16(s) == crc16(t) {
        lemma_step_injective(
            crc_from(CRC_INIT, s.drop_last()),
            s.last(),
            crc_from(CRC_INIT, t.drop_last()),
            t.last(),
        );
    }
}

} // verus!
