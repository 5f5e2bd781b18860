//! Byte strings: little-endian words, and copies between slices and vectors.

use vstd::prelude::*;

verus! {

/// The number whose little-endian bytes are `lo` and `hi`.
pub open spec fn le16(lo: u8, hi: u8) -> int {
    lo + 256 * hi
}

/// The number in two's complement whose 16-bit pattern is `v`.
pub open spec fn signed16(v: int) -> int {
    if v < 0x8000 {
        v
    } else {
        v - 0x1_0000
    }
}

/// The 16-bit pattern of `v` in two's complement.
pub open spec fn pattern16(v: int) -> int {
    if v >= 0 {
        v
    } else {
        v + 0x1_0000
    }
}

/// The two little-endian bytes of the 16-bit pattern `v`.
pub open spec fn le16_bytes(v: int) -> Seq<u8> {
    seq![(v % 256) as u8, (v / 256) as u8]
}

/// Bit `i` of a byte.
pub open spec fn bit(b: u8, i: int) -> bool {
    (b >> (i as u8)) & 1 != 0
}

/// Unsigned little-endian word at `at`.
pub open spec fn u16_at(s: Seq<u8>, at: int) -> u16 {
    le16(s[at], s[at + 1]) as u16
}

/// Signed little-endian word at `at`.
pub open spec fn i16_at(s: Seq<u8>, at: int) -> i16 {
    signed16(le16(s[at], s[at + 1])) as i16
}

/// The unsigned word in the two bytes of `p` from `at` on.
pub fn rd_u16(p: &[u8], at: usize) -> (v: u16)
    requires
        at + 2 <= p@.len(),
    ensures
        v == u16_at(p@, at as int),
{
    p[at] as u16 + 256 * (p[at + 1] as u16)
}

/// The signed word in the two bytes of `p` from `at` on.
pub fn rd_i16(p: &[u8], at: usize) -> (v: i16)
    requires
        at + 2 <= p@.len(),
    ensures
        v == i16_at(p@, at as int),
{
    let v: u16 = rd_u16(p, at);
    if v < 0x8000 {
        v as i16
    } else {
        (v as i32 - 0x1_0000) as i16
    }
}

/// The low byte of `v`.
pub fn lo(v: u16) -> (b: u8)
    ensures
        b == v % 256,
{
    (v % 256) as u8
}

/// The high byte of `v`.
pub fn hi(v: u16) -> (b: u8)
    ensures
        b == v / 256,
{
    (v / 256) as u8
}

/// The bit pattern of `v`.
pub fn pattern(v: i16) -> (u: u16)
    ensures
        u == pattern16(v as int),
{
    if v >= 0 {
        v as u16
    } else {
        (v as i32 + 0x1_0000) as u16
    }
}

/// The number in two's complement whose bit pattern is `u`.
pub fn signed(u: u16) -> (v: i16)
    ensures
        v == signed16(u as int),
{
    if u < 0x8000 {
        u as i16
    } else {
        (u as i32 - 0x1_0000) as i16
    }
}

/// Copies `src` over the bytes of `out` from `at` on.
pub fn copy_into(out: &mut [u8], at: usize, src: &[u8])
    requires
        at + src@.len() <= old(out)@.len(),
    ensures
        final(out)@.len() == old(out)@.len(),
        final(out)@ == old(out)@.take(at as int) + src@ + old(out)@.skip(at + src@.len()),
{
    let n: usize = out.len();
    let mut i: usize = 0;
    while i < src.len()
        invariant
            0 <= i <= src@.len(),
            out@.len() == old(out)@.len(),
            out@.len() == n,
            at + src@.len() <= out@.len(),
            forall|j: int| 0 <= j < i ==> out@[at + j] == src@[j],
            forall|j: int|
                0 <= j < out@.len() && !(at <= j < at + i) ==> out@[j] == old(out)@[j],
        decreases src@.len() - i,
    {
        out[at + i] = src[i];
        i += 1;
    }
    let ghost want = old(out)@.take(at as int) + src@ + old(out)@.skip(at + src@.len());
    assert forall|j: int| 0 <= j < out@.len() implies out@[j] == want[j] by {
        if at <= j < at + src@.len() {
            assert(out@[at + (j - at)] == src@[j - at]);
        }
    }
    assert(out@ =~= want);
}

/// A vector that holds the bytes of `s`.
pub fn to_vec(s: &[u8]) -> (v: Vec<u8>)
    ensures
        v@ == s@,
{
    let mut v: Vec<u8> = Vec::new();
    v.extend_from_slice(s);
    assert(v@ =~= s@);
    v
}

/// True when the two byte strings are equal.
pub fn same(a: &[u8], b: &[u8]) -> (eq: bool)
    ensures
        eq == (a@ == b@),
{
    if a.len() != b.len() {
        return false;
    }
    let mut i: usize = 0;
    while i < a.len()
        invariant
            a@.len() == b@.len(),
            0 <= i <= a@.len(),
            forall|j: int| 0 <= j < i ==> a@[j] == b@[j],
        decreases a@.len() - i,
    {
        if a[i] != b[i] {
            return false;
        }
        i += 1;
    }
    assert(a@ =~= b@);
    true
}

/// The byte strings held by a vector of byte vectors.
pub open spec fn views(v: Seq<Vec<u8>>) -> Seq<Seq<u8>> {
    Seq::new(v.len(), |i: int| v[i]@)
}

/// Writing a word and reading it back gives the word.
pub proof fn lemma_word_round_trip(v: i16)
    ensures
        signed16(pattern16(v as int)) == v,
        0 <= pattern16(v as int) < 0x1_0000,
        le16(
            le16_bytes(pattern16(v as int))[0],
            le16_bytes(pattern16(v as int))[1],
        ) == pattern16(v as int),
{
}

} // verus!
