//! Q32.32 arithmetic by the numbers' bits.

use fixed::types::I32F32;
use vstd::prelude::*;

verus! {

/// The bits of one.
pub const ONE: i64 = 0x1_0000_0000;

/// The bits of the product of two Q32.32 numbers, rounded down.
pub open spec fn product(a: int, b: int) -> int {
    (a * b) / (ONE as int)
}

/// `fixed::types::I32F32::from_num` on an `i16`: the integer without a fractional part, which
/// always fits.
#[verifier::external_body]
pub(crate) fn from_i16(v: i16) -> (q: i64)
    ensures
        q == v * ONE,
{
    I32F32::from_num(v).to_bits()
}

/// The product of two `fixed::types::I32F32` numbers: the double-width product of their bits,
/// shifted down by the 32 fractional bits, which rounds toward minus infinity. A product that does
/// not fit panics in a debug build, and is left out.
#[verifier::external_body]
pub(crate) fn times(a: i64, b: i64) -> (q: i64)
    requires
        i64::MIN <= product(a as int, b as int) <= i64::MAX,
    ensures
        q == product(a as int, b as int),
{
    (I32F32::from_bits(a) * I32F32::from_bits(b)).to_bits()
}

/// The sum of two `fixed::types::I32F32` numbers: the sum of their bits. A sum that does not fit
/// panics in a debug build, and is left out.
#[verifier::external_body]
pub(crate) fn plus(a: i64, b: i64) -> (q: i64)
    requires
        i64::MIN <= a + b <= i64::MAX,
    ensures
        q == a + b,
{
    (I32F32::from_bits(a) + I32F32::from_bits(b)).to_bits()
}

/// `fixed::types::I32F32::to_num` to an `i32`: the fractional bits are discarded, which rounds
/// toward minus infinity; the 32 integer bits always fit.
#[verifier::external_body]
pub(crate) fn whole(q: i64) -> (v: i32)
    ensures
        v == q as int / (ONE as int),
{
    I32F32::from_bits(q).to_num::<i32>()
}

} // verus!
