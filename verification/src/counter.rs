//! Counters that start again from 0.

use vstd::prelude::*;

verus! {

/// One more, from the largest number to 0.
pub open spec fn after16(n: u16) -> u16 {
    if n < u16::MAX {
        (n + 1) as u16
    } else {
        0
    }
}

/// One more, from the largest number to 0.
pub open spec fn after32(n: u32) -> u32 {
    if n < u32::MAX {
        (n + 1) as u32
    } else {
        0
    }
}

/// One more, from the largest number to 0.
pub fn inc16(n: u16) -> (r: u16)
    ensures
        r == after16(n),
{
    if n < u16::MAX {
        n + 1
    } else {
        0
    }
}

/// One more, from the largest number to 0.
pub fn inc32(n: u32) -> (r: u32)
    ensures
        r == after32(n),
{
    if n < u32::MAX {
        n + 1
    } else {
        0
    }
}

/// Counting goes around: one more, modulo the number of values.
pub proof fn lemma_wraps(a: u16, b: u32)
    ensures
        after16(a) as int == (a + 1) % 0x1_0000,
        after32(b) as int == (b + 1) % 0x1_0000_0000,
{
}

} // verus!
