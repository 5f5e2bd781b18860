//! The throttle: the scaled sample, and a single-pole low-pass over it.
//!
//! The filter's carry is a Q32.32 number, kept here by its bits. With `Ka = 0.0003` and
//! `Kb = 0.9997` the time constant is about 13.3 s at 4 ms, so the carry needs every one of its 32
//! fractional bits.

use crate::qnum;
use vstd::prelude::*;

verus! {

/// The scaled throttle is `raw * SCALE_NUM / 2^SCALE_SHIFT`.
pub const SCALE_NUM: u32 = 0x27F6;

/// See [`SCALE_NUM`].
pub const SCALE_SHIFT: u32 = 15;

/// The throttle at rest reports this value.
pub const OUTPUT_BIAS: i32 = 200;

/// The weight of a new sample, 0.0003, to the nearest Q32.32 number.
pub const KA_BITS: i64 = 1_288_490;

/// The weight of the carry, 0.9997, to the nearest Q32.32 number. The two weights sum to one.
pub const KB_BITS: i64 = 4_293_678_806;

/// The largest scaled throttle.
pub const SCALED_MAX: i16 = 20_459;

/// The scaled throttle of a raw sample.
pub open spec fn scaled(raw: u16) -> int {
    (raw * SCALE_NUM) / 0x8000
}

/// The scaled, un-smoothed throttle of one raw sample.
pub fn scaled_throttle(raw: u16) -> (s: i16)
    ensures
        s == scaled(raw),
        0 <= s <= SCALED_MAX,
{
    let wide: u32 = (raw as u32) * SCALE_NUM;
    assert(wide >> 15 == wide / 0x8000) by (bit_vector);
    let shifted: u32 = wide >> SCALE_SHIFT;
    shifted as i16
}

/// The state of the filter: the carry in Q32.32 bits, none before the first sample.
pub struct Filter {
    pub baseline: int,
    pub initialized: bool,
}

/// The carry after mixing a sample into it: each product rounds down to a Q32.32 number.
pub open spec fn mixed(baseline: int, s: int) -> int {
    qnum::product(baseline, KB_BITS as int) + qnum::product(s * qnum::ONE, KA_BITS as int)
}

/// The filter after a sample: the first is captured as it is, the others are mixed in.
pub open spec fn filter_step(f: Filter, raw: u16) -> Filter {
    Filter {
        baseline: if f.initialized {
            mixed(f.baseline, scaled(raw))
        } else {
            scaled(raw) * qnum::ONE
        },
        initialized: true,
    }
}

/// The reported throttle: the whole part of the carry, which is never negative, plus the bias.
pub open spec fn output(f: Filter) -> int {
    f.baseline / (qnum::ONE as int) + OUTPUT_BIAS
}

/// The throttle filter.
#[derive(Clone, Copy, Debug)]
pub struct ThrottleFilter {
    baseline: i64,
    ka: i64,
    kb: i64,
    initialized: bool,
}

impl View for ThrottleFilter {
    type V = Filter;

    closed spec fn view(&self) -> Filter {
        Filter { baseline: self.baseline as int, initialized: self.initialized }
    }
}

impl ThrottleFilter {
    /// The carry lies in the range of the scaled throttle.
    pub closed spec fn wf(&self) -> bool {
        &&& 0 <= self.baseline <= SCALED_MAX * qnum::ONE
        &&& self.ka == KA_BITS
        &&& self.kb == KB_BITS
    }

    /// A fresh filter: nothing captured yet.
    pub fn new() -> (f: Self)
        ensures
            f.wf(),
            f@ == (Filter { baseline: 0, initialized: false }),
    {
        ThrottleFilter { baseline: 0, ka: KA_BITS, kb: KB_BITS, initialized: false }
    }

    /// Whether the first sample was captured.
    pub fn is_initialized(&self) -> (b: bool)
        ensures
            b == self@.initialized,
    {
        self.initialized
    }

    /// The carry, in Q32.32 bits.
    pub fn baseline_bits(&self) -> (b: i64)
        ensures
            b == self@.baseline,
    {
        self.baseline
    }

    /// Takes one raw sample and returns the biased throttle.
    pub fn step(&mut self, raw: u16) -> (out: i16)
        requires
            old(self).wf(),
        ensures
            final(self).wf(),
            final(self)@ == filter_step(old(self)@, raw),
            out == output(final(self)@),
    {
        let s: i16 = scaled_throttle(raw);
        let s_q: i64 = qnum::from_i16(s);
        if !self.initialized {
            self.baseline = s_q;
            self.initialized = true;
        } else {
            proof {
                lemma_mix_between(self.baseline as int, s_q as int);
            }
            let carried: i64 = qnum::times(self.baseline, self.kb);
            let fresh: i64 = qnum::times(s_q, self.ka);
            self.baseline = qnum::plus(carried, fresh);
        }
        let whole: i32 = qnum::whole(self.baseline);
        (whole + OUTPUT_BIAS) as i16
    }
}

impl Default for ThrottleFilter {
    fn default() -> (f: Self)
        ensures
            f.wf(),
            f@ == (Filter { baseline: 0, initialized: false }),
    {
        ThrottleFilter::new()
    }
}

/// A mix lies between its two parts, but for one lost bit.
pub proof fn lemma_mix_between(b: int, s: int)
    requires
        b >= 0,
        s >= 0,
    ensures
        ({
            let m = qnum::product(b, KB_BITS as int) + qnum::product(s, KA_BITS as int);
            &&& m <= vstd::math::max(b, s)
            &&& m >= vstd::math::min(b, s) - 1
            &&& m >= 0
        }),
        0 <= qnum::product(b, KB_BITS as int) <= b,
        0 <= qnum::product(s, KA_BITS as int) <= s,
{
}

/// The filter lags: to within the lowest bit, a step leaves the carry between where it was and the
/// sample, so that it never runs past the sample, and a filter at rest on a sample stays there.
pub proof fn lemma_filter_lags(f: Filter, raw: u16)
    requires
        f.initialized,
        f.baseline >= 0,
    ensures
        ({
            let s = scaled(raw) * qnum::ONE;
            let g = filter_step(f, raw).baseline;
            &&& f.baseline <= s ==> f.baseline - 1 <= g <= s
            &&& f.baseline >= s ==> s - 1 <= g <= f.baseline
        }),
{
    lemma_mix_between(f.baseline, scaled(raw) * qnum::ONE);
}

/// A throttle that was never moved rests at the bias.
pub proof fn lemma_rest(f: Filter)
    requires
        f.baseline == 0,
    ensures
        filter_step(f, 0).baseline == 0,
        output(filter_step(f, 0)) == OUTPUT_BIAS,
{
}

/// The scaled throttle is the sample times 10230 over 32768, rounded down: it is 0 for 0, and a
/// larger sample never gives a smaller one.
pub proof fn lemma_scaled(raw: u16, more: u16)
    ensures
        scaled(raw) * 32768 <= raw * 10230,
        raw * 10230 < (scaled(raw) + 1) * 32768,
        raw <= more ==> scaled(raw) <= scaled(more),
        0 <= scaled(raw) <= SCALED_MAX,
{
}

/// A step closes a fixed part of the distance: from below, the carry gains 1288490 parts in 2^32 of
/// what it lacks of the sample, rounded down; from above, it loses as many parts of what it has in
/// excess, rounded up.
pub proof fn lemma_step_closes_in(f: Filter, raw: u16)
    requires
        f.initialized,
    ensures
        ({
            let s = scaled(raw) * 0x1_0000_0000;
            let g = filter_step(f, raw);
            &&& g.initialized
            &&& f.baseline <= s ==> g.baseline == f.baseline + ((s - f.baseline) * 1288490)
                / 0x1_0000_0000
            &&& f.baseline >= s ==> g.baseline == f.baseline - ((f.baseline - s) * 1288490
                + 0xFFFF_FFFF) / 0x1_0000_0000
        }),
{
}

/// The first sample is taken as it is.
pub proof fn lemma_first_sample(f: Filter, raw: u16)
    requires
        !f.initialized,
    ensures
        filter_step(f, raw).initialized,
        filter_step(f, raw).baseline == scaled(raw) * 0x1_0000_0000,
        output(filter_step(f, raw)) == scaled(raw) + 200,
{
}

/// A held sample pulls the carry toward it, strictly, until it is there to within a millionth of a
/// unit, and never past it.
pub proof fn lemma_held_sample_pulls(f: Filter, raw: u16)
    requires
        f.initialized,
    ensures
        ({
            let s = scaled(raw) * 0x1_0000_0000;
            let g = filter_step(f, raw).baseline;
            &&& f.baseline < s - 3333 ==> f.baseline < g <= s
            &&& s - 3333 <= f.baseline <= s ==> f.baseline <= g <= s
            &&& f.baseline > s ==> s <= g < f.baseline
        }),
{
    lemma_step_closes_in(f, raw);
}

} // verus!
