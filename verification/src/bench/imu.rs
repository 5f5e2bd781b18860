//! The sensor validator: publishes every sample, and calibrates the zero-rate bias of the gyro by
//! sample count. After a warm-up the counts of a window are averaged, their mean is handed back as
//! the bias, and the mean of a second window is the resting rate that is left.

use crate::bytes;
use crate::counter;
use vstd::prelude::*;

verus! {

/// The block is live.
pub const MAGIC: u32 = 0x494D_5542;

/// Samples that are discarded first.
pub const WARMUP_SAMPLES: u32 = 50;

/// The length of the window whose mean is the bias.
pub const CAPTURE_SAMPLES: u32 = 256;

/// The length of the window whose mean is the resting rate.
pub const POST_SAMPLES: u32 = 256;

/// The result block.
#[derive(Debug, Clone, Copy, PartialEq, Eq)]
pub struct Obs {
    pub magic: u32,
    /// Fatal bring-up error; 0 = none.
    pub err: u8,
    pub probe_ok: u8,
    pub who_am_i: u8,
    pub readback_ok: u8,
    /// The configuration registers as read back.
    pub readback: [u8; 5],
    /// 0 = warm-up, 1 = capture, 2 = post-bias window, 3 = steady.
    pub phase: u8,
    pub still: u8,
    /// The bias was handed back.
    pub bias_applied: u8,
    /// Samples read.
    pub samples: u32,
    /// Failed reads.
    pub read_errs: u32,
    pub accel_raw: [i16; 3],
    pub gyro_raw: [i16; 3],
    /// Pitch, degrees in Q16.16.
    pub pitch_q16: i32,
    /// Roll, degrees in Q16.16.
    pub roll_q16: i32,
    pub still_count: u16,
    pub temp_centi: i16,
    /// The number of the first sample that was still, from 1 on; 0 = none yet.
    pub still_first: u32,
    pub gyro_bias: [i32; 3],
    pub post_rest: [i32; 3],
}

/// One sample, with the attitude that was computed from it.
#[derive(Debug, Clone, Copy, PartialEq, Eq)]
pub struct Reading {
    pub accel_raw: [i16; 3],
    pub gyro_raw: [i16; 3],
    pub pitch_q16: i32,
    pub roll_q16: i32,
    /// Centidegrees Celsius; the block keeps the low half.
    pub temp_centi_degc: i32,
    pub still: bool,
    pub still_count: u16,
}

/// The state of the calibration: the samples so far, what was found, and the running sums.
#[verifier::ext_equal]
pub struct Calibration {
    pub phase: u8,
    pub samples: u32,
    pub still_first: u32,
    pub bias_applied: bool,
    pub bias: Seq<i32>,
    pub rest: Seq<i32>,
    pub captured: Seq<int>,
    pub settled: Seq<int>,
}

/// The quotient by the window length, rounded toward zero.
pub open spec fn mean(sum: int) -> int {
    if sum >= 0 {
        sum / 256
    } else {
        -((-sum) / 256)
    }
}

/// A sum per axis, with one more sample.
pub open spec fn summed(sums: Seq<int>, gyro: Seq<i16>) -> Seq<int> {
    Seq::new(3, |i: int| sums[i] + gyro[i])
}

/// The means of three sums.
pub open spec fn means(sums: Seq<int>) -> Seq<i32> {
    Seq::new(3, |i: int| mean(sums[i]) as i32)
}

/// The calibration after a sample.
pub open spec fn calibrated(c: Calibration, gyro: Seq<i16>, still: bool) -> Calibration {
    let n = (c.samples + 1) as u32;
    let d = Calibration {
        samples: n,
        still_first: if still && c.still_first == 0 {
            n
        } else {
            c.still_first
        },
        ..c
    };
    if n == 50 {
        Calibration { phase: 1, ..d }
    } else if 50 < n <= 306 {
        let captured = summed(c.captured, gyro);
        if n == 306 {
            Calibration { captured, phase: 2, bias_applied: true, bias: means(captured), ..d }
        } else {
            Calibration { captured, ..d }
        }
    } else if 306 < n <= 562 {
        let settled = summed(c.settled, gyro);
        if n == 562 {
            Calibration { settled, phase: 3, rest: means(settled), ..d }
        } else {
            Calibration { settled, ..d }
        }
    } else {
        d
    }
}

/// The calibration before the first sample.
pub open spec fn uncalibrated() -> Calibration {
    Calibration {
        phase: 0,
        samples: 0,
        still_first: 0,
        bias_applied: false,
        bias: seq![0i32, 0, 0],
        rest: seq![0i32, 0, 0],
        captured: seq![0int, 0, 0],
        settled: seq![0int, 0, 0],
    }
}

/// How many samples of a window that begins after sample `from` are in, `n` being the samples so
/// far.
pub open spec fn window_fill(n: int, from: int) -> int {
    if n <= from {
        0
    } else if n <= from + 256 {
        n - from
    } else {
        256
    }
}

/// Nothing was stored in the block yet.
pub open spec fn is_blank(o: Obs) -> bool {
    &&& o.magic == 0
    &&& o.err == 0
    &&& o.probe_ok == 0
    &&& o.who_am_i == 0
    &&& o.readback_ok == 0
    &&& o.readback@ == seq![0u8, 0, 0, 0, 0]
    &&& o.phase == 0
    &&& o.still == 0
    &&& o.bias_applied == 0
    &&& o.samples == 0
    &&& o.read_errs == 0
    &&& o.accel_raw@ == seq![0i16, 0, 0]
    &&& o.gyro_raw@ == seq![0i16, 0, 0]
    &&& o.pitch_q16 == 0
    &&& o.roll_q16 == 0
    &&& o.still_count == 0
    &&& o.temp_centi == 0
    &&& o.still_first == 0
    &&& o.gyro_bias@ == seq![0i32, 0, 0]
    &&& o.post_rest@ == seq![0i32, 0, 0]
}

/// The validator.
pub struct ImuBench {
    obs: Obs,
    cap_sum: [i32; 3],
    post_sum: [i32; 3],
}

impl View for ImuBench {
    type V = Calibration;

    closed spec fn view(&self) -> Calibration {
        Calibration {
            phase: self.obs.phase,
            samples: self.obs.samples,
            still_first: self.obs.still_first,
            bias_applied: self.obs.bias_applied != 0,
            bias: self.obs.gyro_bias@,
            rest: self.obs.post_rest@,
            captured: Seq::new(3, |i: int| self.cap_sum@[i] as int),
            settled: Seq::new(3, |i: int| self.post_sum@[i] as int),
        }
    }
}

impl ImuBench {
    /// The block.
    pub closed spec fn block(&self) -> Obs {
        self.obs
    }

    /// The sums are those of as many samples as their windows hold.
    pub open spec fn wf(&self) -> bool {
        forall|i: int|
            0 <= i < 3 ==> {
                &&& -32768 * window_fill(self@.samples as int, 50) <= (#[trigger] self@.captured[i])
                    <= 32767 * window_fill(self@.samples as int, 50)
                &&& -32768 * window_fill(self@.samples as int, 306) <= self@.settled[i] <= 32767
                    * window_fill(self@.samples as int, 306)
            }
    }

    /// A blank block and empty sums.
    pub fn new() -> (b: Self)
        ensures
            b.wf(),
            b@ == uncalibrated(),
            is_blank(b.block()),
    {
        let b = ImuBench {
            obs: Obs {
                magic: 0,
                err: 0,
                probe_ok: 0,
                who_am_i: 0,
                readback_ok: 0,
                readback: [0, 0, 0, 0, 0],
                phase: 0,
                still: 0,
                bias_applied: 0,
                samples: 0,
                read_errs: 0,
                accel_raw: [0, 0, 0],
                gyro_raw: [0, 0, 0],
                pitch_q16: 0,
                roll_q16: 0,
                still_count: 0,
                temp_centi: 0,
                still_first: 0,
                gyro_bias: [0, 0, 0],
                post_rest: [0, 0, 0],
            },
            cap_sum: [0, 0, 0],
            post_sum: [0, 0, 0],
        };
        assert(b@ =~= uncalibrated());
        assert(b.obs.readback@ =~= seq![0u8, 0, 0, 0, 0]);
        assert(b.obs.accel_raw@ =~= seq![0i16, 0, 0]);
        assert(b.obs.gyro_raw@ =~= seq![0i16, 0, 0]);
        assert(b.obs.gyro_bias@ =~= seq![0i32, 0, 0]);
        assert(b.obs.post_rest@ =~= seq![0i32, 0, 0]);
        b
    }

    /// The block as it stands.
    pub fn obs(&self) -> (o: &Obs)
        ensures
            *o == self.block(),
    {
        &self.obs
    }

    /// Bring-up failed for good.
    pub fn fail(&mut self, code: u8)
        ensures
            final(self)@ == old(self)@,
            final(self).block() == (Obs { err: code, magic: MAGIC, ..old(self).block() }),
    {
        self.obs.err = code;
        self.obs.magic = MAGIC;
    }

    /// The sensor said who it is. Where that is not `expected`, bring-up has failed, and the block
    /// says what the sensor returned.
    pub fn probed(&mut self, got: u8, expected: u8) -> (ok: bool)
        ensures
            ok == (got == expected),
            final(self)@ == old(self)@,
            final(self).block() == if ok {
                Obs { who_am_i: got, probe_ok: 1, ..old(self).block() }
            } else {
                Obs { who_am_i: got, err: 6, magic: MAGIC, ..old(self).block() }
            },
    {
        self.obs.who_am_i = got;
        if got == expected {
            self.obs.probe_ok = 1;
            true
        } else {
            self.obs.err = 6;
            self.obs.magic = MAGIC;
            false
        }
    }

    /// The configuration registers were read back: they are right when every one is as written.
    pub fn configured(&mut self, got: [u8; 5], written: [u8; 5])
        ensures
            final(self)@ == old(self)@,
            final(self).block() == (Obs {
                readback: got,
                readback_ok: if got@ == written@ {
                    1
                } else {
                    0
                },
                ..old(self).block()
            }),
    {
        let mut ok = true;
        let mut i: usize = 0;
        while i < 5
            invariant
                i <= 5,
                ok == (forall|k: int| 0 <= k < i ==> got@[k] == written@[k]),
            decreases 5 - i,
        {
            if got[i] != written[i] {
                ok = false;
            }
            i += 1;
        }
        assert(ok == (got@ =~= written@));
        self.obs.readback = got;
        self.obs.readback_ok = if ok {
            1
        } else {
            0
        };
    }

    /// Bring-up is done.
    pub fn live(&mut self)
        ensures
            final(self)@ == old(self)@,
            final(self).block() == (Obs { magic: MAGIC, ..old(self).block() }),
    {
        self.obs.magic = MAGIC;
    }

    /// A read failed: the tick is skipped and counted.
    pub fn missed(&mut self)
        ensures
            final(self)@ == old(self)@,
            final(self).block() == (Obs {
                read_errs: counter::after32(old(self).block().read_errs),
                ..old(self).block()
            }),
    {
        self.obs.read_errs = counter::inc32(self.obs.read_errs);
    }

    /// Takes a sample. Returns the bias to hand to the sensor on the sample that completes the
    /// capture.
    pub fn sampled(&mut self, r: &Reading) -> (bias: Option<[i32; 3]>)
        requires
            old(self).wf(),
            old(self)@.samples < u32::MAX,
        ensures
            final(self).wf(),
            final(self)@ == calibrated(old(self)@, r.gyro_raw@, r.still),
            bias is Some <==> final(self)@.samples == 306,
            bias is Some ==> bias->0@ == final(self)@.bias,
            final(self).block().accel_raw == r.accel_raw,
            final(self).block().gyro_raw == r.gyro_raw,
            final(self).block().pitch_q16 == r.pitch_q16,
            final(self).block().roll_q16 == r.roll_q16,
            final(self).block().temp_centi == bytes::signed16(r.temp_centi_degc as int % 0x1_0000),
            final(self).block().still == if r.still {
                1u8
            } else {
                0
            },
            final(self).block().still_count == r.still_count,
            final(self).block().samples == final(self)@.samples,
            final(self).block().phase == final(self)@.phase,
            final(self).block().still_first == final(self)@.still_first,
            final(self).block().gyro_bias@ == final(self)@.bias,
            final(self).block().post_rest@ == final(self)@.rest,
            final(self).block().magic == old(self).block().magic,
            final(self).block().err == old(self).block().err,
            final(self).block().read_errs == old(self).block().read_errs,
            final(self).block().probe_ok == old(self).block().probe_ok,
            final(self).block().who_am_i == old(self).block().who_am_i,
            final(self).block().readback_ok == old(self).block().readback_ok,
            final(self).block().readback == old(self).block().readback,
            final(self).block().bias_applied == if final(self)@.samples == 306 {
                1
            } else {
                old(self).block().bias_applied
            },
    {
        self.obs.samples = self.obs.samples + 1;
        self.obs.accel_raw = r.accel_raw;
        self.obs.gyro_raw = r.gyro_raw;
        self.obs.pitch_q16 = r.pitch_q16;
        self.obs.roll_q16 = r.roll_q16;
        self.obs.temp_centi = bytes::signed(low_half(r.temp_centi_degc));
        self.obs.still = if r.still {
            1
        } else {
            0
        };
        self.obs.still_count = r.still_count;
        let n: u32 = self.obs.samples;
        if r.still && self.obs.still_first == 0 {
            self.obs.still_first = n;
        }
        let mut bias: Option<[i32; 3]> = None;
        proof {
            let c = old(self)@;
            assert(c.captured[0] == old(self).cap_sum@[0]);
            assert(c.captured[1] == old(self).cap_sum@[1]);
            assert(c.captured[2] == old(self).cap_sum@[2]);
            assert(c.settled[0] == old(self).post_sum@[0]);
            assert(c.settled[1] == old(self).post_sum@[1]);
            assert(c.settled[2] == old(self).post_sum@[2]);
        }
        if n == WARMUP_SAMPLES {
            self.obs.phase = 1;
        } else if n > WARMUP_SAMPLES && n <= WARMUP_SAMPLES + CAPTURE_SAMPLES {
            self.cap_sum = [
                self.cap_sum[0] + r.gyro_raw[0] as i32,
                self.cap_sum[1] + r.gyro_raw[1] as i32,
                self.cap_sum[2] + r.gyro_raw[2] as i32,
            ];
            if n == WARMUP_SAMPLES + CAPTURE_SAMPLES {
                let found: [i32; 3] = [
                    window_mean(self.cap_sum[0]),
                    window_mean(self.cap_sum[1]),
                    window_mean(self.cap_sum[2]),
                ];
                bias = Some(found);
                self.obs.gyro_bias = found;
                self.obs.bias_applied = 1;
                self.obs.phase = 2;
            }
        } else if n > WARMUP_SAMPLES + CAPTURE_SAMPLES && n <= WARMUP_SAMPLES + CAPTURE_SAMPLES
            + POST_SAMPLES {
            self.post_sum = [
                self.post_sum[0] + r.gyro_raw[0] as i32,
                self.post_sum[1] + r.gyro_raw[1] as i32,
                self.post_sum[2] + r.gyro_raw[2] as i32,
            ];
            if n == WARMUP_SAMPLES + CAPTURE_SAMPLES + POST_SAMPLES {
                self.obs.post_rest = [
                    window_mean(self.post_sum[0]),
                    window_mean(self.post_sum[1]),
                    window_mean(self.post_sum[2]),
                ];
                self.obs.phase = 3;
            }
        }
        assert(self@ =~= calibrated(old(self)@, r.gyro_raw@, r.still));
        bias
    }
}

/// The low half of a word.
fn low_half(t: i32) -> (h: u16)
    ensures
        h == t as int % 0x1_0000,
{
    if t >= 0 {
        (t as u32 % 0x1_0000) as u16
    } else {
        0xFFFF - ((-(t + 1)) as u32 % 0x1_0000) as u16
    }
}

/// The mean of a window, rounded toward zero: what is lost is below the noise of the sensor.
fn window_mean(sum: i32) -> (m: i32)
    requires
        sum > i32::MIN,
    ensures
        m == mean(sum as int),
{
    if sum >= 0 {
        (sum as u32 / CAPTURE_SAMPLES) as i32
    } else {
        -(((-sum) as u32 / CAPTURE_SAMPLES) as i32)
    }
}

/// The calibration after a run of samples.
pub open spec fn calibrated_by(h: Seq<(Seq<i16>, bool)>) -> Calibration
    decreases h.len(),
{
    if h.len() == 0 {
        uncalibrated()
    } else {
        calibrated(calibrated_by(h.drop_last()), h.last().0, h.last().1)
    }
}

/// The sum of axis `i` over the samples with numbers in `from..to`, counted from 0.
pub open spec fn axis_sum(h: Seq<(Seq<i16>, bool)>, i: int, from: int, to: int) -> int
    decreases to - from,
{
    if from >= to {
        0
    } else {
        axis_sum(h, i, from, to - 1) + h[to - 1].0[i]
    }
}

proof fn lemma_axis_sum_prefix(h: Seq<(Seq<i16>, bool)>, g: Seq<(Seq<i16>, bool)>, i: int, from: int, to: int)
    requires
        0 <= from,
        to <= h.len(),
        to <= g.len(),
        forall|k: int| 0 <= k < to ==> h[k] == g[k],
    ensures
        axis_sum(h, i, from, to) == axis_sum(g, i, from, to),
    decreases to - from,
{
    if from < to {
        lemma_axis_sum_prefix(h, g, i, from, to - 1);
    }
}

/// The end of a window of 256 samples that begins after sample `from`, as far as `n` samples reach.
pub open spec fn window_end(n: int, from: int) -> int {
    vstd::math::min(n, from + 256)
}

/// The bias is the mean of samples 51 to 306, and the resting rate that of samples 307 to 562,
/// whatever came before and after; the phase tells which of them are known.
pub proof fn lemma_bias_is_the_mean(h: Seq<(Seq<i16>, bool)>, i: int)
    requires
        h.len() < u32::MAX,
        0 <= i < 3,
    ensures
        calibrated_by(h).samples == h.len(),
        calibrated_by(h).captured.len() == 3,
        calibrated_by(h).settled.len() == 3,
        calibrated_by(h).captured[i] == axis_sum(h, i, 50, window_end(h.len() as int, 50)),
        calibrated_by(h).settled[i] == axis_sum(h, i, 306, window_end(h.len() as int, 306)),
        calibrated_by(h).bias_applied == (h.len() >= 306),
        h.len() >= 306 ==> calibrated_by(h).bias[i] == mean(axis_sum(h, i, 50, 306)) as i32,
        h.len() >= 562 ==> calibrated_by(h).rest[i] == mean(axis_sum(h, i, 306, 562)) as i32,
        calibrated_by(h).phase == if h.len() < 50 {
            0u8
        } else if h.len() < 306 {
            1
        } else if h.len() < 562 {
            2
        } else {
            3
        },
    decreases h.len(),
{
    if h.len() > 0 {
        let g = h.drop_last();
        lemma_bias_is_the_mean(g, i);
        let n = h.len() as int;
        lemma_axis_sum_prefix(h, g, i, 50, window_end(n - 1, 50));
        lemma_axis_sum_prefix(h, g, i, 306, window_end(n - 1, 306));
        lemma_axis_sum_prefix(h, g, i, 50, vstd::math::min(n - 1, 306));
        lemma_axis_sum_prefix(h, g, i, 306, vstd::math::min(n - 1, 562));
    }
}

/// The mean is off by less than a count, and toward zero; its sign is that of the sum.
pub proof fn lemma_mean_rounds_toward_zero(sum: int)
    ensures
        sum >= 0 ==> 0 <= sum - 256 * mean(sum) < 256 && mean(sum) >= 0,
        sum <= 0 ==> 0 <= 256 * mean(sum) - sum < 256 && mean(sum) <= 0,
        mean(-sum) == -mean(sum),
{
}

/// The first still sample is the one reported, counted from 1 on, and is kept whatever follows; 0
/// says that there was none.
pub proof fn lemma_first_still_is_kept(h: Seq<(Seq<i16>, bool)>)
    requires
        h.len() < u32::MAX,
    ensures
        ({
            let f = calibrated_by(h).still_first as int;
            &&& f <= h.len()
            &&& f > 0 ==> h[f - 1].1
            &&& forall|k: int| 0 <= k < (if f > 0 { f - 1 } else { h.len() as int }) ==> !(
            #[trigger] h[k]).1
        }),
    decreases h.len(),
{
    if h.len() > 0 {
        let g = h.drop_last();
        lemma_first_still_is_kept(g);
        lemma_bias_is_the_mean(g, 0);
        let f = calibrated_by(g).still_first as int;
        assert(forall|k: int| 0 <= k < g.len() ==> g[k] == h[k]);
        let e = calibrated_by(h).still_first as int;
        assert forall|k: int| 0 <= k < (if e > 0 { e - 1 } else { h.len() as int }) implies !(
        #[trigger] h[k]).1 by {
            if k < g.len() {
                assert(g[k] == h[k]);
            }
        }
    }
}

} // verus!
