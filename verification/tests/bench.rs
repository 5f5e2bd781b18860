//! The bench images: their result blocks, and the loops of the wired and the wireless link.

use hoverboard::bench::ble::{frame_packet, BleBench, HIST_MAX};
use hoverboard::bench::imu::{ImuBench, Reading};
use hoverboard::bench::irqload::{BusRegisters, Obs};
use hoverboard::bench::result::{publish_scalar, publish_var, scenario, ResultWrite};
use hoverboard::bench::uart::{
    build_s2, corrupted_frame, Master, MasterPhase, Receiver, Sender, Slave, Wait, CRC_BUDGET,
    RESP_BUDGET, S2_LEN, WARM_BUDGET, WARM_TRIES,
};
use hoverboard::bench::{imu, irqload};

// --- the result channel ------------------------------------------------------------------------

#[test]
fn a_scalar_is_published_ready_last() {
    assert_eq!(
        publish_scalar(0xDEAD_BEEF, 7),
        [
            ResultWrite::Word(4, 0xDEAD_BEEF),
            ResultWrite::Half(8, 0),
            ResultWrite::Word(0, 7),
        ]
    );
}

#[test]
fn a_variable_result_is_cut_to_the_block() {
    assert_eq!(
        publish_var(&[1, 2, 3], 2, 9),
        [
            ResultWrite::Byte(10, 1),
            ResultWrite::Byte(11, 2),
            ResultWrite::Word(4, 0),
            ResultWrite::Half(8, 2),
            ResultWrite::Word(0, 9),
        ]
    );
    let whole = publish_var(&[1, 2, 3], 64, 9);
    assert_eq!(whole.len(), 6);
    assert_eq!(whole[4], ResultWrite::Half(8, 3));
}

#[test]
fn the_scenario_is_the_upper_half() {
    assert_eq!(scenario(0x0003_FFFF), 3);
    assert_eq!(scenario(0), 0);
}

// --- interrupt load ----------------------------------------------------------------------------

fn regs(n: u32) -> BusRegisters {
    BusRegisters {
        stat0: n,
        stat1: n + 1,
        ctl0: n + 2,
    }
}

#[test]
fn the_first_failed_burst_keeps_its_registers() {
    let mut o = Obs::new();
    o.start();
    o.burst(true, regs(1), 10);
    assert_eq!((o.samples, o.errs, o.ticks), (1, 0, 10));
    assert_eq!(o.first_err_stat0, 0);
    o.burst(false, regs(20), 11);
    o.burst(false, regs(30), 12);
    assert_eq!((o.samples, o.errs, o.ticks), (1, 2, 12));
    assert_eq!(
        (o.first_err_stat0, o.first_err_stat1, o.first_err_ctl0),
        (20, 21, 22)
    );
    assert_eq!((o.magic, o.err), (irqload::MAGIC, 0));
}

#[test]
fn a_failed_bring_up_is_live_with_its_code() {
    let mut o = Obs::new();
    o.fail(4);
    assert_eq!((o.magic, o.err), (irqload::MAGIC, 4));
}

// --- sensor ------------------------------------------------------------------------------------

fn reading(gyro: i16, still: bool) -> Reading {
    Reading {
        accel_raw: [1, 2, 3],
        gyro_raw: [gyro, -gyro, 0],
        pitch_q16: 5,
        roll_q16: -6,
        temp_centi_degc: -70_000,
        still,
        still_count: 9,
    }
}

#[test]
fn the_bias_is_the_mean_of_the_capture_window() {
    let mut b = ImuBench::new();
    b.live();
    // Warm-up is discarded.
    for _ in 0..50 {
        assert_eq!(b.sampled(&reading(30_000, false)), None);
    }
    assert_eq!(b.obs().phase, 1);
    // 255 samples of 10 and one of 265: the sum is 2815, the mean 10.99.
    for _ in 0..255 {
        assert_eq!(b.sampled(&reading(10, false)), None);
    }
    assert_eq!(b.sampled(&reading(265, true)), Some([10, -10, 0]));
    let o = *b.obs();
    assert_eq!(o.gyro_bias, [10, -10, 0]);
    assert_eq!((o.bias_applied, o.phase), (1, 2));
    assert_eq!(o.still_first, 306);
    assert_eq!(o.temp_centi, -70_000i32 as i16);
    // The post-bias window.
    for _ in 0..256 {
        assert_eq!(b.sampled(&reading(-3, false)), None);
    }
    let o = *b.obs();
    assert_eq!(o.post_rest, [-3, 3, 0]);
    assert_eq!((o.phase, o.samples), (3, 562));
    // Steady: nothing more is averaged.
    b.sampled(&reading(999, true));
    assert_eq!(b.obs().post_rest, [-3, 3, 0]);
    assert_eq!(b.obs().still_first, 306);
    assert_eq!(b.obs().gyro_raw, [999, -999, 0]);
    assert_eq!(b.obs().magic, imu::MAGIC);
}

#[test]
fn a_failed_read_is_counted_and_skipped() {
    let mut b = ImuBench::new();
    b.missed();
    b.missed();
    assert_eq!((b.obs().read_errs, b.obs().samples), (2, 0));
}

#[test]
fn the_identity_and_the_registers_are_checked() {
    let mut b = ImuBench::new();
    assert!(b.probed(0x2E, 0x2E));
    assert_eq!((b.obs().probe_ok, b.obs().who_am_i, b.obs().err), (1, 0x2E, 0));
    b.configured([1, 2, 3, 4, 5], [1, 2, 3, 4, 5]);
    assert_eq!(b.obs().readback_ok, 1);
    b.configured([1, 2, 3, 4, 6], [1, 2, 3, 4, 5]);
    assert_eq!((b.obs().readback_ok, b.obs().readback[4]), (0, 6));

    let mut b = ImuBench::new();
    assert!(!b.probed(0x70, 0x2E));
    assert_eq!(
        (b.obs().probe_ok, b.obs().who_am_i, b.obs().err, b.obs().magic),
        (0, 0x70, 6, imu::MAGIC)
    );

    let mut b = ImuBench::new();
    b.fail(7);
    assert_eq!((b.obs().err, b.obs().magic), (7, imu::MAGIC));
}

// --- the wired link ----------------------------------------------------------------------------

/// Hands the frames to the echoing board and the echoes back, whole frames at a time.
fn echo(slave: &mut Slave, rx: &mut Receiver, frames: &[Vec<u8>]) -> Option<Vec<u8>> {
    let mut got = None;
    for frame in frames {
        let (back, _) = slave.pass(frame);
        for f in back.unwrap_or_default() {
            if let Some(p) = rx.drain(&f) {
                got = Some(p);
            }
        }
    }
    got
}

#[test]
fn the_driver_passes_against_the_echoing_board() {
    let mut m = Master::new();
    let mut slave = Slave::new();
    let mut rx = Receiver::new();
    let mut budgets = Vec::new();
    while m.phase() != MasterPhase::Finished {
        let (frames, budget) = m.send();
        budgets.push((frames.len(), budget));
        let back = echo(&mut slave, &mut rx, &frames);
        m.receive(back);
    }
    assert_eq!(
        budgets,
        [
            (1, WARM_BUDGET),
            (1, RESP_BUDGET),
            (2, RESP_BUDGET),
            (1, CRC_BUDGET),
            (1, RESP_BUDGET),
        ]
    );
    let c = m.checks();
    assert!(c.pass && c.warmed && c.s1_match && c.s2_match && c.crc_dropped && c.crc_recovered);
    assert_eq!((c.warm_tries, c.s1_recv, c.s2_recv), (1, 8, 50));
    // The corrupted frame was not echoed.
    assert_eq!(slave.echo_count(), 4);
    assert_eq!(slave.last_len(), 4);
    assert_eq!(slave.alive(), 6);
    // A finished driver sends nothing and stays.
    assert!(m.send().0.is_empty());
    m.receive(None);
    assert_eq!(m.checks(), c);
}

#[test]
fn a_silent_line_fails_every_check_but_the_drop() {
    let mut m = Master::new();
    for k in 0..WARM_TRIES {
        assert_eq!(m.phase(), MasterPhase::Warm);
        m.send();
        m.receive(None);
        assert_eq!(m.checks().warm_tries as u32, k + 1);
    }
    assert_eq!(m.phase(), MasterPhase::Single);
    for _ in 0..4 {
        m.send();
        m.receive(None);
    }
    assert_eq!(m.phase(), MasterPhase::Finished);
    let c = m.checks();
    assert!(!c.pass && !c.warmed && !c.s1_match && !c.s2_match && !c.crc_recovered);
    assert!(c.crc_dropped);
    assert_eq!((c.s1_recv, c.s2_recv), (0, 0));
}

#[test]
fn a_wrong_echo_does_not_match() {
    let mut m = Master::new();
    m.receive(Some(vec![0xF0, 0x01, 0x02, 0x03]));
    assert!(m.checks().warmed);
    m.receive(Some(vec![0xA1; 300]));
    assert_eq!((m.checks().s1_recv, m.checks().s1_match), (44, false));
}

#[test]
fn the_bytes_of_the_multi_fragment_packet() {
    let mut out = [0xEEu8; 52];
    assert_eq!(build_s2(&mut out), S2_LEN);
    assert_eq!((out[0], out[1], out[15]), (0xB0, 0xB1, 0xBF));
    assert_eq!((out[16], out[32], out[49]), (0xA0, 0x90, 0x81));
    // Nothing past the packet is written.
    assert_eq!((out[50], out[51]), (0xEE, 0xEE));
}

#[test]
fn a_frame_on_the_wire() {
    let mut s = Sender::new();
    let frames = s.send_packet(&[1, 2, 3]);
    assert_eq!(frames.len(), 1);
    assert_eq!(frames[0].len(), 8);
    // Start byte, length, header, chunk; the CRC follows.
    assert_eq!(&frames[0][1..6], &[4, frames[0][2], 1, 2, 3]);
    // The next packet has another id.
    assert_ne!(s.send_packet(&[1, 2, 3])[0][2], frames[0][2]);
    // Too long for sixteen fragments: nothing is written.
    assert!(s.send_packet(&[0; 497]).is_empty());
    assert_eq!(s.send_packet(&[0; 496]).len(), 16);

    let bad = corrupted_frame();
    assert_eq!(&bad[1..7], &[5, 0x00, 0xDE, 0x52, 0xBE, 0xEF]);
    assert_eq!(Receiver::new().drain(&bad), None);
}

#[test]
fn a_wait_runs_out_after_its_budget() {
    let mut w = Wait::new(2);
    assert!(!w.spin());
    assert!(w.spin());
    // A wait of no passes is over at the first.
    assert!(Wait::new(0).spin());
}

#[test]
fn the_heartbeat_comes_every_1024_passes() {
    let mut s = Slave::new();
    for _ in 0..1023 {
        assert_eq!(s.pass(&[]), (None, false));
    }
    assert_eq!(s.pass(&[]), (None, true));
    assert_eq!(s.alive(), 1024);
}

// --- the wireless link -------------------------------------------------------------------------

#[test]
fn merged_and_split_frames_are_parsed_by_length() {
    let mut b = BleBench::new();
    let one = frame_packet(&[1, 2, 3], 0);
    assert_eq!(one.len(), 1);
    assert_eq!((one[0][0], &one[0][2..]), (4, &[1u8, 2, 3][..]));
    let two = frame_packet(&[9; 30], 1);
    assert_eq!(two.len(), 2);
    assert_eq!(two[0].len(), 20);

    // All of it in one burst, but for the last byte.
    let mut all: Vec<u8> = one.concat();
    all.extend(two.concat());
    let last = all.pop().unwrap();
    let out = b.pass(&all, true);
    assert_eq!(out, frame_packet(&[1, 2, 3], 0));
    assert_eq!(b.stats().frames_parsed, 2);
    // The rest of the frame completes the second packet.
    let out = b.pass(&[last], false);
    assert_eq!(out, frame_packet(&[9; 30], 1));
    let s = b.stats();
    assert_eq!((s.packets, s.echoes, s.last_len), (2, 2, 30));
    assert_eq!((s.frames_parsed, s.max_frame, s.alive), (3, 20, 2));
    assert_eq!(s.raw_bytes as usize, all.len() + 1);
    assert_eq!((s.idle_count, s.raw_oversize), (1, 1));
    assert_eq!(s.raw_max_burst as usize, all.len());
}

#[test]
fn a_length_that_no_frame_has_drops_a_byte() {
    let mut b = BleBench::new();
    let mut bytes = vec![0u8, 20, 0xFF];
    bytes.extend(frame_packet(&[7], 0).concat());
    assert_eq!(b.pass(&bytes, false), frame_packet(&[7], 0));
    assert_eq!(b.stats().frames_parsed, 1);
}

#[test]
fn bursts_are_counted_by_length() {
    let mut b = BleBench::new();
    b.pass(&[0; 5], true);
    b.pass(&[0; 2], false);
    b.pass(&[0; 3], true);
    b.pass(&[], true);
    b.pass(&[0; 100], true);
    let h = b.histogram();
    assert_eq!((h[5], h[HIST_MAX]), (2, 1));
    assert_eq!(h.iter().map(|n| *n as u32).sum::<u32>(), 3);
    assert_eq!((b.stats().idle_count, b.stats().raw_oversize), (4, 1));
    assert_eq!(b.stats().raw_max_burst, 100);
}

#[test]
fn a_packet_of_too_many_fragments_is_not_framed() {
    assert_eq!(frame_packet(&[0; 288], 0).len(), 16);
    assert!(frame_packet(&[0; 289], 0).is_empty());
}

#[test]
fn the_passes_are_published_every_1024() {
    let mut b = BleBench::new();
    for _ in 0..1023 {
        b.pass(&[], false);
    }
    assert_eq!((b.stats().alive, b.published().alive), (1023, 0));
    b.pass(&[0; 3], false);
    assert_eq!((b.published().alive, b.published().raw_bytes), (1024, 3));
    b.pass(&[0; 2], false);
    assert_eq!((b.stats().alive, b.published().alive), (1025, 1024));
    assert_eq!(b.burst(), 5);
    b.pass(&[], true);
    assert_eq!(b.burst(), 0);
}
