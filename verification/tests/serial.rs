//! A transport over a serial device.

use embedded_io::{Read, ReadReady, Write};
use hoverboard::link::framer::{encode, MAX_STREAM_FRAME};
use hoverboard::link::serial::{SerialTransport, PULL_CHUNK};
use std::collections::VecDeque;

/// A mock serial: a byte queue delivering AT MOST `burst` bytes per `read` call, so the tests
/// exercise the pull loop against dribbling deliveries as well as bulk ones.
struct MockSerial {
    rx: VecDeque<u8>,
    burst: usize,
}
impl embedded_io::ErrorType for MockSerial {
    type Error = core::convert::Infallible;
}
impl Read for MockSerial {
    fn read(&mut self, out: &mut [u8]) -> Result<usize, Self::Error> {
        let n = out.len().min(self.burst).min(self.rx.len());
        for slot in out.iter_mut().take(n) {
            *slot = self.rx.pop_front().unwrap();
        }
        Ok(n)
    }
}
impl Write for MockSerial {
    fn write(&mut self, data: &[u8]) -> Result<usize, Self::Error> {
        Ok(data.len())
    }
    fn flush(&mut self) -> Result<(), Self::Error> {
        Ok(())
    }
}
impl ReadReady for MockSerial {
    fn read_ready(&mut self) -> Result<bool, Self::Error> {
        Ok(!self.rx.is_empty())
    }
}

/// Pulls a frame the way a driver does: from what is staged, reading the device when that is used up.
fn recv(t: &mut SerialTransport<MockSerial, MAX_STREAM_FRAME>, out: &mut [u8]) -> Option<usize> {
    loop {
        if let Some(n) = t.recv_l2_frame(out) {
            return Some(n);
        }
        if !t.serial_mut().read_ready().unwrap() {
            return None;
        }
        let mut chunk = [0u8; PULL_CHUNK];
        let n = t.serial_mut().read(&mut chunk).unwrap();
        if n == 0 {
            return None;
        }
        t.refill(&chunk[..n]);
    }
}

/// Encode an L2 frame (frag-hdr + chunk) the way `send_l2_frame` does.
fn wire_frame(l2: &[u8]) -> Vec<u8> {
    let mut buf = [0u8; MAX_STREAM_FRAME];
    let n = encode(l2, &mut buf).unwrap();
    buf[..n].to_vec()
}

/// Pull contract: several frames buffered at once are returned by SUCCESSIVE `recv_l2_frame`
/// calls, in order, none lost.
#[test]
fn buffered_frames_all_delivered_in_order() {
    let mut rx = VecDeque::new();
    for tag in [0xA1u8, 0xB2, 0xC3] {
        rx.extend(wire_frame(&[0x01, tag, tag ^ 0xFF]));
    }
    let serial = MockSerial { rx, burst: 64 };
    let mut t: SerialTransport<_, MAX_STREAM_FRAME> = SerialTransport::new(serial, 96);
    let mut out = [0u8; 64];
    for tag in [0xA1u8, 0xB2, 0xC3] {
        let n = recv(&mut t, &mut out).expect("frame delivered");
        assert_eq!(&out[..n], &[0x01, tag, tag ^ 0xFF], "in order, none lost");
    }
    assert!(recv(&mut t, &mut out).is_none(), "queue drained");
}

/// A frame arriving in dribbles (1 byte per serial read) still reassembles across calls.
#[test]
fn frame_split_across_reads_reassembles() {
    let payload: Vec<u8> = (0..40).map(|i| i as u8).collect();
    let mut rx = VecDeque::new();
    rx.extend(wire_frame(&payload));
    let serial = MockSerial { rx, burst: 1 };
    let mut t: SerialTransport<_, MAX_STREAM_FRAME> = SerialTransport::new(serial, 96);
    let mut out = [0u8; 96];
    let n = recv(&mut t, &mut out).expect("reassembled");
    assert_eq!(&out[..n], &payload[..]);
}

/// Chunked-pull property: a burst whose total exceeds `PULL_CHUNK` forces the
/// staging buffer to refill mid-drain, with individual frames straddling a refill boundary. Every
/// frame must still surface exactly once, in order (no byte lost across a stage refill).
#[test]
fn frames_spanning_chunk_boundary_all_delivered() {
    // Nine 7-byte wire frames = 63 B > PULL_CHUNK (24), so the 24 B stage refills ~twice and
    // several frames cross a refill boundary.
    let tags: [u8; 9] = [0x11, 0x22, 0x33, 0x44, 0x55, 0x66, 0x77, 0x88, 0x99];
    let mut rx = VecDeque::new();
    for &tag in &tags {
        rx.extend(wire_frame(&[0x01, tag, tag ^ 0xFF]));
    }
    // burst=64 > PULL_CHUNK, so each serial read is capped by the 24 B stage, not the mock burst.
    let serial = MockSerial { rx, burst: 64 };
    let mut t: SerialTransport<_, MAX_STREAM_FRAME> = SerialTransport::new(serial, 96);
    let mut out = [0u8; 64];
    for &tag in &tags {
        let n = recv(&mut t, &mut out).expect("frame delivered across refill");
        assert_eq!(&out[..n], &[0x01, tag, tag ^ 0xFF], "in order, none lost");
    }
    assert!(recv(&mut t, &mut out).is_none(), "queue drained");
}

/// `reset()` drops any partial state (the epoch-flush contract): bytes buffered before a
/// reset must never surface as a stale partial afterwards.
#[test]
fn reset_drops_partial_state() {
    let good: Vec<u8> = wire_frame(&[0x01, 0x42, 0x43]);
    let mut rx = VecDeque::new();
    rx.extend(&good[..good.len() - 2]);
    let serial = MockSerial { rx, burst: 64 };
    let mut t: SerialTransport<_, MAX_STREAM_FRAME> = SerialTransport::new(serial, 96);
    let mut out = [0u8; 64];
    assert!(recv(&mut t, &mut out).is_none(), "partial: no frame yet");
    t.reset();
    t.serial_mut().rx.extend(&good[good.len() - 2..]);
    t.serial_mut().rx.extend(wire_frame(&[0x01, 0x77, 0x78]));
    let n = recv(&mut t, &mut out).expect("fresh frame after reset");
    assert_eq!(
        &out[..n],
        &[0x01, 0x77, 0x78],
        "stale partial never surfaces"
    );
}

#[test]
fn a_sent_frame_is_the_stream_frame() {
    let serial = MockSerial { rx: VecDeque::new(), burst: 1 };
    let t: SerialTransport<_, MAX_STREAM_FRAME> = SerialTransport::new(serial, 96);
    assert_eq!(t.frame_capacity(), 96);
    assert_eq!(t.send_l2_frame(&[0x01, 0x42]), Some(wire_frame(&[0x01, 0x42])));
    assert_eq!(t.send_l2_frame(&[]), None);
    let mut out = [0u8; 6];
    assert_eq!(t.encode_l2_frame(&[0x01, 0x42], &mut out), Some(6));
    assert_eq!(&out[..], &wire_frame(&[0x01, 0x42])[..]);
    let mut tiny = [0u8; 5];
    assert_eq!(t.encode_l2_frame(&[0x01, 0x42], &mut tiny), None);
}
