//! Packets over a transport.

use hoverboard::link::framer::{encode as encode_stream_frame, StreamFramer, MAX_STREAM_FRAME};
use hoverboard::link::link::{Frames, Link, Octets, SendError, Size, Transport};
use hoverboard::link::reasm::MAX_PACKET;
use std::collections::VecDeque;

type FullLink<T> = Link<T, MAX_PACKET, 255>;

/// A mock 20-byte datagram link (the BLE instance): each L2 frame rides one "transaction" as-is,
/// no SOF/len/CRC. A loopback wire feeds sends straight back to receives. It records the largest
/// frame it ever emitted so a test can assert the BLE rule "never emit a frame > 20 B".
struct MockDatagramLink {
    capacity: usize,
    wire: VecDeque<Vec<u8>>,
    max_emitted: usize,
}

impl MockDatagramLink {
    fn new(capacity: usize) -> Self {
        MockDatagramLink {
            capacity,
            wire: VecDeque::new(),
            max_emitted: 0,
        }
    }
}

impl Transport for MockDatagramLink {
    // Ghost: never called.
    fn capacity(&self) -> Size {
        unreachable!()
    }
    fn sent(&self) -> Frames {
        unreachable!()
    }
    fn ready(&self) -> Frames {
        unreachable!()
    }
    fn wire_form(&self, _l2: Octets) -> Option<Octets> {
        unreachable!()
    }
    fn frame_capacity(&self) -> usize {
        self.capacity
    }
    fn send_l2_frame(&mut self, l2: &[u8]) {
        // The hard invariant for the BLE link: a frame must fit one ATT transaction.
        assert!(
            l2.len() <= self.capacity,
            "datagram frame {} > capacity {}",
            l2.len(),
            self.capacity
        );
        self.max_emitted = self.max_emitted.max(l2.len());
        self.wire.push_back(l2.to_vec());
    }
    fn encode_l2_frame(&self, l2: &[u8], out: &mut [u8]) -> Option<usize> {
        // A datagram carrier puts the frame on the wire as-is, so that is what it hands back.
        if out.len() < l2.len() {
            return None;
        }
        out[..l2.len()].copy_from_slice(l2);
        Some(l2.len())
    }
    fn recv_l2_frame(&mut self, out: &mut [u8]) -> Option<usize> {
        let frame = self.wire.pop_front()?;
        out[..frame.len()].copy_from_slice(&frame);
        Some(frame.len())
    }
}

/// A mock byte-stream link (the inter-board UART instance): each L2 frame is wrapped in
/// SOF/len/CRC onto a byte wire, and the receive side runs the real [`StreamFramer`] over the
/// wire to recover frames. Loopback: sent bytes feed straight back.
struct MockByteStreamLink {
    capacity: usize,
    wire: VecDeque<u8>,
    framer: StreamFramer<MAX_STREAM_FRAME>,
    rx_frames: VecDeque<Vec<u8>>,
}

impl MockByteStreamLink {
    fn new(capacity: usize) -> Self {
        MockByteStreamLink {
            capacity,
            wire: VecDeque::new(),
            framer: StreamFramer::new(),
            rx_frames: VecDeque::new(),
        }
    }
}

impl Transport for MockByteStreamLink {
    // Ghost: never called.
    fn capacity(&self) -> Size {
        unreachable!()
    }
    fn sent(&self) -> Frames {
        unreachable!()
    }
    fn ready(&self) -> Frames {
        unreachable!()
    }
    fn wire_form(&self, _l2: Octets) -> Option<Octets> {
        unreachable!()
    }
    fn frame_capacity(&self) -> usize {
        self.capacity
    }
    fn send_l2_frame(&mut self, l2: &[u8]) {
        let mut out = [0u8; MAX_STREAM_FRAME];
        let n = encode_stream_frame(l2, &mut out).expect("encode stream frame");
        self.wire.extend(&out[..n]);
    }
    fn encode_l2_frame(&self, l2: &[u8], out: &mut [u8]) -> Option<usize> {
        encode_stream_frame(l2, out).ok()
    }
    fn recv_l2_frame(&mut self, out: &mut [u8]) -> Option<usize> {
        if self.rx_frames.is_empty() && !self.wire.is_empty() {
            // Drain the wire through the framer, queueing any whole frames it emits.
            let bytes: Vec<u8> = self.wire.drain(..).collect();
            let rx = &mut self.rx_frames;
            rx.extend(self.framer.feed(&bytes));
        }
        let frame = self.rx_frames.pop_front()?;
        out[..frame.len()].copy_from_slice(&frame);
        Some(frame.len())
    }
}

// Send `packet` and read back the next reassembled packet, asserting it round-trips.
fn assert_round_trip<T: Transport>(link: &mut FullLink<T>, packet: &[u8]) {
    link.send(packet).expect("send");
    let mut out = [0u8; MAX_PACKET_TEST];
    let n = link.poll_recv(&mut out).expect("a packet");
    assert_eq!(&out[..n], packet);
}

const MAX_PACKET_TEST: usize = 16 * 254;

#[test]
fn datagram_single_frame_round_trip() {
    let mut link: FullLink<_> = Link::new(MockDatagramLink::new(20));
    assert_round_trip(&mut link, &[1, 2, 3, 4, 5]);
    // One fragment, one byte of overhead: a 5-byte packet -> a 6-byte frame.
    assert_eq!(link.transport().max_emitted, 6);
}

#[test]
fn datagram_multi_fragment_round_trip() {
    let mut link: FullLink<_> = Link::new(MockDatagramLink::new(20));
    // 50 bytes over a 19-byte usable chunk -> 3 BLE transactions.
    let packet: Vec<u8> = (0..50u8).collect();
    assert_round_trip(&mut link, &packet);
}

#[test]
fn stage_returns_exactly_the_bytes_send_would_have_written() {
    // The staged-TX seam must be byte-identical to the blocking path: same frag-hdr, same
    // SOF/len/CRC framing, same PID sequence. Anything else and a metered frame would decode
    // differently from a sent one.
    let packet: Vec<u8> = (0..14u8).collect();
    let mut sent = Link::<_, MAX_PACKET, 16>::new(MockByteStreamLink::new(16));
    sent.send(&packet).expect("send fits one fragment");
    let wire: Vec<u8> = sent.transport().wire.iter().copied().collect();

    let mut staged = Link::<_, MAX_PACKET, 16>::new(MockByteStreamLink::new(16));
    let mut out = [0u8; 32];
    let n = staged.stage(&packet, &mut out).expect("stages one frame");
    assert_eq!(&out[..n], &wire[..], "staged bytes == sent bytes");
}

#[test]
fn stage_of_a_cyclic_state_pdu_is_nineteen_bytes_on_the_ble_wire() {
    // The arithmetic the 5 Hz BLE rate is derived from:
    // an 11-byte CYCLIC_STATE payload in a 3-byte-header L3 PDU is 14 B; the BLE link's frame
    // capacity is 16, so the usable chunk is 15 and the packet is ONE fragment; the wire frame
    // is SOF + len + (frag-hdr + 14) + CRC = 19 B. 19 B at 9600 8N1 is 19.8 ms, which is why
    // the emission is metered rather than sent. It also fits one 20-byte ATT notification, so
    // the module never re-chunks it. If this number moves, the rate must be re-derived.
    const BLE_FRAME_CAP: usize = 16;
    let pdu = [0u8; 3 + 11];
    let mut link =
        Link::<_, MAX_PACKET, BLE_FRAME_CAP>::new(MockByteStreamLink::new(BLE_FRAME_CAP));
    let mut out = [0u8; 32];
    let n = link.stage(&pdu, &mut out).expect("single fragment");
    assert_eq!(n, 19, "CYCLIC_STATE is 19 B on the BLE wire");
    assert!(n <= 20, "fits one ATT notification without re-chunking");
}

#[test]
fn stage_refuses_a_packet_that_would_fragment() {
    // Single fragment only: a metered multi-fragment packet would interleave with anything
    // else the link sends. The refusal is explicit, not a silent truncation.
    let mut link = Link::<_, MAX_PACKET, 16>::new(MockByteStreamLink::new(16));
    let mut out = [0u8; 64];
    assert!(link.stage(&[0u8; 15], &mut out).is_some(), "15 B fits");
    assert!(
        link.stage(&[0u8; 16], &mut out).is_none(),
        "16 B would fragment"
    );
}

#[test]
fn stage_puts_nothing_on_the_wire() {
    // Staging is not sending: the transport must be untouched until the caller meters it out.
    let mut link = Link::<_, MAX_PACKET, 16>::new(MockByteStreamLink::new(16));
    let mut out = [0u8; 32];
    link.stage(&[1, 2, 3], &mut out).expect("stages");
    assert!(link.transport().wire.is_empty(), "nothing written");
}

#[test]
fn byte_stream_single_fragment_round_trip() {
    // Realistic UART capacity: a small packet rides one fragment (MORE=0), no fragmentation.
    let mut link: FullLink<_> = Link::new(MockByteStreamLink::new(255));
    assert_round_trip(&mut link, &[0xDE, 0xAD, 0xBE, 0xEF]);
}

#[test]
fn byte_stream_multi_fragment_round_trip() {
    // A small byte-stream capacity forces the same fragmentation logic to split over the stream
    // link too, exercising the parameterization (identical logic, different MTU/transport).
    let mut link: FullLink<_> = Link::new(MockByteStreamLink::new(10));
    let packet: Vec<u8> = (0..40u8).collect();
    assert_round_trip(&mut link, &packet);
}

#[test]
fn ble_instance_never_emits_a_frame_over_20_bytes() {
    // The headline parameterization assertion: drive the BLE instance with
    // a packet that must fragment, and confirm no emitted frame ever exceeds 20 B.
    let mut link: FullLink<_> = Link::new(MockDatagramLink::new(20));
    let packet: Vec<u8> = (0..(16 * 19)).map(|i| i as u8).collect(); // the max: 304 B
    link.send(&packet).expect("send");
    assert!(
        link.transport().max_emitted <= 20,
        "emitted {}",
        link.transport().max_emitted
    );
    // And it still reassembles.
    let mut out = [0u8; MAX_PACKET_TEST];
    let n = link.poll_recv(&mut out);
    assert_eq!(n, Some(packet.len()));
    assert_eq!(&out[..packet.len()], &packet[..]);
}

#[test]
fn mtu_hint_reflects_capacity() {
    let ble: FullLink<_> = Link::new(MockDatagramLink::new(20));
    assert_eq!(ble.mtu_hint(), 16 * 19); // 304
    let uart: FullLink<_> = Link::new(MockByteStreamLink::new(255));
    assert_eq!(uart.mtu_hint(), 16 * 254); // 4064
}

#[test]
fn pid_increments_and_wraps_across_packets() {
    // Nine single-frame packets: PID should run 0..7 then wrap to 0, each delivered cleanly.
    let mut link: FullLink<_> = Link::new(MockDatagramLink::new(20));
    for i in 0u8..9 {
        assert_round_trip(&mut link, &[i, i.wrapping_add(1)]);
    }
}

#[test]
fn oversize_packet_rejected() {
    let mut link: FullLink<_> = Link::new(MockDatagramLink::new(20));
    let packet: Vec<u8> = (0..(16 * 19 + 1)).map(|i| i as u8).collect();
    assert_eq!(link.send(&packet), Err(SendError::PacketTooLarge));
}

#[test]
fn poll_recv_empty_when_no_frames() {
    let mut link: FullLink<_> = Link::new(MockDatagramLink::new(20));
    let mut out = [0u8; 64];
    assert_eq!(link.poll_recv(&mut out), None);
}
