//! Fragmentation and reassembly.

use hoverboard::link::frag::FragHdr;
use hoverboard::link::reasm::{fragment, FragError, Reassembler, MAX_PACKET};

// Run `packet` through fragment() then push the fragments back through a Reassembler, returning
// the reassembled packet (or None if nothing completed).
fn round_trip(packet: &[u8], chunk_cap: usize, pid: u8) -> Option<Vec<u8>> {
    let frames: Vec<(u8, Vec<u8>)> = fragment(packet, chunk_cap, pid)
        .unwrap()
        .into_iter()
        .map(|(h, c)| (h.encode(), c))
        .collect();
    let mut r: Reassembler<MAX_PACKET> = Reassembler::new();
    let mut out = None;
    for (hdr, chunk) in &frames {
        if let Some(p) = r.push(*hdr, chunk) {
            out = Some(p.to_vec());
        }
    }
    out
}

#[test]
fn single_frame_one_byte_overhead() {
    let packet = [1u8, 2, 3, 4];
    let frames: Vec<(FragHdr, Vec<u8>)> = fragment(&packet, 19, 0).unwrap();
    // Fits one fragment: MORE=0, FRAG_IDX=0, chunk = whole packet, exactly one byte of overhead.
    assert_eq!(frames.len(), 1);
    assert_eq!(
        frames[0].0,
        FragHdr {
            more: false,
            pid: 0,
            frag_idx: 0
        }
    );
    assert_eq!(&frames[0].1[..], &packet);
    assert_eq!(round_trip(&packet, 19, 0).as_deref(), Some(&packet[..]));
}

#[test]
fn empty_packet_round_trips() {
    assert_eq!(round_trip(&[], 19, 3).as_deref(), Some(&[][..]));
}

#[test]
fn larger_than_capacity_splits_and_reassembles() {
    // 50 bytes over a 19-byte chunk capacity -> 3 fragments.
    let packet: Vec<u8> = (0..50u8).collect();
    let frames: Vec<FragHdr> = fragment(&packet, 19, 5).unwrap().into_iter().map(|(h, _)| h).collect();
    assert_eq!(frames.len(), 3);
    assert_eq!(
        frames[0],
        FragHdr {
            more: true,
            pid: 5,
            frag_idx: 0
        }
    );
    assert_eq!(
        frames[1],
        FragHdr {
            more: true,
            pid: 5,
            frag_idx: 1
        }
    );
    assert_eq!(
        frames[2],
        FragHdr {
            more: false,
            pid: 5,
            frag_idx: 2
        }
    );
    assert_eq!(round_trip(&packet, 19, 5).as_deref(), Some(&packet[..]));
}

#[test]
fn dropped_middle_fragment_discards_whole_packet() {
    // Build a 3-fragment packet, then drop the middle one. The index jumps 0 -> 2, a skip, so the
    // whole set is discarded (atomic): nothing is delivered.
    let packet: Vec<u8> = (0..50u8).collect();
    let frames: Vec<(u8, Vec<u8>)> = fragment(&packet, 19, 1)
        .unwrap()
        .into_iter()
        .map(|(h, c)| (h.encode(), c))
        .collect();
    let mut r: Reassembler<MAX_PACKET> = Reassembler::new();
    let mut out = None;
    // Push frag 0 and frag 2, skipping frag 1.
    for (hdr, chunk) in [&frames[0], &frames[2]] {
        if let Some(p) = r.push(*hdr, chunk) {
            out = Some(p.to_vec());
        }
    }
    assert_eq!(out, None);
}

#[test]
fn frag_idx_skip_rejected() {
    // frag 0 (MORE) then frag 2 (MORE=0): a skip past index 1. Discarded, nothing delivered.
    let mut r: Reassembler<MAX_PACKET> = Reassembler::new();
    let f0 = FragHdr {
        more: true,
        pid: 2,
        frag_idx: 0,
    }
    .encode();
    let f2 = FragHdr {
        more: false,
        pid: 2,
        frag_idx: 2,
    }
    .encode();
    assert_eq!(r.push(f0, &[1, 2, 3]), None);
    assert_eq!(r.push(f2, &[7, 8, 9]), None);
}

#[test]
fn interleaved_different_pid_does_not_corrupt() {
    // Reassembling PID=1; a continuation arrives with PID=2 at the expected index. Without the
    // PID check it would be appended and falsely complete a corrupt packet. The PID mismatch must
    // discard the set instead: nothing delivered.
    let mut r: Reassembler<MAX_PACKET> = Reassembler::new();
    let a0 = FragHdr {
        more: true,
        pid: 1,
        frag_idx: 0,
    }
    .encode();
    let b1 = FragHdr {
        more: false,
        pid: 2,
        frag_idx: 1,
    }
    .encode();
    assert_eq!(r.push(a0, &[0xAA, 0xAA]), None);
    assert_eq!(r.push(b1, &[0xBB, 0xBB]), None);
}

#[test]
fn new_packet_mid_reassembly_supersedes_old() {
    // PID=1 starts (incomplete), then PID=2 begins at FRAG_IDX 0: the old set is dropped and the
    // new single-fragment packet is delivered cleanly.
    let mut r: Reassembler<MAX_PACKET> = Reassembler::new();
    let a0 = FragHdr {
        more: true,
        pid: 1,
        frag_idx: 0,
    }
    .encode();
    let b0 = FragHdr {
        more: false,
        pid: 2,
        frag_idx: 0,
    }
    .encode();
    assert_eq!(r.push(a0, &[0xAA, 0xAA]), None);
    assert_eq!(
        r.push(b0, &[0xBB, 0xCC]).map(|p| p.to_vec()),
        Some(vec![0xBB, 0xCC])
    );
}

#[test]
fn a_complete_set_of_uneven_chunks_is_delivered_over_a_stale_set() {
    // Chunks of any sizes, an empty one among them, that no fragmenter here would cut.
    let hdr = |pid: u8, frag_idx: u8, more: bool| FragHdr { more, pid, frag_idx }.encode();
    let mut r: Reassembler<MAX_PACKET> = Reassembler::new();
    assert_eq!(r.push(hdr(1, 0, true), &[0xAA; 7]), None);
    assert_eq!(r.push(hdr(2, 0, true), &[1, 2, 3]), None);
    assert_eq!(r.push(hdr(2, 1, true), &[]), None);
    assert_eq!(r.push(hdr(2, 2, true), &[4]), None);
    assert_eq!(
        r.push(hdr(2, 3, false), &[5, 6]).map(|p| p.to_vec()),
        Some(vec![1, 2, 3, 4, 5, 6])
    );
    // Nothing is left of it.
    assert_eq!(r.push(hdr(2, 4, false), &[7]), None);
}

#[test]
fn stray_continuation_without_start_ignored() {
    // A FRAG_IDX > 0 with no set in progress is a stray; ignore it (no panic, nothing delivered).
    let mut r: Reassembler<MAX_PACKET> = Reassembler::new();
    let f3 = FragHdr {
        more: false,
        pid: 0,
        frag_idx: 3,
    }
    .encode();
    assert_eq!(r.push(f3, &[1, 2]), None);
}

#[test]
fn full_16_fragment_packet() {
    // The maximum: 16 fragments of 19 bytes = 304-byte packet over the BLE chunk capacity.
    let packet: Vec<u8> = (0..(16 * 19)).map(|i| i as u8).collect();
    let count = fragment(&packet, 19, 0).unwrap().len();
    assert_eq!(count, 16);
    assert_eq!(round_trip(&packet, 19, 0).as_deref(), Some(&packet[..]));
}

#[test]
fn over_16_fragments_rejected() {
    // 17 fragments' worth at a 19-byte chunk capacity exceeds the 16-fragment bound.
    let packet: Vec<u8> = (0..(16 * 19 + 1)).map(|i| i as u8).collect();
    let r = fragment(&packet, 19, 0);
    assert_eq!(r, Err(FragError::PacketTooLarge));
}

#[test]
fn zero_chunk_cap_rejected() {
    assert_eq!(
        fragment(&[1, 2], 0, 0),
        Err(FragError::ZeroChunkCap)
    );
}

/// A packet that outgrows the buffer is discarded, and the next one is delivered.
#[test]
fn overflow_discards_the_set() {
    let mut r: Reassembler<4> = Reassembler::new();
    let first = FragHdr { more: true, pid: 1, frag_idx: 0 }.encode();
    let last = FragHdr { more: false, pid: 1, frag_idx: 1 }.encode();
    let single = FragHdr { more: false, pid: 2, frag_idx: 0 }.encode();
    assert_eq!(r.push(first, &[1, 2, 3]), None);
    assert_eq!(r.push(last, &[4, 5]), None);
    assert_eq!(r.push(last, &[4]), None);
    assert_eq!(r.push(single, &[9, 9, 9, 9]).map(|p| p.to_vec()), Some(vec![9, 9, 9, 9]));
    assert_eq!(r.push(single, &[9, 9, 9, 9, 9]), None);
}

#[test]
fn reset_drops_the_set() {
    let mut r: Reassembler<16> = Reassembler::default();
    let first = FragHdr { more: true, pid: 1, frag_idx: 0 }.encode();
    let last = FragHdr { more: false, pid: 1, frag_idx: 1 }.encode();
    assert_eq!(r.push(first, &[1]), None);
    r.reset();
    assert_eq!(r.push(last, &[2]), None);
}
