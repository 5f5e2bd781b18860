//! The fragmentation header.

use hoverboard::link::frag::{next_pid, FragHdr};

#[test]
fn single_frame_header_is_zero() {
    // The common case: MORE=0, PID=0, FRAG_IDX=0 -> the all-zero byte.
    let h = FragHdr {
        more: false,
        pid: 0,
        frag_idx: 0,
    };
    assert_eq!(h.encode(), 0x00);
}

#[test]
fn bit_positions() {
    // MORE in bit 7.
    assert_eq!(
        FragHdr {
            more: true,
            pid: 0,
            frag_idx: 0
        }
        .encode(),
        0b1000_0000
    );
    // PID in bits 6..4.
    assert_eq!(
        FragHdr {
            more: false,
            pid: 0b101,
            frag_idx: 0
        }
        .encode(),
        0b0101_0000
    );
    // FRAG_IDX in bits 3..0.
    assert_eq!(
        FragHdr {
            more: false,
            pid: 0,
            frag_idx: 0b1011
        }
        .encode(),
        0b0000_1011
    );
    // All three together.
    assert_eq!(
        FragHdr {
            more: true,
            pid: 7,
            frag_idx: 15
        }
        .encode(),
        0b1111_1111
    );
}

#[test]
fn round_trip_all_bytes() {
    for b in 0u8..=255 {
        assert_eq!(
            FragHdr::decode(b).encode(),
            b,
            "byte {b:#04x} did not round-trip"
        );
    }
}

#[test]
fn fields_are_masked_on_encode() {
    // Over-range pid/frag_idx are confined to their fields, never corrupting a neighbour.
    let h = FragHdr {
        more: false,
        pid: 0xFF,
        frag_idx: 0xFF,
    };
    assert_eq!(h.encode(), 0b0111_1111);
}

#[test]
fn packet_ids_wrap_after_seven() {
    assert_eq!(next_pid(0), 1);
    assert_eq!(next_pid(6), 7);
    assert_eq!(next_pid(7), 0);
}
