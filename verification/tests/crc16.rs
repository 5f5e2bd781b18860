//! CRC-16/MODBUS.

use hoverboard::link::crc16::modbus;

/// The published check value of CRC-16/MODBUS.
#[test]
fn golden_check_value() {
    assert_eq!(modbus(b"123456789"), 0x4B37);
}

/// A second pair, against a change of init or reflection that the check value might not catch.
#[test]
fn golden_frozen_pair() {
    assert_eq!(modbus(&[0x01, 0x02, 0x03, 0x04, 0x05]), 0xBB2A);
}

#[test]
fn empty_is_init() {
    assert_eq!(modbus(&[]), 0xFFFF);
}

/// Any change of a single byte changes the checksum.
#[test]
fn single_byte_errors_are_seen() {
    let good = [0x5Au8, 0x04, 0x00, 0x11, 0x22, 0x33];
    let crc = modbus(&good);
    for i in 0..good.len() {
        for flip in 1..=255u8 {
            let mut bad = good;
            bad[i] ^= flip;
            assert_ne!(modbus(&bad), crc);
        }
    }
}

/// The shift register that defines the checksum: all ones, each byte folded into the low half, eight
/// shifts through the reflected polynomial.
fn register(bytes: &[u8]) -> u16 {
    let mut r = 0xFFFFu16;
    for b in bytes {
        r ^= *b as u16;
        for _ in 0..8 {
            r = if r & 1 == 1 { (r >> 1) ^ 0xA001 } else { r >> 1 };
        }
    }
    r
}

#[test]
fn the_checksum_is_the_shift_register() {
    // Every pair of bytes, behind a varying prefix.
    for a in 0..=255u8 {
        for b in 0..=255u8 {
            let s = [a ^ b, b, a];
            assert_eq!(modbus(&s[1..]), register(&s[1..]));
            assert_eq!(modbus(&s), register(&s));
        }
    }
    let long: Vec<u8> = (0..2000u32).map(|i| (i * 7 + i / 5) as u8).collect();
    for n in 0..long.len() {
        assert_eq!(modbus(&long[..n]), register(&long[..n]));
    }
}
