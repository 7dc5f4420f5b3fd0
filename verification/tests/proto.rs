//! Command packets.

use thor::proto::{read_i32_le, Packet};

#[test]
fn command_sets_region_and_subcommand() {
    let p = Packet::command(0x64, 0x05);
    assert_eq!(&p.as_bytes()[0..4], &0x64i32.to_le_bytes());
    assert_eq!(&p.as_bytes()[4..8], &0x05i32.to_le_bytes());
}

#[test]
fn packet_is_always_1024_bytes_and_zero_padded() {
    let mut p = Packet::command(0x64, 0x00);
    p.write_i32(8, i32::MAX);
    assert_eq!(p.as_bytes().len(), 1024);
    // everything past the written fields stays zero
    assert!(p.as_bytes()[12..].iter().all(|&b| b == 0));
}

#[test]
fn write_i32_is_little_endian_at_offset() {
    let mut p = Packet::new();
    p.write_i32(8, 0x0102_0304);
    assert_eq!(&p.as_bytes()[8..12], &[0x04, 0x03, 0x02, 0x01]);
}

#[test]
fn write_i64_is_little_endian_at_offset() {
    // SetTotalBytes packs an 8-byte total at offset 8.
    let mut p = Packet::new();
    p.write_i64(8, 0x0102_0304_0506_0708);
    assert_eq!(
        &p.as_bytes()[8..16],
        &[0x08, 0x07, 0x06, 0x05, 0x04, 0x03, 0x02, 0x01]
    );
}

#[test]
fn write_str_writes_ascii_at_offset() {
    // SetRegionCode writes a 3-char code at offset 8.
    let mut p = Packet::new();
    p.write_str(8, "XAA");
    assert_eq!(&p.as_bytes()[8..11], b"XAA");
    assert_eq!(p.as_bytes()[11], 0); // nothing written past the string
}

#[test]
fn builder_methods_chain() {
    let mut p = Packet::command(0x66, 0x03);
    p.write_i32(8, 0x00).write_i32(12, 4096).write_i32(16, 1);
    assert_eq!(read_i32_le(p.as_bytes(), 12), Some(4096));
}

#[test]
fn read_i32_le_reads_reply_value() {
    let reply = [0u8, 0, 0, 0, 0x2A, 0, 0, 0]; // return value 42 at bytes 4..8
    assert_eq!(read_i32_le(&reply, 4), Some(42));
}

#[test]
fn read_i32_le_out_of_range_is_none() {
    let reply = [0u8, 0, 0, 0];
    assert_eq!(read_i32_le(&reply, 4), None);
}

#[test]
fn no_offset_is_too_far_to_ask_for() {
    let reply = [1u8, 0, 0, 0, 2, 0, 0, 0];
    assert_eq!(read_i32_le(&reply, 5), None);
    assert_eq!(read_i32_le(&reply, usize::MAX), None);
    assert_eq!(read_i32_le(&reply, usize::MAX - 3), None);
    assert_eq!(read_i32_le(&[], 0), None);
}

#[test]
fn numbers_are_read_back_from_a_packet() {
    for v in [0, 1, -1, i32::MIN, i32::MAX, 0x1234_5678] {
        let mut p = Packet::new();
        p.write_i32(20, v);
        assert_eq!(read_i32_le(p.as_bytes(), 20), Some(v));
    }
    let mut p = Packet::default();
    p.write_i64(1016, -2);
    assert_eq!(&p.as_bytes()[1016..], &(-2i64).to_le_bytes());
}

#[test]
fn writes_leave_the_rest_alone() {
    let mut p = Packet::command(0x64, 0x02);
    p.write_i64(8, i64::MIN).write_str(100, "é");
    let mut want = vec![0u8; 1024];
    want[0] = 0x64;
    want[4] = 0x02;
    want[15] = 0x80;
    want[100] = 0xc3;
    want[101] = 0xa9;
    assert_eq!(p.as_bytes(), want);
}
