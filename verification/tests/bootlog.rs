//! Carving a boot log out of a memory dump.

use thor::bootlog::{carve, BootLog, DEFAULT_SEC_LOG_ADDR, DEFAULT_SEC_LOG_SIZE};

const HDR: usize = 16;

/// Build one `printk_log` record (dict_len 0, padded to 8) — mirrors the on-wire layout.
fn record(ts: u64, level: u8, text: &str) -> Vec<u8> {
    let padded = (HDR + text.len()).div_ceil(8) * 8;
    let mut r = vec![0u8; padded];
    r[0..8].copy_from_slice(&ts.to_le_bytes());
    r[8..10].copy_from_slice(&(padded as u16).to_le_bytes());
    r[10..12].copy_from_slice(&(text.len() as u16).to_le_bytes());
    r[15] = level & 0x07;
    r[HDR..HDR + text.len()].copy_from_slice(text.as_bytes());
    r
}

/// A printk_log buffer of `n` records embedded in junk (so it exercises the carver, not just
/// the parser).
fn printk_buffer() -> Vec<u8> {
    let mut buf = vec![0xABu8; 128];
    for i in 0..6 {
        buf.extend_from_slice(&record(1_000 * (i + 1), 6, &format!("boot line {i}")));
    }
    buf.extend_from_slice(&[0u8; HDR]); // terminator
    buf.extend_from_slice(&[0xCDu8; 64]);
    buf
}

/// One 5.10 data block `[u64 id][text]`, padded to 8.
fn data_block(id: u64, text: &str) -> Vec<u8> {
    let padded = (8 + text.len()).div_ceil(8) * 8;
    let mut b = vec![0u8; padded];
    b[0..8].copy_from_slice(&id.to_le_bytes());
    b[8..8 + text.len()].copy_from_slice(text.as_bytes());
    b
}

#[test]
fn carve_returns_records_for_printk_log() {
    let log = carve(&printk_buffer());
    match log {
        BootLog::Records(ref r) => {
            assert!(r.len() >= 6, "expected >=6 records, got {}", r.len());
            assert_eq!(r[0].text, "boot line 0");
        }
        other => panic!("expected Records, got {other:?}"),
    }
    assert!(!log.is_empty());
    assert_eq!(log.len(), log.lines().len());
}

#[test]
fn carve_falls_back_to_textlines_for_ringbuffer() {
    // No valid printk_log records here, only 5.10 data blocks.
    let mut dump = vec![0u8; 64];
    dump.extend(data_block(1, "ring: alpha"));
    dump.extend(data_block(2, "ring: bravo"));
    dump.extend(data_block(3, "ring: charlie"));
    dump.extend(vec![0xFFu8; 32]);

    let log = carve(&dump);
    match log {
        BootLog::TextLines(ref t) => {
            assert!(t.iter().any(|l| l == "ring: alpha"), "{t:?}");
            assert!(t.iter().any(|l| l == "ring: charlie"), "{t:?}");
        }
        other => panic!("expected TextLines, got {other:?}"),
    }
}

#[test]
fn carve_is_empty_for_junk() {
    assert!(carve(&[0x55u8; 4096]).is_empty());
}

#[test]
fn records_render_as_dmesg_lines() {
    let log = carve(&printk_buffer());
    let first = &log.lines()[0];
    assert!(
        first.starts_with('['),
        "dmesg line should start with '[': {first}"
    );
    assert!(first.contains("boot line 0"));
}

#[test]
fn default_sec_log_region_is_the_j250y_buffer() {
    // Guard against accidental edits to the documented defaults.
    assert_eq!(DEFAULT_SEC_LOG_ADDR, 0x8520_0000);
    assert_eq!(DEFAULT_SEC_LOG_SIZE, 2 * 1024 * 1024);
}

#[test]
fn kinds_are_described() {
    assert_eq!(carve(&printk_buffer()).kind(), "structured printk_log");
    let none = carve(&[]);
    assert_eq!(none.kind(), "5.10+ ringbuffer — text only, no timestamps");
    assert_eq!(none.len(), 0);
    assert!(none.lines().is_empty());
}

#[test]
fn ringbuffer_lines_are_passed_through() {
    let mut dump = Vec::new();
    for i in 0..5u64 {
        dump.extend(data_block(40 + i, &format!("line {i}")));
    }
    let log = carve(&dump);
    assert_eq!(log.lines(), ["line 0", "line 1", "line 2", "line 3", "line 4"]);
}
