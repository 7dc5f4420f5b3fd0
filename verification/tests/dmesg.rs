//! Kernel-log records and how they are carved from a dump.

use thor::dmesg::{carve_dmesg, carve_ringbuffer, parse_printk_records, LogRecord, HEADER};

/// Build one `printk_log` record (dict_len 0, padded to 8).
fn record(ts: u64, level: u8, text: &str) -> Vec<u8> {
    let total = HEADER + text.len();
    let padded = total.div_ceil(8) * 8;
    let mut r = vec![0u8; padded];
    r[0..8].copy_from_slice(&ts.to_le_bytes());
    r[8..10].copy_from_slice(&(padded as u16).to_le_bytes());
    r[10..12].copy_from_slice(&(text.len() as u16).to_le_bytes());
    // dict_len (12..14) = 0, facility (14) = 0
    r[15] = level & 0x07;
    r[HEADER..HEADER + text.len()].copy_from_slice(text.as_bytes());
    r
}

fn log_buffer(records: &[Vec<u8>]) -> Vec<u8> {
    let mut buf = Vec::new();
    for r in records {
        buf.extend_from_slice(r);
    }
    buf.extend_from_slice(&[0u8; HEADER]); // zero-len terminator
    buf
}

#[test]
fn parses_consecutive_records() {
    let buf = log_buffer(&[
        record(1_000_000, 6, "Linux version 3.18.14"),
        record(1_500_000_000, 3, "boot: something failed"),
    ]);
    let recs = parse_printk_records(&buf);
    assert_eq!(recs.len(), 2);
    assert_eq!(recs[0].ts_nsec, 1_000_000);
    assert_eq!(recs[0].text, "Linux version 3.18.14");
    assert_eq!(recs[1].text, "boot: something failed");
}

#[test]
fn stops_at_zero_length_record() {
    let buf = log_buffer(&[record(1, 6, "only one")]);
    assert_eq!(parse_printk_records(&buf).len(), 1);
}

#[test]
fn rejects_record_claiming_length_past_buffer() {
    // A header claiming len = 4096 in a tiny buffer must not read out of bounds.
    let mut buf = vec![0u8; 32];
    buf[8..10].copy_from_slice(&4096u16.to_le_bytes());
    buf[10..12].copy_from_slice(&10u16.to_le_bytes());
    assert!(parse_printk_records(&buf).is_empty());
}

#[test]
fn format_line_looks_like_dmesg() {
    let r = LogRecord {
        ts_nsec: 1_234_567_000,
        level: 6,
        text: "hello".into(),
    };
    assert_eq!(r.format_line(), "[    1.234567] hello");
}

#[test]
fn carves_a_log_embedded_in_junk() {
    // random-ish junk, then a real log run, then more junk.
    let mut dump = vec![0xABu8; 500];
    let log = log_buffer(&[
        record(1_000, 6, "carve me: line one of the kernel log"),
        record(2_000, 6, "carve me: line two of the kernel log"),
        record(3_000, 4, "carve me: line three, a warning"),
        record(4_000, 6, "carve me: line four"),
        record(5_000, 6, "carve me: line five"),
        record(6_000, 6, "carve me: line six"),
        record(7_000, 6, "carve me: line seven"),
        record(8_000, 6, "carve me: line eight"),
    ]);
    dump.extend_from_slice(&log);
    dump.extend_from_slice(&[0xCDu8; 500]);

    let recs = carve_dmesg(&dump);
    assert!(
        recs.len() >= 8,
        "expected to carve the run, got {}",
        recs.len()
    );
    assert_eq!(recs[0].text, "carve me: line one of the kernel log");
}

#[test]
fn carve_returns_empty_for_pure_junk() {
    assert!(carve_dmesg(&[0x55u8; 4096]).is_empty());
}

#[test]
fn carves_log_at_an_unaligned_offset() {
    // The log buffer can sit at any byte offset in a dump — 777 is not 4-aligned.
    let mut dump = vec![0xABu8; 777];
    dump.extend_from_slice(&log_buffer(&[
        record(1_000, 6, "unaligned log line one"),
        record(2_000, 6, "unaligned log line two"),
        record(3_000, 6, "unaligned log line three"),
        record(4_000, 6, "unaligned log line four"),
        record(5_000, 6, "unaligned log line five"),
    ]));
    let recs = carve_dmesg(&dump);
    assert_eq!(recs.len(), 5);
    assert_eq!(recs[0].text, "unaligned log line one");
}

#[test]
fn levels_and_trailing_newlines_are_read() {
    let recs = parse_printk_records(&log_buffer(&[record(5, 0xff, "a line\n\n"), record(6, 2, "")]));
    assert_eq!(recs.len(), 2);
    assert_eq!((recs[0].level, recs[0].text.as_str()), (7, "a line"));
    assert_eq!((recs[1].level, recs[1].text.as_str()), (2, ""));
}

#[test]
fn a_record_shorter_than_its_text_ends_the_log() {
    let mut bad = record(1, 6, "too long");
    bad[10..12].copy_from_slice(&100u16.to_le_bytes());
    let mut buf = record(1, 6, "fine");
    buf.extend_from_slice(&bad);
    assert_eq!(parse_printk_records(&buf).len(), 1);
    assert!(parse_printk_records(&[0u8; 15]).is_empty());
}

#[test]
fn lines_are_rendered_with_microseconds() {
    let line = |ts_nsec: u64| -> String {
        LogRecord { ts_nsec, level: 0, text: "x".into() }.format_line()
    };
    assert_eq!(line(0), "[    0.000000] x");
    assert_eq!(line(999), "[    0.000000] x");
    assert_eq!(line(123_456_000_001_999), "[123456.000001] x");
}

#[test]
fn a_short_run_is_no_log() {
    let four: Vec<Vec<u8>> = (0..4).map(|i| record(i, 6, "four lines only")).collect();
    assert!(carve_dmesg(&log_buffer(&four)).is_empty());
    let five: Vec<Vec<u8>> = (0..5).map(|i| record(i, 6, "five lines do")).collect();
    assert_eq!(carve_dmesg(&log_buffer(&five)).len(), 5);
}

#[test]
fn the_longest_run_is_carved() {
    let run = |n: u64, text: &str| -> Vec<u8> {
        log_buffer(&(0..n).map(|i| record(i, 6, text)).collect::<Vec<_>>())
    };
    let mut dump = run(5, "short run");
    dump.extend_from_slice(&[0xab; 40]);
    dump.extend_from_slice(&run(7, "long run"));
    dump.extend_from_slice(&[0xab; 40]);
    dump.extend_from_slice(&run(7, "later run"));
    let recs = carve_dmesg(&dump);
    assert_eq!(recs.len(), 7);
    assert!(recs.iter().all(|r| r.text == "long run"));
}

#[test]
fn text_that_is_not_printable_starts_no_log() {
    let bad: Vec<Vec<u8>> = (0..9).map(|i| record(i, 6, "\u{1}\u{2}\u{3} noise")).collect();
    assert!(carve_dmesg(&log_buffer(&bad)).is_empty());
}

#[test]
fn a_run_inside_a_shorter_one_is_carved() {
    // Five records, of which the first encloses seven others.
    let inner: Vec<u8> = (0..7).flat_map(|i| record(i, 6, "an inner line of the log")).collect();
    let mut dump = record(9, 6, "outer text that is printable");
    dump.extend_from_slice(&inner);
    let len = dump.len() as u16;
    dump[8..10].copy_from_slice(&len.to_le_bytes());
    for i in 0..4 {
        dump.extend_from_slice(&record(i, 6, "outer line"));
    }
    dump.extend_from_slice(&[0u8; HEADER]);
    assert_eq!(parse_printk_records(&dump).len(), 5);
    let recs = carve_dmesg(&dump);
    // The inner run goes on with the records that follow its enclosing one.
    assert_eq!(recs.len(), 11);
    assert_eq!(recs[0].text, "an inner line of the log");
    assert_eq!(recs[10].text, "outer line");
}

/// Data blocks with the ids from `first` on.
fn blocks(first: u64, lines: &[&str]) -> Vec<u8> {
    let mut out = Vec::new();
    for (i, line) in lines.iter().enumerate() {
        out.extend_from_slice(&(first + i as u64).to_le_bytes());
        out.extend_from_slice(line.as_bytes());
        out.resize(out.len().div_ceil(8) * 8, 0);
    }
    out
}

#[test]
fn the_longest_run_of_blocks_is_carved() {
    let mut dump = vec![0x01u8; 13];
    dump.extend_from_slice(&blocks(10, &["short one", "short two", "short three"]));
    dump.extend_from_slice(&[0x01; 24]);
    dump.extend_from_slice(&blocks(100, &["long one", "long two", "long three", "long four"]));
    dump.extend_from_slice(&[0x01; 24]);
    assert_eq!(carve_ringbuffer(&dump), ["long one", "long two", "long three", "long four"]);
    assert!(carve_ringbuffer(&blocks(1, &["only", "two"])).is_empty());
}
