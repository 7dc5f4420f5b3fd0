//! The upload-mode session.

use std::collections::VecDeque;
use std::time::Duration;

use thor::transport::{Transport, UsbError};
use thor::upload::{
    check_preamble, parse_probe_table, ChunkSink, MemorySink, ProgressMeter, QuietMeter, Region,
    Upload, UploadError, ACK, DATAXFER, NAK, POSTAMBLE, POWERDOWN, PREAMBLE, PROBE,
    PROBE_HEADER_LEN,
};

#[derive(Default)]
struct MockTransport {
    writes: Vec<Vec<u8>>,
    reads: VecDeque<Vec<u8>>,
}
impl MockTransport {
    fn with_reads(reads: Vec<Vec<u8>>) -> Self {
        MockTransport {
            writes: Vec::new(),
            reads: reads.into(),
        }
    }
}
impl Transport for MockTransport {
    fn bulk_write(&mut self, data: &[u8], _t: Duration) -> Result<(), UsbError> {
        self.writes.push(data.to_vec());
        Ok(())
    }
    fn bulk_read(&mut self, max: usize, _t: Duration) -> Result<Vec<u8>, UsbError> {
        let mut reply = self.reads.pop_front().unwrap_or_default();
        reply.truncate(max);
        Ok(reply)
    }
}

/// A sink that keeps its chunks, and refuses each with this message where it has one.
#[derive(Default)]
struct Chunks {
    taken: Vec<Vec<u8>>,
    refusal: Option<String>,
}
impl ChunkSink for Chunks {
    fn take(&mut self, chunk: &[u8]) -> Result<(), UploadError> {
        self.taken.push(chunk.to_vec());
        match &self.refusal {
            Some(m) => Err(UploadError::Protocol(m.clone())),
            None => Ok(()),
        }
    }
}

/// A meter that keeps its reports.
#[derive(Default)]
struct Reports(Vec<(u64, u64)>);
impl ProgressMeter for Reports {
    fn report(&mut self, pos: u64, total: u64) {
        self.0.push((pos, total));
    }
}

/// Build a 64-bit probe buffer: 16-byte header (leading '+'), then 0x28-byte entries.
fn probe64(entries: &[(u32, &str, u64, u64)]) -> Vec<u8> {
    let mut buf = vec![0u8; PROBE_HEADER_LEN];
    buf[0] = b'+';
    for &(ptype, name, start, end) in entries {
        let mut e = vec![0u8; 0x28];
        e[0..4].copy_from_slice(&ptype.to_le_bytes());
        let nb = name.as_bytes();
        e[4..4 + nb.len()].copy_from_slice(nb); // rest stays NUL
        e[0x18..0x20].copy_from_slice(&start.to_le_bytes());
        e[0x20..0x28].copy_from_slice(&end.to_le_bytes());
        buf.extend_from_slice(&e);
    }
    // all-zero terminator entry
    buf.extend_from_slice(&[0u8; 0x28]);
    buf
}

#[test]
fn parse_probe_table_reads_64bit_entries() {
    let data = probe64(&[
        (1, "DRAM", 0x8000_0000, 0x8000_1000),
        (2, "TZ", 0x9000_0000, 0x9000_2000),
    ]);
    let regions = parse_probe_table(&data);
    assert_eq!(regions.len(), 2);
    assert_eq!(regions[0].name, "DRAM");
    assert_eq!(regions[0].start, 0x8000_0000);
    assert_eq!(regions[0].end, 0x8000_1000);
    assert_eq!(regions[0].size(), 0x1000);
    assert_eq!(regions[1].name, "TZ");
    assert_eq!(regions[1].ptype, 2);
}

#[test]
fn parse_probe_table_stops_at_zero_entry() {
    // A single real entry followed by the all-zero terminator → exactly one region.
    let data = probe64(&[(1, "DRAM", 0x8000_0000, 0x8000_1000)]);
    assert_eq!(parse_probe_table(&data).len(), 1);
}

#[test]
fn parse_probe_table_32bit_entries() {
    // No leading '+' → 32-bit mode, entry size 0x1C, u32 addresses, name len 16.
    let mut buf = vec![0u8; PROBE_HEADER_LEN];
    buf[0] = b'X'; // not '+'
    let mut e = vec![0u8; 0x1C];
    e[0..4].copy_from_slice(&7u32.to_le_bytes());
    e[4..8].copy_from_slice(b"RAM\0");
    e[0x14..0x18].copy_from_slice(&0x4000_0000u32.to_le_bytes());
    e[0x18..0x1C].copy_from_slice(&0x4010_0000u32.to_le_bytes());
    buf.extend_from_slice(&e);
    buf.extend_from_slice(&[0u8; 0x1C]); // terminator

    let regions = parse_probe_table(&buf);
    assert_eq!(regions.len(), 1);
    assert_eq!(regions[0].name, "RAM");
    assert_eq!(regions[0].start, 0x4000_0000);
    assert_eq!(regions[0].end, 0x4010_0000);
}

#[test]
fn parse_probe_table_empty_for_short_buffer() {
    assert!(parse_probe_table(&[0u8; 4]).is_empty());
}

#[test]
fn handshake_sends_preamble_and_accepts_ack() {
    let mut mock = MockTransport::with_reads(vec![ACK.to_vec()]);
    {
        let mut up = Upload::new(&mut mock);
        up.handshake().expect("handshake ok");
    }
    assert_eq!(mock.writes[0], PREAMBLE);
}

#[test]
fn handshake_rejects_non_upload_device() {
    let mut up = Upload::new(MockTransport::with_reads(vec![b"junk".to_vec()]));
    assert!(matches!(up.handshake(), Err(UploadError::NotUploadMode)));
}

#[test]
fn dump_range_streams_chunks_and_stops_at_postamble() {
    // total = 8 bytes; device sends two 4-byte chunks then the postamble.
    let reads = vec![vec![0xAA; 4], vec![0xBB; 4], POSTAMBLE.to_vec()];
    let mut mock = MockTransport::with_reads(reads);
    let mut got = MemorySink::new();
    let dumped = {
        let mut up = Upload::new(&mut mock);
        up.dump_range(0x1000, 0x1008, &mut got, &mut QuietMeter::new()).expect("dump ok")
    };
    let got = got.into_bytes();
    assert_eq!(dumped, 8);
    assert_eq!(got, [vec![0xAA; 4], vec![0xBB; 4]].concat());
    // Framing: PREAMBLE, start hex, end hex, DATAXFER were sent first…
    assert_eq!(mock.writes[0], PREAMBLE);
    assert_eq!(mock.writes[3], DATAXFER);
    // …then an ACK after each of the two data chunks.
    let acks = mock.writes.iter().filter(|w| w.as_slice() == ACK).count();
    assert_eq!(acks, 2);
}

#[test]
fn probe_sends_probe_and_parses_regions() {
    let table = probe64(&[(1, "DRAM", 0x8000_0000, 0x8000_1000)]);
    let mut mock = MockTransport::with_reads(vec![table]);
    let regions = {
        let mut up = Upload::new(&mut mock);
        up.probe().expect("probe ok")
    };
    assert_eq!(regions.len(), 1);
    assert_eq!(regions[0].name, "DRAM");
    assert_eq!(mock.writes[0], PROBE);
}

#[test]
fn power_down_sends_powerdown() {
    let mut mock = MockTransport::with_reads(vec![]);
    {
        let mut up = Upload::new(&mut mock);
        up.power_down().expect("powerdown ok");
    }
    assert_eq!(mock.writes[0], POWERDOWN);
}

#[test]
fn region_sizes_saturate() {
    let region = |start: u64, end: u64| -> Region {
        Region { ptype: 0, name: String::new(), start, end }
    };
    assert_eq!(region(5, 9).size(), 4);
    assert_eq!(region(9, 5).size(), 0);
}

#[test]
fn a_low_start_address_ends_the_table() {
    let data = probe64(&[(1, "A", 20, 30), (2, "B", 19, 30), (3, "C", 50, 60)]);
    let regions = parse_probe_table(&data);
    assert_eq!(regions.len(), 1);
    assert_eq!(regions[0].start, 20);
    // The last entry is cut off.
    assert!(parse_probe_table(&probe64(&[(1, "A", 20, 30)])[..PROBE_HEADER_LEN + 0x27]).is_empty());
}

#[test]
fn names_may_fill_their_field() {
    let name = "ABCDEFGHIJKLMNOPQRST";
    let regions = parse_probe_table(&probe64(&[(1, name, 1000, 2000)]));
    assert_eq!(regions[0].name, name);
}

#[test]
fn errors_have_their_messages() {
    let e: UploadError = UsbError::Timeout.into();
    assert_eq!(e.message(), "USB transfer timed out");
    assert_eq!(UploadError::Protocol("x".into()).message(), "upload protocol error: x");
    assert!(UploadError::NotUploadMode.message().starts_with("device did not acknowledge"));
}

#[test]
fn replies_to_the_preamble_are_judged_by_their_beginning() {
    assert!(check_preamble(Ok(b"AcKnOwLeDgMeNt and more".to_vec())).is_ok());
    assert!(matches!(check_preamble(Ok(NAK.to_vec())), Err(UploadError::NotUploadMode)));
    assert!(matches!(check_preamble(Ok(vec![])), Err(UploadError::NotUploadMode)));
    assert!(matches!(check_preamble(Err(UsbError::Timeout)), Err(UploadError::Usb(_))));
}

/// What a dump of 0x1000..0x1010 came to: the outcome, the chunks, the reports and the writes.
struct Dump {
    outcome: Result<u64, UploadError>,
    chunks: Vec<Vec<u8>>,
    reports: Vec<(u64, u64)>,
    writes: Vec<Vec<u8>>,
}

fn dump(reads: Vec<Vec<u8>>, refusal: Option<&str>) -> Dump {
    let mut mock = MockTransport::with_reads(reads);
    let mut sink = Chunks { taken: Vec::new(), refusal: refusal.map(|m| m.to_string()) };
    let mut meter = Reports::default();
    let outcome = Upload::new(&mut mock).dump_range(0x1000, 0x1010, &mut sink, &mut meter);
    Dump { outcome, chunks: sink.taken, reports: meter.0, writes: mock.writes }
}

#[test]
fn a_range_is_announced_in_fixed_width_hex() {
    let d = dump(vec![vec![1; 16], POSTAMBLE.to_vec()], None);
    assert_eq!(d.outcome.unwrap(), 16);
    assert_eq!(d.reports, [(16, 16)]);
    assert_eq!(d.writes[1], b"0000000000001000");
    assert_eq!(d.writes[2], b"0000000000001010");
}

#[test]
fn each_chunk_is_taken_once_and_reported_in_order() {
    let d = dump(vec![vec![1; 5], vec![2; 10], vec![3; 1], POSTAMBLE.to_vec()], None);
    assert_eq!(d.outcome.unwrap(), 16);
    assert_eq!(d.chunks, [vec![1; 5], vec![2; 10], vec![3; 1]]);
    assert_eq!(d.reports, [(5, 16), (15, 16), (16, 16)]);
}

#[test]
fn a_dump_may_end_early() {
    let d = dump(vec![vec![1; 9], POSTAMBLE[..7].to_vec()], None);
    // What is left of the range is too short for the closing mark, so it is data.
    assert_eq!((d.outcome.unwrap(), d.chunks.len()), (16, 2));
    let mut mock = MockTransport::with_reads(vec![vec![1; 4], POSTAMBLE.to_vec()]);
    let (mut sink, mut meter) = (Chunks::default(), Reports::default());
    let n = Upload::new(&mut mock).dump_range(0, 100, &mut sink, &mut meter).unwrap();
    assert_eq!((n, sink.taken.len()), (4, 1));
    assert_eq!(meter.0, [(4, 100)]);
}

#[test]
fn a_dump_that_stalls_fails() {
    let d = dump(vec![vec![1; 4], vec![]], None);
    assert_eq!(
        d.outcome.unwrap_err().message(),
        "upload protocol error: device returned no data before the transfer completed"
    );
    assert_eq!(d.chunks, [[1; 4]]);
    assert_eq!(d.reports, [(4, 16)]);
    assert_eq!(d.writes.len(), 5);
}

#[test]
fn a_failing_sink_stops_the_dump() {
    let d = dump(vec![vec![1; 4], vec![2; 4]], Some("disk full"));
    assert_eq!(d.outcome.unwrap_err().message(), "upload protocol error: disk full");
    assert_eq!(d.chunks, [[1; 4]]);
    assert!(d.reports.is_empty());
    // The chunk was acknowledged before it was handed on.
    assert_eq!(d.writes.last().unwrap(), &ACK);
}

#[test]
fn an_empty_range_is_announced_and_nothing_read() {
    let mut mock = MockTransport::with_reads(vec![]);
    let mut sink = MemorySink::new();
    let n = Upload::new(&mut mock).dump_range(9, 9, &mut sink, &mut QuietMeter::new()).unwrap();
    assert_eq!(n, 0);
    assert!(sink.into_bytes().is_empty());
    assert_eq!(mock.writes.len(), 4);
}

/// A transport that sends four bytes at a time and keeps what was asked of it.
#[derive(Default)]
struct Timed {
    reads: Vec<(usize, Duration)>,
}

impl Transport for Timed {
    fn bulk_write(&mut self, _data: &[u8], t: Duration) -> Result<(), UsbError> {
        assert_eq!(t, Duration::from_secs(5));
        Ok(())
    }
    fn bulk_read(&mut self, max: usize, t: Duration) -> Result<Vec<u8>, UsbError> {
        self.reads.push((max, t));
        Ok(vec![7; max.min(4)])
    }
}

#[test]
fn no_more_is_asked_for_than_is_left() {
    let mut t = Timed::default();
    let end = (1 << 20) + 6;
    let mut up = Upload::new(&mut t);
    up.dump_range(end - 6, end, &mut MemorySink::new(), &mut QuietMeter::new()).unwrap();
    assert!(up.handshake().is_err());
    up.probe().unwrap();
    assert_eq!(
        t.reads,
        [
            (6, Duration::from_secs(30)),
            (2, Duration::from_secs(30)),
            (POSTAMBLE.len(), Duration::from_secs(5)),
            (64, Duration::from_secs(5)),
            (0x8000, Duration::from_secs(5)),
        ]
    );
}

#[test]
fn large_ranges_are_read_in_chunks() {
    let mut t = Timed::default();
    let mut sink = Chunks { taken: Vec::new(), refusal: Some("enough".into()) };
    let r = Upload::new(&mut t).dump_range(0, u64::MAX, &mut sink, &mut QuietMeter::new());
    assert!(r.is_err());
    assert_eq!(t.reads, [(1 << 20, Duration::from_secs(30))]);
}
