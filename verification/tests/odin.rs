//! The download-mode session.

use std::collections::VecDeque;
use std::time::Duration;

use thor::odin::{
    check_ack, check_handshake, check_reply, place_block, FlashFailKind, Odin, OdinError, OdinFailure,
};
use thor::transport::{Transport, UsbError};

/// A scripted transport: records every write, replays queued reads in order.
#[derive(Default)]
struct MockTransport {
    writes: Vec<Vec<u8>>,
    reads: VecDeque<Vec<u8>>,
}

impl MockTransport {
    fn with_reads(reads: Vec<Vec<u8>>) -> Self {
        MockTransport { writes: Vec::new(), reads: reads.into() }
    }
}

impl Transport for MockTransport {
    fn bulk_write(&mut self, data: &[u8], _t: Duration) -> Result<(), UsbError> {
        self.writes.push(data.to_vec());
        Ok(())
    }
    fn bulk_read(&mut self, max: usize, _t: Duration) -> Result<Vec<u8>, UsbError> {
        let mut reply = self.reads.pop_front().unwrap_or_default();
        reply.truncate(max);
        Ok(reply)
    }
    // Keep tests focused: don't consume a scripted read for the drain.
    fn read_zlp(&mut self) -> Result<(), UsbError> {
        Ok(())
    }
}

/// A little-endian i16 version encoded as the bootloader sends it in bytes 6..8 of the
/// BeginSession reply (bytes 0..4 status, byte 4/5 unknown, byte 6/7 version).
fn begin_reply(version: i16) -> Vec<u8> {
    let mut r = vec![0u8; 8];
    r[6..8].copy_from_slice(&version.to_le_bytes());
    r
}

#[test]
fn handshake_sends_odin_and_accepts_loke() {
    let mut odin = Odin::new(MockTransport::with_reads(vec![b"LOKE".to_vec()]));
    odin.handshake().expect("handshake ok");
    odin.into_transport(); // move out to inspect below via a fresh run
}

#[test]
fn handshake_writes_the_literal_odin_bytes() {
    let mut mock = MockTransport::with_reads(vec![b"LOKE".to_vec()]);
    // drive via a borrowed Odin so we can read `writes` afterwards
    {
        let mut odin = Odin::new(&mut mock);
        odin.handshake().expect("handshake ok");
    }
    assert_eq!(mock.writes.len(), 1);
    assert_eq!(mock.writes[0], b"ODIN");
}

#[test]
fn handshake_rejects_wrong_response() {
    let mut odin = Odin::new(MockTransport::with_reads(vec![b"FAIL".to_vec()]));
    assert!(matches!(odin.handshake(), Err(OdinError::Protocol(_))));
}

#[test]
fn begin_session_new_bootloader_parses_version_and_sends_packet_size() {
    // reply 1: version 2; reply 2: ack for the packet-size command
    let mut mock = MockTransport::with_reads(vec![begin_reply(2), vec![0u8; 8]]);
    let version = {
        let mut odin = Odin::new(&mut mock);
        odin.begin_session().expect("begin ok")
    };
    assert_eq!(version.version, 2);
    // two commands were sent: BeginSession, then SendFilePartSize
    assert_eq!(mock.writes.len(), 2);
    // BeginSession: region 0x64, sub 0x00
    assert_eq!(&mock.writes[0][0..4], &0x64i32.to_le_bytes());
    assert_eq!(&mock.writes[0][4..8], &0x00i32.to_le_bytes());
    // SendFilePartSize: region 0x64, sub 0x05, 1 MiB at offset 8
    assert_eq!(&mock.writes[1][4..8], &0x05i32.to_le_bytes());
    assert_eq!(&mock.writes[1][8..12], &1_048_576i32.to_le_bytes());
}

#[test]
fn begin_session_old_bootloader_skips_packet_size() {
    let mut mock = MockTransport::with_reads(vec![begin_reply(1)]);
    {
        let mut odin = Odin::new(&mut mock);
        let v = odin.begin_session().expect("begin ok");
        assert_eq!(v.version, 1);
        assert_eq!(odin.params().unwrap().packet_size, 131_072);
    }
    assert_eq!(mock.writes.len(), 1); // only BeginSession, no packet-size command
}

#[test]
fn begin_session_propagates_device_failure() {
    let mut fail = vec![0xFFu8, 0, 0, 0];
    fail.extend_from_slice(&(-5i32).to_le_bytes());
    let mut odin = Odin::new(MockTransport::with_reads(vec![fail]));
    match odin.begin_session() {
        Err(OdinError::Failure(f)) => assert_eq!(f.kind, FlashFailKind::Auth),
        other => panic!("expected auth failure, got {other:?}"),
    }
}

#[test]
fn dump_pit_assembles_blocks_and_truncates_to_size() {
    // request reply: size = 700 at bytes 4..8
    let mut size_reply = vec![0u8; 8];
    size_reply[4..8].copy_from_slice(&700i32.to_le_bytes());
    let block0 = vec![0xAAu8; 500];
    let block1 = vec![0xBBu8; 200]; // partial final block
    let end_ack = vec![0u8; 8];
    let mut mock =
        MockTransport::with_reads(vec![size_reply, block0, block1, end_ack]);

    let pit = {
        let mut odin = Odin::new(&mut mock);
        odin.dump_pit().expect("dump ok")
    };

    assert_eq!(pit.len(), 700);
    assert!(pit[..500].iter().all(|&b| b == 0xAA));
    assert!(pit[500..700].iter().all(|&b| b == 0xBB));
    // block-read commands carried region 0x65 sub 0x02 with indices 0 and 1
    // writes: [request 0x65/0x01, block 0x65/0x02 idx0, block idx1, end 0x65/0x03]
    assert_eq!(&mock.writes[1][8..12], &0i32.to_le_bytes());
    assert_eq!(&mock.writes[2][8..12], &1i32.to_le_bytes());
}

#[test]
fn success_reply_is_ok() {
    // A normal ack: first byte is not 0xFF.
    assert!(check_reply(&[0, 0, 0, 0, 0, 0, 0, 0]).is_ok());
}

#[test]
fn auth_failure_is_decoded() {
    // 0xFF marker, code -5 (Auth) little-endian at bytes 4..8.
    let mut reply = vec![0xFF, 0, 0, 0];
    reply.extend_from_slice(&(-5i32).to_le_bytes());
    let err = check_reply(&reply).unwrap_err();
    assert_eq!(err.code, -5);
    assert_eq!(err.kind, FlashFailKind::Auth);
}

#[test]
fn write_protect_and_ext4_codes_map() {
    let wp = {
        let mut r = vec![0xFF, 0, 0, 0];
        r.extend_from_slice(&(-2i32).to_le_bytes());
        check_reply(&r).unwrap_err()
    };
    assert_eq!(wp.kind, FlashFailKind::WriteProtect);

    let ext4 = {
        let mut r = vec![0xFF, 0, 0, 0];
        r.extend_from_slice(&(-7i32).to_le_bytes());
        check_reply(&r).unwrap_err()
    };
    assert_eq!(ext4.kind, FlashFailKind::Ext4);
}

#[test]
fn unknown_code_keeps_raw_value() {
    let mut reply = vec![0xFF, 0, 0, 0];
    reply.extend_from_slice(&(-100i32).to_le_bytes());
    let err = check_reply(&reply).unwrap_err();
    assert_eq!(err.code, -100);
    assert_eq!(err.kind, FlashFailKind::Unknown);
}

#[test]
fn display_names_the_kind() {
    let err = OdinFailure { code: -5, kind: FlashFailKind::Auth };
    assert!(err.message().contains("Auth"));
}

/// A transport that fails from its `n`th transfer on.
struct Failing {
    left: usize,
    inner: MockTransport,
}

impl Failing {
    fn after(n: usize, reads: Vec<Vec<u8>>) -> Self {
        Failing { left: n, inner: MockTransport::with_reads(reads) }
    }

    fn step(&mut self) -> Result<(), UsbError> {
        if self.left == 0 {
            return Err(UsbError::Timeout);
        }
        self.left -= 1;
        Ok(())
    }
}

impl Transport for Failing {
    fn bulk_write(&mut self, data: &[u8], t: Duration) -> Result<(), UsbError> {
        self.step()?;
        self.inner.bulk_write(data, t)
    }
    fn bulk_read(&mut self, max: usize, t: Duration) -> Result<Vec<u8>, UsbError> {
        self.step()?;
        self.inner.bulk_read(max, t)
    }
}

/// The reply that announces a table of `size` bytes.
fn size_reply(size: i32) -> Vec<u8> {
    let mut r = vec![0u8; 8];
    r[4..8].copy_from_slice(&size.to_le_bytes());
    r
}

/// The reply of a device that reports the failure `code`.
fn failure(code: i32) -> Vec<u8> {
    let mut r = vec![0xFF, 0, 0, 0];
    r.extend_from_slice(&code.to_le_bytes());
    r
}

#[test]
fn a_wrong_handshake_is_shown_byte_by_byte() {
    let mut odin = Odin::new(MockTransport::with_reads(vec![b"LO".to_vec()]));
    assert_eq!(
        odin.handshake().unwrap_err().message(),
        "protocol error: expected LOKE handshake, got [76, 79]"
    );
}

#[test]
fn transport_failures_come_through() {
    for n in 0..2 {
        let mut odin = Odin::new(Failing::after(n, vec![b"LOKE".to_vec()]));
        assert!(matches!(odin.handshake(), Err(OdinError::Usb(UsbError::Timeout))));
    }
    for n in 0..9 {
        let mut odin = Odin::new(Failing::after(
            n,
            vec![size_reply(600), vec![1; 500], vec![2; 100], vec![], vec![0; 8]],
        ));
        let dump = odin.dump_pit();
        // The drain of the default transport is best effort: only its failure is passed over.
        assert!(matches!(dump, Err(OdinError::Usb(UsbError::Timeout))), "{n}");
    }
}

#[test]
fn a_short_reply_is_a_protocol_error() {
    let mut odin = Odin::new(MockTransport::with_reads(vec![vec![0; 7]]));
    assert_eq!(
        odin.begin_session().unwrap_err().message(),
        "protocol error: expected 8-byte reply, got 7"
    );
    assert_eq!(odin.version(), None);
    assert_eq!(odin.params(), None);
}

#[test]
fn a_session_is_not_begun_when_the_packet_size_is_refused() {
    let mut odin = Odin::new(MockTransport::with_reads(vec![begin_reply(3), failure(-6)]));
    let err = odin.begin_session().unwrap_err();
    assert_eq!(err.message(), "device returned 0xFF (code 0xFFFFFFFA, Size)");
    assert_eq!(odin.version(), None);
}

#[test]
fn a_begun_session_knows_version_and_parameters() {
    let mut reply = begin_reply(-2);
    reply[4] = 7;
    reply[5] = 9;
    let mut odin = Odin::new(MockTransport::with_reads(vec![reply]));
    let v = odin.begin_session().unwrap();
    assert_eq!((v.unknown1, v.unknown2, v.version), (7, 9, -2));
    assert_eq!(odin.version(), Some(v));
    assert_eq!(odin.params().unwrap().packets_per_sequence, 240);
}

#[test]
fn a_negative_table_size_is_refused() {
    let mut odin = Odin::new(MockTransport::with_reads(vec![size_reply(-1)]));
    assert_eq!(odin.dump_pit().unwrap_err().message(), "protocol error: invalid PIT size");
}

#[test]
fn short_blocks_leave_zeros_and_long_ones_are_cut() {
    let mut mock = MockTransport::with_reads(vec![
        size_reply(501),
        vec![1; 10],
        vec![2; 400],
        vec![0; 8],
    ]);
    let pit = Odin::new(&mut mock).dump_pit().unwrap();
    let mut want = vec![0u8; 501];
    want[..10].fill(1);
    want[500] = 2;
    assert_eq!(pit, want);
    let sent: Vec<(u8, u8)> = mock.writes.iter().map(|w| (w[0], w[4])).collect();
    assert_eq!(sent, [(0x65, 1), (0x65, 2), (0x65, 2), (0x65, 3)]);
}

#[test]
fn an_empty_table_has_no_blocks() {
    let mut mock = MockTransport::with_reads(vec![size_reply(0), vec![0; 8]]);
    assert!(Odin::new(&mut mock).dump_pit().unwrap().is_empty());
    assert_eq!(mock.writes.len(), 2);
}

#[test]
fn the_default_drain_reads_and_forgives() {
    // The drain eats the empty read before the closing acknowledgement.
    let reads = vec![size_reply(1), vec![5], vec![], vec![0; 8]];
    let mut odin = Odin::new(Failing::after(100, reads));
    assert_eq!(odin.dump_pit().unwrap(), [5]);
    assert!(Failing::after(0, vec![]).read_zlp().is_ok());
}

/// The one packet that a command sends.
fn sent(run: impl FnOnce(&mut Odin<&mut MockTransport>) -> Result<(), OdinError>) -> Vec<u8> {
    let mut mock = MockTransport::with_reads(vec![vec![0; 8]]);
    run(&mut Odin::new(&mut mock)).unwrap();
    assert_eq!(mock.writes.len(), 1);
    assert_eq!(mock.writes[0].len(), 1024);
    mock.writes.remove(0)
}

#[test]
fn single_commands_are_framed() {
    assert_eq!(sent(|o| o.set_total_bytes(-2))[..17], *b"\x64\0\0\0\x02\0\0\0\xfe\xff\xff\xff\xff\xff\xff\xff\0");
    assert_eq!(sent(|o| o.erase_user_data())[..9], *b"\x64\0\0\0\x07\0\0\0\0");
    assert_eq!(sent(|o| o.enable_tflash())[..9], *b"\x64\0\0\0\x08\0\0\0\0");
    assert_eq!(sent(|o| o.set_region_code("XAA"))[..12], *b"\x64\0\0\0\x08\0\0\0XAA\0");
    assert_eq!(sent(|o| o.end_session())[..8], *b"\x67\0\0\0\0\0\0\0");
    assert_eq!(sent(|o| o.reboot())[..8], *b"\x67\0\0\0\x01\0\0\0");
    assert_eq!(sent(|o| o.reboot_to_odin())[..8], *b"\x67\0\0\0\x02\0\0\0");
    assert_eq!(sent(|o| o.shutdown())[..8], *b"\x67\0\0\0\x03\0\0\0");
}

#[test]
fn every_code_has_its_kind_and_name() {
    let names: Vec<&str> = (1..9).map(|i| FlashFailKind::from_code(-i).name()).collect();
    assert_eq!(
        names,
        ["Unknown", "WriteProtect", "Erase", "Write", "Auth", "Size", "Ext4", "Unknown"]
    );
    assert_eq!(check_reply(&failure(-3)).unwrap_err().message(), "device returned 0xFF (code 0xFFFFFFFD, Erase)");
    assert_eq!(check_reply(&failure(9)).unwrap_err().message(), "device returned 0xFF (code 0x0009)");
}

#[test]
fn a_failure_without_a_code_has_code_zero() {
    let err = check_reply(&[0xFF, 0, 0, 0, 1]).unwrap_err();
    assert_eq!((err.code, err.kind), (0, FlashFailKind::Unknown));
    assert!(check_reply(&[]).is_ok());
}

#[test]
fn acknowledgements_are_judged_by_length_first() {
    assert_eq!(check_ack(Ok(vec![1, 2]), 2).unwrap(), [1, 2]);
    assert!(matches!(check_ack(Ok(failure(-5)), 4), Err(OdinError::Protocol(_))));
    assert!(matches!(check_ack(Ok(failure(-5)), 8), Err(OdinError::Failure(_))));
    assert!(matches!(check_ack(Err(UsbError::NoDevice), 8), Err(OdinError::Usb(UsbError::NoDevice))));
    assert!(check_handshake(Ok(b"LOKE".to_vec())).is_ok());
    assert!(matches!(check_handshake(Err(UsbError::NotConnected)), Err(OdinError::Usb(_))));
}

#[test]
fn errors_are_made_from_their_causes() {
    let e: OdinError = UsbError::NoEndpoints.into();
    assert_eq!(e.message(), "no valid CDC-data bulk endpoints found");
    let e: OdinError = OdinFailure { code: -2, kind: FlashFailKind::WriteProtect }.into();
    assert_eq!(e.message(), "device returned 0xFF (code 0xFFFFFFFE, WriteProtect)");
    assert_eq!(UsbError::NoDevice.message(), "no matching Samsung device found");
    assert_eq!(UsbError::NotConnected.message(), "not connected to a device");
    assert_eq!(UsbError::Timeout.message(), "USB transfer timed out");
    assert_eq!(UsbError::Backend("x".into()).message(), "USB error: x");
}

#[test]
fn blocks_are_placed_as_far_as_they_fit() {
    let mut pit = vec![0u8; 4];
    place_block(&mut pit, 1, &[7, 8]);
    place_block(&mut pit, 3, &[9, 9, 9]);
    place_block(&mut pit, 4, &[1]);
    assert_eq!(pit, [0, 7, 8, 9]);
}

/// A transport that acknowledges everything and keeps the timeouts of its reads and writes.
#[derive(Default)]
struct Timed {
    writes: Vec<Duration>,
    reads: Vec<(usize, Duration)>,
}

impl Transport for Timed {
    fn bulk_write(&mut self, _data: &[u8], t: Duration) -> Result<(), UsbError> {
        self.writes.push(t);
        Ok(())
    }
    fn bulk_read(&mut self, max: usize, t: Duration) -> Result<Vec<u8>, UsbError> {
        self.reads.push((max, t));
        Ok(vec![0; max.min(8)])
    }
}

#[test]
fn transfers_have_their_timeouts() {
    let mut t = Timed::default();
    let mut odin = Odin::new(&mut t);
    assert!(odin.handshake().is_err());
    odin.erase_user_data().unwrap();
    odin.dump_pit().unwrap();
    assert!(t.writes.iter().all(|d| *d == Duration::from_secs(5)));
    assert_eq!(
        t.reads,
        [
            (4, Duration::from_secs(5)),
            (8, Duration::from_secs(600)),
            (8, Duration::from_secs(5)),
            (0, Duration::from_millis(100)),
            (8, Duration::from_secs(5)),
        ]
    );
}
