//! Opening and closing sessions, and actions in between.

use std::collections::VecDeque;
use std::time::Duration;

use thor::action::{check_pit_file, choose_storage, factory_reset, finish_after, set_region};
use thor::command::Finish;
use thor::odin::Odin;
use thor::session::{finish_session, open_session, read_table, session_params, session_table};
use thor::transport::{Transport, UsbError};

/// A transport that replays replies, `None` being a timeout, and keeps what was written.
#[derive(Default)]
struct Script {
    writes: Vec<Vec<u8>>,
    reads: VecDeque<Option<Vec<u8>>>,
}

impl Script {
    fn new(reads: Vec<Option<Vec<u8>>>) -> Self {
        Script { writes: Vec::new(), reads: reads.into() }
    }

    /// Region and sub-command of each packet.
    fn commands(&self) -> Vec<(u8, u8)> {
        self.writes.iter().map(|w| (w[0], w[4])).collect()
    }
}

impl Transport for Script {
    fn bulk_write(&mut self, data: &[u8], _t: Duration) -> Result<(), UsbError> {
        self.writes.push(data.to_vec());
        Ok(())
    }
    fn bulk_read(&mut self, max: usize, _t: Duration) -> Result<Vec<u8>, UsbError> {
        match self.reads.pop_front() {
            Some(Some(mut b)) => {
                b.truncate(max);
                Ok(b)
            }
            _ => Err(UsbError::Timeout),
        }
    }
}

fn ok() -> Option<Vec<u8>> {
    Some(vec![0; 8])
}

fn loke() -> Option<Vec<u8>> {
    Some(b"LOKE".to_vec())
}

/// The replies to the dump of an empty table.
fn empty_table() -> Vec<Option<Vec<u8>>> {
    let mut table = vec![0x76, 0x98, 0x34, 0x12];
    table.resize(28, 0);
    let mut size = vec![0; 8];
    size[4] = 28;
    vec![Some(size), Some(table), Some(vec![]), ok()]
}

#[test]
fn an_opened_session_shows_its_version() {
    let mut t = Script::new(vec![loke(), Some(vec![0, 0, 0, 0, 0, 0, 3, 0]), ok()]);
    let mut odin = Odin::new(&mut t);
    assert_eq!(
        open_session(&mut odin).unwrap(),
        "Odin session started (bootloader version 3, unknown1=0, unknown2=0)\n"
    );
    assert_eq!(session_params(&odin).unwrap().packet_size, 1_048_576);

    let mut odin = Odin::new(Script::new(vec![loke(), Some(vec![0, 0, 0, 0, 0, 5, 1, 0])]));
    assert_eq!(
        open_session(&mut odin).unwrap(),
        "Odin session started (bootloader version 1, unknown1=0, unknown2=5)\n\
         note: unknown1/unknown2 are non-zero — possible undiscovered capabilities\n"
    );
}

#[test]
fn a_failed_handshake_comes_with_a_hint() {
    let mut odin = Odin::new(Script::new(vec![None]));
    let err = open_session(&mut odin).unwrap_err();
    assert!(err.starts_with("USB transfer timed out\nhint: if this timed out, reboot the device"));
    let mut odin = Odin::new(Script::new(vec![loke(), None]));
    assert_eq!(open_session(&mut odin).unwrap_err(), "USB transfer timed out");
    assert_eq!(session_params(&odin).unwrap_err(), "session has no flash params");
}

#[test]
fn leaving_sends_nothing() {
    let mut t = Script::default();
    let done = finish_session(&mut Odin::new(&mut t), Finish::Leave);
    assert_eq!(done.text, "(device left in download mode — `thor reboot` to exit)\n");
    assert!(done.error.is_none() && t.writes.is_empty());
}

/// What finishing shows, its error, and the commands that it sends.
fn finish(reads: Vec<Option<Vec<u8>>>, how: Finish) -> (String, bool, Vec<(u8, u8)>) {
    let mut t = Script::new(reads);
    let done = finish_session(&mut Odin::new(&mut t), how);
    (done.text, done.error.is_some(), t.commands())
}

#[test]
fn rebooting_ends_the_session_first() {
    let (text, failed, sent) = finish(vec![None, ok()], Finish::RebootNormal);
    assert_eq!((text.as_str(), failed), ("Rebooting into normal mode.\n", false));
    assert_eq!(sent, [(0x67, 0), (0x67, 1)]);
    let (text, failed, _) = finish(vec![ok(), None], Finish::RebootNormal);
    assert_eq!((text.as_str(), failed), ("", true));
}

#[test]
fn a_device_that_cannot_stay_in_download_mode_reboots_normally() {
    let (text, failed, sent) = finish(vec![ok(), ok()], Finish::RebootDownload);
    assert_eq!((text.as_str(), failed), ("Rebooting into download mode.\n", false));
    assert_eq!(sent, [(0x67, 0), (0x67, 2)]);
    let (text, failed, sent) = finish(vec![ok(), None, ok()], Finish::RebootDownload);
    assert_eq!(
        (text.as_str(), failed),
        ("This device doesn't support reboot-to-download; doing a normal reboot.\n", false)
    );
    assert_eq!(sent, [(0x67, 0), (0x67, 2), (0x67, 1)]);
    assert!(finish(vec![ok(), None, None], Finish::RebootDownload).1);
}

#[test]
fn a_device_that_does_not_shut_down_has_its_session_ended() {
    let (text, failed, sent) = finish(vec![ok()], Finish::Shutdown);
    assert_eq!((text.as_str(), failed), ("Device shutting down.\n", false));
    assert_eq!(sent, [(0x67, 3)]);
    let (_, failed, sent) = finish(vec![None, None], Finish::Shutdown);
    assert!(!failed);
    assert_eq!(sent, [(0x67, 3), (0x67, 0)]);
}

#[test]
fn the_table_is_dumped_once() {
    let mut t = Script::new(empty_table());
    let mut odin = Odin::new(&mut t);
    let mut cache = None;
    session_table(&mut odin, &mut cache).unwrap();
    session_table(&mut odin, &mut cache).unwrap();
    assert!(cache.unwrap().entries.is_empty());
    assert_eq!(t.commands(), [(0x65, 1), (0x65, 2), (0x65, 3)]);
}

#[test]
fn a_table_that_does_not_parse_is_an_error() {
    let mut reads = empty_table();
    reads[1] = Some(vec![1, 2, 3, 4]);
    let mut odin = Odin::new(Script::new(reads));
    let mut cache = None;
    assert_eq!(
        session_table(&mut odin, &mut cache).unwrap_err(),
        "magic number mismatch: got 0x04030201"
    );
    assert!(cache.is_none());
    assert_eq!(read_table(&mut odin).unwrap_err(), "USB transfer timed out");
}

#[test]
fn unconfirmed_actions_send_nothing() {
    let mut t = Script::default();
    let mut odin = Odin::new(&mut t);
    assert!(!factory_reset(&mut odin, false).unwrap());
    assert!(!set_region(&mut odin, "XAA", false).unwrap());
    assert!(!choose_storage(&mut odin, false).unwrap());
    assert!(finish_session(&mut odin, finish_after(false, Finish::Shutdown)).error.is_none());
    assert!(t.writes.is_empty());
}

#[test]
fn confirmed_actions_send_their_command() {
    let mut t = Script::new(vec![ok(), ok(), ok(), None]);
    let mut odin = Odin::new(&mut t);
    assert!(factory_reset(&mut odin, true).unwrap());
    assert!(set_region(&mut odin, "XAA", true).unwrap());
    assert!(choose_storage(&mut odin, true).unwrap());
    assert_eq!(factory_reset(&mut odin, true).unwrap_err().message(), "USB transfer timed out");
    assert_eq!(t.commands(), [(0x64, 7), (0x64, 8), (0x64, 8), (0x64, 7)]);
    assert_eq!(&t.writes[1][8..12], b"XAA\0");
    assert_eq!(finish_after(true, Finish::RebootDownload), Finish::RebootDownload);
}

#[test]
fn what_is_no_table_is_refused() {
    let mut table = vec![0x76, 0x98, 0x34, 0x12];
    table.resize(28, 0);
    assert_eq!(check_pit_file("a.pit", &table), None);
    assert_eq!(
        check_pit_file("a.pit", &table[..27]).unwrap(),
        "a.pit isn't a valid PIT: PIT data ended unexpectedly"
    );
    assert_eq!(
        check_pit_file("b", b"none").unwrap(),
        "b isn't a valid PIT: magic number mismatch: got 0x656E6F6E"
    );
}
