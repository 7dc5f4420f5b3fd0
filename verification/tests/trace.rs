//! Tracing of what goes over the wire.

use thor::trace::{
    command_name, describe_command, hex_preview, log_read, log_write, set_trace, trace_enabled, Trace,
};

fn cmd(region: i32, sub: i32) -> Vec<u8> {
    let mut b = vec![0u8; 1024];
    b[0..4].copy_from_slice(&region.to_le_bytes());
    b[4..8].copy_from_slice(&sub.to_le_bytes());
    b
}

#[test]
fn describes_begin_session() {
    let d = describe_command(&cmd(0x64, 0x00));
    assert!(d.contains("BeginSession"), "{d}");
    assert!(d.contains("1024"), "{d}");
}

#[test]
fn describes_end_region_commands() {
    assert!(describe_command(&cmd(0x67, 0x01)).contains("Reboot"));
    assert!(describe_command(&cmd(0x66, 0x03)).contains("EndSequence"));
}

#[test]
fn describes_handshake() {
    assert!(describe_command(b"ODIN").contains("ODIN"));
}

#[test]
fn unknown_command_is_marked() {
    assert!(describe_command(&cmd(0x64, 0x63)).contains('?'));
}

#[test]
fn short_buffer_shows_length_only() {
    assert_eq!(describe_command(&[1, 2, 3]), "[3B]");
}

#[test]
fn hex_preview_truncates_with_ellipsis() {
    assert_eq!(hex_preview(&[0xAA, 0xBB, 0xCC], 2), "aa bb …");
    assert_eq!(hex_preview(&[0x01, 0x02], 4), "01 02");
}

#[test]
fn trace_toggle_round_trips() {
    let mut trace = Trace::new();
    set_trace(&mut trace, true);
    assert!(trace_enabled(&trace));
    set_trace(&mut trace, false);
    assert!(!trace_enabled(&trace));
}

#[test]
fn nothing_is_logged_unless_the_trace_is_on() {
    let mut trace = Trace::default();
    assert_eq!(log_write(&trace, b"ODIN"), None);
    assert_eq!(log_read(&trace, b"LOKE"), None);
    set_trace(&mut trace, true);
    assert_eq!(
        log_write(&trace, b"ODIN").unwrap(),
        "→ ODIN (handshake) [4B]   4f 44 49 4e"
    );
    assert_eq!(log_read(&trace, b"LOKE").unwrap(), "← 4B   4c 4f 4b 45");
}

#[test]
fn long_transfers_are_previewed_by_their_first_twelve_bytes() {
    let mut trace = Trace::new();
    set_trace(&mut trace, true);
    let mut begin = cmd(0x64, 0x00);
    begin[8..12].copy_from_slice(&i32::MAX.to_le_bytes());
    assert_eq!(
        log_write(&trace, &begin).unwrap(),
        "→ BeginSession (region=0x64 sub=0x00) [1024B]   64 00 00 00 00 00 00 00 ff ff ff 7f …"
    );
    assert_eq!(log_read(&trace, &[1; 12]).unwrap(), "← 12B   01 01 01 01 01 01 01 01 01 01 01 01");
}

#[test]
fn commands_are_described_with_their_numbers() {
    assert_eq!(
        describe_command(&cmd(0x65, 0x02)),
        "PitBlock (region=0x65 sub=0x02) [1024B]"
    );
    assert_eq!(
        describe_command(&cmd(-1, 5)),
        "? (region=0xFFFFFFFF sub=0x05) [1024B]"
    );
    assert_eq!(command_name(0x64, 0x08), "EnableTFlash/SetRegion");
    assert_eq!(command_name(0x67, 0x03), "Shutdown");
    assert_eq!(command_name(0x68, 0x00), "?");
}

#[test]
fn previews_of_nothing_are_empty() {
    assert_eq!(hex_preview(&[], 4), "");
    assert_eq!(hex_preview(&[1], 0), " …");
}
