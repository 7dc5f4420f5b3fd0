//! The Odin protocol: failure decoding and the download-mode session.
//!
//! A device reply signals failure with `0xFF` in byte 0; the signed i32 at bytes 4..8 is the
//! error code. A session is specified by the transfers it adds to its transport's history.

use std::time::Duration;

use vstd::prelude::*;
use vstd::string::StringExecFns;
use vstd::utf8::encode_utf8;

use crate::bytes::{
    holds16, holds32, holds64, i16_at, i32_at, law_signed_16_bits_are_read_back,
    law_signed_32_bits_are_read_back, pattern, read_u16, same_bytes, to_signed16, to_unsigned32,
    unsigned32,
};
use crate::flash::{ceil_div, params_for, FlashParams};
use crate::proto::{
    command_packet, command_packet_i32, command_packet_i64, command_packet_text,
    law_packets_hold_their_numbers, law_packets_hold_their_text, read_i32_le, reply_i32, written,
    Packet, PACKET_LEN,
};
use crate::text::{
    byte_list, byte_list_text, dec, dec_text, digit_number, hex_text, hex_upper, is_digits,
    law_leading_zeros_count_nothing, law_numeral_stands_for_its_number, number_of, pad_left,
    padded_left,
};
use crate::transport::{
    drained, got, read_reply, reply_bytes, usb_error_text, write_outcome, wrote, Event, Transport,
    UsbError,
};

verus! {

/// The reply's first byte when the bootloader reports failure.
pub const FAIL_MARKER: u8 = 0xFF;

/// Timeout of ordinary command/acknowledge exchanges, in milliseconds.
pub const DEFAULT_TIMEOUT_MS: u64 = 5_000;

/// Timeout of the reply to a userdata erase, which takes the device minutes, in milliseconds.
pub const ERASE_TIMEOUT_MS: u64 = 600_000;

/// Region of the session commands.
pub const REGION_SESSION: i32 = 0x64;

/// Region of the partition-table commands.
pub const REGION_PIT: i32 = 0x65;

/// Region of the commands that end a session.
pub const REGION_END: i32 = 0x67;

/// Bytes of the partition table that one block reply carries.
pub const PIT_BLOCK: usize = 500;

/// A decoded end-of-sequence flash failure reason.
#[derive(Debug, Clone, Copy, PartialEq, Eq, Structural)]
pub enum FlashFailKind {
    /// -2: partition is write-protected.
    WriteProtect,
    /// -3: erase step failed.
    Erase,
    /// -4: write step failed.
    Write,
    /// -5: signature/authentication rejected.
    Auth,
    /// -6: size mismatch.
    Size,
    /// -7: ext4-specific failure.
    Ext4,
    /// Any other code.
    Unknown,
}

/// The failure that a code stands for.
pub open spec fn kind_of(code: i32) -> FlashFailKind {
    if code == -2 {
        FlashFailKind::WriteProtect
    } else if code == -3 {
        FlashFailKind::Erase
    } else if code == -4 {
        FlashFailKind::Write
    } else if code == -5 {
        FlashFailKind::Auth
    } else if code == -6 {
        FlashFailKind::Size
    } else if code == -7 {
        FlashFailKind::Ext4
    } else {
        FlashFailKind::Unknown
    }
}

/// The name of a failure kind.
pub open spec fn kind_name(kind: FlashFailKind) -> Seq<char> {
    match kind {
        FlashFailKind::WriteProtect => "WriteProtect"@,
        FlashFailKind::Erase => "Erase"@,
        FlashFailKind::Write => "Write"@,
        FlashFailKind::Auth => "Auth"@,
        FlashFailKind::Size => "Size"@,
        FlashFailKind::Ext4 => "Ext4"@,
        FlashFailKind::Unknown => "Unknown"@,
    }
}

impl FlashFailKind {
    /// Decode a failure code.
    pub fn from_code(code: i32) -> (kind: Self)
        ensures
            kind == kind_of(code),
    {
        if code == -2 {
            FlashFailKind::WriteProtect
        } else if code == -3 {
            FlashFailKind::Erase
        } else if code == -4 {
            FlashFailKind::Write
        } else if code == -5 {
            FlashFailKind::Auth
        } else if code == -6 {
            FlashFailKind::Size
        } else if code == -7 {
            FlashFailKind::Ext4
        } else {
            FlashFailKind::Unknown
        }
    }

    /// The kind's name.
    pub fn name(&self) -> (s: &'static str)
        ensures
            s@ == kind_name(*self),
    {
        match self {
            FlashFailKind::WriteProtect => "WriteProtect",
            FlashFailKind::Erase => "Erase",
            FlashFailKind::Write => "Write",
            FlashFailKind::Auth => "Auth",
            FlashFailKind::Size => "Size",
            FlashFailKind::Ext4 => "Ext4",
            FlashFailKind::Unknown => "Unknown",
        }
    }
}

/// A device reply that reported failure (`0xFF`), with its raw code and decoded kind.
#[derive(Debug, Clone, Copy, PartialEq, Eq, Structural)]
pub struct OdinFailure {
    pub code: i32,
    pub kind: FlashFailKind,
}

/// The text of a device failure.
pub open spec fn failure_text(f: OdinFailure) -> Seq<char> {
    let code = "device returned 0xFF (code 0x"@ + pad_left(
        hex_upper(unsigned32(f.code) as nat),
        4,
        '0',
    );
    if f.kind == FlashFailKind::Unknown {
        code + ")"@
    } else {
        code + ", "@ + kind_name(f.kind) + ")"@
    }
}

impl OdinFailure {
    /// The failure in words.
    pub fn message(&self) -> (s: String)
        ensures
            s@ == failure_text(*self),
    {
        let mut s = String::from_str("device returned 0xFF (code 0x");
        let digits = hex_text(to_unsigned32(self.code) as u64, true);
        let padded = padded_left(digits.as_str(), 4, '0');
        s.append(padded.as_str());
        if self.kind == FlashFailKind::Unknown {
            s.append(")");
        } else {
            s.append(", ");
            s.append(self.kind.name());
            s.append(")");
        }
        s
    }
}

/// The failure that a reply reports: none unless byte 0 is the marker. A reply too short for a
/// code has code 0.
pub open spec fn reply_failure(buf: Seq<u8>) -> Option<OdinFailure> {
    if buf.len() > 0 && buf[0] == FAIL_MARKER {
        let code = match reply_i32(buf, 4) {
            Some(c) => c,
            None => 0,
        };
        Some(OdinFailure { code, kind: kind_of(code) })
    } else {
        None
    }
}

/// Check a device reply: `Ok(())` unless byte 0 is `0xFF`, in which case the decoded failure is
/// returned.
pub fn check_reply(buf: &[u8]) -> (r: Result<(), OdinFailure>)
    ensures
        r == match reply_failure(buf@) {
            Some(f) => Err::<(), OdinFailure>(f),
            None => Ok(()),
        },
{
    if buf.len() == 0 || buf[0] != FAIL_MARKER {
        return Ok(());
    }
    let code: i32 = match read_i32_le(buf, 4) {
        Some(c) => c,
        None => 0,
    };
    Err(OdinFailure { code, kind: FlashFailKind::from_code(code) })
}

/// The bootloader version reported by [`Odin::begin_session`]. `unknown1`/`unknown2` are almost
/// always zero; non-zero values mark undiscovered bootloader capabilities.
#[derive(Debug, Clone, Copy, PartialEq, Eq, Structural)]
pub struct Version {
    pub unknown1: u8,
    pub unknown2: u8,
    pub version: i16,
}

/// Anything that can go wrong while speaking Odin.
#[derive(Debug)]
pub enum OdinError {
    /// The underlying transport failed.
    Usb(UsbError),
    /// The device reported a failure (`0xFF`).
    Failure(OdinFailure),
    /// The device sent something unexpected (wrong handshake, short reply, etc.).
    Protocol(String),
}

/// What an [`OdinError`] says.
pub enum OdinFault {
    Usb(UsbError),
    Failure(OdinFailure),
    Protocol(Seq<char>),
}

impl View for OdinError {
    type V = OdinFault;

    open spec fn view(&self) -> OdinFault {
        match self {
            OdinError::Usb(e) => OdinFault::Usb(*e),
            OdinError::Failure(f) => OdinFault::Failure(*f),
            OdinError::Protocol(m) => OdinFault::Protocol(m@),
        }
    }
}

/// The text of an error.
pub open spec fn odin_fault_text(e: OdinFault) -> Seq<char> {
    match e {
        OdinFault::Usb(e) => usb_error_text(e),
        OdinFault::Failure(f) => failure_text(f),
        OdinFault::Protocol(m) => "protocol error: "@ + m,
    }
}

impl OdinError {
    /// The error in words.
    pub fn message(&self) -> (s: String)
        ensures
            s@ == odin_fault_text(self@),
    {
        match self {
            OdinError::Usb(e) => e.message(),
            OdinError::Failure(f) => f.message(),
            OdinError::Protocol(m) => {
                let mut s = String::from_str("protocol error: ");
                s.append(m.as_str());
                s
            },
        }
    }
}

impl From<UsbError> for OdinError {
    fn from(e: UsbError) -> (r: Self) {
        OdinError::Usb(e)
    }
}

impl vstd::std_specs::convert::FromSpecImpl<UsbError> for OdinError {
    open spec fn obeys_from_spec() -> bool {
        true
    }

    open spec fn from_spec(e: UsbError) -> Self {
        OdinError::Usb(e)
    }
}

impl From<OdinFailure> for OdinError {
    fn from(e: OdinFailure) -> (r: Self) {
        OdinError::Failure(e)
    }
}

impl vstd::std_specs::convert::FromSpecImpl<OdinFailure> for OdinError {
    open spec fn obeys_from_spec() -> bool {
        true
    }

    open spec fn from_spec(e: OdinFailure) -> Self {
        OdinError::Failure(e)
    }
}

/// A result with its error by content.
pub open spec fn fault<A>(r: Result<A, OdinError>) -> Result<A, OdinFault> {
    match r {
        Ok(a) => Ok(a),
        Err(e) => Err(e@),
    }
}

/// A result of bytes, by content.
pub open spec fn fault_bytes(r: Result<Vec<u8>, OdinError>) -> Result<Seq<u8>, OdinFault> {
    match r {
        Ok(v) => Ok(v@),
        Err(e) => Err(e@),
    }
}

/// What a reply comes to that should be an acknowledgement of `want` bytes.
pub open spec fn acknowledged(reply: Result<Seq<u8>, UsbError>, want: nat) -> Result<
    Seq<u8>,
    OdinFault,
> {
    match reply {
        Err(e) => Err(OdinFault::Usb(e)),
        Ok(b) => if b.len() != want {
            Err(
                OdinFault::Protocol(
                    "expected "@ + dec(want as int) + "-byte reply, got "@ + dec(b.len() as int),
                ),
            )
        } else {
            match reply_failure(b) {
                Some(f) => Err(OdinFault::Failure(f)),
                None => Ok(b),
            }
        },
    }
}

/// Judge a reply that should be an acknowledgement of `want` bytes.
pub fn check_ack(reply: Result<Vec<u8>, UsbError>, want: usize) -> (r: Result<Vec<u8>, OdinError>)
    ensures
        fault_bytes(r) == acknowledged(reply_bytes(reply), want as nat),
{
    let buf: Vec<u8> = match reply {
        Ok(b) => b,
        Err(e) => return Err(OdinError::Usb(e)),
    };
    if buf.len() != want {
        let mut m = String::from_str("expected ");
        m.append(dec_text(want as u64).as_str());
        m.append("-byte reply, got ");
        m.append(dec_text(buf.len() as u64).as_str());
        return Err(OdinError::Protocol(m));
    }
    match check_reply(buf.as_slice()) {
        Ok(()) => Ok(buf),
        Err(f) => Err(OdinError::Failure(f)),
    }
}

/// Whether the history holds, from `at` on, the exchange of `packet`: the packet is written,
/// and if that succeeds, 8 bytes are asked for under a timeout of `ms` milliseconds.
pub open spec fn is_exchange(h: Seq<Event>, at: int, packet: Seq<u8>, ms: u64) -> bool {
    &&& at < h.len()
    &&& h[at] == wrote(packet, DEFAULT_TIMEOUT_MS, write_outcome(h[at]))
    &&& write_outcome(h[at]) is Ok ==> {
        &&& at + 1 < h.len()
        &&& h[at + 1] == got(8, ms, read_reply(h[at + 1]))
    }
}

/// How many transfers the exchange at `at` took.
pub open spec fn exchange_len(h: Seq<Event>, at: int) -> int {
    if write_outcome(h[at]) is Ok {
        2
    } else {
        1
    }
}

/// What the exchange at `at` came to.
pub open spec fn exchange_result(h: Seq<Event>, at: int) -> Result<Seq<u8>, OdinFault> {
    match write_outcome(h[at]) {
        Err(e) => Err(OdinFault::Usb(e)),
        Ok(_) => acknowledged(read_reply(h[at + 1]), 8),
    }
}

/// The whole of a history from `from` on is one exchange of `packet`, and `r` is what it came
/// to.
pub open spec fn ran_command(
    h: Seq<Event>,
    from: int,
    packet: Seq<u8>,
    ms: u64,
    r: Result<(), OdinFault>,
) -> bool {
    &&& is_exchange(h, from, packet, ms)
    &&& h.len() == from + exchange_len(h, from)
    &&& r == match exchange_result(h, from) {
        Ok(_) => Ok::<(), OdinFault>(()),
        Err(e) => Err(e),
    }
}

/// The whole of a history from `from` on announces how many bytes a flash will write in all, and `r`
/// is what it came to.
pub open spec fn ran_set_total(
    h: Seq<Event>,
    from: int,
    total: i64,
    r: Result<(), OdinFault>,
) -> bool {
    ran_command(h, from, command_packet_i64(REGION_SESSION, 0x02, total), DEFAULT_TIMEOUT_MS, r)
}

/// The whole of a history from `from` on sets the region code, and `r` is what it came to.
pub open spec fn ran_set_region(
    h: Seq<Event>,
    from: int,
    code: Seq<char>,
    r: Result<(), OdinFault>,
) -> bool {
    ran_command(h, from, command_packet_text(REGION_SESSION, 0x08, code), DEFAULT_TIMEOUT_MS, r)
}

/// The bytes `ODIN`, which open a handshake.
pub const ODIN: [u8; 4] = [0x4F, 0x44, 0x49, 0x4E];

/// The bytes `LOKE`, which answer it.
pub const LOKE: [u8; 4] = [0x4C, 0x4F, 0x4B, 0x45];

/// What the answer to a handshake comes to.
pub open spec fn handshake_answer(reply: Result<Seq<u8>, UsbError>) -> Result<(), OdinFault> {
    match reply {
        Err(e) => Err(OdinFault::Usb(e)),
        Ok(b) => if b == LOKE@ {
            Ok(())
        } else {
            Err(OdinFault::Protocol("expected LOKE handshake, got "@ + byte_list(b)))
        },
    }
}

/// Judge the answer to a handshake.
pub fn check_handshake(reply: Result<Vec<u8>, UsbError>) -> (r: Result<(), OdinError>)
    ensures
        fault(r) == handshake_answer(reply_bytes(reply)),
{
    let resp: Vec<u8> = match reply {
        Ok(b) => b,
        Err(e) => return Err(OdinError::Usb(e)),
    };
    if same_bytes(resp.as_slice(), &LOKE) {
        Ok(())
    } else {
        let mut m = String::from_str("expected LOKE handshake, got ");
        m.append(byte_list_text(resp.as_slice()).as_str());
        Err(OdinError::Protocol(m))
    }
}

/// A history from `from` on is a handshake, and `r` is what it came to.
pub open spec fn ran_handshake(h: Seq<Event>, from: int, r: Result<(), OdinFault>) -> bool {
    &&& from < h.len()
    &&& h[from] == wrote(ODIN@, DEFAULT_TIMEOUT_MS, write_outcome(h[from]))
    &&& match write_outcome(h[from]) {
        Err(e) => h.len() == from + 1 && r == Err::<(), OdinFault>(OdinFault::Usb(e)),
        Ok(_) => {
            &&& h.len() == from + 2
            &&& h[from + 1] == got(4, DEFAULT_TIMEOUT_MS, read_reply(h[from + 1]))
            &&& r == handshake_answer(read_reply(h[from + 1]))
        },
    }
}

/// The version that an 8-byte `BeginSession` reply carries.
pub open spec fn version_of(reply: Seq<u8>) -> Version {
    Version { unknown1: reply[4], unknown2: reply[5], version: i16_at(reply, 6) }
}

/// The `BeginSession` packet. The protocol version it announces is the highest there is, so
/// that the bootloader holds nothing back.
pub open spec fn begin_packet() -> Seq<u8> {
    command_packet_i32(REGION_SESSION, 0x00, i32::MAX)
}

/// The packet that announces the flash packet size to a new bootloader.
pub open spec fn packet_size_packet(v: Version) -> Seq<u8> {
    command_packet_i32(REGION_SESSION, 0x05, params_for(v.version).packet_size as i32)
}

/// A history from `from` on begins a session, and `r` is what it came to. The packet size is
/// announced to bootloaders newer than version 1 only.
pub open spec fn ran_begin(h: Seq<Event>, from: int, r: Result<Version, OdinFault>) -> bool {
    &&& is_exchange(h, from, begin_packet(), DEFAULT_TIMEOUT_MS)
    &&& match exchange_result(h, from) {
        Err(e) => h.len() == from + exchange_len(h, from) && r == Err::<Version, OdinFault>(e),
        Ok(reply) => {
            let v = version_of(reply);
            if v.version > 1 {
                &&& is_exchange(h, from + 2, packet_size_packet(v), DEFAULT_TIMEOUT_MS)
                &&& h.len() == from + 2 + exchange_len(h, from + 2)
                &&& r == match exchange_result(h, from + 2) {
                    Err(e) => Err::<Version, OdinFault>(e),
                    Ok(_) => Ok(v),
                }
            } else {
                h.len() == from + 2 && r == Ok::<Version, OdinFault>(v)
            }
        },
    }
}

/// The packet that asks for block `i` of the partition table.
pub open spec fn block_packet(i: int) -> Seq<u8> {
    command_packet_i32(REGION_PIT, 0x02, i as i32)
}

/// Block `i` was asked for and came: two transfers from `at + 2 * i` on.
pub open spec fn block_came(h: Seq<Event>, at: int, i: int) -> bool {
    &&& h[at + 2 * i] == wrote(block_packet(i), DEFAULT_TIMEOUT_MS, write_outcome(h[at + 2 * i]))
    &&& write_outcome(h[at + 2 * i]) is Ok
    &&& h[at + 2 * i + 1] == got(PIT_BLOCK, DEFAULT_TIMEOUT_MS, read_reply(h[at + 2 * i + 1]))
    &&& read_reply(h[at + 2 * i + 1]) matches Ok(block) && block.len() <= PIT_BLOCK
}

/// `pit` with a block written at `offset`, as much of it as fits.
pub open spec fn placed(pit: Seq<u8>, offset: int, block: Seq<u8>) -> Seq<u8> {
    let room = pit.len() - offset;
    written(
        pit,
        offset,
        if block.len() <= room {
            block
        } else {
            block.take(room)
        },
    )
}

/// The table of `size` bytes after the first `n` blocks of the dump at `at`: zeros, with block
/// after block written at multiples of 500.
pub open spec fn assembled(h: Seq<Event>, at: int, size: int, n: nat) -> Seq<u8>
    decreases n,
{
    if n == 0 {
        Seq::new(size as nat, |i: int| 0u8)
    } else {
        placed(
            assembled(h, at, size, (n - 1) as nat),
            (n - 1) * 500,
            read_reply(h[at + 2 * (n - 1) + 1])->Ok_0,
        )
    }
}

/// The dump at `at` broke off at block `i`, because asking for it or reading it failed.
pub open spec fn broke_off(
    h: Seq<Event>,
    at: int,
    i: int,
    r: Result<Seq<u8>, OdinFault>,
) -> bool {
    let w = at + 2 * i;
    &&& w < h.len()
    &&& h[w] == wrote(block_packet(i), DEFAULT_TIMEOUT_MS, write_outcome(h[w]))
    &&& match write_outcome(h[w]) {
        Err(e) => h.len() == w + 1 && r == Err::<Seq<u8>, OdinFault>(OdinFault::Usb(e)),
        Ok(_) => {
            &&& h.len() == w + 2
            &&& h[w + 1] == got(PIT_BLOCK, DEFAULT_TIMEOUT_MS, read_reply(h[w + 1]))
            &&& read_reply(h[w + 1]) matches Err(e) && r == Err::<Seq<u8>, OdinFault>(
                OdinFault::Usb(e),
            )
        },
    }
}

/// The dump whose blocks end at `at` was drained once, up to `to`, by the transport `t`, with the
/// outcome `z`. Where that failed, it is what the dump came to; else the dump was closed.
pub open spec fn closed_dump<T: Transport>(
    h: Seq<Event>,
    at: int,
    t: T,
    to: int,
    z: Result<(), UsbError>,
    pit: Seq<u8>,
    r: Result<Seq<u8>, OdinFault>,
) -> bool {
    &&& at <= to <= h.len()
    &&& t.history() == h.take(at)
    &&& drained(t, h.take(to), z)
    &&& match z {
        Err(e) => h.len() == to && r == Err::<Seq<u8>, OdinFault>(OdinFault::Usb(e)),
        Ok(_) => {
            &&& is_exchange(h, to, command_packet(REGION_PIT, 0x03), DEFAULT_TIMEOUT_MS)
            &&& h.len() == to + exchange_len(h, to)
            &&& r == match exchange_result(h, to) {
                Err(e) => Err::<Seq<u8>, OdinFault>(e),
                Ok(_) => Ok(pit),
            }
        },
    }
}

/// A history from `from` on dumps the partition table over a transport of type `T`, and `r` is what
/// it came to.
pub open spec fn ran_dump<T: Transport>(
    h: Seq<Event>,
    from: int,
    r: Result<Seq<u8>, OdinFault>,
) -> bool {
    &&& is_exchange(h, from, command_packet(REGION_PIT, 0x01), DEFAULT_TIMEOUT_MS)
    &&& match exchange_result(h, from) {
        Err(e) => h.len() == from + exchange_len(h, from) && r == Err::<Seq<u8>, OdinFault>(e),
        Ok(reply) => {
            let size = i32_at(reply, 4) as int;
            let at = from + 2;
            let n = ceil_div(size, 500);
            if size < 0 {
                &&& h.len() == at
                &&& r == Err::<Seq<u8>, OdinFault>(OdinFault::Protocol("invalid PIT size"@))
            } else {
                ||| exists|i: int|
                    {
                        &&& 0 <= i < n
                        &&& forall|k: int| 0 <= k < i ==> #[trigger] block_came(h, at, k)
                        &&& #[trigger] broke_off(h, at, i, r)
                    }
                ||| {
                    &&& forall|k: int| 0 <= k < n ==> #[trigger] block_came(h, at, k)
                    &&& exists|t: T, to: int, z: Result<(), UsbError>| #[trigger]
                        closed_dump(
                            h,
                            at + 2 * n,
                            t,
                            to,
                            z,
                            assembled(h, at, size, n as nat),
                            r,
                        )
                }
            }
        },
    }
}

/// An Odin protocol session over a [`Transport`].
///
/// Holds the transport plus the bootloader version and flash parameters learned at
/// [`begin_session`](Odin::begin_session). Dropping it drops the transport, which ends the
/// session.
pub struct Odin<T: Transport> {
    transport: T,
    version: Option<Version>,
    params: Option<FlashParams>,
}

impl<T: Transport> Odin<T> {
    /// The transport.
    pub closed spec fn pipe(&self) -> T {
        self.transport
    }

    /// Every transfer of the transport so far.
    pub closed spec fn history(&self) -> Seq<Event> {
        self.transport.history()
    }

    /// The bootloader version, once known.
    pub closed spec fn known_version(&self) -> Option<Version> {
        self.version
    }

    /// The flash parameters, once known.
    pub closed spec fn known_params(&self) -> Option<FlashParams> {
        self.params
    }

    /// The flash parameters are known exactly when the version is, and are those of its
    /// generation.
    pub open spec fn wf(&self) -> bool {
        self.known_params() == match self.known_version() {
            Some(v) => Some(params_for(v.version)),
            None => None,
        }
    }

    /// The history only grew, and what was learned of the bootloader is unchanged.
    pub open spec fn only_talked(before: &Self, after: &Self) -> bool {
        &&& before.history().is_prefix_of(after.history())
        &&& after.known_version() == before.known_version()
        &&& after.known_params() == before.known_params()
    }

    /// Wrap a transport. No I/O happens until [`handshake`](Odin::handshake).
    pub fn new(transport: T) -> (o: Self)
        ensures
            o.pipe() == transport,
            o.history() == transport.history(),
            o.known_version() is None,
            o.wf(),
    {
        Odin { transport, version: None, params: None }
    }

    /// The bootloader version, once [`begin_session`](Odin::begin_session) has run.
    pub fn version(&self) -> (r: Option<Version>)
        ensures
            r == self.known_version(),
    {
        self.version
    }

    /// The flash parameters selected for this session, once begun.
    pub fn params(&self) -> (r: Option<FlashParams>)
        ensures
            r == self.known_params(),
    {
        self.params
    }

    /// Recover the transport (e.g. to reboot or disconnect).
    pub fn into_transport(self) -> (t: T)
        ensures
            t == self.pipe(),
            t.history() == self.history(),
    {
        self.transport
    }

    /// Perform the ODIN to LOKE handshake.
    pub fn handshake(&mut self) -> (r: Result<(), OdinError>)
        ensures
            Odin::only_talked(old(self), final(self)),
            ran_handshake(final(self).history(), old(self).history().len() as int, fault(r)),
    {
        match self.transport.bulk_write(&ODIN, Duration::from_millis(DEFAULT_TIMEOUT_MS)) {
            Ok(()) => {},
            Err(e) => return Err(OdinError::Usb(e)),
        }
        let reply = self.transport.bulk_read(4, Duration::from_millis(DEFAULT_TIMEOUT_MS));
        check_handshake(reply)
    }

    /// Send a packet and wait for its 8-byte acknowledgement.
    fn exchange(&mut self, packet: &Packet, ms: u64) -> (r: Result<Vec<u8>, OdinError>)
        ensures
            Odin::only_talked(old(self), final(self)),
            is_exchange(final(self).history(), old(self).history().len() as int, packet@, ms),
            final(self).history().len() == old(self).history().len() + exchange_len(
                final(self).history(),
                old(self).history().len() as int,
            ),
            fault_bytes(r) == exchange_result(
                final(self).history(),
                old(self).history().len() as int,
            ),
            r matches Ok(b) ==> b@.len() == 8,
    {
        match self.transport.bulk_write(
            packet.as_bytes(),
            Duration::from_millis(DEFAULT_TIMEOUT_MS),
        ) {
            Ok(()) => {},
            Err(e) => return Err(OdinError::Usb(e)),
        }
        let reply = self.transport.bulk_read(8, Duration::from_millis(ms));
        check_ack(reply, 8)
    }

    /// Send a command of which only the acknowledgement matters.
    fn command(&mut self, packet: &Packet, ms: u64) -> (r: Result<(), OdinError>)
        ensures
            Odin::only_talked(old(self), final(self)),
            ran_command(
                final(self).history(),
                old(self).history().len() as int,
                packet@,
                ms,
                fault(r),
            ),
    {
        match self.exchange(packet, ms) {
            Ok(_) => Ok(()),
            Err(e) => Err(e),
        }
    }

    /// Begin a session: send `BeginSession`, learn the bootloader version, and (on new
    /// bootloaders) announce the flash packet size.
    pub fn begin_session(&mut self) -> (r: Result<Version, OdinError>)
        ensures
            old(self).history().is_prefix_of(final(self).history()),
            ran_begin(final(self).history(), old(self).history().len() as int, fault(r)),
            match r {
                Ok(v) => final(self).known_version() == Some(v) && final(self).wf(),
                Err(_) => Odin::only_talked(old(self), final(self)),
            },
    {
        let mut cmd = Packet::command(REGION_SESSION, 0x00);
        cmd.write_i32(8, i32::MAX);
        let resp: Vec<u8> = match self.exchange(&cmd, DEFAULT_TIMEOUT_MS) {
            Ok(b) => b,
            Err(e) => return Err(e),
        };
        let ghost mid = self.history();
        let version = Version {
            unknown1: resp[4],
            unknown2: resp[5],
            version: to_signed16(read_u16(resp.as_slice(), 6)),
        };
        let params = FlashParams::for_bootloader_version(version.version);

        // New bootloaders expect the flash packet size up front.
        if version.version > 1 {
            let mut cmd = Packet::command(REGION_SESSION, 0x05);
            cmd.write_i32(8, params.packet_size as i32);
            match self.exchange(&cmd, DEFAULT_TIMEOUT_MS) {
                Ok(_) => {},
                Err(e) => return Err(e),
            }
        }
        self.version = Some(version);
        self.params = Some(params);
        Ok(version)
    }

    /// Dump the device's PIT (partition table) as raw bytes.
    pub fn dump_pit(&mut self) -> (r: Result<Vec<u8>, OdinError>)
        ensures
            Odin::only_talked(old(self), final(self)),
            ran_dump::<T>(final(self).history(), old(self).history().len() as int, fault_bytes(r)),
    {
        // 1. Request the dump; the reply carries the total size at bytes 4..8.
        let cmd = Packet::command(REGION_PIT, 0x01);
        let resp: Vec<u8> = match self.exchange(&cmd, DEFAULT_TIMEOUT_MS) {
            Ok(b) => b,
            Err(e) => return Err(e),
        };
        let ghost from = old(self).history().len() as int;
        let ghost first = self.history();
        let size: usize = match read_i32_le(resp.as_slice(), 4) {
            Some(s) if s >= 0 => s as usize,
            _ => return Err(OdinError::Protocol(String::from_str("invalid PIT size"))),
        };
        let ghost at = from + 2;

        // 2. Read the PIT in 500-byte blocks.
        let mut pit: Vec<u8> = vec![0u8; size];
        let blocks: usize = (size + (PIT_BLOCK - 1)) / PIT_BLOCK;
        assert(pit@ == assembled(first, at, size as int, 0));
        let mut i: usize = 0;
        while i < blocks
            invariant
                at == old(self).history().len() + 2,
                first.is_prefix_of(self.history()),
                first.len() == at,
                Odin::only_talked(old(self), self),
                self.history().len() == at + 2 * i,
                0 <= size <= i32::MAX,
                blocks == ceil_div(size as int, 500),
                i <= blocks,
                pit@.len() == size,
                forall|k: int| 0 <= k < i ==> #[trigger] block_came(self.history(), at, k),
                pit@ == assembled(self.history(), at, size as int, i as nat),
                is_exchange(first, from, command_packet(REGION_PIT, 0x01), DEFAULT_TIMEOUT_MS),
                exchange_result(first, from) == Ok::<Seq<u8>, OdinFault>(resp@),
                from == at - 2,
                size == i32_at(resp@, 4),
            decreases blocks - i,
        {
            let mut cmd = Packet::command(REGION_PIT, 0x02);
            cmd.write_i32(8, i as i32);
            let ghost before = self.history();
            match self.transport.bulk_write(
                cmd.as_bytes(),
                Duration::from_millis(DEFAULT_TIMEOUT_MS),
            ) {
                Ok(()) => {},
                Err(e) => {
                    proof {
                        lemma_blocks_kept(before, self.history(), at, i as nat);
                        assert(broke_off(self.history(), at, i as int, Err(OdinFault::Usb(e))));
                    }
                    return Err(OdinError::Usb(e));
                },
            }
            let block: Vec<u8> = match self.transport.bulk_read(
                PIT_BLOCK,
                Duration::from_millis(DEFAULT_TIMEOUT_MS),
            ) {
                Ok(b) => b,
                Err(e) => {
                    proof {
                        lemma_blocks_kept(before, self.history(), at, i as nat);
                        assert(broke_off(self.history(), at, i as int, Err(OdinFault::Usb(e))));
                    }
                    return Err(OdinError::Usb(e));
                },
            };
            proof {
                lemma_blocks_kept(before, self.history(), at, i as nat);
                lemma_assembled_kept(before, self.history(), at, size as int, i as nat);
                assert(block_came(self.history(), at, i as int));
            }
            let offset: usize = i * PIT_BLOCK;
            place_block(&mut pit, offset, block.as_slice());
            i = i + 1;
        }
        let ghost done = self.history();

        // 3. Drain any trailing zero-length packet (best effort), then end the dump.
        let ghost pipe = self.transport;
        let outcome = self.transport.read_zlp();
        let ghost z = outcome;
        let ghost to = self.history().len() as int;
        let ghost after_drain = self.history();
        match outcome {
            Ok(()) => {},
            Err(e) => {
                proof {
                    lemma_exchange_kept(first, self.history(), from);
                    lemma_blocks_kept(done, self.history(), at, blocks as nat);
                    lemma_assembled_kept(done, self.history(), at, size as int, blocks as nat);
                    assert(self.history().take(at + 2 * blocks) == done);
                    assert(self.history().take(to) == self.history());
                    lemma_dump_closed(
                        self.history(),
                        from,
                        resp@,
                        pipe,
                        to,
                        z,
                        Err(OdinFault::Usb(e)),
                    );
                }
                return Err(OdinError::Usb(e));
            },
        }
        let cmd = Packet::command(REGION_PIT, 0x03);
        let end = self.exchange(&cmd, DEFAULT_TIMEOUT_MS);
        proof {
            lemma_exchange_kept(first, self.history(), from);
            assert(self.history().take(at + 2 * blocks) == done);
            assert(self.history().take(to) == after_drain);
            lemma_blocks_kept(done, self.history(), at, blocks as nat);
            lemma_assembled_kept(done, self.history(), at, size as int, blocks as nat);
            let out: Result<Seq<u8>, OdinFault> = match fault_bytes(end) {
                Ok(_) => Ok(pit@),
                Err(e) => Err(e),
            };
            lemma_dump_closed(self.history(), from, resp@, pipe, to, z, out);
        }
        match end {
            Ok(_) => Ok(pit),
            Err(e) => Err(e),
        }
    }

    /// Announce how many bytes a flash will write in all.
    pub fn set_total_bytes(&mut self, total: i64) -> (r: Result<(), OdinError>)
        ensures
            Odin::only_talked(old(self), final(self)),
            ran_set_total(
                final(self).history(),
                old(self).history().len() as int,
                total,
                fault(r),
            ),
    {
        let mut cmd = Packet::command(REGION_SESSION, 0x02);
        cmd.write_i64(8, total);
        self.command(&cmd, DEFAULT_TIMEOUT_MS)
    }

    /// Wipe the userdata partition.
    pub fn erase_user_data(&mut self) -> (r: Result<(), OdinError>)
        ensures
            Odin::only_talked(old(self), final(self)),
            ran_command(
                final(self).history(),
                old(self).history().len() as int,
                command_packet(REGION_SESSION, 0x07),
                ERASE_TIMEOUT_MS,
                fault(r),
            ),
    {
        let cmd = Packet::command(REGION_SESSION, 0x07);
        self.command(&cmd, ERASE_TIMEOUT_MS)
    }

    /// Make later flashes target an inserted microSD card.
    pub fn enable_tflash(&mut self) -> (r: Result<(), OdinError>)
        ensures
            Odin::only_talked(old(self), final(self)),
            ran_command(
                final(self).history(),
                old(self).history().len() as int,
                command_packet(REGION_SESSION, 0x08),
                DEFAULT_TIMEOUT_MS,
                fault(r),
            ),
    {
        let cmd = Packet::command(REGION_SESSION, 0x08);
        self.command(&cmd, DEFAULT_TIMEOUT_MS)
    }

    /// Set the region (CSC) code. The command shares its number with
    /// [`enable_tflash`](Odin::enable_tflash).
    pub fn set_region_code(&mut self, code: &str) -> (r: Result<(), OdinError>)
        requires
            8 + encode_utf8(code@).len() <= PACKET_LEN,
        ensures
            Odin::only_talked(old(self), final(self)),
            ran_set_region(
                final(self).history(),
                old(self).history().len() as int,
                code@,
                fault(r),
            ),
    {
        let mut cmd = Packet::command(REGION_SESSION, 0x08);
        cmd.write_str(8, code);
        self.command(&cmd, DEFAULT_TIMEOUT_MS)
    }

    /// End the session.
    pub fn end_session(&mut self) -> (r: Result<(), OdinError>)
        ensures
            Odin::only_talked(old(self), final(self)),
            ran_command(
                final(self).history(),
                old(self).history().len() as int,
                command_packet(REGION_END, 0x00),
                DEFAULT_TIMEOUT_MS,
                fault(r),
            ),
    {
        let cmd = Packet::command(REGION_END, 0x00);
        self.command(&cmd, DEFAULT_TIMEOUT_MS)
    }

    /// Reboot the device into normal mode.
    pub fn reboot(&mut self) -> (r: Result<(), OdinError>)
        ensures
            Odin::only_talked(old(self), final(self)),
            ran_command(
                final(self).history(),
                old(self).history().len() as int,
                command_packet(REGION_END, 0x01),
                DEFAULT_TIMEOUT_MS,
                fault(r),
            ),
    {
        let cmd = Packet::command(REGION_END, 0x01);
        self.command(&cmd, DEFAULT_TIMEOUT_MS)
    }

    /// Reboot the device back into download mode.
    pub fn reboot_to_odin(&mut self) -> (r: Result<(), OdinError>)
        ensures
            Odin::only_talked(old(self), final(self)),
            ran_command(
                final(self).history(),
                old(self).history().len() as int,
                command_packet(REGION_END, 0x02),
                DEFAULT_TIMEOUT_MS,
                fault(r),
            ),
    {
        let cmd = Packet::command(REGION_END, 0x02);
        self.command(&cmd, DEFAULT_TIMEOUT_MS)
    }

    /// Shut the device down.
    pub fn shutdown(&mut self) -> (r: Result<(), OdinError>)
        ensures
            Odin::only_talked(old(self), final(self)),
            ran_command(
                final(self).history(),
                old(self).history().len() as int,
                command_packet(REGION_END, 0x03),
                DEFAULT_TIMEOUT_MS,
                fault(r),
            ),
    {
        let cmd = Packet::command(REGION_END, 0x03);
        self.command(&cmd, DEFAULT_TIMEOUT_MS)
    }
}

/// Write a block of the partition table at `offset`, as much of it as fits: the final block is
/// partial.
pub fn place_block(pit: &mut Vec<u8>, offset: usize, block: &[u8])
    requires
        offset <= old(pit)@.len(),
    ensures
        final(pit)@ == placed(old(pit)@, offset as int, block@),
{
    let room: usize = pit.len() - offset;
    let n: usize = if block.len() <= room {
        block.len()
    } else {
        room
    };
    let mut k: usize = 0;
    while k < n
        invariant
            n <= block@.len(),
            offset + n <= pit.len(),
            pit@.len() == old(pit)@.len(),
            k <= n,
            pit@ == written(old(pit)@, offset as int, block@.take(k as int)),
        decreases n - k,
    {
        pit.set(offset + k, block[k]);
        k = k + 1;
        assert(pit@ == written(old(pit)@, offset as int, block@.take(k as int)));
    }
    assert(block@.take(block@.len() as int) == block@);
}

/// A dump whose blocks all came and which was then closed is a dump.
proof fn lemma_dump_closed<T: Transport>(
    h: Seq<Event>,
    from: int,
    reply: Seq<u8>,
    t: T,
    to: int,
    z: Result<(), UsbError>,
    r: Result<Seq<u8>, OdinFault>,
)
    requires
        is_exchange(h, from, command_packet(REGION_PIT, 0x01), DEFAULT_TIMEOUT_MS),
        exchange_result(h, from) == Ok::<Seq<u8>, OdinFault>(reply),
        i32_at(reply, 4) >= 0,
        forall|k: int|
            0 <= k < ceil_div(i32_at(reply, 4) as int, 500) ==> #[trigger] block_came(
                h,
                from + 2,
                k,
            ),
        ({
            let n = ceil_div(i32_at(reply, 4) as int, 500);
            closed_dump(
                h,
                from + 2 + 2 * n,
                t,
                to,
                z,
                assembled(h, from + 2, i32_at(reply, 4) as int, n as nat),
                r,
            )
        }),
    ensures
        ran_dump::<T>(h, from, r),
{
}

/// An exchange of the history stays as it is while the history grows.
pub proof fn lemma_exchange_kept(h: Seq<Event>, g: Seq<Event>, at: int)
    requires
        h.is_prefix_of(g),
        0 <= at,
        at + exchange_len(h, at) <= h.len(),
    ensures
        exchange_len(g, at) == exchange_len(h, at),
        exchange_result(g, at) == exchange_result(h, at),
        forall|packet: Seq<u8>, ms: u64|
            is_exchange(h, at, packet, ms) ==> is_exchange(g, at, packet, ms),
{
    assert(g[at] == h[at]);
    if exchange_len(h, at) == 2 {
        assert(g[at + 1] == h[at + 1]);
    }
}

/// Blocks that came stay so as the history grows.
proof fn lemma_blocks_kept(h: Seq<Event>, g: Seq<Event>, at: int, n: nat)
    requires
        h.is_prefix_of(g),
        0 <= at,
        h.len() >= at + 2 * n,
        forall|k: int| 0 <= k < n ==> #[trigger] block_came(h, at, k),
    ensures
        forall|k: int| 0 <= k < n ==> #[trigger] block_came(g, at, k),
{
    assert forall|k: int| 0 <= k < n implies #[trigger] block_came(g, at, k) by {
        assert(block_came(h, at, k));
        assert(g[at + 2 * k] == h[at + 2 * k]);
        assert(g[at + 2 * k + 1] == h[at + 2 * k + 1]);
    }
}

/// What was assembled stays so as the history grows.
proof fn lemma_assembled_kept(h: Seq<Event>, g: Seq<Event>, at: int, size: int, n: nat)
    requires
        h.is_prefix_of(g),
        0 <= at,
        h.len() >= at + 2 * n,
    ensures
        assembled(g, at, size, n) == assembled(h, at, size, n),
    decreases n,
{
    if n > 0 {
        lemma_assembled_kept(h, g, at, size, (n - 1) as nat);
        assert(g[at + 2 * (n - 1) + 1] == h[at + 2 * (n - 1) + 1]);
    }
}

proof fn lemma_assembled_len(h: Seq<Event>, at: int, size: int, n: nat)
    requires
        0 <= size,
    ensures
        assembled(h, at, size, n).len() == size,
    decreases n,
{
    if n > 0 {
        lemma_assembled_len(h, at, size, (n - 1) as nat);
    }
}

/// A dumped partition table has exactly the size that the device announced for it.
pub proof fn law_dump_has_announced_size<T: Transport>(h: Seq<Event>, from: int, pit: Seq<u8>)
    requires
        0 <= from,
        ran_dump::<T>(h, from, Ok(pit)),
    ensures
        exchange_result(h, from) is Ok,
        pit.len() == i32_at(exchange_result(h, from)->Ok_0, 4),
{
    let size = i32_at(exchange_result(h, from)->Ok_0, 4) as int;
    lemma_assembled_len(h, from + 2, size, ceil_div(size, 500) as nat);
}

/// Byte `j` of a dumped table is byte `j % 500` of block `j / 500`, and zero where that block was
/// too short.
pub proof fn law_dump_bytes<T: Transport>(h: Seq<Event>, from: int, pit: Seq<u8>, j: int)
    requires
        0 <= from,
        ran_dump::<T>(h, from, Ok(pit)),
        0 <= j < pit.len(),
    ensures
        ({
            let block = read_reply(h[from + 2 + 2 * (j / 500) + 1])->Ok_0;
            pit[j] == if j % 500 < block.len() {
                block[j % 500]
            } else {
                0
            }
        }),
{
    let at = from + 2;
    let size = i32_at(exchange_result(h, from)->Ok_0, 4) as int;
    let n = ceil_div(size, 500);
    law_dump_has_announced_size::<T>(h, from, pit);
    assert forall|k: int| 0 <= k < n implies read_reply(
        #[trigger] h[at + 2 * k + 1],
    )->Ok_0.len() <= 500 by {
        assert(block_came(h, at, k));
    }
    lemma_assembled_byte(h, at, size, n as nat, j);
}

proof fn lemma_assembled_byte(h: Seq<Event>, at: int, size: int, n: nat, j: int)
    requires
        0 <= j < size,
        forall|k: int|
            0 <= k < n ==> read_reply(#[trigger] h[at + 2 * k + 1])->Ok_0.len() <= 500,
    ensures
        assembled(h, at, size, n)[j] == if j / 500 < n && j % 500 < read_reply(
            h[at + 2 * (j / 500) + 1],
        )->Ok_0.len() {
            read_reply(h[at + 2 * (j / 500) + 1])->Ok_0[j % 500]
        } else {
            0
        },
    decreases n,
{
    lemma_assembled_len(h, at, size, n);
    if n > 0 {
        lemma_assembled_len(h, at, size, (n - 1) as nat);
        lemma_assembled_byte(h, at, size, (n - 1) as nat, j);
        let block = read_reply(h[at + 2 * (n - 1) + 1])->Ok_0;
        assert(block.len() <= 500);
        assert(j == 500 * (j / 500) + j % 500);
    }
}

/// Whether a transfer succeeded.
pub open spec fn succeeded(e: Event) -> bool {
    write_outcome(e) is Ok && read_reply(e) is Ok
}

/// Where no transfer and no drain fails, and the device acknowledges the request with a size and
/// the end of the dump, the dump succeeds.
pub proof fn law_dump_succeeds<T: Transport>(
    h: Seq<Event>,
    from: int,
    r: Result<Seq<u8>, OdinFault>,
)
    requires
        0 <= from,
        ran_dump::<T>(h, from, r),
        forall|i: int| from <= i < h.len() ==> succeeded(#[trigger] h[i]),
        forall|t: T, after: Seq<Event>, z: Result<(), UsbError>| #[trigger]
            t.drains_to(after, z) ==> z is Ok,
        acknowledged(read_reply(h[from + 1]), 8) matches Ok(reply) && i32_at(reply, 4) >= 0,
        acknowledged(read_reply(h.last()), 8) is Ok,
    ensures
        r is Ok,
{
    let at = from + 2;
    let size = i32_at(exchange_result(h, from)->Ok_0, 4) as int;
    let n = ceil_div(size, 500);
    assert(succeeded(h[from]));
    if exists|b: int|
        {
            &&& 0 <= b < n
            &&& forall|k: int| 0 <= k < b ==> #[trigger] block_came(h, at, k)
            &&& #[trigger] broke_off(h, at, b, r)
        } {
        let b = choose|b: int|
            {
                &&& 0 <= b < n
                &&& forall|k: int| 0 <= k < b ==> #[trigger] block_came(h, at, k)
                &&& #[trigger] broke_off(h, at, b, r)
            };
        assert(succeeded(h[at + 2 * b]));
        assert(succeeded(h[at + 2 * b + 1]));
    } else {
        let (t, to, z): (T, int, Result<(), UsbError>) = choose|
            t: T,
            to: int,
            z: Result<(), UsbError>,
        | #[trigger]
            closed_dump(h, at + 2 * n, t, to, z, assembled(h, at, size, n as nat), r);
        assert(z is Ok);
        assert(succeeded(h[to]));
        assert(h.last() == h[to + 1]);
    }
}

/// Dumping the partition table never writes to storage: every packet it sends is one of the
/// three commands that request, read and close the dump.
pub proof fn law_dump_is_read_only<T: Transport>(
    h: Seq<Event>,
    from: int,
    r: Result<Seq<u8>, OdinFault>,
    i: int,
)
    requires
        0 <= from <= i < h.len(),
        ran_dump::<T>(h, from, r),
        h[i] is Write,
    ensures
        ({
            let sent = h[i]->data;
            ||| sent == command_packet(REGION_PIT, 0x01)
            ||| exists|k: int| sent == #[trigger] block_packet(k)
            ||| sent == command_packet(REGION_PIT, 0x03)
        }),
{
    let at = from + 2;
    if i >= at && exchange_result(h, from) is Ok && i32_at(exchange_result(h, from)->Ok_0, 4) >= 0 {
        let size = i32_at(exchange_result(h, from)->Ok_0, 4) as int;
        let n = ceil_div(size, 500);
        let k = (i - at) / 2;
        if exists|b: int|
            {
                &&& 0 <= b < n
                &&& forall|k: int| 0 <= k < b ==> #[trigger] block_came(h, at, k)
                &&& #[trigger] broke_off(h, at, b, r)
            } {
            let b = choose|b: int|
                {
                    &&& 0 <= b < n
                    &&& forall|k: int| 0 <= k < b ==> #[trigger] block_came(h, at, k)
                    &&& #[trigger] broke_off(h, at, b, r)
                };
            if k < b {
                assert(block_came(h, at, k));
            }
            assert(h[at + 2 * k]->data == block_packet(k));
            assert(i == at + 2 * k || i == at + 2 * k + 1);
        } else {
            let (t, to, z): (T, int, Result<(), UsbError>) = choose|
                t: T,
                to: int,
                z: Result<(), UsbError>,
            | #[trigger]
                closed_dump(h, at + 2 * n, t, to, z, assembled(h, at, size, n as nat), r);
            if k < n {
                assert(block_came(h, at, k));
                assert(i == at + 2 * k || i == at + 2 * k + 1);
            } else if i < to {
                assert(h.take(to)[i] is Read);
            }
        }
    }
}

/// The message that event `i` of a history sent.
pub open spec fn sent_at(h: Seq<Event>, i: int) -> Seq<u8> {
    match h[i] {
        Event::Write { data, .. } => data,
        Event::Read { .. } => Seq::empty(),
    }
}

/// A command sends one message and succeeds exactly where the device answers it with eight bytes
/// that do not begin with `0xFF`. With such a beginning, the failure is the number in the other four
/// bytes.
pub proof fn law_commands_succeed_when_acknowledged(
    h: Seq<Event>,
    from: int,
    packet: Seq<u8>,
    ms: u64,
    r: Result<(), OdinFault>,
    code: i32,
)
    requires
        0 <= from,
        ran_command(h, from, packet, ms, r),
    ensures
        from < h.len() <= from + 2,
        h[from] is Write && sent_at(h, from) == packet,
        h.len() == from + 2 ==> h[from + 1] matches Event::Read { max_len: 8, .. },
        r is Ok <==> h.len() == from + 2 && (h[from + 1] matches Event::Read { reply: Ok(b), .. }
            && b.len() == 8 && b[0] != 0xFF),
        h.len() == from + 2 && (h[from + 1] matches Event::Read { reply: Ok(b), .. } && b.len() == 8
            && b[0] == 0xFF && holds32(b, 4, pattern(code as int, 0x1_0000_0000))) ==> (
        r matches Err(OdinFault::Failure(f)) && f.code == code && f.kind == kind_of(code)),
{
    if h.len() == from + 2 {
        match h[from + 1] {
            Event::Read { reply: Ok(b), .. } => {
                if b.len() == 8 && holds32(b, 4, pattern(code as int, 0x1_0000_0000)) {
                    law_signed_32_bits_are_read_back(b, 4, code);
                }
            },
            _ => {},
        }
    }
}

/// The codes from -7 to -2 have a kind each, and no other has one.
pub proof fn law_failure_kinds(a: i32, b: i32)
    ensures
        kind_of(a) is Unknown <==> a < -7 || a > -2,
        kind_of(a) == kind_of(b) && !(kind_of(a) is Unknown) ==> a == b,
{
}

/// A failure is shown with its code in hex, in two's complement.
#[verifier::spinoff_prover]
pub proof fn law_failures_show_their_code(f: OdinFailure)
    ensures
        exists|digits: Seq<char>, rest: Seq<char>|
            {
                &&& #[trigger] is_digits(digits, 16, true)
                &&& digits.len() >= 4
                &&& number_of(digits, 16) == pattern(f.code as int, 0x1_0000_0000)
                &&& failure_text(f) == #[trigger] (("device returned 0xFF (code 0x"@ + digits) + rest)
                &&& f.kind is Unknown <==> rest == ")"@
            },
{
    let n = unsigned32(f.code) as nat;
    let digits = pad_left(hex_upper(n), 4, '0');
    law_numeral_stands_for_its_number(n, 16, true);
    law_leading_zeros_count_nothing(hex_upper(n), 4, 16);
    assert forall|i: int| 0 <= i < digits.len() implies 0 <= digit_number(#[trigger] digits[i]) < 16
        && !('a' <= digits[i] <= 'z') by {
        let gap = digits.len() - hex_upper(n).len();
        if i >= gap {
            assert(digits[i] == hex_upper(n)[i - gap]);
        }
    }
    let rest = if f.kind == FlashFailKind::Unknown {
        ")"@
    } else {
        ", "@ + kind_name(f.kind) + ")"@
    };
    reveal_strlit(")");
    reveal_strlit(", ");
    assert(is_digits(digits, 16, true));
    assert(failure_text(f) == ("device returned 0xFF (code 0x"@ + digits) + rest);
}

/// The total that is announced is the total that was asked for: the message holds it in eight bytes.
pub proof fn law_total_is_sent_whole(h: Seq<Event>, from: int, total: i64, r: Result<(), OdinFault>)
    requires
        0 <= from,
        ran_set_total(h, from, total, r),
    ensures
        ({
            let p = sent_at(h, from);
            &&& p.len() == 1024
            &&& holds32(p, 0, 0x64)
            &&& holds32(p, 4, 0x02)
            &&& holds64(p, 8, pattern(total as int, 0x1_0000_0000_0000_0000))
            &&& forall|i: int| 16 <= i < 1024 ==> p[i] == 0
        }),
{
    law_packets_hold_their_numbers(0x64, 0x02, 0, total);
}

/// The region code that is sent is the one that was asked for, byte for byte.
pub proof fn law_region_code_is_sent_whole(
    h: Seq<Event>,
    from: int,
    code: Seq<char>,
    r: Result<(), OdinFault>,
)
    requires
        0 <= from,
        8 + code.len() <= 1024,
        forall|i: int| 0 <= i < code.len() ==> '\0' <= #[trigger] code[i] <= '\x7f',
        ran_set_region(h, from, code, r),
    ensures
        ({
            let p = sent_at(h, from);
            &&& p.len() == 1024
            &&& holds32(p, 0, 0x64)
            &&& holds32(p, 4, 0x08)
            &&& forall|i: int|
                0 <= i < code.len() ==> p[8 + i] as int == #[trigger] code[i] as int
            &&& forall|i: int| 8 + code.len() <= i < 1024 ==> p[i] == 0
        }),
{
    law_packets_hold_their_text(0x64, 0x08, code);
}

/// A handshake sends `ODIN` and succeeds exactly where the answer is `LOKE`.
pub proof fn law_handshake(h: Seq<Event>, from: int, r: Result<(), OdinFault>)
    requires
        0 <= from,
        ran_handshake(h, from, r),
    ensures
        sent_at(h, from) == seq![0x4Fu8, 0x44, 0x49, 0x4E],
        h.len() == from + 2 ==> h[from + 1] matches Event::Read { max_len: 4, .. },
        r is Ok <==> h.len() == from + 2 && (h[from + 1] matches Event::Read { reply: Ok(b), .. }
            && b == seq![0x4Cu8, 0x4F, 0x4B, 0x45]),
{
    assert(ODIN@ == seq![0x4Fu8, 0x44, 0x49, 0x4E]);
    assert(LOKE@ == seq![0x4Cu8, 0x4F, 0x4B, 0x45]);
}

/// A session is begun with the highest protocol version; the bootloader's version is the number in
/// the last two bytes of its answer, and the two bytes before that are kept as they are. A bootloader
/// newer than version 1, and only such a one, is then told to expect packets of 1 MiB.
pub proof fn law_begun_session_has_the_version_that_was_sent(
    h: Seq<Event>,
    from: int,
    v: Version,
    b: Seq<u8>,
    number: i16,
)
    requires
        0 <= from,
        ran_begin(h, from, Ok(v)),
        h[from + 1] matches Event::Read { reply: Ok(reply), .. } && reply == b,
        b.len() == 8,
        holds16(b, 6, pattern(number as int, 0x1_0000)),
    ensures
        v.version == number,
        v.unknown1 == b[4] && v.unknown2 == b[5],
        holds32(sent_at(h, from), 0, 0x64) && holds32(sent_at(h, from), 4, 0) && holds32(
            sent_at(h, from),
            8,
            0x7FFF_FFFF,
        ),
        h.len() == from + if number > 1 {
            4int
        } else {
            2
        },
        number > 1 ==> holds32(sent_at(h, from + 2), 0, 0x64) && holds32(
            sent_at(h, from + 2),
            4,
            5,
        ) && holds32(sent_at(h, from + 2), 8, 0x10_0000),
{
    law_signed_16_bits_are_read_back(b, 6, number);
    law_packets_hold_their_numbers(0x64, 0, i32::MAX, 0);
    law_packets_hold_their_numbers(0x64, 5, 0x10_0000, 0);
}

/// A dumped table has the length that the device announced in its first answer, and each block is
/// asked for by its number.
pub proof fn law_dump_asks_for_every_block<T: Transport>(
    h: Seq<Event>,
    from: int,
    pit: Seq<u8>,
    b: Seq<u8>,
    size: i32,
    i: int,
)
    requires
        0 <= from,
        ran_dump::<T>(h, from, Ok(pit)),
        h[from + 1] matches Event::Read { reply: Ok(reply), .. } && reply == b,
        holds32(b, 4, pattern(size as int, 0x1_0000_0000)),
    ensures
        pit.len() == size,
        holds32(sent_at(h, from), 0, 0x65) && holds32(sent_at(h, from), 4, 1),
        0 <= i && 500 * i < size ==> holds32(sent_at(h, from + 2 + 2 * i), 0, 0x65) && holds32(
            sent_at(h, from + 2 + 2 * i),
            4,
            2,
        ) && holds32(sent_at(h, from + 2 + 2 * i), 8, i),
        0 <= i && 500 * i < size ==> h[from + 3 + 2 * i] matches Event::Read { max_len: 500, .. },
{
    law_dump_has_announced_size::<T>(h, from, pit);
    law_signed_32_bits_are_read_back(b, 4, size);
    law_packets_hold_their_numbers(0x65, 1, 0, 0);
    if 0 <= i && 500 * i < size {
        law_packets_hold_their_numbers(0x65, 2, i as i32, 0);
        assert(i < ceil_div(size as int, 500));
        assert(block_came(h, from + 2, i));
    }
}

/// A reply reports a failure if and only if its first byte is `0xFF`. The code is the number in bytes 4
/// to 7, or 0 where the reply is too short to hold one, and each of the known codes has its own kind.
pub proof fn law_failures_carry_their_code(b: Seq<u8>, code: i32)
    requires
        b.len() >= 8 ==> holds32(b, 4, pattern(code as int, 0x1_0000_0000)),
    ensures
        reply_failure(b) is Some <==> b.len() > 0 && b[0] == 0xFF,
        reply_failure(b) matches Some(f) ==> f.code == if b.len() >= 8 {
            code
        } else {
            0
        },
        reply_failure(b) matches Some(f) ==> (f.kind is WriteProtect <==> f.code == -2) && (
        f.kind is Erase <==> f.code == -3) && (f.kind is Write <==> f.code == -4) && (
        f.kind is Auth <==> f.code == -5) && (f.kind is Size <==> f.code == -6) && (f.kind is Ext4
            <==> f.code == -7),
{
    if b.len() >= 8 {
        law_signed_32_bits_are_read_back(b, 4, code);
    }
}

/// A reply of another length than was wanted is refused, with both lengths in the message.
pub proof fn law_replies_of_another_length_are_refused(b: Seq<u8>, want: nat)
    requires
        b.len() != want,
    ensures
        acknowledged(Ok(b), want) matches Err(OdinFault::Protocol(m)) && m == "expected "@ + dec(
            want as int,
        ) + "-byte reply, got "@ + dec(b.len() as int),
{
}

} // verus!
