//! Samsung **Upload Mode** (S-Boot Upload Client): read RAM out of a device that is in
//! upload/ramdump mode over USB.
//!
//! This is a separate protocol from Odin flashing, but it rides the same
//! [`Transport`](crate::transport::Transport). A device enters upload mode after a kernel panic
//! or when armed via the `*#9900#` SysDump menu. Dumping RAM is read-only: nothing is written to
//! the device.
//!
//! Wire framing is ASCII, in mixed-case magic strings.

use std::time::Duration;

use vstd::arithmetic::power::pow;
use vstd::prelude::*;
use vstd::string::StringExecFns;
use vstd::utf8::{encode_utf8, is_ascii_chars, is_ascii_chars_encode_utf8};

use crate::bytes::{
    holds32, holds64, law_32_bits_are_read_back, law_64_bits_are_read_back, nul_position, read_u32,
    read_u64, same_bytes, starts_with, u32_at, u64_at,
};
use crate::pit::{field_text, law_names_are_read_back, name_stands};
use crate::text::{
    hex, hex_text, law_leading_zeros_count_nothing, law_numeral_stands_for_its_number,
    lemma_numeral_len, number_of, pad_left, padded_left, text_from_utf8,
};
use crate::transport::{
    got, read_reply, reply_bytes, usb_error_text, write_outcome, wrote, Event, Transport, UsbError,
};

verus! {

/// `PrEaMbLe` and a NUL: sent to probe or begin an exchange; a device in upload mode
/// acknowledges it.
pub const PREAMBLE: [u8; 9] = [0x50, 0x72, 0x45, 0x61, 0x4D, 0x62, 0x4C, 0x65, 0x00];

/// `AcKnOwLeDgMeNt` and a NUL: positive acknowledgement (both directions).
pub const ACK: [u8; 15] = [0x41, 0x63, 0x4B, 0x6E, 0x4F, 0x77, 0x4C, 0x65, 0x44, 0x67, 0x4D, 0x65, 0x4E, 0x74, 0x00];

/// `NeGaTiVeAcKmNt` and a NUL: negative acknowledgement from the device.
pub const NAK: [u8; 15] = [0x4E, 0x65, 0x47, 0x61, 0x54, 0x69, 0x56, 0x65, 0x41, 0x63, 0x4B, 0x6D, 0x4E, 0x74, 0x00];

/// `PrObE` and a NUL: request the region (partition) table.
pub const PROBE: [u8; 6] = [0x50, 0x72, 0x4F, 0x62, 0x45, 0x00];

/// `DaTaXfEr` and a NUL: begin a data transfer of the previously announced range.
pub const DATAXFER: [u8; 9] = [0x44, 0x61, 0x54, 0x61, 0x58, 0x66, 0x45, 0x72, 0x00];

/// `PoStAmBlE` and a NUL: end-of-transfer marker sent by the device.
pub const POSTAMBLE: [u8; 10] = [0x50, 0x6F, 0x53, 0x74, 0x41, 0x6D, 0x42, 0x6C, 0x45, 0x00];

/// `PoWeRdOwN` and a NUL: reboot the device out of upload mode.
pub const POWERDOWN: [u8; 10] = [0x50, 0x6F, 0x57, 0x65, 0x52, 0x64, 0x4F, 0x77, 0x4E, 0x00];

/// The acknowledgement without its NUL, which is all of it that a handshake looks at.
pub const ACK_WORD: [u8; 14] = [0x41, 0x63, 0x4B, 0x6E, 0x4F, 0x77, 0x4C, 0x65, 0x44, 0x67, 0x4D, 0x65, 0x4E, 0x74];

/// The probe table starts after a 16-byte header.
pub const PROBE_HEADER_LEN: usize = 0x10;

/// Max bytes the device returns for a probe.
pub const PROBE_MAX: usize = 0x8000;

/// Command/acknowledge timeout in milliseconds.
pub const CMD_TIMEOUT_MS: u64 = 5_000;

/// Timeout for reading a dump chunk (RAM reads can be slow), in milliseconds.
pub const DUMP_TIMEOUT_MS: u64 = 30_000;

/// Largest single dump read that is requested.
pub const DUMP_CHUNK: u64 = 0x10_0000;

/// One dumpable region advertised by the device (a slice of RAM, or FTL/CP memory).
#[derive(Debug, Clone, PartialEq, Eq)]
pub struct Region {
    /// Region type tag (device-defined).
    pub ptype: u32,
    /// Region name, e.g. `DRAM`, `TZ`, `CP` (NUL-trimmed).
    pub name: String,
    /// Start address (inclusive).
    pub start: u64,
    /// End address (exclusive).
    pub end: u64,
}

/// What a region says.
#[verifier::ext_equal]
pub struct RegionModel {
    pub ptype: u32,
    pub name: Seq<char>,
    pub start: u64,
    pub end: u64,
}

impl View for Region {
    type V = RegionModel;

    open spec fn view(&self) -> RegionModel {
        RegionModel { ptype: self.ptype, name: self.name@, start: self.start, end: self.end }
    }
}

/// The bytes between two addresses: none where the end is not behind the start.
pub open spec fn span(start: u64, end: u64) -> u64 {
    if end > start {
        (end - start) as u64
    } else {
        0
    }
}

impl Region {
    /// Size of the region in bytes (`end - start`, or 0 where `end` is not behind `start`).
    pub fn size(&self) -> (n: u64)
        ensures
            n == span(self.start, self.end),
    {
        span_of(self.start, self.end)
    }
}

fn span_of(start: u64, end: u64) -> (n: u64)
    ensures
        n == span(start, end),
{
    if end > start {
        end - start
    } else {
        0
    }
}

/// Anything that can go wrong speaking the upload protocol.
#[derive(Debug)]
pub enum UploadError {
    /// The underlying transport failed.
    Usb(UsbError),
    /// The device is not in upload mode (no preamble ack).
    NotUploadMode,
    /// The device sent something unexpected.
    Protocol(String),
}

/// What an [`UploadError`] says.
pub enum UploadFault {
    Usb(UsbError),
    NotUploadMode,
    Protocol(Seq<char>),
}

impl View for UploadError {
    type V = UploadFault;

    open spec fn view(&self) -> UploadFault {
        match self {
            UploadError::Usb(e) => UploadFault::Usb(*e),
            UploadError::NotUploadMode => UploadFault::NotUploadMode,
            UploadError::Protocol(m) => UploadFault::Protocol(m@),
        }
    }
}

/// The text of an error.
pub open spec fn upload_fault_text(e: UploadFault) -> Seq<char> {
    match e {
        UploadFault::Usb(e) => usb_error_text(e),
        UploadFault::NotUploadMode =>
            "device did not acknowledge the upload-mode preamble — it isn't in upload mode (arm it via a panic or the *#9900# SysDump menu)"@,
        UploadFault::Protocol(m) => "upload protocol error: "@ + m,
    }
}

impl UploadError {
    /// The error in words.
    pub fn message(&self) -> (s: String)
        ensures
            s@ == upload_fault_text(self@),
    {
        match self {
            UploadError::Usb(e) => e.message(),
            UploadError::NotUploadMode => String::from_str(
                "device did not acknowledge the upload-mode preamble — it isn't in upload mode (arm it via a panic or the *#9900# SysDump menu)",
            ),
            UploadError::Protocol(m) => {
                let mut s = String::from_str("upload protocol error: ");
                s.append(m.as_str());
                s
            },
        }
    }
}

impl From<UsbError> for UploadError {
    fn from(e: UsbError) -> (r: Self) {
        UploadError::Usb(e)
    }
}

impl vstd::std_specs::convert::FromSpecImpl<UsbError> for UploadError {
    open spec fn obeys_from_spec() -> bool {
        true
    }

    open spec fn from_spec(e: UsbError) -> Self {
        UploadError::Usb(e)
    }
}

/// A result with its error by content.
pub open spec fn upload_fault<A>(r: Result<A, UploadError>) -> Result<A, UploadFault> {
    match r {
        Ok(a) => Ok(a),
        Err(e) => Err(e@),
    }
}

/// Whether a probe table uses 64-bit addresses: it then begins with `+`.
pub open spec fn is_wide(data: Seq<u8>) -> bool {
    data[0] == 0x2B
}

/// Bytes in one table entry.
pub open spec fn table_entry_len(wide: bool) -> int {
    if wide {
        0x28
    } else {
        0x1C
    }
}

/// The table entry at `off`: a type, a name of 20 or 16 bytes, and two addresses.
pub open spec fn region_at(data: Seq<u8>, off: int, wide: bool) -> RegionModel {
    if wide {
        RegionModel {
            ptype: u32_at(data, off),
            name: field_text(data, off + 4, 20),
            start: u64_at(data, off + 24),
            end: u64_at(data, off + 32),
        }
    } else {
        RegionModel {
            ptype: u32_at(data, off),
            name: field_text(data, off + 4, 16),
            start: u32_at(data, off + 20) as u64,
            end: u32_at(data, off + 24) as u64,
        }
    }
}

/// The regions of the entries from `off` on. An entry whose start address is below 20, such as
/// one of zeros, ends the table; so does the end of the data.
pub open spec fn regions_from(data: Seq<u8>, off: int, wide: bool) -> Seq<RegionModel>
    decreases data.len() - off,
{
    if off + table_entry_len(wide) > data.len() || region_at(data, off, wide).start < 20 {
        Seq::empty()
    } else {
        seq![region_at(data, off, wide)] + regions_from(data, off + table_entry_len(wide), wide)
    }
}

/// The regions that a probe response lists.
pub open spec fn probe_table(data: Seq<u8>) -> Seq<RegionModel> {
    if data.len() < PROBE_HEADER_LEN {
        Seq::empty()
    } else {
        regions_from(data, PROBE_HEADER_LEN as int, is_wide(data))
    }
}

/// The contents of a list of regions.
pub open spec fn region_models(v: Seq<Region>) -> Seq<RegionModel> {
    Seq::new(v.len(), |i: int| v[i]@)
}

/// Parse the raw probe response into the list of dumpable regions.
///
/// A leading `+` byte means 64-bit addressing (entries of `0x28` bytes), otherwise 32-bit
/// (`0x1C` bytes). Entries begin at offset `0x10`; each is `ptype` (u32), a fixed-length
/// NUL-terminated `name`, then `start` and `end` addresses.
pub fn parse_probe_table(data: &[u8]) -> (r: Vec<Region>)
    ensures
        region_models(r@) == probe_table(data@),
{
    let mut regions: Vec<Region> = Vec::new();
    if data.len() < PROBE_HEADER_LEN {
        assert(region_models(regions@) == probe_table(data@));
        return regions;
    }
    let wide = data[0] == 0x2B;
    let addr_size: usize = if wide {
        8
    } else {
        4
    };
    let entry_size: usize = if wide {
        0x28
    } else {
        0x1C
    };
    // The name fills whatever is left between the type and the two addresses.
    let name_len: usize = entry_size - 4 - 2 * addr_size;
    let mut off: usize = PROBE_HEADER_LEN;
    assert(region_models(regions@) + regions_from(data@, off as int, wide) == probe_table(data@));
    while data.len() - off >= entry_size
        invariant
            wide == is_wide(data@),
            data.len() >= PROBE_HEADER_LEN,
            addr_size == (if wide {
                8int
            } else {
                4int
            }),
            entry_size == table_entry_len(wide),
            name_len == entry_size - 4 - 2 * addr_size,
            off <= data.len(),
            region_models(regions@) + regions_from(data@, off as int, wide) == probe_table(data@),
        decreases data.len() - off,
    {
        let ptype: u32 = read_u32(data, off);
        let name_bytes: &[u8] = &data[off + 4..off + 4 + name_len];
        let name_end: usize = nul_position(name_bytes);
        let head: &[u8] = &name_bytes[0..name_end];
        assert(head@ == name_bytes@.take(name_end as int));
        let name = text_from_utf8(head);
        let start: u64 = read_address(data, off + 4 + name_len, wide);
        let end: u64 = read_address(data, off + 4 + name_len + addr_size, wide);
        let region = Region { ptype, name, start, end };
        assert(region@ == region_at(data@, off as int, wide));
        if start < 20 {
            assert(region_models(regions@) == probe_table(data@));
            return regions;
        }
        let ghost before = region_models(regions@);
        regions.push(region);
        proof {
            let next = off + entry_size;
            assert(region_models(regions@) == before.push(region@));
            assert(before.push(region@) + regions_from(data@, next, wide) == before + (seq![region@]
                + regions_from(data@, next, wide)));
        }
        off = off + entry_size;
    }
    assert(region_models(regions@) == probe_table(data@));
    regions
}

/// Read the address at `at`, of 8 bytes or of 4.
fn read_address(data: &[u8], at: usize, wide: bool) -> (a: u64)
    requires
        at + (if wide {
            8int
        } else {
            4int
        }) <= data.len(),
    ensures
        a == if wide {
            u64_at(data@, at as int)
        } else {
            u32_at(data@, at as int) as u64
        },
{
    if wide {
        read_u64(data, at)
    } else {
        read_u32(data, at) as u64
    }
}

/// What the answer to a preamble comes to.
pub open spec fn preamble_answer(reply: Result<Seq<u8>, UsbError>) -> Result<(), UploadFault> {
    match reply {
        Err(e) => Err(UploadFault::Usb(e)),
        Ok(b) => if ACK_WORD@.is_prefix_of(b) {
            Ok(())
        } else {
            Err(UploadFault::NotUploadMode)
        },
    }
}

/// Judge the answer to a preamble: a device in upload mode acknowledges it, another refuses it
/// or says something else.
pub fn check_preamble(reply: Result<Vec<u8>, UsbError>) -> (r: Result<(), UploadError>)
    ensures
        upload_fault(r) == preamble_answer(reply_bytes(reply)),
{
    match reply {
        Err(e) => Err(UploadError::Usb(e)),
        Ok(resp) => if starts_with(resp.as_slice(), &ACK_WORD) {
            Ok(())
        } else {
            Err(UploadError::NotUploadMode)
        },
    }
}

/// A history from `from` on is an upload-mode handshake, and `r` is what it came to.
pub open spec fn ran_preamble(h: Seq<Event>, from: int, r: Result<(), UploadFault>) -> bool {
    &&& from < h.len()
    &&& h[from] == wrote(PREAMBLE@, CMD_TIMEOUT_MS, write_outcome(h[from]))
    &&& match write_outcome(h[from]) {
        Err(e) => h.len() == from + 1 && r == Err::<(), UploadFault>(UploadFault::Usb(e)),
        Ok(_) => {
            &&& h.len() == from + 2
            &&& h[from + 1] == got(64, CMD_TIMEOUT_MS, read_reply(h[from + 1]))
            &&& r == preamble_answer(read_reply(h[from + 1]))
        },
    }
}

/// The regions that a probe brought.
pub open spec fn probe_result(r: Result<Vec<Region>, UploadError>) -> Result<
    Seq<RegionModel>,
    UploadFault,
> {
    match r {
        Ok(v) => Ok(region_models(v@)),
        Err(e) => Err(e@),
    }
}

/// A history from `from` on probes for regions, and `r` is what it came to.
pub open spec fn ran_probe(
    h: Seq<Event>,
    from: int,
    r: Result<Seq<RegionModel>, UploadFault>,
) -> bool {
    &&& from < h.len()
    &&& h[from] == wrote(PROBE@, CMD_TIMEOUT_MS, write_outcome(h[from]))
    &&& match write_outcome(h[from]) {
        Err(e) => h.len() == from + 1 && r == Err::<Seq<RegionModel>, UploadFault>(
            UploadFault::Usb(e),
        ),
        Ok(_) => {
            &&& h.len() == from + 2
            &&& h[from + 1] == got(PROBE_MAX, CMD_TIMEOUT_MS, read_reply(h[from + 1]))
            &&& r == match read_reply(h[from + 1]) {
                Err(e) => Err::<Seq<RegionModel>, UploadFault>(UploadFault::Usb(e)),
                Ok(data) => Ok(probe_table(data)),
            }
        },
    }
}

/// An address as the wire carries it: 16 lower-case hex digits.
pub open spec fn address_bytes(a: u64) -> Seq<u8> {
    encode_utf8(pad_left(hex(a as nat), 16, '0'))
}

/// Message `i` of the four that announce the range `start..end`.
pub open spec fn announcement(start: u64, end: u64, i: int) -> Seq<u8> {
    if i == 0 {
        PREAMBLE@
    } else if i == 1 {
        address_bytes(start)
    } else if i == 2 {
        address_bytes(end)
    } else {
        DATAXFER@
    }
}

/// The first `n` messages of an announcement were sent.
pub open spec fn announced(h: Seq<Event>, from: int, start: u64, end: u64, n: int) -> bool {
    &&& from + n <= h.len()
    &&& forall|i: int|
        0 <= i < n ==> #[trigger] h[from + i] == wrote(
            announcement(start, end, i),
            CMD_TIMEOUT_MS,
            write_outcome(h[from + i]),
        ) && write_outcome(h[from + i]) is Ok
}

/// Sending message `n` of an announcement failed.
pub open spec fn announcement_failed(
    h: Seq<Event>,
    from: int,
    start: u64,
    end: u64,
    n: int,
    r: Result<u64, UploadFault>,
) -> bool {
    &&& announced(h, from, start, end, n)
    &&& h.len() == from + n + 1
    &&& h[from + n] == wrote(
        announcement(start, end, n),
        CMD_TIMEOUT_MS,
        write_outcome(h[from + n]),
    )
    &&& write_outcome(h[from + n]) matches Err(e) && r == Err::<u64, UploadFault>(
        UploadFault::Usb(e),
    )
}

/// Chunk `k` of the dump at `at`.
pub open spec fn chunk(h: Seq<Event>, at: int, k: int) -> Seq<u8> {
    read_reply(h[at + 2 * k])->Ok_0
}

/// The bytes in the first `n` chunks of the dump at `at`.
pub open spec fn dumped(h: Seq<Event>, at: int, n: nat) -> nat
    decreases n,
{
    if n == 0 {
        0
    } else {
        dumped(h, at, (n - 1) as nat) + chunk(h, at, n - 1).len()
    }
}

/// How many bytes are asked for when `pos` of `total` have come.
pub open spec fn chunk_wanted(total: u64, pos: nat) -> usize {
    (if total - pos < DUMP_CHUNK {
        total - pos
    } else {
        DUMP_CHUNK as int
    }) as usize
}

/// Chunk `k` came, is neither empty nor longer than was asked for nor the end marker, and was
/// acknowledged.
pub open spec fn chunk_came(h: Seq<Event>, at: int, k: int, total: u64) -> bool {
    let pos = dumped(h, at, k as nat);
    let r = h[at + 2 * k];
    let w = h[at + 2 * k + 1];
    &&& pos < total
    &&& r == got(chunk_wanted(total, pos), DUMP_TIMEOUT_MS, read_reply(r))
    &&& read_reply(r) is Ok
    &&& 0 < chunk(h, at, k).len() <= chunk_wanted(total, pos)
    &&& chunk(h, at, k) != POSTAMBLE@
    &&& w == wrote(ACK@, CMD_TIMEOUT_MS, write_outcome(w))
    &&& write_outcome(w) is Ok
}

/// The dump at `at` ended after `n` chunks, and `r` is what it came to: all bytes came, the
/// device ended early, it sent nothing, or a transfer failed. After the last chunk, the end
/// marker is read and ignored.
pub open spec fn dump_ended(
    h: Seq<Event>,
    at: int,
    n: nat,
    total: u64,
    r: Result<u64, UploadFault>,
) -> bool {
    let pos = dumped(h, at, n);
    let w = at + 2 * n;
    &&& w < h.len()
    &&& if pos == total {
        &&& h.len() == w + 1
        &&& h[w] == got(10, CMD_TIMEOUT_MS, read_reply(h[w]))
        &&& r == Ok::<u64, UploadFault>(pos as u64)
    } else {
        &&& h[w] == got(chunk_wanted(total, pos), DUMP_TIMEOUT_MS, read_reply(h[w]))
        &&& match read_reply(h[w]) {
            Err(e) => h.len() == w + 1 && r == Err::<u64, UploadFault>(UploadFault::Usb(e)),
            Ok(c) => if c == POSTAMBLE@ {
                &&& h.len() == w + 2
                &&& h[w + 1] == got(10, CMD_TIMEOUT_MS, read_reply(h[w + 1]))
                &&& r == Ok::<u64, UploadFault>(pos as u64)
            } else if c.len() == 0 {
                &&& h.len() == w + 1
                &&& r == Err::<u64, UploadFault>(
                    UploadFault::Protocol(
                        "device returned no data before the transfer completed"@,
                    ),
                )
            } else {
                &&& h.len() == w + 2
                &&& h[w + 1] == wrote(ACK@, CMD_TIMEOUT_MS, write_outcome(h[w + 1]))
                &&& write_outcome(h[w + 1]) matches Err(e) && r == Err::<u64, UploadFault>(
                    UploadFault::Usb(e),
                )
            },
        }
    }
}

/// The first `n` chunks of the dump at `at` came.
pub open spec fn chunks_came(h: Seq<Event>, at: int, n: nat, total: u64) -> bool {
    forall|k: int| 0 <= k < n ==> #[trigger] chunk_came(h, at, k, total)
}

/// A chunk that a sink was offered, and why it refused it, if it did.
pub struct Offer {
    pub chunk: Seq<u8>,
    pub refusal: Option<UploadError>,
}

/// Why a chunk was refused, if it was.
pub open spec fn refusal(answer: Result<(), UploadError>) -> Option<UploadError> {
    match answer {
        Ok(_) => None,
        Err(e) => Some(e),
    }
}

/// Where the chunks of a dump go.
pub trait ChunkSink {
    /// Every chunk offered so far, in order. Only proofs look at it, so a sink that is not itself
    /// verified need not say what it is.
    closed spec fn offers(&self) -> Seq<Offer> {
        arbitrary()
    }

    /// Take a chunk. A refusal ends the dump.
    fn take(&mut self, chunk: &[u8]) -> (r: Result<(), UploadError>)
        ensures
            (*final(self)).offers() == (*old(self)).offers().push(
                Offer { chunk: chunk@, refusal: refusal(r) },
            ),
    ;
}

/// Who is told how far a dump has come.
pub trait ProgressMeter {
    /// Every report so far, in order. Only proofs look at it.
    closed spec fn reports(&self) -> Seq<(u64, u64)> {
        arbitrary()
    }

    /// Learn that `pos` of `total` bytes have come.
    fn report(&mut self, pos: u64, total: u64)
        ensures
            (*final(self)).reports() == (*old(self)).reports().push((pos, total)),
    ;
}

/// What a sink that takes all of the first `n` chunks of the dump at `at` was offered: each chunk
/// once, in the order in which they came.
pub open spec fn offered(h: Seq<Event>, at: int, n: nat) -> Seq<Offer> {
    Seq::new(n, |k: int| Offer { chunk: chunk(h, at, k), refusal: None })
}

/// What is reported of the first `n` chunks of the dump at `at`: after each, the count so far.
pub open spec fn counted(h: Seq<Event>, at: int, n: nat, total: u64) -> Seq<(u64, u64)> {
    Seq::new(n, |k: int| (dumped(h, at, (k + 1) as nat) as u64, total))
}

/// The dump at `at` ended because the sink refused chunk `n`.
pub open spec fn dump_refused(
    h: Seq<Event>,
    at: int,
    n: nat,
    total: u64,
    offers: Seq<Offer>,
    r: Result<u64, UploadError>,
) -> bool {
    &&& chunk_came(h, at, n as int, total)
    &&& h.len() == at + 2 * n + 2
    &&& r matches Err(e) && offers == offered(h, at, n).push(
        Offer { chunk: chunk(h, at, n as int), refusal: Some(e) },
    )
}

/// `n` chunks of the dump at `at` came and were taken; then it ended, and `r` is what it came to.
/// `offers` is what the sink was offered, and `reports` what was reported.
pub open spec fn dumped_chunks(
    h: Seq<Event>,
    at: int,
    n: nat,
    total: u64,
    offers: Seq<Offer>,
    reports: Seq<(u64, u64)>,
    r: Result<u64, UploadError>,
) -> bool {
    &&& chunks_came(h, at, n, total)
    &&& reports == counted(h, at, n, total)
    &&& {
        ||| dump_ended(h, at, n, total, upload_fault(r)) && offers == offered(h, at, n)
        ||| dump_refused(h, at, n, total, offers, r)
    }
}

/// A history from `from` on dumps the range `start..end`, and `r` is what it came to. `offers` is
/// what the sink was offered, and `reports` what was reported.
pub open spec fn ran_dump_range(
    h: Seq<Event>,
    from: int,
    start: u64,
    end: u64,
    offers: Seq<Offer>,
    reports: Seq<(u64, u64)>,
    r: Result<u64, UploadError>,
) -> bool {
    ||| {
        &&& exists|n: int|
            0 <= n < 4 && #[trigger] announcement_failed(h, from, start, end, n, upload_fault(r))
        &&& offers.len() == 0
        &&& reports.len() == 0
    }
    ||| {
        &&& announced(h, from, start, end, 4)
        &&& exists|n: nat| #[trigger]
            dumped_chunks(h, from + 4, n, span(start, end), offers, reports, r)
    }
}

/// A history from `from` on powers the device down, and `r` is what it came to.
pub open spec fn ran_power_down(h: Seq<Event>, from: int, r: Result<(), UploadFault>) -> bool {
    &&& h.len() == from + 1
    &&& h[from] == wrote(POWERDOWN@, CMD_TIMEOUT_MS, write_outcome(h[from]))
    &&& r == match write_outcome(h[from]) {
        Ok(_) => Ok::<(), UploadFault>(()),
        Err(e) => Err(UploadFault::Usb(e)),
    }
}

/// An upload-mode session over a [`Transport`].
pub struct Upload<T: Transport> {
    transport: T,
}

impl<T: Transport> Upload<T> {
    /// The transport.
    pub closed spec fn pipe(&self) -> T {
        self.transport
    }

    /// Every transfer of the transport so far.
    pub closed spec fn history(&self) -> Seq<Event> {
        self.transport.history()
    }

    /// Wrap a transport. No I/O happens until a command is issued.
    pub fn new(transport: T) -> (u: Self)
        ensures
            u.pipe() == transport,
            u.history() == transport.history(),
    {
        Upload { transport }
    }

    /// Recover the transport (e.g. to reboot or disconnect).
    pub fn into_transport(self) -> (t: T)
        ensures
            t == self.pipe(),
            t.history() == self.history(),
    {
        self.transport
    }

    /// Confirm the device is in upload mode: send [`PREAMBLE`], expect [`ACK`].
    pub fn handshake(&mut self) -> (r: Result<(), UploadError>)
        ensures
            old(self).history().is_prefix_of(final(self).history()),
            ran_preamble(final(self).history(), old(self).history().len() as int, upload_fault(r)),
    {
        match self.transport.bulk_write(&PREAMBLE, Duration::from_millis(CMD_TIMEOUT_MS)) {
            Ok(()) => {},
            Err(e) => return Err(UploadError::Usb(e)),
        }
        let reply = self.transport.bulk_read(64, Duration::from_millis(CMD_TIMEOUT_MS));
        check_preamble(reply)
    }

    /// Ask the device for its region table, parsed via [`parse_probe_table`].
    pub fn probe(&mut self) -> (r: Result<Vec<Region>, UploadError>)
        ensures
            old(self).history().is_prefix_of(final(self).history()),
            ran_probe(final(self).history(), old(self).history().len() as int, probe_result(r)),
    {
        match self.transport.bulk_write(&PROBE, Duration::from_millis(CMD_TIMEOUT_MS)) {
            Ok(()) => {},
            Err(e) => return Err(UploadError::Usb(e)),
        }
        match self.transport.bulk_read(PROBE_MAX, Duration::from_millis(CMD_TIMEOUT_MS)) {
            Ok(data) => Ok(parse_probe_table(data.as_slice())),
            Err(e) => Err(UploadError::Usb(e)),
        }
    }

    /// Reboot the device out of upload mode.
    pub fn power_down(&mut self) -> (r: Result<(), UploadError>)
        ensures
            old(self).history().is_prefix_of(final(self).history()),
            ran_power_down(
                final(self).history(),
                old(self).history().len() as int,
                upload_fault(r),
            ),
    {
        self.send(&POWERDOWN)
    }

    /// Send one message.
    fn send(&mut self, data: &[u8]) -> (r: Result<(), UploadError>)
        ensures
            ({
                let h = final(self).history();
                let e = h.last();
                &&& h == old(self).history().push(e)
                &&& e == wrote(data@, CMD_TIMEOUT_MS, write_outcome(e))
                &&& upload_fault(r) == match write_outcome(e) {
                    Ok(_) => Ok::<(), UploadFault>(()),
                    Err(e) => Err(UploadFault::Usb(e)),
                }
            }),
    {
        match self.transport.bulk_write(data, Duration::from_millis(CMD_TIMEOUT_MS)) {
            Ok(()) => Ok(()),
            Err(e) => Err(UploadError::Usb(e)),
        }
    }

    /// Announce the range `start..end`.
    fn announce(&mut self, start: u64, end: u64) -> (r: Result<(), UploadError>)
        ensures
            old(self).history().is_prefix_of(final(self).history()),
            ({
                let h = final(self).history();
                let from = old(self).history().len() as int;
                match r {
                    Ok(_) => announced(h, from, start, end, 4) && h.len() == from + 4,
                    Err(e) => exists|n: int|
                        0 <= n < 4 && #[trigger] announcement_failed(
                            h,
                            from,
                            start,
                            end,
                            n,
                            Err(e@),
                        ),
                }
            }),
    {
        let ghost from = self.history().len() as int;
        let ghost h0 = self.history();
        match self.send(&PREAMBLE) {
            Ok(()) => {},
            Err(e) => {
                assert(announcement_failed(self.history(), from, start, end, 0, Err(e@)));
                return Err(e);
            },
        }
        assert(announced(self.history(), from, start, end, 1));
        let ghost h1 = self.history();
        let digits = hex_text(start, false);
        let text = padded_left(digits.as_str(), 16, '0');
        match self.send(text.as_str().as_bytes()) {
            Ok(()) => {},
            Err(e) => {
                proof {
                    lemma_announced_kept(h1, self.history(), from, start, end, 1);
                    assert(announcement_failed(self.history(), from, start, end, 1, Err(e@)));
                }
                return Err(e);
            },
        }
        proof {
            lemma_announced_kept(h1, self.history(), from, start, end, 1);
            assert(announced(self.history(), from, start, end, 2));
        }
        let ghost h2 = self.history();
        let digits = hex_text(end, false);
        let text = padded_left(digits.as_str(), 16, '0');
        match self.send(text.as_str().as_bytes()) {
            Ok(()) => {},
            Err(e) => {
                proof {
                    lemma_announced_kept(h2, self.history(), from, start, end, 2);
                    assert(announcement_failed(self.history(), from, start, end, 2, Err(e@)));
                }
                return Err(e);
            },
        }
        proof {
            lemma_announced_kept(h2, self.history(), from, start, end, 2);
            assert(announced(self.history(), from, start, end, 3));
        }
        let ghost h3 = self.history();
        match self.send(&DATAXFER) {
            Ok(()) => {
                proof {
                    lemma_announced_kept(h3, self.history(), from, start, end, 3);
                }
                Ok(())
            },
            Err(e) => {
                proof {
                    lemma_announced_kept(h3, self.history(), from, start, end, 3);
                    assert(announcement_failed(self.history(), from, start, end, 3, Err(e@)));
                }
                Err(e)
            },
        }
    }

    /// Dump the half-open range `[start, end)`, handing each chunk to `sink` and reporting
    /// `(bytes_so_far, total)` to `progress`. Returns the number of bytes dumped.
    #[verifier::spinoff_prover]
    #[verifier::rlimit(40)]
    pub fn dump_range<S: ChunkSink + ?Sized, P: ProgressMeter + ?Sized>(
        &mut self,
        start: u64,
        end: u64,
        sink: &mut S,
        progress: &mut P,
    ) -> (r: Result<u64, UploadError>)
        ensures
            old(self).history().is_prefix_of(final(self).history()),
            (*old(sink)).offers().is_prefix_of((*final(sink)).offers()),
            (*old(progress)).reports().is_prefix_of((*final(progress)).reports()),
            ran_dump_range(
                final(self).history(),
                old(self).history().len() as int,
                start,
                end,
                (*final(sink)).offers().skip((*old(sink)).offers().len() as int),
                (*final(progress)).reports().skip((*old(progress)).reports().len() as int),
                r,
            ),
    {
        let total: u64 = span_of(start, end);
        let ghost from = self.history().len() as int;
        let ghost at = from + 4;
        let ghost offers0 = (*sink).offers();
        let ghost reports0 = (*progress).reports();
        match self.announce(start, end) {
            Ok(()) => {},
            Err(e) => return Err(e),
        }

        let mut pos: u64 = 0;
        let ghost mut n: nat = 0;
        proof {
            assert(offers0 == offers0 + offered(self.history(), at, 0));
            assert(reports0 == reports0 + counted(self.history(), at, 0, total));
        }
        while pos < total
            invariant
                from == old(self).history().len(),
                at == from + 4,
                total == span(start, end),
                offers0 == (*old(sink)).offers(),
                reports0 == (*old(progress)).reports(),
                old(self).history().is_prefix_of(self.history()),
                announced(self.history(), from, start, end, 4),
                self.history().len() == at + 2 * n,
                pos <= total,
                pos == dumped(self.history(), at, n),
                chunks_came(self.history(), at, n, total),
                (*sink).offers() == offers0 + offered(self.history(), at, n),
                (*progress).reports() == reports0 + counted(self.history(), at, n, total),
            decreases total - pos,
        {
            let want: u64 = if total - pos < DUMP_CHUNK {
                total - pos
            } else {
                DUMP_CHUNK
            };
            let ghost before = self.history();
            let reply = self.transport.bulk_read(
                want as usize,
                Duration::from_millis(DUMP_TIMEOUT_MS),
            );
            let ghost mid = self.history();
            proof {
                lemma_dump_kept(before, mid, from, start, end, n);
            }
            let data: Vec<u8> = match reply {
                Ok(c) => c,
                Err(e) => {
                    let ghost r = Err(UploadError::Usb(e));
                    assert(dump_ended(mid, at, n, total, upload_fault(r)));
                    proof {
                        lemma_ended(
                            mid,
                            at,
                            n,
                            total,
                            offers0,
                            (*sink).offers(),
                            reports0,
                            (*progress).reports(),
                            r,
                        );
                    }
                    return Err(UploadError::Usb(e));
                },
            };
            if same_bytes(data.as_slice(), &POSTAMBLE) {
                // The device ended early.
                let _ = self.transport.bulk_read(10, Duration::from_millis(CMD_TIMEOUT_MS));
                proof {
                    let h = self.history();
                    lemma_dump_kept(mid, h, from, start, end, n);
                    assert(h[at + 2 * n] == mid[at + 2 * n]);
                    assert(dump_ended(h, at, n, total, upload_fault(Ok(pos))));
                    lemma_ended(
                        h,
                        at,
                        n,
                        total,
                        offers0,
                        (*sink).offers(),
                        reports0,
                        (*progress).reports(),
                        Ok(pos),
                    );
                }
                return Ok(pos);
            }
            if data.len() == 0 {
                let m = String::from_str("device returned no data before the transfer completed");
                proof {
                    let r = Err(UploadError::Protocol(m));
                    assert(dump_ended(mid, at, n, total, upload_fault(r)));
                    lemma_ended(
                        mid,
                        at,
                        n,
                        total,
                        offers0,
                        (*sink).offers(),
                        reports0,
                        (*progress).reports(),
                        r,
                    );
                }
                return Err(UploadError::Protocol(m));
            }
            // Acknowledge every chunk, then hand it to the sink.
            let sent = self.send(&ACK);
            let ghost h = self.history();
            proof {
                lemma_dump_kept(mid, h, from, start, end, n);
                assert(h[at + 2 * n] == mid[at + 2 * n]);
            }
            match sent {
                Ok(()) => {},
                Err(e) => {
                    proof {
                        let r = Err(e);
                        assert(dump_ended(h, at, n, total, upload_fault(r)));
                        lemma_ended(
                            h,
                            at,
                            n,
                            total,
                            offers0,
                            (*sink).offers(),
                            reports0,
                            (*progress).reports(),
                            r,
                        );
                    }
                    return Err(e);
                },
            }
            assert(chunk_came(h, at, n as int, total));
            match sink.take(data.as_slice()) {
                Ok(()) => {},
                Err(e) => {
                    proof {
                        let new = (*sink).offers().skip(offers0.len() as int);
                        assert(new == offered(h, at, n).push(
                            Offer { chunk: chunk(h, at, n as int), refusal: Some(e) },
                        ));
                        assert((*progress).reports().skip(reports0.len() as int) == counted(
                            h,
                            at,
                            n,
                            total,
                        ));
                        assert(dumped_chunks(
                            h,
                            at,
                            n,
                            total,
                            new,
                            (*progress).reports().skip(reports0.len() as int),
                            Err(e),
                        ));
                    }
                    return Err(e);
                },
            }
            pos = pos + data.len() as u64;
            progress.report(pos, total);
            proof {
                assert(dumped(h, at, n + 1) == dumped(h, at, n) + data@.len());
                assert(offered(h, at, n + 1) == offered(h, at, n).push(
                    Offer { chunk: data@, refusal: None },
                ));
                assert(counted(h, at, n + 1, total) == counted(h, at, n, total).push((pos, total)));
                assert((*sink).offers() == offers0 + offered(h, at, n + 1));
                assert((*progress).reports() == reports0 + counted(h, at, n + 1, total));
                n = n + 1;
            }
        }

        // Consume the trailing end marker (best effort).
        let ghost last = self.history();
        let _ = self.transport.bulk_read(10, Duration::from_millis(CMD_TIMEOUT_MS));
        proof {
            let h = self.history();
            lemma_dump_kept(last, h, from, start, end, n);
            assert(dump_ended(h, at, n, total, upload_fault(Ok(pos))));
            lemma_ended(
                h,
                at,
                n,
                total,
                offers0,
                (*sink).offers(),
                reports0,
                (*progress).reports(),
                Ok(pos),
            );
        }
        Ok(pos)
    }
}

/// A dump that ended after `n` chunks which were all taken is one.
proof fn lemma_ended(
    h: Seq<Event>,
    at: int,
    n: nat,
    total: u64,
    offers0: Seq<Offer>,
    offers1: Seq<Offer>,
    reports0: Seq<(u64, u64)>,
    reports1: Seq<(u64, u64)>,
    r: Result<u64, UploadError>,
)
    requires
        chunks_came(h, at, n, total),
        offers1 == offers0 + offered(h, at, n),
        reports1 == reports0 + counted(h, at, n, total),
        dump_ended(h, at, n, total, upload_fault(r)),
    ensures
        dumped_chunks(
            h,
            at,
            n,
            total,
            offers1.skip(offers0.len() as int),
            reports1.skip(reports0.len() as int),
            r,
        ),
{
    assert(offers1.skip(offers0.len() as int) == offered(h, at, n));
    assert(reports1.skip(reports0.len() as int) == counted(h, at, n, total));
}

/// What came of a dump stays so as the history grows.
proof fn lemma_dump_kept(
    h: Seq<Event>,
    g: Seq<Event>,
    from: int,
    start: u64,
    end: u64,
    n: nat,
)
    requires
        h.is_prefix_of(g),
        0 <= from,
        from + 4 + 2 * n <= h.len(),
        announced(h, from, start, end, 4),
        chunks_came(h, from + 4, n, span(start, end)),
    ensures
        announced(g, from, start, end, 4),
        dumped(g, from + 4, n) == dumped(h, from + 4, n),
        chunks_came(g, from + 4, n, span(start, end)),
        offered(g, from + 4, n) == offered(h, from + 4, n),
        counted(g, from + 4, n, span(start, end)) == counted(h, from + 4, n, span(start, end)),
{
    let at = from + 4;
    let total = span(start, end);
    lemma_announced_kept(h, g, from, start, end, 4);
    lemma_dumped_kept(h, g, at, n);
    assert forall|k: int| 0 <= k < n implies #[trigger] chunk_came(g, at, k, total) by {
        assert(chunk_came(h, at, k, total));
        lemma_dumped_kept(h, g, at, k as nat);
        assert(g[at + 2 * k] == h[at + 2 * k]);
        assert(g[at + 2 * k + 1] == h[at + 2 * k + 1]);
    }
    assert forall|k: int| 0 <= k < n implies chunk(g, at, k) == #[trigger] chunk(h, at, k) by {
        assert(g[at + 2 * k] == h[at + 2 * k]);
    }
    assert forall|k: int| 0 <= k < n implies #[trigger] counted(g, at, n, total)[k] == counted(
        h,
        at,
        n,
        total,
    )[k] by {
        lemma_dumped_kept(h, g, at, (k + 1) as nat);
    }
    assert(offered(g, at, n) == offered(h, at, n));
    assert(counted(g, at, n, total) == counted(h, at, n, total));
}

/// What was announced stays announced as the history grows.
proof fn lemma_announced_kept(
    h: Seq<Event>,
    g: Seq<Event>,
    from: int,
    start: u64,
    end: u64,
    n: int,
)
    requires
        h.is_prefix_of(g),
        0 <= from,
        announced(h, from, start, end, n),
    ensures
        announced(g, from, start, end, n),
{
    assert forall|i: int| 0 <= i < n implies #[trigger] g[from + i] == wrote(
        announcement(start, end, i),
        CMD_TIMEOUT_MS,
        write_outcome(g[from + i]),
    ) && write_outcome(g[from + i]) is Ok by {
        assert(g[from + i] == h[from + i]);
    }
}

/// The count of dumped bytes stays as the history grows.
proof fn lemma_dumped_kept(h: Seq<Event>, g: Seq<Event>, at: int, n: nat)
    requires
        h.is_prefix_of(g),
        0 <= at,
        at + 2 * n <= h.len(),
    ensures
        dumped(g, at, n) == dumped(h, at, n),
    decreases n,
{
    if n > 0 {
        lemma_dumped_kept(h, g, at, (n - 1) as nat);
        assert(g[at + 2 * (n - 1)] == h[at + 2 * (n - 1)]);
    }
}

/// A table lists no region that starts below address 20, and no more regions than it has room
/// for.
pub proof fn law_probe_table(data: Seq<u8>, i: int)
    requires
        0 <= i < probe_table(data).len(),
    ensures
        probe_table(data)[i].start >= 20,
        PROBE_HEADER_LEN + (i + 1) * table_entry_len(is_wide(data)) <= data.len(),
        probe_table(data)[i] == region_at(
            data,
            PROBE_HEADER_LEN + i * table_entry_len(is_wide(data)),
            is_wide(data),
        ),
{
    lemma_regions_from(data, PROBE_HEADER_LEN as int, is_wide(data), i);
}

proof fn lemma_regions_from(data: Seq<u8>, off: int, wide: bool, i: int)
    requires
        0 <= i < regions_from(data, off, wide).len(),
    ensures
        regions_from(data, off, wide)[i].start >= 20,
        off + (i + 1) * table_entry_len(wide) <= data.len(),
        regions_from(data, off, wide)[i] == region_at(
            data,
            off + i * table_entry_len(wide),
            wide,
        ),
    decreases i,
{
    let len = table_entry_len(wide);
    let rest = regions_from(data, off + len, wide);
    assert(regions_from(data, off, wide) == seq![region_at(data, off, wide)] + rest);
    if i > 0 {
        lemma_regions_from(data, off + len, wide, i - 1);
        assert(regions_from(data, off, wide)[i] == rest[i - 1]);
        assert(off + len + (i - 1) * len == off + i * len) by (nonlinear_arith);
        assert(off + len + i * len == off + (i + 1) * len) by (nonlinear_arith);
    } else {
        assert((i + 1) * len == len && i * len == 0) by (nonlinear_arith)
            requires
                i == 0,
        ;
    }
}

/// Dumping memory writes nothing to it: every message sent is part of the announcement or an
/// acknowledgement.
pub proof fn law_dump_is_read_only(
    h: Seq<Event>,
    from: int,
    start: u64,
    end: u64,
    offers: Seq<Offer>,
    reports: Seq<(u64, u64)>,
    r: Result<u64, UploadError>,
    i: int,
)
    requires
        0 <= from <= i < h.len(),
        ran_dump_range(h, from, start, end, offers, reports, r),
        h[i] is Write,
    ensures
        h[i]->data == ACK@ || exists|k: int| #[trigger] announcement(start, end, k) == h[i]->data,
{
    let total = span(start, end);
    let at = from + 4;
    if exists|n: int|
        0 <= n < 4 && #[trigger] announcement_failed(h, from, start, end, n, upload_fault(r)) {
        let n = choose|n: int|
            0 <= n < 4 && #[trigger] announcement_failed(h, from, start, end, n, upload_fault(r));
        assert(h[from + (i - from)]->data == announcement(start, end, i - from));
    } else if i < at {
        assert(h[from + (i - from)]->data == announcement(start, end, i - from));
    } else {
        let n = choose|n: nat| #[trigger] dumped_chunks(h, at, n, total, offers, reports, r);
        let k = (i - at) / 2;
        assert(i == at + 2 * k || i == at + 2 * k + 1);
        if k < n {
            assert(chunk_came(h, at, k, total));
        }
    }
}

/// The bytes of all the chunks that a sink was offered.
pub open spec fn offered_bytes(offers: Seq<Offer>) -> Seq<u8>
    decreases offers.len(),
{
    if offers.len() == 0 {
        Seq::empty()
    } else {
        offered_bytes(offers.drop_last()) + offers.last().chunk
    }
}

proof fn lemma_offered_len(h: Seq<Event>, at: int, n: nat)
    ensures
        offered_bytes(offered(h, at, n)).len() == dumped(h, at, n),
    decreases n,
{
    if n > 0 {
        lemma_offered_len(h, at, (n - 1) as nat);
        assert(offered(h, at, n).drop_last() == offered(h, at, (n - 1) as nat));
    } else {
        assert(offered(h, at, n).len() == 0);
    }
}

/// A dump that succeeds returns how many bytes the sink was handed, which are at most those of the
/// range; it returns fewer only when the device sent the end marker early.
pub proof fn law_dump_count(
    h: Seq<Event>,
    from: int,
    start: u64,
    end: u64,
    offers: Seq<Offer>,
    reports: Seq<(u64, u64)>,
    count: u64,
)
    requires
        0 <= from,
        ran_dump_range(h, from, start, end, offers, reports, Ok(count)),
    ensures
        count == offered_bytes(offers).len(),
        count <= span(start, end),
        reports.len() == offers.len(),
        count < span(start, end) ==> chunk(h, from + 4, offers.len() as int) == POSTAMBLE@,
{
    let at = from + 4;
    let total = span(start, end);
    let n = choose|n: nat| #[trigger] dumped_chunks(h, at, n, total, offers, reports, Ok(count));
    lemma_offered_len(h, at, n);
    lemma_within(h, at, n, total);
}

proof fn lemma_within(h: Seq<Event>, at: int, n: nat, total: u64)
    requires
        chunks_came(h, at, n, total),
    ensures
        dumped(h, at, n) <= total,
    decreases n,
{
    if n > 0 {
        lemma_within(h, at, (n - 1) as nat, total);
        assert(chunk_came(h, at, n - 1, total));
    }
}

/// No chunk was refused.
pub open spec fn all_taken(offers: Seq<Offer>) -> bool {
    forall|i: int| 0 <= i < offers.len() ==> (#[trigger] offers[i]).refusal is None
}

/// A sink that keeps every chunk in memory.
pub struct MemorySink {
    bytes: Vec<u8>,
    seen: Ghost<Seq<Offer>>,
}

impl MemorySink {
    /// The bytes are those of the chunks that were offered, in order, and none was refused.
    #[verifier::type_invariant]
    closed spec fn inv(self) -> bool {
        &&& self.bytes@ == offered_bytes(self.seen@)
        &&& all_taken(self.seen@)
    }

    /// A sink that has been offered nothing.
    pub fn new() -> (s: Self)
        ensures
            s.offers() == Seq::<Offer>::empty(),
    {
        MemorySink { bytes: Vec::new(), seen: Ghost(Seq::empty()) }
    }

    /// The bytes of all the chunks that the sink was offered, every one of which it took.
    pub fn into_bytes(self) -> (v: Vec<u8>)
        ensures
            v@ == offered_bytes(self.offers()),
            all_taken(self.offers()),
    {
        proof {
            use_type_invariant(&self);
        }
        self.bytes
    }
}

impl ChunkSink for MemorySink {
    closed spec fn offers(&self) -> Seq<Offer> {
        self.seen@
    }

    fn take(&mut self, chunk: &[u8]) -> (r: Result<(), UploadError>)
        ensures
            r is Ok,
    {
        proof {
            use_type_invariant(&*self);
        }
        let ghost seen = self.seen@;
        let mut held = MemorySink::new();
        std::mem::swap(self, &mut held);
        let mut bytes: Vec<u8> = held.bytes;
        bytes.extend_from_slice(chunk);
        let ghost offer = Offer { chunk: chunk@, refusal: None };
        proof {
            assert(seen.push(offer).drop_last() == seen);
            assert(bytes@ == offered_bytes(seen) + chunk@);
        }
        *self = MemorySink { bytes, seen: Ghost(seen.push(offer)) };
        Ok(())
    }
}

/// A meter that shows nothing.
pub struct QuietMeter {
    seen: Ghost<Seq<(u64, u64)>>,
}

impl QuietMeter {
    /// A meter that has been told nothing.
    pub fn new() -> (m: Self)
        ensures
            m.reports() == Seq::<(u64, u64)>::empty(),
    {
        QuietMeter { seen: Ghost(Seq::empty()) }
    }
}

impl ProgressMeter for QuietMeter {
    closed spec fn reports(&self) -> Seq<(u64, u64)> {
        self.seen@
    }

    fn report(&mut self, pos: u64, total: u64) {
        self.seen = Ghost(self.seen@.push((pos, total)));
    }
}

/// The number that bytes stand for as hex digits.
pub open spec fn hex_number(b: Seq<u8>) -> int {
    number_of(Seq::new(b.len(), |i: int| b[i] as char), 16)
}

/// An address is sent as 16 lower-case hex digits that stand for it.
pub proof fn law_addresses_stand_for_themselves(a: u64)
    ensures
        address_bytes(a).len() == 16,
        hex_number(address_bytes(a)) == a,
        forall|i: int|
            0 <= i < 16 ==> 0x30 <= #[trigger] address_bytes(a)[i] <= 0x39 || 0x61
                <= address_bytes(a)[i] <= 0x66,
{
    let digits = hex(a as nat);
    let text = pad_left(digits, 16, '0');
    law_numeral_stands_for_its_number(a as nat, 16, false);
    reveal_with_fuel(pow, 17);
    assert(pow(16, 16) == 0x1_0000_0000_0000_0000);
    lemma_numeral_len(a as nat, 16, 16, false);
    law_leading_zeros_count_nothing(digits, 16, 16);
    assert forall|i: int| 0 <= i < text.len() implies '0' <= #[trigger] text[i] <= '9' || 'a'
        <= text[i] <= 'f' by {
        if i >= 16 - digits.len() {
            assert(text[i] == digits[i - (16 - digits.len())]);
        }
    }
    assert(is_ascii_chars(text));
    is_ascii_chars_encode_utf8(text);
    let sent = address_bytes(a);
    assert forall|i: int| 0 <= i < 16 implies 0x30 <= #[trigger] sent[i] <= 0x39 || 0x61 <= sent[i]
        <= 0x66 by {
        assert(text[i] as u8 == sent[i]);
    }
    assert(Seq::new(sent.len(), |i: int| sent[i] as char) == text) by {
        assert forall|i: int| 0 <= i < 16 implies sent[i] as char == #[trigger] text[i] by {
            assert(text[i] as u8 == sent[i]);
        }
    }
}

/// The second message of a dump is the start that was asked for, and the third is the end: 16 hex
/// digits each, which stand for the address.
pub proof fn law_dump_announces_its_range(
    h: Seq<Event>,
    from: int,
    start: u64,
    end: u64,
    offers: Seq<Offer>,
    reports: Seq<(u64, u64)>,
    r: Result<u64, UploadError>,
)
    requires
        0 <= from,
        ran_dump_range(h, from, start, end, offers, reports, r),
    ensures
        h.len() > from + 1 ==> (h[from + 1] matches Event::Write { data, .. } && data.len() == 16
            && hex_number(data) == start),
        h.len() > from + 2 ==> (h[from + 2] matches Event::Write { data, .. } && data.len() == 16
            && hex_number(data) == end),
{
    law_addresses_stand_for_themselves(start);
    law_addresses_stand_for_themselves(end);
    if exists|n: int|
        0 <= n < 4 && #[trigger] announcement_failed(h, from, start, end, n, upload_fault(r)) {
        let n = choose|n: int|
            0 <= n < 4 && #[trigger] announcement_failed(h, from, start, end, n, upload_fault(r));
        assert(h.len() > from + 1 ==> h[from + 1]->data == announcement(start, end, 1));
        assert(h.len() > from + 2 ==> h[from + 2]->data == announcement(start, end, 2));
    } else {
        assert(h[from + 1]->data == announcement(start, end, 1));
        assert(h[from + 2]->data == announcement(start, end, 2));
    }
}

/// Different ranges are announced by different messages.
pub proof fn law_ranges_are_told_apart(a: u64, b: u64)
    requires
        address_bytes(a) == address_bytes(b),
    ensures
        a == b,
{
    law_addresses_stand_for_themselves(a);
    law_addresses_stand_for_themselves(b);
}

/// The bytes that the reads of a history brought, from event `at` on, every other event for `n`
/// times.
pub open spec fn replies_len(h: Seq<Event>, at: int, n: nat) -> int
    decreases n,
{
    if n == 0 {
        0
    } else {
        replies_len(h, at, (n - 1) as nat) + match h[at + 2 * (n - 1)] {
            Event::Read { reply: Ok(b), .. } => b.len() as int,
            _ => 0,
        }
    }
}

/// The sink is offered what the device sent, reply by reply and byte by byte; a chunk is never
/// longer than what is left of the range; and each report is of the bytes so far and of the length
/// of the range.
pub proof fn law_sink_gets_what_was_sent(
    h: Seq<Event>,
    from: int,
    start: u64,
    end: u64,
    offers: Seq<Offer>,
    reports: Seq<(u64, u64)>,
    r: Result<u64, UploadError>,
    k: int,
)
    requires
        0 <= from,
        ran_dump_range(h, from, start, end, offers, reports, r),
        0 <= k < offers.len(),
    ensures
        from + 4 + 2 * k < h.len(),
        h[from + 4 + 2 * k] matches Event::Read { max_len, reply: Ok(b), .. } && offers[k].chunk == b
            && 0 < b.len() <= max_len && replies_len(h, from + 4, k as nat) + max_len <= end - start
            && max_len <= 0x10_0000 && (max_len == 0x10_0000 || replies_len(h, from + 4, k as nat)
            + max_len == end - start),
        k < reports.len() ==> reports[k].0 == replies_len(h, from + 4, (k + 1) as nat),
        k < reports.len() ==> reports[k].1 == end - start,
        reports.len() <= offers.len() <= reports.len() + 1,
{
    let at = from + 4;
    let total = span(start, end);
    let n = choose|n: nat| #[trigger] dumped_chunks(h, at, n, total, offers, reports, r);
    assert(k <= n);
    assert(chunk_came(h, at, k, total));
    assert forall|j: int| 0 <= j < k implies #[trigger] chunk_came(h, at, j, total) by {}
    lemma_replies(h, at, k as nat, total);
    lemma_within(h, at, k as nat, total);
    assert(replies_len(h, at, (k + 1) as nat) == dumped(h, at, (k + 1) as nat));
    if k < reports.len() {
        lemma_within(h, at, (k + 1) as nat, total);
    }
}

proof fn lemma_replies(h: Seq<Event>, at: int, n: nat, total: u64)
    requires
        chunks_came(h, at, n, total),
    ensures
        replies_len(h, at, n) == dumped(h, at, n),
    decreases n,
{
    if n > 0 {
        lemma_replies(h, at, (n - 1) as nat, total);
        assert(chunk_came(h, at, n - 1, total));
    }
}

/// A region is as large as it takes to get from its start to its end.
pub proof fn law_region_size(start: u64, end: u64)
    ensures
        start <= end ==> start + span(start, end) == end,
        start > end ==> span(start, end) == 0,
{
}

/// A region stands in the table at `off`: its type, its name and its two addresses, low byte first.
/// With wide addresses that takes 40 bytes, 20 of them for the name, else 28 bytes, 16 of them for
/// the name.
pub open spec fn region_stands(data: Seq<u8>, off: int, wide: bool, r: RegionModel) -> bool {
    &&& holds32(data, off, r.ptype as int)
    &&& if wide {
        &&& name_stands(data, off + 4, 20, r.name)
        &&& holds64(data, off + 24, r.start as int)
        &&& holds64(data, off + 32, r.end as int)
    } else {
        &&& name_stands(data, off + 4, 16, r.name)
        &&& holds32(data, off + 20, r.start as int)
        &&& holds32(data, off + 24, r.end as int)
    }
}

/// The regions stand in a probe response, end to end behind a header of 16 bytes, and an entry of
/// zeros closes them or the data ends there. The header begins with `+` where addresses are wide.
pub open spec fn regions_stand(data: Seq<u8>, wide: bool, regions: Seq<RegionModel>) -> bool {
    let step = if wide {
        40int
    } else {
        28
    };
    let end = 16 + step * regions.len();
    &&& data.len() >= 16
    &&& data[0] == 0x2B <==> wide
    &&& forall|i: int|
        0 <= i < regions.len() ==> region_stands(data, 16 + step * i, wide, #[trigger] regions[i])
    &&& data.len() < end + step || forall|j: int| end <= j < end + step ==> data[j] == 0
}

/// Parsing a probe response gives back the regions that were written.
pub proof fn law_regions_are_read_back(data: Seq<u8>, wide: bool, regions: Seq<RegionModel>)
    requires
        regions_stand(data, wide, regions),
        forall|i: int| 0 <= i < regions.len() ==> (#[trigger] regions[i]).start >= 20,
    ensures
        probe_table(data) == regions,
{
    lemma_regions_read_back(data, wide, regions, 0);
    assert(regions.skip(0) == regions);
}

proof fn lemma_regions_read_back(data: Seq<u8>, wide: bool, regions: Seq<RegionModel>, i: int)
    requires
        regions_stand(data, wide, regions),
        forall|j: int| 0 <= j < regions.len() ==> (#[trigger] regions[j]).start >= 20,
        0 <= i <= regions.len(),
    ensures
        regions_from(
            data,
            16 + (if wide {
                40int
            } else {
                28
            }) * i,
            wide,
        ) == regions.skip(i),
    decreases regions.len() - i,
{
    let step = if wide {
        40int
    } else {
        28
    };
    let off = 16 + step * i;
    if i < regions.len() {
        let r = regions[i];
        assert(region_stands(data, off, wide, r));
        law_32_bits_are_read_back(data, off, r.ptype);
        if wide {
            law_names_are_read_back(data, off + 4, 20, r.name);
            law_64_bits_are_read_back(data, off + 24, r.start);
            law_64_bits_are_read_back(data, off + 32, r.end);
        } else {
            law_names_are_read_back(data, off + 4, 16, r.name);
            law_32_bits_are_read_back(data, off + 20, r.start as u32);
            law_32_bits_are_read_back(data, off + 24, r.end as u32);
        }
        assert(region_at(data, off, wide) == r);
        lemma_regions_read_back(data, wide, regions, i + 1);
        assert(seq![r] + regions.skip(i + 1) == regions.skip(i));
    } else {
        assert(regions.skip(i).len() == 0);
        if off + step <= data.len() {
            assert(data[off + 20] == 0 && data[off + 21] == 0 && data[off + 22] == 0 && data[off + 23]
                == 0);
            if wide {
                assert(data[off + 24] == 0 && data[off + 25] == 0 && data[off + 26] == 0 && data[off
                    + 27] == 0 && data[off + 28] == 0 && data[off + 29] == 0 && data[off + 30] == 0
                    && data[off + 31] == 0);
            }
        }
    }
}

/// A device is in upload mode if and only if its answer begins with `AcKnOwLeDgMeNt`, whatever follows.
pub proof fn law_upload_mode_is_acknowledged(b: Seq<u8>, e: UsbError)
    ensures
        preamble_answer(Ok(b)) is Ok <==> b.len() >= 14 && b.subrange(0, 14) == seq![
            0x41u8,
            0x63,
            0x4B,
            0x6E,
            0x4F,
            0x77,
            0x4C,
            0x65,
            0x44,
            0x67,
            0x4D,
            0x65,
            0x4E,
            0x74,
        ],
        preamble_answer(Ok(b)) is Err ==> preamble_answer(Ok(b))->Err_0 is NotUploadMode,
        preamble_answer(Err(e)) == Err::<(), UploadFault>(UploadFault::Usb(e)),
{
    let word = seq![
        0x41u8,
        0x63,
        0x4B,
        0x6E,
        0x4F,
        0x77,
        0x4C,
        0x65,
        0x44,
        0x67,
        0x4D,
        0x65,
        0x4E,
        0x74,
    ];
    assert(ACK_WORD@ == word);
    if b.len() >= 14 {
        assert(ACK_WORD@.is_prefix_of(b) <==> b.subrange(0, 14) == ACK_WORD@);
    }
}

/// Whenever a dump asks for data, it asks for what is missing of the range, but for 1 MiB at most; and
/// it acknowledges each chunk with `AcKnOwLeDgMeNt` and a NUL.
pub proof fn law_dump_asks_for_what_is_missing(h: Seq<Event>, at: int, k: int, total: u64)
    requires
        0 <= k,
        chunk_came(h, at, k, total),
    ensures
        h[at + 2 * k] matches Event::Read { max_len, .. } && {
            let missing = total - dumped(h, at, k as nat);
            max_len as int == if missing < 1_048_576 {
                missing
            } else {
                1_048_576
            }
        },
        h[at + 2 * k + 1] matches Event::Write { data, .. } && data == seq![
            0x41u8,
            0x63,
            0x4B,
            0x6E,
            0x4F,
            0x77,
            0x4C,
            0x65,
            0x44,
            0x67,
            0x4D,
            0x65,
            0x4E,
            0x74,
            0,
        ],
        0 < dumped(h, at, (k + 1) as nat) - dumped(h, at, k as nat) <= total - dumped(
            h,
            at,
            k as nat,
        ),
{
    assert(ACK@ == seq![
        0x41u8,
        0x63,
        0x4B,
        0x6E,
        0x4F,
        0x77,
        0x4C,
        0x65,
        0x44,
        0x67,
        0x4D,
        0x65,
        0x4E,
        0x74,
        0,
    ]);
}

/// A probe gives the regions of whatever table the device answers with, in either width.
pub proof fn law_probe_gives_the_regions_that_were_sent(
    h: Seq<Event>,
    from: int,
    r: Result<Seq<RegionModel>, UploadFault>,
    wide: bool,
    regions: Seq<RegionModel>,
)
    requires
        0 <= from,
        ran_probe(h, from, r),
        h.len() == from + 2,
        h[from + 1] matches Event::Read { reply: Ok(data), .. } && regions_stand(
            data,
            wide,
            regions,
        ),
        forall|i: int| 0 <= i < regions.len() ==> (#[trigger] regions[i]).start >= 20,
    ensures
        r == Ok::<Seq<RegionModel>, UploadFault>(regions),
        h[from] matches Event::Write { data, .. } && data == seq![
            0x50u8,
            0x72,
            0x4F,
            0x62,
            0x45,
            0,
        ],
{
    assert(PROBE@ == seq![0x50u8, 0x72, 0x4F, 0x62, 0x45, 0]);
    law_regions_are_read_back(read_reply(h[from + 1])->Ok_0, wide, regions);
}

/// A handshake sends `PrEaMbLe` and a NUL and, if that went out, asks once for up to 64 bytes. It
/// succeeds exactly where the answer begins with `AcKnOwLeDgMeNt`.
pub proof fn law_upload_handshake(h: Seq<Event>, from: int, r: Result<(), UploadFault>)
    requires
        0 <= from,
        ran_preamble(h, from, r),
    ensures
        h[from] matches Event::Write { data, outcome, .. } && data == seq![
            0x50u8,
            0x72,
            0x45,
            0x61,
            0x4D,
            0x62,
            0x4C,
            0x65,
            0,
        ] && h.len() == from + if outcome is Ok {
            2int
        } else {
            1
        },
        h.len() == from + 2 ==> h[from + 1] matches Event::Read { max_len: 64, .. },
        r is Ok <==> h.len() == from + 2 && (h[from + 1] matches Event::Read { reply: Ok(b), .. }
            && b.len() >= 14 && b.subrange(0, 14) == seq![
            0x41u8,
            0x63,
            0x4B,
            0x6E,
            0x4F,
            0x77,
            0x4C,
            0x65,
            0x44,
            0x67,
            0x4D,
            0x65,
            0x4E,
            0x74,
        ]),
{
    assert(PREAMBLE@ == seq![0x50u8, 0x72, 0x45, 0x61, 0x4D, 0x62, 0x4C, 0x65, 0]);
    if h.len() == from + 2 {
        if let Ok(b) = read_reply(h[from + 1]) {
            law_upload_mode_is_acknowledged(b, UsbError::Timeout);
        }
    }
}

/// A probe sends one message and, if that went out, asks once for up to 32768 bytes; whatever fails is
/// what it comes to.
pub proof fn law_probe_asks_once(
    h: Seq<Event>,
    from: int,
    r: Result<Seq<RegionModel>, UploadFault>,
)
    requires
        0 <= from,
        ran_probe(h, from, r),
    ensures
        h[from] matches Event::Write { outcome, .. } && h.len() == from + if outcome is Ok {
            2int
        } else {
            1
        },
        h.len() == from + 2 ==> h[from + 1] matches Event::Read { max_len: 32768, .. },
        r is Ok <==> h.len() == from + 2 && (h[from + 1] matches Event::Read { reply: Ok(_), .. }),
        r matches Err(e) ==> e is Usb,
{
}

/// Powering down sends `PoWeRdOwN` and a NUL, and nothing else.
pub proof fn law_power_down_sends_one_message(h: Seq<Event>, from: int, r: Result<(), UploadFault>)
    requires
        0 <= from,
        ran_power_down(h, from, r),
    ensures
        h.len() == from + 1,
        h[from] matches Event::Write { data, outcome, .. } && data == seq![
            0x50u8,
            0x6F,
            0x57,
            0x65,
            0x52,
            0x64,
            0x4F,
            0x77,
            0x4E,
            0,
        ] && (r is Ok <==> outcome is Ok),
{
    assert(POWERDOWN@ == seq![0x50u8, 0x6F, 0x57, 0x65, 0x52, 0x64, 0x4F, 0x77, 0x4E, 0]);
}

} // verus!
