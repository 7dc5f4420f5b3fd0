//! Where the headers of a tar archive are.
//!
//! A walk through an archive goes from header to header. Each is a block of 512 bytes; behind it
//! come the maps of a sparse file, if it has any, and then the data, filled up to a multiple of 512
//! bytes. All positions are 64-bit numbers, and a sparse file may claim a size with which the
//! position behind its maps is none: a walk must not get that far. What follows here finds such an
//! entry beforehand, from single blocks, so that an archive need not be in memory.

use vstd::prelude::*;
use vstd::slice::slice_subrange;

use crate::bytes::{
    holds64, law_64_bits_are_read_back, lemma_nul_len, nul_len, nul_position, same_bytes, u64_at,
};
use crate::number::{law_unsigned_numbers_are_read, parse_radix_u64, radix_u64};
use crate::path::{lemma_first_segment, piece_views, segments, split_bytes};
use crate::text::{
    digit_number, is_space, law_ascii_text, law_trimming, number_of, text_from_utf8, trim, trimmed,
    utf8_text,
};

verus! {

/// The size of a block.
pub const BLOCK: usize = 512;

/// The magic and version of a GNU header: `ustar`, two blanks and a NUL.
pub const GNU_MAGIC: [u8; 8] = [0x75, 0x73, 0x74, 0x61, 0x72, 0x20, 0x20, 0x00];

/// The magic and version of a POSIX header: `ustar`, a NUL and `00`.
pub const USTAR_MAGIC: [u8; 8] = [0x75, 0x73, 0x74, 0x61, 0x72, 0x00, 0x30, 0x30];

/// The key of the record that gives a size: `size`.
pub const SIZE_KEY: [u8; 4] = [0x73, 0x69, 0x7A, 0x65];

/// The type of a header that brings a long name (`L`).
pub const LONG_NAME: u8 = 0x4C;

/// The type of a header that brings a long link name (`K`).
pub const LONG_LINK: u8 = 0x4B;

/// The type of a header that brings records for the next file (`x`).
pub const RECORDS: u8 = 0x78;

/// The type of a header that brings records for all files to come (`g`).
pub const GLOBAL_RECORDS: u8 = 0x67;

/// The type of a sparse file (`S`).
pub const SPARSE: u8 = 0x53;

/// What a header says about where the next one is.
#[derive(Debug, Clone, Copy, PartialEq, Eq, Structural)]
pub struct TarHeader {
    /// The byte that tells the entry's type.
    pub kind: u8,
    /// The size of its data in the archive.
    pub size: u64,
    /// Whether it is a GNU header.
    pub gnu: bool,
    /// Whether it is a POSIX header.
    pub ustar: bool,
    /// Whether maps of a sparse file follow it.
    pub extended: bool,
}

/// The number that eight bytes make, the highest first.
pub open spec fn be_at(s: Seq<u8>, at: int) -> int {
    ((((((s[at] * 256 + s[at + 1]) * 256 + s[at + 2]) * 256 + s[at + 3]) * 256 + s[at + 4]) * 256
        + s[at + 5]) * 256 + s[at + 6]) * 256 + s[at + 7]
}

/// The octal number in a field, which a NUL may end and whitespace may surround.
pub open spec fn octal_field(f: Seq<u8>) -> Option<u64> {
    radix_u64(trimmed(utf8_text(f.take(nul_len(f) as int))), 8)
}

/// The number in a size field of twelve bytes: binary where its highest bit is set, else octal.
pub open spec fn size_field(f: Seq<u8>) -> Option<u64> {
    if f[0] >= 0x80 {
        Some(be_at(f, 4) as u64)
    } else {
        octal_field(f)
    }
}

/// The sum of bytes.
pub open spec fn byte_sum(s: Seq<u8>) -> int
    decreases s.len(),
{
    if s.len() == 0 {
        0
    } else {
        byte_sum(s.drop_last()) + s.last()
    }
}

/// The checksum of a header: the sum of its bytes, with blanks for those of the checksum itself.
pub open spec fn checksum(block: Seq<u8>) -> int {
    byte_sum(block.take(148)) + byte_sum(block.skip(156)) + 8 * 0x20
}

/// What a block says as a header; nothing where a walk ends at it, because it is empty, its
/// checksum is wrong or it gives no size.
pub open spec fn header_of(block: Seq<u8>) -> Option<TarHeader> {
    let sum = octal_field(block.subrange(148, 156));
    let size = size_field(block.subrange(124, 136));
    if (forall|j: int| 0 <= j < block.len() ==> block[j] == 0) || sum is None || sum->0 != checksum(
        block,
    ) || size is None {
        None
    } else {
        Some(
            TarHeader {
                kind: block[156],
                size: size->0,
                gnu: block.subrange(257, 265) == GNU_MAGIC@,
                ustar: block.subrange(257, 265) == USTAR_MAGIC@,
                extended: block[482] == 1,
            },
        )
    }
}

fn read_octal(field: &[u8]) -> (r: Option<u64>)
    ensures
        r == octal_field(field@),
{
    let end: usize = nul_position(field);
    let raw = text_from_utf8(slice_subrange(field, 0, end));
    assert(field@.subrange(0, end as int) == field@.take(end as int));
    let text = trim(raw.as_str());
    parse_radix_u64(text.as_str(), 8)
}

fn read_size(field: &[u8]) -> (r: Option<u64>)
    requires
        field@.len() == 12,
    ensures
        r == size_field(field@),
{
    if field[0] >= 0x80 {
        let high: u64 = ((field[4] as u64 * 256 + field[5] as u64) * 256 + field[6] as u64) * 256
            + field[7] as u64;
        let low: u64 = ((field[8] as u64 * 256 + field[9] as u64) * 256 + field[10] as u64) * 256
            + field[11] as u64;
        assert(be_at(field@, 4) == high * 0x1_0000_0000 + low);
        Some(high * 0x1_0000_0000 + low)
    } else {
        read_octal(field)
    }
}

fn sum_bytes(b: &[u8]) -> (n: u32)
    requires
        b@.len() <= 512,
    ensures
        n == byte_sum(b@),
        n <= 255 * b@.len(),
{
    let mut n: u32 = 0;
    let mut i: usize = 0;
    assert(b@.take(0).len() == 0);
    while i < b.len()
        invariant
            i <= b@.len() <= 512,
            n == byte_sum(b@.take(i as int)),
            n <= 255 * i,
        decreases b@.len() - i,
    {
        assert(b@.take(i + 1).drop_last() == b@.take(i as int));
        n = n + b[i] as u32;
        i = i + 1;
    }
    assert(b@.take(i as int) == b@);
    n
}

fn is_empty_block(block: &[u8]) -> (r: bool)
    ensures
        r == (forall|j: int| 0 <= j < block@.len() ==> block@[j] == 0),
{
    let mut i: usize = 0;
    while i < block.len()
        invariant
            i <= block@.len(),
            forall|j: int| 0 <= j < i ==> block@[j] == 0,
        decreases block@.len() - i,
    {
        if block[i] != 0 {
            return false;
        }
        i = i + 1;
    }
    true
}

/// Read a header; `None` where a walk ends at it.
pub fn read_header(block: &[u8]) -> (r: Option<TarHeader>)
    requires
        block@.len() == BLOCK,
    ensures
        r == header_of(block@),
{
    if is_empty_block(block) {
        return None;
    }
    let front = slice_subrange(block, 0, 148);
    let back = slice_subrange(block, 156, 512);
    assert(front@ == block@.take(148));
    assert(back@ == block@.skip(156));
    let sum: u32 = sum_bytes(front) + sum_bytes(back) + 256;
    match read_octal(slice_subrange(block, 148, 156)) {
        Some(n) => if n != sum as u64 {
            return None;
        },
        None => return None,
    }
    let size: u64 = match read_size(slice_subrange(block, 124, 136)) {
        Some(n) => n,
        None => return None,
    };
    let magic = slice_subrange(block, 257, 265);
    Some(
        TarHeader {
            kind: block[156],
            size,
            gnu: same_bytes(magic, &GNU_MAGIC),
            ustar: same_bytes(magic, &USTAR_MAGIC),
            extended: block[482] == 1,
        },
    )
}

/// Where `b` first stands in `s`.
pub open spec fn first_of(s: Seq<u8>, b: u8) -> Option<int>
    decreases s.len(),
{
    if s.len() == 0 {
        None
    } else {
        match first_of(s.drop_last(), b) {
            Some(i) => Some(i),
            None => if s.last() == b {
                Some(s.len() - 1)
            } else {
                None
            },
        }
    }
}

fn find_byte(s: &[u8], b: u8) -> (r: Option<usize>)
    ensures
        match r {
            Some(i) => first_of(s@, b) == Some(i as int) && i < s@.len(),
            None => first_of(s@, b) is None,
        },
{
    let mut i: usize = 0;
    assert(s@.take(0).len() == 0);
    while i < s.len()
        invariant
            i <= s@.len(),
            first_of(s@.take(i as int), b) is None,
        decreases s@.len() - i,
    {
        assert(s@.take(i + 1).drop_last() == s@.take(i as int));
        if s[i] == b {
            proof {
                lemma_first_stays(s@, b, i + 1);
            }
            return Some(i);
        }
        i = i + 1;
    }
    assert(s@.take(i as int) == s@);
    None
}

proof fn lemma_first_stays(s: Seq<u8>, b: u8, n: int)
    requires
        0 <= n <= s.len(),
        first_of(s.take(n), b) is Some,
    ensures
        first_of(s, b) == first_of(s.take(n), b),
    decreases s.len() - n,
{
    if n < s.len() {
        assert(s.take(n + 1).drop_last() == s.take(n));
        lemma_first_stays(s, b, n + 1);
    } else {
        assert(s.take(n) == s);
    }
}

/// Key and value of a record: its length in decimal, a blank, the key, `=` and the value. The
/// length counts all of it and the newline behind it.
pub open spec fn record_of(line: Seq<u8>) -> Option<(Seq<u8>, Seq<u8>)> {
    match first_of(line, 0x20) {
        None => None,
        Some(blank) => {
            let rest = line.skip(blank + 1);
            match (radix_u64(utf8_text(line.take(blank)), 10), first_of(rest, 0x3D)) {
                (Some(len), Some(equals)) => if len == line.len() + 1 {
                    Some((rest.take(equals), rest.skip(equals + 1)))
                } else {
                    None
                },
                _ => None,
            }
        },
    }
}

/// The size that the records from line `i` on give: the first that has the key counts, and there is
/// none behind an empty line or one that is no record.
pub open spec fn size_from(lines: Seq<Seq<u8>>, i: int) -> Option<u64>
    decreases lines.len() - i,
{
    if i < 0 || i >= lines.len() || lines[i].len() == 0 {
        None
    } else {
        match record_of(lines[i]) {
            None => None,
            Some((key, value)) => if key == SIZE_KEY@ {
                radix_u64(utf8_text(value), 10)
            } else {
                size_from(lines, i + 1)
            },
        }
    }
}

/// The size that records give.
pub open spec fn size_in(records: Seq<u8>) -> Option<u64> {
    size_from(segments(records, 0x0A), 0)
}

/// Key and value of a record.
fn read_record(line: &[u8]) -> (r: Option<(&[u8], &[u8])>)
    ensures
        match r {
            Some((key, value)) => record_of(line@) == Some((key@, value@)),
            None => record_of(line@) is None,
        },
{
    let blank: usize = match find_byte(line, 0x20) {
        Some(i) => i,
        None => return None,
    };
    let len: usize = line.len();
    let front = slice_subrange(line, 0, blank);
    let rest = slice_subrange(line, blank + 1, len);
    assert(front@ == line@.take(blank as int));
    assert(rest@ == line@.skip(blank + 1));
    let digits = text_from_utf8(front);
    match parse_radix_u64(digits.as_str(), 10) {
        Some(n) => if n == 0 || n - 1 != len as u64 {
            return None;
        },
        None => return None,
    }
    let equals: usize = match find_byte(rest, 0x3D) {
        Some(i) => i,
        None => return None,
    };
    let key = slice_subrange(rest, 0, equals);
    let value = slice_subrange(rest, equals + 1, rest.len());
    assert(key@ == rest@.take(equals as int));
    assert(value@ == rest@.skip(equals + 1));
    Some((key, value))
}

/// Read the size that records give.
pub fn records_size(records: &[u8]) -> (r: Option<u64>)
    ensures
        r == size_in(records@),
{
    let lines = split_bytes(records, 0x0A);
    let ghost all = piece_views(lines@);
    let mut i: usize = 0;
    while i < lines.len()
        invariant
            i <= lines@.len(),
            all == piece_views(lines@),
            all == segments(records@, 0x0A),
            size_from(all, i as int) == size_from(all, 0),
        decreases lines@.len() - i,
    {
        let line: &Vec<u8> = &lines[i];
        assert(all[i as int] == line@);
        if line.len() == 0 {
            return None;
        }
        match read_record(line.as_slice()) {
            None => return None,
            Some((key, value)) => if same_bytes(key, &SIZE_KEY) {
                let digits = text_from_utf8(value);
                return parse_radix_u64(digits.as_str(), 10);
            },
        }
        i = i + 1;
    }
    None
}

/// How far a walk has come: the header it looks at next, and what it knows of the entry that the
/// header belongs to.
#[derive(Debug, Clone, Copy, PartialEq, Eq)]
pub struct WalkPlace {
    /// Where the header stands.
    pub at: u64,
    /// Where the first header of its entry stands.
    pub begun: u64,
    /// From where to where the entry's records stand, if there are any.
    pub records: Option<(u64, u64)>,
    /// Whether a long name came.
    pub long_name: bool,
    /// Whether a long link name came.
    pub long_link: bool,
}

impl WalkPlace {
    /// Everything known stands before the header.
    pub open spec fn ok(&self) -> bool {
        &&& self.begun <= self.at
        &&& self.records matches Some((from, to)) ==> from <= to <= self.at
    }
}

/// The place where an entry begins.
pub open spec fn entry_at(at: u64) -> WalkPlace {
    WalkPlace { at, begun: at, records: None, long_name: false, long_link: false }
}

/// The place where an entry begins.
pub fn begin_entry(at: u64) -> (p: WalkPlace)
    ensures
        p == entry_at(at),
{
    WalkPlace { at, begun: at, records: None, long_name: false, long_link: false }
}

/// Where a walk goes from a header.
#[derive(Debug, Clone, Copy, PartialEq, Eq)]
pub enum Hop {
    /// Nowhere: it ends there, with or without an error.
    End,
    /// Beyond the numbers that a position can be.
    TooLarge,
    /// To the next header.
    Next(WalkPlace),
}

/// Whether maps follow the header of a sparse file.
pub open spec fn is_long_sparse(h: TarHeader) -> bool {
    h.kind == SPARSE && h.gnu && h.extended
}

/// Whether maps follow the header of a sparse file.
pub fn has_maps(h: &TarHeader) -> (r: bool)
    ensures
        r == is_long_sparse(*h),
{
    h.kind == SPARSE && h.gnu && h.extended
}

/// Whether a header describes another header's entry.
pub open spec fn is_extension(h: TarHeader) -> bool {
    h.kind == LONG_NAME || h.kind == LONG_LINK || h.kind == RECORDS || h.kind == GLOBAL_RECORDS
}

/// The size of an entry's data: what the records give overrides what the header does.
pub open spec fn data_size(h: TarHeader, given: Option<u64>) -> u64 {
    match given {
        Some(n) => if is_extension(h) {
            h.size
        } else {
            n
        },
        None => h.size,
    }
}

/// Where the block behind the data of an entry stands, not counting maps.
pub open spec fn behind(at: u64, size: u64) -> int {
    at + 512 + (size + 511) / 512 * 512
}

/// Where a walk goes from the header `h` at `place`. `given` is the size that the entry's records
/// give, `maps` the number of maps behind the header of a sparse file, and `complete` whether the
/// last of them was there.
pub open spec fn hop(
    place: WalkPlace,
    h: TarHeader,
    given: Option<u64>,
    maps: nat,
    complete: bool,
) -> Hop {
    let next = behind(place.at, data_size(h, given));
    let known = h.gnu || h.ustar;
    if next > u64::MAX {
        Hop::End
    } else if known && h.kind == LONG_NAME {
        if place.long_name {
            Hop::End
        } else {
            Hop::Next(WalkPlace { at: next as u64, long_name: true, ..place })
        }
    } else if known && h.kind == LONG_LINK {
        if place.long_link {
            Hop::End
        } else {
            Hop::Next(WalkPlace { at: next as u64, long_link: true, ..place })
        }
    } else if known && h.kind == RECORDS {
        if place.records is Some {
            Hop::End
        } else {
            let from = (place.at + 512) as u64;
            Hop::Next(
                WalkPlace {
                    at: next as u64,
                    records: Some((from, (from + h.size) as u64)),
                    ..place
                },
            )
        }
    } else if h.kind == SPARSE && !h.gnu {
        Hop::End
    } else if is_long_sparse(h) {
        if next + 512 * maps > u64::MAX {
            Hop::TooLarge
        } else if !complete {
            Hop::End
        } else {
            Hop::Next(entry_at((next + 512 * maps) as u64))
        }
    } else {
        Hop::Next(entry_at(next as u64))
    }
}

/// Decide where a walk goes from a header.
pub fn next_place(
    place: &WalkPlace,
    h: &TarHeader,
    given: Option<u64>,
    maps: u64,
    complete: bool,
) -> (r: Hop)
    ensures
        r == hop(*place, *h, given, maps as nat, complete),
        place.ok() ==> (r matches Hop::Next(p) ==> p.ok() && p.at >= place.at + 512),
{
    let extension = h.kind == LONG_NAME || h.kind == LONG_LINK || h.kind == RECORDS || h.kind
        == GLOBAL_RECORDS;
    let size: u64 = match given {
        Some(n) => if extension {
            h.size
        } else {
            n
        },
        None => h.size,
    };
    let wide: u128 = place.at as u128 + 512 + (size as u128 + 511) / 512 * 512;
    assert(wide == behind(place.at, data_size(*h, given)));
    if wide > 0xffff_ffff_ffff_ffff {
        return Hop::End;
    }
    let at: u64 = wide as u64;
    let known = h.gnu || h.ustar;
    if known && h.kind == LONG_NAME {
        if place.long_name {
            return Hop::End;
        }
        return Hop::Next(
            WalkPlace {
                at,
                begun: place.begun,
                records: place.records,
                long_name: true,
                long_link: place.long_link,
            },
        );
    }
    if known && h.kind == LONG_LINK {
        if place.long_link {
            return Hop::End;
        }
        return Hop::Next(
            WalkPlace {
                at,
                begun: place.begun,
                records: place.records,
                long_name: place.long_name,
                long_link: true,
            },
        );
    }
    if known && h.kind == RECORDS {
        if place.records.is_some() {
            return Hop::End;
        }
        let from: u64 = place.at + 512;
        return Hop::Next(
            WalkPlace {
                at,
                begun: place.begun,
                records: Some((from, from + h.size)),
                long_name: place.long_name,
                long_link: place.long_link,
            },
        );
    }
    if h.kind == SPARSE && !h.gnu {
        return Hop::End;
    }
    if has_maps(h) {
        let end: u128 = wide + 512 * maps as u128;
        if end > 0xffff_ffff_ffff_ffff {
            return Hop::TooLarge;
        }
        if !complete {
            return Hop::End;
        }
        return Hop::Next(begin_entry(end as u64));
    }
    Hop::Next(begin_entry(at))
}

/// Whether a map is the last one of its file.
pub open spec fn is_last_map(block: Seq<u8>) -> bool {
    block[504] != 1
}

/// Whether a map is the last one of its file.
pub fn last_map(block: &[u8]) -> (r: bool)
    requires
        block@.len() == BLOCK,
    ensures
        r == is_last_map(block@),
{
    block[504] != 1
}

/// The block of `data` that begins at `at`.
pub open spec fn block_at(data: Seq<u8>, at: int) -> Seq<u8> {
    data.subrange(at, at + 512)
}

/// How many maps stand at `at`, up to the last one or to the end of the data.
pub open spec fn maps_at(data: Seq<u8>, at: int) -> nat
    decreases data.len() - at,
{
    if at < 0 || at + 512 > data.len() {
        0
    } else if is_last_map(block_at(data, at)) {
        1
    } else {
        1 + maps_at(data, at + 512)
    }
}

/// Whether the last map is among those at `at`.
pub open spec fn maps_complete(data: Seq<u8>, at: int) -> bool
    decreases data.len() - at,
{
    if at < 0 || at + 512 > data.len() {
        false
    } else {
        is_last_map(block_at(data, at)) || maps_complete(data, at + 512)
    }
}

/// The size that the records of the entry at `place` give.
pub open spec fn given_size(data: Seq<u8>, place: WalkPlace) -> Option<u64> {
    match place.records {
        Some((from, to)) => size_in(data.subrange(from as int, to as int)),
        None => None,
    }
}

/// Where a walk through `data` goes from `place`.
pub open spec fn hop_in(data: Seq<u8>, place: WalkPlace) -> Hop {
    if place.at + 512 > data.len() {
        Hop::End
    } else {
        match header_of(block_at(data, place.at as int)) {
            None => Hop::End,
            Some(h) => {
                let given = given_size(data, place);
                if is_long_sparse(h) {
                    hop(
                        place,
                        h,
                        given,
                        maps_at(data, place.at + 512),
                        maps_complete(data, place.at + 512),
                    )
                } else {
                    hop(place, h, given, 0, true)
                }
            },
        }
    }
}

/// Where the entry begins that takes a walk from `place` through `data` too far; `None` where there
/// is no such entry.
pub open spec fn overflow_from(data: Seq<u8>, place: WalkPlace) -> Option<u64>
    decreases u64::MAX - place.at,
{
    match hop_in(data, place) {
        Hop::End => None,
        Hop::TooLarge => Some(place.begun),
        Hop::Next(next) => overflow_from(data, next),
    }
}

/// Where the entry begins that takes a walk through `data` too far, if there is one: its size is
/// such that the position behind its maps is no 64-bit number.
pub open spec fn overflow_at(data: Seq<u8>) -> Option<u64> {
    overflow_from(data, entry_at(0))
}

fn count_maps(data: &[u8], from: usize) -> (r: (u64, bool))
    requires
        from <= data@.len(),
    ensures
        r.0 == maps_at(data@, from as int),
        r.1 == maps_complete(data@, from as int),
{
    let mut n: u64 = 0;
    let mut at: usize = from;
    while data.len() - at >= BLOCK
        invariant
            from <= at <= data@.len(),
            at == from + 512 * n,
            n + maps_at(data@, at as int) == maps_at(data@, from as int),
            maps_complete(data@, at as int) == maps_complete(data@, from as int),
        decreases data@.len() - at,
    {
        if last_map(slice_subrange(data, at, at + BLOCK)) {
            return (n + 1, true);
        }
        n = n + 1;
        at = at + BLOCK;
    }
    (n, false)
}

/// Find the entry that would take a walk through `data` too far.
pub fn find_overflow(data: &[u8]) -> (r: Option<u64>)
    ensures
        r == overflow_at(data@),
{
    let mut place = begin_entry(0);
    loop
        invariant
            place.ok(),
            overflow_from(data@, place) == overflow_at(data@),
        decreases u64::MAX - place.at,
    {
        let len: u64 = data.len() as u64;
        if len < 512 || place.at > len - 512 {
            return None;
        }
        let at: usize = place.at as usize;
        let h: TarHeader = match read_header(slice_subrange(data, at, at + BLOCK)) {
            Some(h) => h,
            None => return None,
        };
        let given: Option<u64> = match place.records {
            Some((from, to)) => records_size(slice_subrange(data, from as usize, to as usize)),
            None => None,
        };
        let (maps, complete): (u64, bool) = if has_maps(&h) {
            count_maps(data, at + BLOCK)
        } else {
            (0, true)
        };
        match next_place(&place, &h, given, maps, complete) {
            Hop::End => return None,
            Hop::TooLarge => return Some(place.begun),
            Hop::Next(next) => {
                place = next;
            },
        }
    }
}

/// Up to the entry that takes a walk through an archive too far, the archive can be walked through.
pub proof fn law_part_before_overflow_is_safe(data: Seq<u8>)
    ensures
        overflow_at(data) matches Some(p) ==> p <= data.len() && overflow_at(data.take(p as int))
            is None,
{
    if overflow_at(data) is Some {
        lemma_overflow_lies_ahead(data, entry_at(0));
        lemma_safe_before(data, entry_at(0), overflow_at(data)->0);
    }
}

/// The entry that takes a walk too far is the one that the walk is at, or one that begins behind the
/// header that it is at.
proof fn lemma_overflow_lies_ahead(data: Seq<u8>, place: WalkPlace)
    requires
        place.ok(),
    ensures
        overflow_from(data, place) matches Some(p) ==> p <= data.len() && (p == place.begun || p
            >= place.at + 512),
    decreases u64::MAX - place.at,
{
    match hop_in(data, place) {
        Hop::Next(next) => lemma_overflow_lies_ahead(data, next),
        _ => {},
    }
}

proof fn lemma_safe_before(data: Seq<u8>, place: WalkPlace, p: u64)
    requires
        place.ok(),
        overflow_from(data, place) == Some(p),
        p <= data.len(),
    ensures
        overflow_from(data.take(p as int), place) is None,
    decreases u64::MAX - place.at,
{
    if place.begun < p {
        match hop_in(data, place) {
            Hop::Next(next) => {
                lemma_overflow_lies_ahead(data, next);
                lemma_same_hop(data, place, next, p as int);
                lemma_safe_before(data, next, p);
            },
            _ => {},
        }
    } else {
        lemma_overflow_lies_ahead(data, place);
    }
}

/// A hop looks at nothing behind the header that it leads to.
proof fn lemma_same_hop(data: Seq<u8>, place: WalkPlace, next: WalkPlace, n: int)
    requires
        place.ok(),
        hop_in(data, place) == Hop::Next(next),
        next.at <= n <= data.len(),
    ensures
        hop_in(data.take(n), place) == Hop::Next(next),
{
    let part = data.take(n);
    let at = place.at as int;
    let h = header_of(block_at(data, at))->0;
    assert(block_at(part, at) == block_at(data, at));
    match place.records {
        Some((from, to)) => {
            assert(part.subrange(from as int, to as int) == data.subrange(from as int, to as int));
        },
        None => {},
    }
    if is_long_sparse(h) {
        lemma_same_maps(data, at + 512, n);
    }
}

proof fn lemma_same_maps(data: Seq<u8>, at: int, n: int)
    requires
        0 <= at,
        at + 512 * maps_at(data, at) <= n <= data.len(),
        maps_complete(data, at),
    ensures
        maps_at(data.take(n), at) == maps_at(data, at),
        maps_complete(data.take(n), at),
    decreases data.len() - at,
{
    assert(block_at(data.take(n), at) == block_at(data, at));
    if !is_last_map(block_at(data, at)) {
        lemma_same_maps(data, at + 512, n);
    }
}

/// Whether each entry that a walk from `place` on gets to is no larger than the archive that should
/// hold it.
pub open spec fn holds_its_data(data: Seq<u8>, place: WalkPlace) -> bool
    decreases u64::MAX - place.at,
{
    let fits = match header_of(block_at(data, place.at as int)) {
        Some(h) => data_size(h, given_size(data, place)) <= data.len(),
        None => true,
    };
    match hop_in(data, place) {
        Hop::End => true,
        Hop::TooLarge => fits,
        Hop::Next(next) => fits && holds_its_data(data, next),
    }
}

/// An archive that holds the data of its entries can be walked through, whatever its files hold.
pub proof fn law_complete_archives_are_safe(data: Seq<u8>)
    requires
        data.len() <= isize::MAX / 2,
        holds_its_data(data, entry_at(0)),
    ensures
        overflow_at(data) is None,
{
    lemma_complete_from(data, entry_at(0));
}

proof fn lemma_complete_from(data: Seq<u8>, place: WalkPlace)
    requires
        data.len() <= isize::MAX / 2,
        holds_its_data(data, place),
    ensures
        overflow_from(data, place) is None,
    decreases u64::MAX - place.at,
{
    match hop_in(data, place) {
        Hop::Next(next) => lemma_complete_from(data, next),
        Hop::TooLarge => lemma_maps_fit(data, place.at + 512),
        Hop::End => {},
    }
}

proof fn lemma_maps_fit(data: Seq<u8>, at: int)
    requires
        0 <= at <= data.len(),
    ensures
        at + 512 * maps_at(data, at) <= data.len(),
    decreases data.len() - at,
{
    if at + 512 <= data.len() {
        lemma_maps_fit(data, at + 512);
    }
}

/// The characters of ASCII bytes.
pub open spec fn chars_for(s: Seq<u8>) -> Seq<char> {
    Seq::new(s.len(), |i: int| s[i] as char)
}

/// Whether bytes are digits of base `base`, which is ten at most, that stand for `v`.
pub open spec fn digits_stand(s: Seq<u8>, base: int, v: int) -> bool {
    &&& s.len() > 0
    &&& forall|i: int| 0 <= i < s.len() ==> 0x30 <= #[trigger] s[i] < 0x30 + base
    &&& number_of(chars_for(s), base) == v
}

proof fn lemma_digits_read(s: Seq<u8>, base: int, v: u64)
    requires
        2 <= base <= 10,
        digits_stand(s, base, v as int),
    ensures
        utf8_text(s) == chars_for(s),
        radix_u64(chars_for(s), base) == Some(v),
        chars_for(s)[0] != ' ',
        chars_for(s).last() != ' ',
{
    law_ascii_text(s);
    let text = chars_for(s);
    assert(utf8_text(s) == text);
    assert forall|i: int| 0 <= i < text.len() implies 0 <= digit_number(#[trigger] text[i])
        < base by {
        assert(0x30 <= s[i] < 0x30 + base);
    }
    law_unsigned_numbers_are_read(text, base);
    assert(s[0] >= 0x30 && s[s.len() - 1] >= 0x30);
}

/// A field of octal digits gives the number they stand for. Blanks may surround them, and behind a NUL
/// anything may stand.
pub proof fn law_octal_fields_are_read_back(
    before: Seq<u8>,
    digits: Seq<u8>,
    after: Seq<u8>,
    rest: Seq<u8>,
    v: u64,
)
    requires
        forall|i: int| 0 <= i < before.len() ==> #[trigger] before[i] == 0x20,
        forall|i: int| 0 <= i < after.len() ==> #[trigger] after[i] == 0x20,
        digits_stand(digits, 8, v as int),
        rest.len() > 0 ==> rest[0] == 0,
    ensures
        octal_field(before + digits + after + rest) == Some(v),
{
    let shown = before + digits + after;
    let f = shown + rest;
    assert forall|j: int| 0 <= j < shown.len() implies 0x20 <= #[trigger] shown[j] < 0x80 by {
        if j < before.len() {
            assert(shown[j] == before[j]);
        } else if j < before.len() + digits.len() {
            assert(shown[j] == digits[j - before.len()]);
        } else {
            assert(shown[j] == after[j - before.len() - digits.len()]);
        }
    }
    assert forall|j: int| 0 <= j < shown.len() implies f[j] != 0 by {
        assert(f[j] == shown[j]);
    }
    lemma_nul_len(f, shown.len());
    assert(f.take(shown.len() as int) == shown);
    law_ascii_text(shown);
    lemma_digits_read(digits, 8, v);
    let (a, core, b) = (chars_for(before), chars_for(digits), chars_for(after));
    assert(utf8_text(shown) == a + core + b);
    assert forall|i: int| 0 <= i < a.len() implies is_space(#[trigger] a[i]) by {
        assert(before[i] == 0x20);
    }
    assert forall|i: int| 0 <= i < b.len() implies is_space(#[trigger] b[i]) by {
        assert(after[i] == 0x20);
    }
    assert(0x30 <= digits[0] < 0x38 && 0x30 <= digits[digits.len() - 1] < 0x38);
    assert(!is_space(core[0]) && !is_space(core.last()));
    law_trimming(a, core, b);
}

/// A binary size field gives the number that its last eight bytes hold, high byte first.
pub proof fn law_binary_sizes_are_read_back(f: Seq<u8>, v: u64)
    requires
        f.len() == 12,
        f[0] >= 0x80,
        holds64(f.reverse(), 0, v as int),
    ensures
        size_field(f) == Some(v),
{
    let r = f.reverse();
    law_64_bits_are_read_back(r, 0, v);
    assert(r[0] == f[11] && r[1] == f[10] && r[2] == f[9] && r[3] == f[8] && r[4] == f[7] && r[5]
        == f[6] && r[6] == f[5] && r[7] == f[4]);
    assert(be_at(f, 4) == u64_at(r, 0));
}

/// The sum of bytes is that of a byte for one, and that of both parts for two.
pub proof fn law_byte_sums_add_up(a: Seq<u8>, b: Seq<u8>, x: u8)
    ensures
        byte_sum(Seq::empty()) == 0,
        byte_sum(seq![x]) == x,
        byte_sum(a + b) == byte_sum(a) + byte_sum(b),
    decreases b.len(),
{
    assert(seq![x].drop_last() == Seq::<u8>::empty());
    reveal_with_fuel(byte_sum, 2);
    if b.len() == 0 {
        assert(a + b == a);
    } else {
        law_byte_sums_add_up(a, b.drop_last(), x);
        assert((a + b).drop_last() == a + b.drop_last());
    }
}

/// A header is read back as it was written: at 124 stand the eleven octal digits of the size and a NUL
/// or a blank, at 148 the six octal digits of the checksum, a NUL and a blank, at 156 the type, and at
/// 257 the magic. The checksum is the sum of all bytes, with blanks in its own place.
pub proof fn law_headers_are_read_back(block: Seq<u8>, size: u64, sum: u64)
    requires
        block.len() == 512,
        digits_stand(block.subrange(124, 135), 8, size as int),
        block[135] == 0 || block[135] == 0x20,
        digits_stand(block.subrange(148, 154), 8, sum as int),
        block[154] == 0,
        sum == byte_sum(
            block.subrange(0, 148) + seq![0x20u8, 0x20, 0x20, 0x20, 0x20, 0x20, 0x20, 0x20]
                + block.subrange(156, 512),
        ),
    ensures
        header_of(block) == Some(
            TarHeader {
                kind: block[156],
                size,
                gnu: block.subrange(257, 265) == seq![
                    0x75u8,
                    0x73,
                    0x74,
                    0x61,
                    0x72,
                    0x20,
                    0x20,
                    0,
                ],
                ustar: block.subrange(257, 265) == seq![
                    0x75u8,
                    0x73,
                    0x74,
                    0x61,
                    0x72,
                    0,
                    0x30,
                    0x30,
                ],
                extended: block[482] == 1,
            },
        ),
{
    let none = Seq::<u8>::empty();
    let f = block.subrange(124, 136);
    let digits = block.subrange(124, 135);
    let end = seq![block[135]];
    if block[135] == 0 {
        law_octal_fields_are_read_back(none, digits, none, end, size);
        assert(none + digits + none + end == f);
    } else {
        law_octal_fields_are_read_back(none, digits, end, none, size);
        assert(none + digits + end + none == f);
    }
    assert(0x30 <= digits[0] < 0x38);
    assert(f[0] == digits[0] && block[124] == digits[0]);
    let g = block.subrange(148, 156);
    let written = block.subrange(148, 154);
    let tail = block.subrange(154, 156);
    law_octal_fields_are_read_back(none, written, none, tail, sum);
    assert(none + written + none + tail == g);
    let blanks = seq![0x20u8, 0x20, 0x20, 0x20, 0x20, 0x20, 0x20, 0x20];
    let (front, back) = (block.subrange(0, 148), block.subrange(156, 512));
    assert(front == block.take(148) && back == block.skip(156));
    law_byte_sums_add_up(front + blanks, back, 0);
    law_byte_sums_add_up(front, blanks, 0);
    lemma_eight_blanks(blanks);
    assert(GNU_MAGIC@ == seq![0x75u8, 0x73, 0x74, 0x61, 0x72, 0x20, 0x20, 0]);
    assert(USTAR_MAGIC@ == seq![0x75u8, 0x73, 0x74, 0x61, 0x72, 0, 0x30, 0x30]);
}

proof fn lemma_eight_blanks(blanks: Seq<u8>)
    requires
        blanks == seq![0x20u8, 0x20, 0x20, 0x20, 0x20, 0x20, 0x20, 0x20],
    ensures
        byte_sum(blanks) == 256,
{
    reveal_with_fuel(byte_sum, 9);
}

/// The record of a size gives it: a length that counts the whole record, a blank, `size=`, the digits
/// and a newline.
pub proof fn law_size_records_are_read_back(len: Seq<u8>, digits: Seq<u8>, rest: Seq<u8>, v: u64)
    requires
        digits_stand(digits, 10, v as int),
        digits_stand(len, 10, (len.len() + 6 + digits.len() + 1) as int),
        len.len() + 6 + digits.len() + 1 <= u64::MAX,
    ensures
        size_in(
            len + seq![0x20u8, 0x73, 0x69, 0x7A, 0x65, 0x3D] + digits + seq![0x0Au8] + rest,
        ) == Some(v),
{
    let line = len + seq![0x20u8, 0x73, 0x69, 0x7A, 0x65, 0x3D] + digits;
    let records = line + seq![0x0Au8] + rest;
    assert(records == line.push(0x0A) + rest);
    assert(!line.contains(0x0A)) by {
        if line.contains(0x0A) {
            let i = choose|i: int| 0 <= i < line.len() && line[i] == 0x0A;
            if i < len.len() {
                assert(line[i] == len[i]);
            } else if i >= len.len() + 6 {
                assert(line[i] == digits[i - len.len() - 6]);
            }
        }
    }
    lemma_first_segment(line, rest, 0x0A);
    let lines = segments(records, 0x0A);
    assert(lines[0] == line);
    assert forall|j: int| 0 <= j < len.len() implies line[j] != 0x20 by {
        assert(line[j] == len[j]);
    }
    lemma_first_of(line, 0x20, len.len() as int);
    let tail = line.skip(len.len() as int + 1);
    lemma_first_of(tail, 0x3D, 4);
    assert(line.take(len.len() as int) == len);
    assert(tail.take(4) == SIZE_KEY@);
    assert(tail.skip(5) == digits);
    lemma_digits_read(len, 10, (line.len() + 1) as u64);
    lemma_digits_read(digits, 10, v);
    assert(record_of(line) == Some((SIZE_KEY@, digits)));
}

proof fn lemma_first_of(s: Seq<u8>, b: u8, n: int)
    requires
        0 <= n < s.len(),
        s[n] == b,
        forall|j: int| 0 <= j < n ==> s[j] != b,
    ensures
        first_of(s, b) == Some(n),
    decreases s.len(),
{
    if n < s.len() - 1 {
        lemma_first_of(s.drop_last(), b, n);
    } else {
        lemma_none_before(s.drop_last(), b);
    }
}

proof fn lemma_none_before(s: Seq<u8>, b: u8)
    requires
        forall|j: int| 0 <= j < s.len() ==> s[j] != b,
    ensures
        first_of(s, b) is None,
    decreases s.len(),
{
    if s.len() > 0 {
        lemma_none_before(s.drop_last(), b);
    }
}

/// From the header of an ordinary file a walk goes to the first block behind its data; where a record
/// gave another size, that counts.
pub proof fn law_walk_goes_behind_the_data(place: WalkPlace, h: TarHeader, given: Option<u64>)
    requires
        h.kind == 0x30 || h.kind == 0x37 || h.kind == 0x35,
        given matches Some(n) ==> place.at + 1023 + n <= u64::MAX,
        given is None ==> place.at + 1023 + h.size <= u64::MAX,
    ensures
        hop(place, h, given, 0, true) matches Hop::Next(next) && {
            let size: int = match given {
                Some(n) => n as int,
                None => h.size as int,
            };
            &&& next.begun == next.at
            &&& (next.at - place.at) % 512 == 0
            &&& place.at + 512 + size <= next.at < place.at + 512 + size + 512
            &&& next.records is None && !next.long_name && !next.long_link
        },
{
}

/// A header that brings a name, a link name or records for an entry is followed by the entry's next
/// header, and the entry still begins where it did.
pub proof fn law_extensions_belong_to_their_entry(place: WalkPlace, h: TarHeader)
    requires
        h.gnu || h.ustar,
        h.kind == 0x4C && !place.long_name || h.kind == 0x4B && !place.long_link || h.kind == 0x78
            && place.records is None,
        place.at + 1023 + h.size <= u64::MAX,
    ensures
        hop(place, h, None, 0, true) matches Hop::Next(next) && {
            &&& next.begun == place.begun
            &&& (next.at - place.at) % 512 == 0
            &&& place.at + 512 + h.size <= next.at < place.at + 512 + h.size + 512
            &&& h.kind == 0x78 ==> next.records == Some(
                ((place.at + 512) as u64, (place.at + 512 + h.size) as u64),
            )
            &&& h.kind != 0x78 ==> next.records == place.records
        },
{
}

} // verus!
