//! Firmware archives: Odin `.tar` / `.tar.md5` packages and LZ4-compressed partition images.
//!
//! Odin firmware ships as tar archives (sometimes with an MD5 checksum appended, hence
//! `.tar.md5`) whose top-level files are partition images, some LZ4-compressed (`.lz4`).
//! Flashing needs the *decompressed* size up front (to plan the sequence), which is read from
//! the LZ4 frame header rather than by decompressing.

use vstd::prelude::*;
use vstd::slice::slice_subrange;
use vstd::string::StringExecFns;

use crate::bytes::{holds64, law_64_bits_are_read_back, read_u64, starts_with, u64_at};
use crate::headers::{
    entry_at, find_overflow, holds_its_data, law_complete_archives_are_safe,
    law_part_before_overflow_is_safe, overflow_at, SPARSE,
};
use crate::path::{
    component_count, count_components, count_path_components, is_component,
    law_components_are_counted, lemma_segments_nonempty, segments,
};
use crate::text::{ends_in, ends_with, same_text, text_from_utf8, utf8_text};

verus! {

/// LZ4 frame magic, little-endian on disk (`0x184D2204`).
pub const LZ4_FRAME_MAGIC: [u8; 4] = [0x04, 0x22, 0x4D, 0x18];

/// Something went wrong reading an archive or compressed image.
#[derive(Debug)]
pub enum ArchiveError {
    Lz4(String),
    Tar(String),
    NotFound(String),
}

/// What an [`ArchiveError`] says.
pub enum ArchiveFault {
    Lz4(Seq<char>),
    Tar(Seq<char>),
    NotFound(Seq<char>),
}

impl View for ArchiveError {
    type V = ArchiveFault;

    open spec fn view(&self) -> ArchiveFault {
        match self {
            ArchiveError::Lz4(m) => ArchiveFault::Lz4(m@),
            ArchiveError::Tar(m) => ArchiveFault::Tar(m@),
            ArchiveError::NotFound(n) => ArchiveFault::NotFound(n@),
        }
    }
}

/// The text of an error.
pub open spec fn archive_fault_text(e: ArchiveFault) -> Seq<char> {
    match e {
        ArchiveFault::Lz4(m) => "LZ4 error: "@ + m,
        ArchiveFault::Tar(m) => "tar error: "@ + m,
        ArchiveFault::NotFound(n) => "entry not found in archive: "@ + n,
    }
}

impl ArchiveError {
    /// The error in words.
    pub fn message(&self) -> (s: String)
        ensures
            s@ == archive_fault_text(self@),
    {
        match self {
            ArchiveError::Lz4(m) => {
                let mut s = String::from_str("LZ4 error: ");
                s.append(m.as_str());
                s
            },
            ArchiveError::Tar(m) => {
                let mut s = String::from_str("tar error: ");
                s.append(m.as_str());
                s
            },
            ArchiveError::NotFound(n) => {
                let mut s = String::from_str("entry not found in archive: ");
                s.append(n.as_str());
                s
            },
        }
    }
}

/// A top-level file inside a firmware tar.
#[derive(Debug, Clone, PartialEq, Eq)]
pub struct TarEntryInfo {
    pub name: String,
    /// Size of the entry as stored in the tar (i.e. still LZ4-compressed if `.lz4`).
    pub size: u64,
}

/// What a [`TarEntryInfo`] says.
#[verifier::ext_equal]
pub struct EntryInfo {
    pub name: Seq<char>,
    pub size: u64,
}

impl View for TarEntryInfo {
    type V = EntryInfo;

    open spec fn view(&self) -> EntryInfo {
        EntryInfo { name: self.name@, size: self.size }
    }
}

/// The uncompressed size that an LZ4 frame header declares: byte 4 holds flags, of which
/// `0x08` says that a size follows at bytes 6..14.
pub open spec fn declared_size(data: Seq<u8>) -> Option<u64> {
    if LZ4_FRAME_MAGIC@.is_prefix_of(data) && data.len() >= 14 && data[4] & 0x08 != 0 {
        Some(u64_at(data, 6))
    } else {
        None
    }
}

/// The uncompressed size declared in an LZ4 frame header, if it carries one (Odin's do).
/// Returns `None` if the data is not an LZ4 frame or omits the content size.
pub fn lz4_content_size(data: &[u8]) -> (r: Option<u64>)
    ensures
        r == declared_size(data@),
{
    if !starts_with(data, &LZ4_FRAME_MAGIC) || data.len() < 14 {
        return None;
    }
    let flags: u8 = data[4];
    if flags & 0x08 == 0 {
        return None;
    }
    Some(read_u64(data, 6))
}

/// What the LZ4 decoder makes of a frame: the bytes it decompresses to, or the text of its
/// error.
pub uninterp spec fn lz4_frame(data: Seq<u8>) -> Result<Seq<u8>, Seq<char>>;

/// A result of bytes or an error text, by content.
pub open spec fn bytes_or_text(r: Result<Vec<u8>, String>) -> Result<Seq<u8>, Seq<char>> {
    match r {
        Ok(v) => Ok(v@),
        Err(e) => Err(e@),
    }
}

/// A result of bytes, by content.
pub open spec fn bytes_or_fault(r: Result<Vec<u8>, ArchiveError>) -> Result<
    Seq<u8>,
    ArchiveFault,
> {
    match r {
        Ok(v) => Ok(v@),
        Err(e) => Err(e@),
    }
}

/// `lz4_flex::frame::FrameDecoder`, read to its end: what it decompresses the data to, or its
/// error in words, depends on the data alone. Nothing more is claimed. The decoder checks the
/// declared size only where the frame's end mark is present, so the length of what a cut-off
/// frame decompresses to need not be the declared one.
#[verifier::external_body]
fn lz4_decode(data: &[u8]) -> (r: Result<Vec<u8>, String>)
    ensures
        bytes_or_text(r) == lz4_frame(data@),
{
    let mut out = Vec::new();
    let mut decoder = lz4_flex::frame::FrameDecoder::new(data);
    match std::io::Read::read_to_end(&mut decoder, &mut out) {
        Ok(_) => Ok(out),
        Err(e) => Err(e.to_string()),
    }
}

/// What a decoded image comes to.
pub open spec fn image_of(decoded: Result<Seq<u8>, Seq<char>>) -> Result<Seq<u8>, ArchiveFault> {
    match decoded {
        Ok(b) => Ok(b),
        Err(m) => Err(ArchiveFault::Lz4(m)),
    }
}

/// Take what the decoder returned as an image or as an LZ4 error.
pub fn decoded_image(decoded: Result<Vec<u8>, String>) -> (r: Result<Vec<u8>, ArchiveError>)
    ensures
        bytes_or_fault(r) == image_of(bytes_or_text(decoded)),
{
    match decoded {
        Ok(b) => Ok(b),
        Err(m) => Err(ArchiveError::Lz4(m)),
    }
}

/// Fully decompress an LZ4 frame into memory.
pub fn decompress_lz4(data: &[u8]) -> (r: Result<Vec<u8>, ArchiveError>)
    ensures
        bytes_or_fault(r) == image_of(lz4_frame(data@)),
{
    decoded_image(lz4_decode(data))
}

/// An entry met on a walk through a tar archive: its path, byte for byte, its size, and the byte
/// that tells its type.
#[derive(Debug, Clone, PartialEq, Eq)]
pub struct TarItem {
    pub path: Vec<u8>,
    pub size: u64,
    pub kind: u8,
}

/// What a step of a walk met: an entry's path, size and type, or the text of an error.
pub open spec fn item_view(r: Result<TarItem, String>) -> Result<(Seq<u8>, u64, u8), Seq<char>> {
    match r {
        Ok(item) => Ok((item.path@, item.size, item.kind)),
        Err(e) => Err(e@),
    }
}

/// What the steps of a walk met.
pub open spec fn item_views(v: Seq<Result<TarItem, String>>) -> Seq<
    Result<(Seq<u8>, u64, u8), Seq<char>>,
> {
    Seq::new(v.len(), |i: int| item_view(v[i]))
}

/// What a walk met, or why there was none.
pub open spec fn walk_view(r: Result<Vec<Result<TarItem, String>>, String>) -> Result<
    Seq<Result<(Seq<u8>, u64, u8), Seq<char>>>,
    Seq<char>,
> {
    match r {
        Ok(v) => Ok(item_views(v@)),
        Err(e) => Err(e@),
    }
}

/// What a walk through a tar archive meets, entry by entry in order.
pub uninterp spec fn tar_walk(data: Seq<u8>) -> Result<
    Seq<Result<(Seq<u8>, u64, u8), Seq<char>>>,
    Seq<char>,
>;

/// `tar::Archive::entries`, walked to its end: each entry's path bytes, size and type byte, or the
/// text of the error met there. All of it depends on the archive's bytes alone. A walk that meets no
/// error gets past the data of every entry, so an entry that has no holes is no larger than the
/// archive. The walk adds 512 to a position for each map of a sparse entry, which must not overflow.
#[verifier::external_body]
fn walk_tar(data: &[u8]) -> (r: Result<Vec<Result<TarItem, String>>, String>)
    requires
        overflow_at(data@) is None,
    ensures
        walk_view(r) == tar_walk(data@),
        walk_view(r) matches Ok(steps) ==> no_error(steps) ==> holds_files(steps, data@.len()),
{
    let mut archive = tar::Archive::new(data);
    let entries = archive.entries().map_err(|e| e.to_string())?;
    let steps = entries.map(
        |step|
            {
                let e = step.map_err(|e| e.to_string())?;
                let kind: u8 = e.header().entry_type().as_byte();
                Ok(TarItem { path: e.path_bytes().into_owned(), size: e.size(), kind })
            },
    );
    Ok(steps.collect())
}

/// What reading entry number `index` of a tar archive to its end brings.
pub uninterp spec fn tar_content(data: Seq<u8>, index: usize) -> Result<Seq<u8>, Seq<char>>;

/// Whether a walk met no error.
pub open spec fn no_error(steps: Seq<Result<(Seq<u8>, u64, u8), Seq<char>>>) -> bool {
    forall|i: int| 0 <= i < steps.len() ==> (#[trigger] steps[i]) is Ok
}

/// Whether none of the steps of a walk met a file larger than `len`, but for sparse ones.
pub open spec fn holds_files(steps: Seq<Result<(Seq<u8>, u64, u8), Seq<char>>>, len: nat) -> bool {
    forall|i: int|
        0 <= i < steps.len() ==> ((#[trigger] steps[i]) matches Ok((_, size, kind)) ==> kind
            == SPARSE || size <= len)
}

/// The most bytes that a vector can hold on every target: on some, positions in memory are signed
/// 32-bit numbers.
pub const VEC_LIMIT: u64 = 0x7FFF_FFFF;

/// Whether a file of `size` bytes in an archive of `len` bytes can be read into memory wherever the
/// archive itself can, or as far as any vector reaches. The holes of a sparse file take no room in
/// the archive, so it may be larger than both.
pub open spec fn is_readable(size: u64, len: nat) -> bool {
    size <= len || size <= VEC_LIMIT
}

/// `tar::Entry`, read to its end, for the entry that a walk meets at step `index`: its bytes, or
/// the text of the error met, depend on the archive's bytes and the index alone. A walk that meets
/// no error gets past the data of every entry, so there are as many bytes as the entry's size, and
/// reading them from memory does not fail. That is not claimed of an entry whose holes make it too
/// large for memory.
#[verifier::external_body]
fn read_tar_entry(data: &[u8], index: usize) -> (r: Result<Vec<u8>, String>)
    requires
        overflow_at(data@) is None,
        tar_walk(data@) matches Ok(steps) && index < steps.len() && steps[index as int] is Ok,
    ensures
        bytes_or_text(r) == tar_content(data@, index),
        no_error(tar_walk(data@)->Ok_0) ==> (r matches Ok(b) ==> b@.len() == tar_walk(
            data@,
        )->Ok_0[index as int]->Ok_0.1),
        no_error(tar_walk(data@)->Ok_0) && is_readable(
            tar_walk(data@)->Ok_0[index as int]->Ok_0.1,
            data@.len(),
        ) ==> r is Ok,
{
    let mut out = Vec::new();
    let mut archive = tar::Archive::new(data);
    let mut entries = archive.entries().map_err(|e| e.to_string())?;
    match entries.nth(index) {
        Some(Ok(mut entry)) => std::io::Read::read_to_end(&mut entry, &mut out).map(|_| out),
        Some(Err(e)) => Err(e),
        None => Ok(out),
    }.map_err(|e| e.to_string())
}

/// Whether an entry is a top-level file: its type is that of a regular, contiguous or sparse file,
/// and its path is a single component that is not marked as a directory by a slash.
pub open spec fn is_top_file(path: Seq<u8>, kind: u8) -> bool {
    &&& kind == 0x30 || kind == 0x37 || kind == SPARSE
    &&& component_count(path) == 1
    &&& path.last() != 0x2F
}

fn top_file(item: &TarItem) -> (r: bool)
    ensures
        r == is_top_file(item.path@, item.kind),
{
    let kind: u8 = item.kind;
    if !(kind == 0x30 || kind == 0x37 || kind == SPARSE) || item.path.len() == 0 {
        proof {
            if item.path@.len() == 0 {
                lemma_no_path(item.path@);
            }
        }
        return false;
    }
    count_path_components(item.path.as_slice()) == 1 && item.path[item.path.len() - 1] != 0x2F
}

/// An empty path has no component.
proof fn lemma_no_path(path: Seq<u8>)
    requires
        path.len() == 0,
    ensures
        component_count(path) == 0,
{
    let pieces = segments(path, 0x2F);
    assert(pieces == seq![Seq::<u8>::empty()]);
    assert(pieces.last() == Seq::<u8>::empty());
    assert(pieces[0].len() != seq![0x2Eu8].len());
    assert(count_components(pieces.drop_last()) == 0);
}

/// The top-level files among the steps of a walk, or the first error met.
pub open spec fn top_level(steps: Seq<Result<(Seq<u8>, u64, u8), Seq<char>>>) -> Result<
    Seq<EntryInfo>,
    ArchiveFault,
>
    decreases steps.len(),
{
    if steps.len() == 0 {
        Ok(Seq::empty())
    } else {
        match top_level(steps.drop_last()) {
            Err(e) => Err(e),
            Ok(found) => match steps.last() {
                Err(m) => Err(ArchiveFault::Tar(m)),
                Ok((path, size, kind)) => Ok(
                    if is_top_file(path, kind) {
                        found.push(EntryInfo { name: utf8_text(path), size })
                    } else {
                        found
                    },
                ),
            },
        }
    }
}

/// A listing, by content.
pub open spec fn listing(r: Result<Vec<TarEntryInfo>, ArchiveError>) -> Result<
    Seq<EntryInfo>,
    ArchiveFault,
> {
    match r {
        Ok(v) => Ok(Seq::new(v@.len(), |i: int| v@[i]@)),
        Err(e) => Err(e@),
    }
}

/// Once a walk has met an error, going on does not change what it lists.
proof fn lemma_error_stays(steps: Seq<Result<(Seq<u8>, u64, u8), Seq<char>>>, n: int)
    requires
        0 <= n <= steps.len(),
        top_level(steps.take(n)) is Err,
    ensures
        top_level(steps) == top_level(steps.take(n)),
    decreases steps.len() - n,
{
    if n < steps.len() {
        assert(steps.take(n + 1).drop_last() == steps.take(n));
        lemma_error_stays(steps, n + 1);
    } else {
        assert(steps.take(n) == steps);
    }
}

/// The top-level files among the steps of a walk.
pub fn list_items(steps: &Vec<Result<TarItem, String>>) -> (r: Result<
    Vec<TarEntryInfo>,
    ArchiveError,
>)
    ensures
        listing(r) == top_level(item_views(steps@)),
{
    let ghost all = item_views(steps@);
    let mut out: Vec<TarEntryInfo> = Vec::new();
    let mut i: usize = 0;
    proof {
        assert(all.take(0).len() == 0);
        assert(listing(Ok(out))->Ok_0 == Seq::<EntryInfo>::empty());
    }
    while i < steps.len()
        invariant
            i <= steps@.len(),
            all == item_views(steps@),
            listing(Ok(out)) == top_level(all.take(i as int)),
        decreases steps@.len() - i,
    {
        proof {
            assert(all.take(i + 1).drop_last() == all.take(i as int));
        }
        match &steps[i] {
            Ok(item) => {
                if top_file(item) {
                    let ghost before = listing(Ok(out))->Ok_0;
                    let info = TarEntryInfo {
                        name: text_from_utf8(item.path.as_slice()),
                        size: item.size,
                    };
                    let ghost model = info@;
                    out.push(info);
                    assert(listing(Ok(out))->Ok_0 == before.push(model));
                }
            },
            Err(m) => {
                proof {
                    lemma_error_stays(all, i + 1);
                }
                return Err(ArchiveError::Tar(m.clone()));
            },
        }
        i = i + 1;
    }
    assert(all.take(i as int) == all);
    Ok(out)
}

/// What listing an archive comes to, given what a walk through it came to.
pub open spec fn listing_of(
    walk: Result<Seq<Result<(Seq<u8>, u64, u8), Seq<char>>>, Seq<char>>,
) -> Result<Seq<EntryInfo>, ArchiveFault> {
    match walk {
        Ok(steps) => top_level(steps),
        Err(m) => Err(ArchiveFault::Tar(m)),
    }
}

/// The part of an archive that can be walked through: all of it, unless a sparse entry takes a walk
/// too far; then what comes before that entry.
pub open spec fn safe_part(data: Seq<u8>) -> Seq<u8> {
    match overflow_at(data) {
        Some(p) => data.take(p as int),
        None => data,
    }
}

/// What a walk through an archive comes to. At an entry that would take it too far, it meets an
/// error.
pub open spec fn walk_of(data: Seq<u8>) -> Result<
    Seq<Result<(Seq<u8>, u64, u8), Seq<char>>>,
    Seq<char>,
> {
    match (tar_walk(safe_part(data)), overflow_at(data)) {
        (Ok(steps), Some(_)) => Ok(steps.push(Err("a sparse entry is too large"@))),
        (steps, _) => steps,
    }
}

/// Find the part of an archive that can be walked through, and whether it is less than all.
fn walkable_part(data: &[u8]) -> (r: (&[u8], bool))
    ensures
        r.0@ == safe_part(data@),
        r.1 == (overflow_at(data@) is Some),
        overflow_at(r.0@) is None,
{
    proof {
        law_part_before_overflow_is_safe(data@);
    }
    let len: usize = data.len();
    match find_overflow(data) {
        Some(p) => {
            assert(p <= len);
            let part = slice_subrange(data, 0, p as usize);
            assert(part@ == data@.take(p as int));
            (part, true)
        },
        None => (data, false),
    }
}

/// What is said of an entry that would take a walk too far.
pub fn too_large() -> (s: String)
    ensures
        s@ == "a sparse entry is too large"@,
{
    String::from_str("a sparse entry is too large")
}

/// Walk through the part of an archive that can be walked through. There is an error behind it
/// where it is less than all.
fn walk_part(part: &[u8], cut: bool) -> (r: Result<Vec<Result<TarItem, String>>, String>)
    requires
        overflow_at(part@) is None,
    ensures
        match tar_walk(part@) {
            Ok(steps) => walk_view(r) == Ok::<_, Seq<char>>(
                if cut {
                    steps.push(Err("a sparse entry is too large"@))
                } else {
                    steps
                },
            ) && (no_error(steps) ==> holds_files(steps, part@.len())),
            Err(m) => walk_view(r) == Err::<
                Seq<Result<(Seq<u8>, u64, u8), Seq<char>>>,
                Seq<char>,
            >(m),
        },
{
    let mut steps = match walk_tar(part) {
        Ok(steps) => steps,
        Err(m) => return Err(m),
    };
    if cut {
        let ghost before = item_views(steps@);
        let step: Result<TarItem, String> = Err(too_large());
        let ghost last = item_view(step);
        steps.push(step);
        assert(item_views(steps@) == before.push(last));
    }
    Ok(steps)
}

/// List the top-level file entries of a tar (or `.tar.md5`) archive. Where there is a list, no file
/// of the archive is larger than the archive, but for sparse ones.
pub fn list_tar(data: &[u8]) -> (r: Result<Vec<TarEntryInfo>, ArchiveError>)
    ensures
        listing(r) == listing_of(walk_of(data@)),
        r is Ok ==> holds_files(walk_of(data@)->Ok_0, data@.len()),
{
    let (part, cut) = walkable_part(data);
    match walk_part(part, cut) {
        Ok(steps) => {
            proof {
                let all = item_views(steps@);
                if top_level(all) is Ok {
                    lemma_no_error(all);
                    assert(cut ==> all[all.len() - 1] is Err);
                }
            }
            list_items(&steps)
        },
        Err(m) => Err(ArchiveError::Tar(m)),
    }
}

/// Where a name is among the steps of a walk.
pub enum Place {
    /// At this step.
    At(int),
    /// Nowhere.
    Missing,
    /// An error came before it.
    Broken(Seq<char>),
}

/// Where the first entry called `name` is, from step `i` on.
pub open spec fn find_from(
    steps: Seq<Result<(Seq<u8>, u64, u8), Seq<char>>>,
    name: Seq<char>,
    i: int,
) -> Place
    decreases steps.len() - i,
{
    if i < 0 || i >= steps.len() {
        Place::Missing
    } else {
        match steps[i] {
            Err(m) => Place::Broken(m),
            Ok((path, _, _)) => if utf8_text(path) == name {
                Place::At(i)
            } else {
                find_from(steps, name, i + 1)
            },
        }
    }
}

/// Find the first entry called `name` among the steps of a walk. The error is a tar error if a
/// step before it failed, and `NotFound` if there is no such entry.
pub fn find_item(steps: &Vec<Result<TarItem, String>>, name: &str) -> (r: Result<
    usize,
    ArchiveError,
>)
    ensures
        match find_from(item_views(steps@), name@, 0) {
            Place::At(i) => r == Ok::<usize, ArchiveError>(i as usize) && 0 <= i < steps@.len()
                && steps@[i] is Ok,
            Place::Missing => r matches Err(e) && e@ == ArchiveFault::NotFound(name@),
            Place::Broken(m) => r matches Err(e) && e@ == ArchiveFault::Tar(m),
        },
{
    let ghost all = item_views(steps@);
    let mut i: usize = 0;
    while i < steps.len()
        invariant
            i <= steps@.len(),
            all == item_views(steps@),
            find_from(all, name@, i as int) == find_from(all, name@, 0),
        decreases steps@.len() - i,
    {
        match &steps[i] {
            Ok(item) => {
                let called = text_from_utf8(item.path.as_slice());
                if same_text(called.as_str(), name) {
                    return Ok(i);
                }
            },
            Err(m) => {
                return Err(ArchiveError::Tar(m.clone()));
            },
        }
        i = i + 1;
    }
    Err(ArchiveError::NotFound(String::from_str(name)))
}

/// What extracting `name` comes to, given what a walk through the archive came to.
pub open spec fn extract_of(data: Seq<u8>, name: Seq<char>) -> Result<Seq<u8>, ArchiveFault> {
    match walk_of(data) {
        Err(m) => Err(ArchiveFault::Tar(m)),
        Ok(steps) => match find_from(steps, name, 0) {
            Place::Missing => Err(ArchiveFault::NotFound(name)),
            Place::Broken(m) => Err(ArchiveFault::Tar(m)),
            Place::At(i) => match tar_content(safe_part(data), i as usize) {
                Ok(b) => Ok(b),
                Err(m) => Err(ArchiveFault::Tar(m)),
            },
        },
    }
}

/// Extract one named entry's bytes from a tar archive. Where a walk through it meets no error, an
/// entry that is found can be extracted, unless its holes make it too large for memory, and has as
/// many bytes as the size that it is listed with.
pub fn extract_tar(data: &[u8], name: &str) -> (r: Result<Vec<u8>, ArchiveError>)
    ensures
        bytes_or_fault(r) == extract_of(data@, name@),
        no_error(walk_of(data@)->Ok_0) ==> (r matches Ok(b) ==> (find_from(
            walk_of(data@)->Ok_0,
            name@,
            0,
        ) matches Place::At(i) && b@.len() == walk_of(data@)->Ok_0[i]->Ok_0.1)),
        walk_of(data@) matches Ok(steps) ==> no_error(steps) ==> (find_from(
            steps,
            name@,
            0,
        ) matches Place::At(i) ==> (steps[i]->Ok_0.2 != SPARSE || is_readable(
            steps[i]->Ok_0.1,
            data@.len(),
        ) ==> (r matches Ok(b) && b@.len() == steps[i]->Ok_0.1))),
        listing_of(walk_of(data@)) matches Ok(found) ==> forall|k: int|
            0 <= k < found.len() && (#[trigger] found[k]).name == name@ && only_one_named(
                walk_of(data@)->Ok_0,
                name@,
            ) && is_readable(found[k].size, data@.len()) ==> (r matches Ok(b) && b@.len()
                == found[k].size),
{
    proof {
        if listing_of(walk_of(data@)) is Ok {
            let steps = walk_of(data@)->Ok_0;
            let found = listing_of(walk_of(data@))->Ok_0;
            let place = find_from(steps, name@, 0);
            assert forall|k: int|
                0 <= k < found.len() && (#[trigger] found[k]).name == name@ && only_one_named(
                    steps,
                    name@,
                ) implies no_error(steps) && place is At && steps[place->At_0]->Ok_0.1
                == found[k].size by {
                law_listed_entries_are_found(data@, k);
                assert(is_named(steps, name@, place->At_0));
            }
        }
    }

    let (part, cut) = walkable_part(data);
    let steps = match walk_part(part, cut) {
        Ok(steps) => steps,
        Err(m) => return Err(ArchiveError::Tar(m)),
    };
    let index: usize = match find_item(&steps, name) {
        Ok(i) => i,
        Err(e) => return Err(e),
    };
    proof {
        let all = item_views(steps@);
        assert(all[index as int] is Ok);
        assert(cut ==> all[all.len() - 1] is Err);
    }
    match read_tar_entry(part, index) {
        Ok(b) => Ok(b),
        Err(m) => Err(ArchiveError::Tar(m)),
    }
}

/// An image of a firmware archive, with the size it has on the device.
#[derive(Debug, Clone, PartialEq, Eq)]
pub struct ArchiveImage {
    pub name: String,
    /// Size of the entry as stored in the tar.
    pub stored_size: u64,
    /// Size on the device: what the LZ4 header declares, or the stored size.
    pub real_size: u64,
    /// Whether the entry is LZ4-compressed.
    pub compressed: bool,
}

/// Size on the device of an entry called `name` that begins with `head`.
pub open spec fn real_size(name: Seq<char>, stored_size: u64, head: Seq<u8>) -> u64 {
    if ends_in(name, ".lz4"@) {
        match declared_size(head) {
            Some(n) => n,
            None => stored_size,
        }
    } else {
        stored_size
    }
}

/// Describe a top-level entry by its name, its stored size and its first bytes.
pub fn archive_image(entry: &TarEntryInfo, head: &[u8]) -> (r: ArchiveImage)
    ensures
        r.name@ == entry.name@,
        r.stored_size == entry.size,
        r.compressed == ends_in(entry.name@, ".lz4"@),
        r.real_size == real_size(entry.name@, entry.size, head@),
{
    let compressed = ends_with(entry.name.as_str(), ".lz4");
    let size: u64 = if compressed {
        match lz4_content_size(head) {
            Some(n) => n,
            None => entry.size,
        }
    } else {
        entry.size
    };
    ArchiveImage { name: entry.name.clone(), stored_size: entry.size, real_size: size, compressed }
}

/// An archive that holds the data of its entries is walked through to its end, and listed by what is
/// met there.
pub proof fn law_complete_archives_are_walked(data: Seq<u8>)
    requires
        data.len() <= isize::MAX / 2,
        holds_its_data(data, entry_at(0)),
    ensures
        walk_of(data) == tar_walk(data),
        listing_of(walk_of(data)) == listing_of(tar_walk(data)),
{
    law_complete_archives_are_safe(data);
}

/// Whether step `i` of a walk met an entry called `name`.
pub open spec fn is_named(
    steps: Seq<Result<(Seq<u8>, u64, u8), Seq<char>>>,
    name: Seq<char>,
    i: int,
) -> bool {
    0 <= i < steps.len() && (steps[i] matches Ok((path, _, _)) && utf8_text(path) == name)
}

/// Whether no two steps of a walk met entries called `name`.
pub open spec fn only_one_named(
    steps: Seq<Result<(Seq<u8>, u64, u8), Seq<char>>>,
    name: Seq<char>,
) -> bool {
    forall|i: int, j: int| is_named(steps, name, i) && is_named(steps, name, j) ==> i == j
}

/// Of several entries of one name, the first is found; none is found where no entry has the name,
/// and only there, unless the walk meets an error first.
pub proof fn law_first_entry_of_a_name_is_found(
    steps: Seq<Result<(Seq<u8>, u64, u8), Seq<char>>>,
    name: Seq<char>,
)
    ensures
        match find_from(steps, name, 0) {
            Place::At(i) => is_named(steps, name, i) && forall|j: int|
                0 <= j < i ==> !is_named(steps, name, j),
            Place::Missing => no_error(steps) && forall|j: int| !is_named(steps, name, j),
            Place::Broken(m) => exists|i: int|
                0 <= i < steps.len() && #[trigger] steps[i] == Err::<
                    (Seq<u8>, u64, u8),
                    Seq<char>,
                >(m) && forall|j: int| 0 <= j < i ==> !is_named(steps, name, j),
        },
{
    lemma_find(steps, name, 0);
}

proof fn lemma_find(
    steps: Seq<Result<(Seq<u8>, u64, u8), Seq<char>>>,
    name: Seq<char>,
    from: int,
)
    requires
        0 <= from <= steps.len(),
        forall|j: int| 0 <= j < from ==> (#[trigger] steps[j]) is Ok,
        forall|j: int| 0 <= j < from ==> !is_named(steps, name, j),
    ensures
        match find_from(steps, name, from) {
            Place::At(i) => is_named(steps, name, i) && forall|j: int|
                0 <= j < i ==> !is_named(steps, name, j),
            Place::Missing => no_error(steps) && forall|j: int| !is_named(steps, name, j),
            Place::Broken(m) => exists|i: int|
                0 <= i < steps.len() && #[trigger] steps[i] == Err::<
                    (Seq<u8>, u64, u8),
                    Seq<char>,
                >(m) && forall|j: int| 0 <= j < i ==> !is_named(steps, name, j),
        },
    decreases steps.len() - from,
{
    if from < steps.len() && steps[from] is Ok && !is_named(steps, name, from) {
        lemma_find(steps, name, from + 1);
    }
}

/// Every entry that a listing names can be extracted by its name: an entry of that name is found,
/// and where there is only one, it is the listed one, with the size that it is listed with.
pub proof fn law_listed_entries_are_found(data: Seq<u8>, k: int)
    requires
        listing_of(walk_of(data)) matches Ok(found) && 0 <= k < found.len(),
    ensures
        walk_of(data) is Ok,
        ({
            let steps = walk_of(data)->Ok_0;
            let e = listing_of(walk_of(data))->Ok_0[k];
            &&& no_error(steps)
            &&& find_from(steps, e.name, 0) matches Place::At(i) && is_named(steps, e.name, i) && (
            only_one_named(steps, e.name) ==> steps[i]->Ok_0.1 == e.size)
        }),
{
    let steps = walk_of(data)->Ok_0;
    let e = top_level(steps)->Ok_0[k];
    lemma_listed(steps, k);
    let i = choose|i: int| is_named(steps, e.name, i) && (#[trigger] steps[i])->Ok_0.1 == e.size;
    assert(is_named(steps, e.name, i));
    law_first_entry_of_a_name_is_found(steps, e.name);
    match find_from(steps, e.name, 0) {
        Place::Broken(m) => {
            let b = choose|b: int|
                0 <= b < steps.len() && #[trigger] steps[b] == Err::<
                    (Seq<u8>, u64, u8),
                    Seq<char>,
                >(m);
            assert(steps[b] is Ok);
        },
        _ => {},
    }
}

/// A listed entry was met by some step, and no step of a listed archive is an error.
proof fn lemma_listed(steps: Seq<Result<(Seq<u8>, u64, u8), Seq<char>>>, k: int)
    requires
        top_level(steps) matches Ok(found) && 0 <= k < found.len(),
    ensures
        no_error(steps),
        ({
            let e = top_level(steps)->Ok_0[k];
            exists|i: int| is_named(steps, e.name, i) && (#[trigger] steps[i])->Ok_0.1 == e.size
        }),
    decreases steps.len(),
{
    let before = steps.drop_last();
    lemma_no_error(steps);
    let found = top_level(before)->Ok_0;
    if k < found.len() {
        lemma_listed(before, k);
        let i = choose|i: int|
            is_named(before, found[k].name, i) && (#[trigger] before[i])->Ok_0.1 == found[k].size;
        assert(steps[i] == before[i]);
    } else {
        assert(steps[steps.len() - 1] == steps.last());
    }
}

proof fn lemma_no_error(steps: Seq<Result<(Seq<u8>, u64, u8), Seq<char>>>)
    requires
        top_level(steps) is Ok,
    ensures
        no_error(steps),
    decreases steps.len(),
{
    if steps.len() > 0 {
        let before = steps.drop_last();
        lemma_no_error(before);
        assert forall|i: int| 0 <= i < steps.len() implies (#[trigger] steps[i]) is Ok by {
            if i < before.len() {
                assert(before[i] is Ok);
            }
        }
    }
}

/// A frame declares the size that was written into its header: behind the magic number stand a flag
/// byte with bit `0x08` set, another byte, and the eight bytes of the size, low byte first.
pub proof fn law_declared_sizes_are_read_back(data: Seq<u8>, n: u64)
    requires
        data.len() >= 14,
        data[0] == 0x04 && data[1] == 0x22 && data[2] == 0x4D && data[3] == 0x18,
        data[4] / 8 % 2 == 1,
        holds64(data, 6, n as int),
    ensures
        declared_size(data) == Some(n),
{
    assert(LZ4_FRAME_MAGIC@ == data.subrange(0, 4));
    let flags = data[4];
    assert(flags & 0x08 != 0 <==> flags / 8 % 2 == 1) by (bit_vector);
    law_64_bits_are_read_back(data, 6, n);
}

/// What is no frame declares no size; nor does a frame whose flag is not set, or one that is cut
/// off within its header.
pub proof fn law_nothing_else_declares_a_size(data: Seq<u8>)
    requires
        data.len() < 14 || data[0] != 0x04 || data[1] != 0x22 || data[2] != 0x4D || data[3] != 0x18
            || data[4] / 8 % 2 == 0,
    ensures
        declared_size(data) is None,
{
    if data.len() >= 14 {
        let flags = data[4];
        assert(flags & 0x08 != 0 <==> flags / 8 % 2 == 1) by (bit_vector);
        if LZ4_FRAME_MAGIC@.is_prefix_of(data) {
            assert(data[0] == LZ4_FRAME_MAGIC@[0] && data[1] == LZ4_FRAME_MAGIC@[1] && data[2]
                == LZ4_FRAME_MAGIC@[2] && data[3] == LZ4_FRAME_MAGIC@[3]);
        }
    }
}

/// Every top-level file that a walk meets is listed, behind those that it met before, by its name and
/// its size: an entry of type `0`, `7` or `S` whose path is a plain name.
pub proof fn law_every_top_level_file_is_listed(
    steps: Seq<Result<(Seq<u8>, u64, u8), Seq<char>>>,
    i: int,
    path: Seq<u8>,
    size: u64,
    kind: u8,
)
    requires
        no_error(steps),
        0 <= i < steps.len(),
        steps[i] == Ok::<(Seq<u8>, u64, u8), Seq<char>>((path, size, kind)),
        kind == 0x30 || kind == 0x37 || kind == 0x53,
        path.len() > 0,
        !path.contains(0x2F),
    ensures
        top_level(steps.take(i)) is Ok,
        top_level(steps) is Ok,
        ({
            let at = top_level(steps.take(i))->Ok_0.len() as int;
            let found = top_level(steps)->Ok_0;
            at < found.len() && found[at].name == utf8_text(path) && found[at].size == size
        }),
{
    law_components_are_counted(path, path);
    assert(path.contains(path[path.len() - 1]));
    assert(steps.take(i + 1).drop_last() == steps.take(i));
    lemma_listed_prefix(steps, i);
    lemma_listed_prefix(steps, i + 1);
    let short = top_level(steps.take(i))->Ok_0;
    let long = top_level(steps.take(i + 1))->Ok_0;
    let found = top_level(steps)->Ok_0;
    assert(steps.take(i + 1).last() == steps[i]);
    assert(is_top_file(path, kind));
    assert(long == short.push(EntryInfo { name: utf8_text(path), size }));
    assert(long[short.len() as int] == found[short.len() as int]);
}

/// What a walk lists up to some step, it lists in all, and more behind it.
proof fn lemma_listed_prefix(steps: Seq<Result<(Seq<u8>, u64, u8), Seq<char>>>, n: int)
    requires
        no_error(steps),
        0 <= n <= steps.len(),
    ensures
        top_level(steps.take(n)) is Ok,
        top_level(steps) is Ok,
        top_level(steps.take(n))->Ok_0.is_prefix_of(top_level(steps)->Ok_0),
    decreases steps.len(),
{
    if n == steps.len() {
        assert(steps.take(n) == steps);
        if n > 0 {
            let before = steps.drop_last();
            assert(before == steps.take(n - 1));
            assert forall|i: int| 0 <= i < before.len() implies (#[trigger] before[i]) is Ok by {
                assert(steps[i] is Ok);
            }
            lemma_listed_prefix(before, n - 1);
            assert(steps[steps.len() - 1] is Ok);
        }
    } else {
        let before = steps.drop_last();
        assert forall|i: int| 0 <= i < before.len() implies (#[trigger] before[i]) is Ok by {
            assert(steps[i] is Ok);
        }
        assert(before.take(n) == steps.take(n));
        lemma_listed_prefix(before, n);
        assert(steps[steps.len() - 1] is Ok);
    }
}

/// An entry of another type is not listed, nor is a directory, nor what stands within one.
pub proof fn law_nothing_else_is_listed(
    steps: Seq<Result<(Seq<u8>, u64, u8), Seq<char>>>,
    path: Seq<u8>,
    size: u64,
    kind: u8,
    dir: Seq<u8>,
    name: Seq<u8>,
)
    requires
        (kind != 0x30 && kind != 0x37 && kind != 0x53) || path.len() == 0 || path.last() == 0x2F || (
        path == dir + seq![0x2Fu8] + name && dir.len() > 0 && name.len() > 0 && !name.contains(0x2F)
            && name != seq![0x2Eu8]),
    ensures
        top_level(steps) is Ok ==> top_level(steps.push(Ok((path, size, kind)))) == top_level(steps),
{
    let all = steps.push(Ok((path, size, kind)));
    assert(all.drop_last() == steps);
    if path.len() == 0 {
        lemma_no_path(path);
    } else if path.last() != 0x2F && (kind == 0x30 || kind == 0x37 || kind == 0x53) {
        law_components_are_counted(dir, name);
        lemma_some_component(dir);
    }
}

/// A path that is not empty has a component.
proof fn lemma_some_component(path: Seq<u8>)
    requires
        path.len() > 0,
    ensures
        component_count(path) >= 1,
{
    let pieces = segments(path, 0x2F);
    lemma_first_piece(path);
    if path[0] != 0x2F && pieces[0] != seq![0x2Eu8] {
        lemma_counts_one(pieces, 0);
    }
}

proof fn lemma_first_piece(path: Seq<u8>)
    requires
        path.len() > 0,
    ensures
        segments(path, 0x2F).len() >= 1,
        path[0] != 0x2F ==> segments(path, 0x2F)[0].len() > 0,
    decreases path.len(),
{
    let before = path.drop_last();
    lemma_segments_nonempty(before, 0x2F);
    if before.len() > 0 {
        lemma_first_piece(before);
    }
}

proof fn lemma_counts_one(pieces: Seq<Seq<u8>>, i: int)
    requires
        0 <= i < pieces.len(),
        is_component(pieces[i]),
    ensures
        count_components(pieces) >= 1,
    decreases pieces.len(),
{
    if i < pieces.len() - 1 {
        lemma_counts_one(pieces.drop_last(), i);
    }
}

/// The first error that a walk meets is what its listing fails with.
pub proof fn law_first_error_fails_the_listing(
    before: Seq<Result<(Seq<u8>, u64, u8), Seq<char>>>,
    m: Seq<char>,
    after: Seq<Result<(Seq<u8>, u64, u8), Seq<char>>>,
)
    requires
        no_error(before),
    ensures
        top_level(before.push(Err(m)) + after) == Err::<Seq<EntryInfo>, ArchiveFault>(
            ArchiveFault::Tar(m),
        ),
{
    let all = before.push(Err(m)) + after;
    let n = before.len() + 1;
    assert(all.take(n as int) == before.push(Err(m)));
    assert(before.push(Err(m)).drop_last() == before);
    lemma_listed_prefix(before, before.len() as int);
    lemma_error_stays(all, n as int);
}

/// An entry is an image under its own name and size; it is compressed if its name ends in `.lz4`, and
/// then as large on the device as its frame declares.
pub proof fn law_images_have_their_real_size(name: Seq<char>, stored: u64, head: Seq<u8>, n: u64)
    requires
        head.len() >= 14,
        head[0] == 0x04 && head[1] == 0x22 && head[2] == 0x4D && head[3] == 0x18,
        head[4] / 8 % 2 == 1,
        holds64(head, 6, n as int),
    ensures
        real_size(name + ".lz4"@, stored, head) == n,
        (forall|x: Seq<char>| name != #[trigger] (x + ".lz4"@)) ==> real_size(name, stored, head)
            == stored,
{
    law_declared_sizes_are_read_back(head, n);
    let base = name + ".lz4"@;
    assert(base.subrange(base.len() - ".lz4"@.len(), base.len() as int) == ".lz4"@);
    if ends_in(name, ".lz4"@) {
        let x = name.subrange(0, name.len() - ".lz4"@.len());
        assert(name == x + ".lz4"@);
    }
}

} // verus!
