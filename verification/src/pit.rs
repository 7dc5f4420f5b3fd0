//! PIT (Partition Information Table) parsing.
//!
//! A PIT is the map of a phone's storage: which partitions exist, how big they are, and what
//! file name each expects. The flash protocol addresses partitions by numeric id and type, not
//! by name, so nothing can be flashed without one.
//!
//! Binary layout (little-endian, fixed-width, no padding):
//! - Header, 28 bytes: magic `0x12349876`, entry count, 8-byte `unknown` string, 8-byte
//!   `project` string, reserved i32.
//! - Then `count` entries of 132 bytes each: nine i32 fields, then three 32-byte strings
//!   (`partition`, `file_name`, `delta_name`).

use vstd::prelude::*;
use vstd::string::StringExecFns;

use crate::bytes::{
    holds32, i32_at, law_32_bits_are_read_back, law_signed_32_bits_are_read_back, lemma_nul_len,
    nul_len, nul_position, pattern, read_u32, to_signed32, u32_at,
};
use crate::text::{
    hex_text, hex_upper, is_digits, law_ascii_text, law_padded_hex_stands_for_its_number, number_of,
    pad_left, padded_left, text_from_utf8, utf8_text,
};

verus! {

/// Magic number every PIT begins with.
pub const PIT_MAGIC: u32 = 0x1234_9876;

/// Bytes in the header.
pub const HEADER_LEN: usize = 28;

/// Bytes in one entry.
pub const ENTRY_LEN: usize = 132;

/// One partition's row in the PIT.
#[derive(Debug, Default, PartialEq, Eq)]
pub struct PitEntry {
    pub binary_type: i32,
    pub device_type: i32,
    pub partition_id: i32,
    pub attributes: i32,
    pub update_attributes: i32,
    /// Block size on old PITs; the partition's start block on new ones.
    pub block_size: i32,
    pub block_count: i32,
    pub file_offset: i32,
    pub file_size: i32,
    pub partition: String,
    pub file_name: String,
    pub delta_name: String,
}

/// A parsed PIT: header fields plus every entry.
#[derive(Debug, Default, Clone)]
pub struct PitData {
    pub entries: Vec<PitEntry>,
    /// True when the `block_size` field varies between entries, which tells new-generation PITs
    /// from old ones.
    pub is_new_version: bool,
    pub unknown: String,
    pub project: String,
    pub reserved: i32,
}

/// Why a PIT failed to parse.
#[derive(Debug, PartialEq, Eq, Structural)]
pub enum PitError {
    /// First four bytes were not [`PIT_MAGIC`].
    BadMagic(u32),
    /// The buffer ended before a declared field could be read.
    Truncated,
}

/// What an entry says, with its names as sequences of characters.
#[verifier::ext_equal]
pub struct EntryModel {
    pub binary_type: i32,
    pub device_type: i32,
    pub partition_id: i32,
    pub attributes: i32,
    pub update_attributes: i32,
    pub block_size: i32,
    pub block_count: i32,
    pub file_offset: i32,
    pub file_size: i32,
    pub partition: Seq<char>,
    pub file_name: Seq<char>,
    pub delta_name: Seq<char>,
}

/// What a PIT says.
#[verifier::ext_equal]
pub struct PitModel {
    pub entries: Seq<EntryModel>,
    pub is_new_version: bool,
    pub unknown: Seq<char>,
    pub project: Seq<char>,
    pub reserved: i32,
}

impl View for PitEntry {
    type V = EntryModel;

    open spec fn view(&self) -> EntryModel {
        EntryModel {
            binary_type: self.binary_type,
            device_type: self.device_type,
            partition_id: self.partition_id,
            attributes: self.attributes,
            update_attributes: self.update_attributes,
            block_size: self.block_size,
            block_count: self.block_count,
            file_offset: self.file_offset,
            file_size: self.file_size,
            partition: self.partition@,
            file_name: self.file_name@,
            delta_name: self.delta_name@,
        }
    }
}

impl View for PitData {
    type V = PitModel;

    open spec fn view(&self) -> PitModel {
        PitModel {
            entries: Seq::new(self.entries@.len(), |i: int| self.entries@[i]@),
            is_new_version: self.is_new_version,
            unknown: self.unknown@,
            project: self.project@,
            reserved: self.reserved,
        }
    }
}

/// The text of the `n`-byte field at `at`: its bytes up to the first NUL.
pub open spec fn field_text(b: Seq<u8>, at: int, n: int) -> Seq<char> {
    let field = b.subrange(at, at + n);
    utf8_text(field.take(nul_len(field) as int))
}

/// The entry whose 132 bytes start at `at`.
pub open spec fn entry_at(b: Seq<u8>, at: int) -> EntryModel {
    EntryModel {
        binary_type: i32_at(b, at),
        device_type: i32_at(b, at + 4),
        partition_id: i32_at(b, at + 8),
        attributes: i32_at(b, at + 12),
        update_attributes: i32_at(b, at + 16),
        block_size: i32_at(b, at + 20),
        block_count: i32_at(b, at + 24),
        file_offset: i32_at(b, at + 28),
        file_size: i32_at(b, at + 32),
        partition: field_text(b, at + 36, 32),
        file_name: field_text(b, at + 68, 32),
        delta_name: field_text(b, at + 100, 32),
    }
}

/// How many entries the header declares. A negative count declares none.
pub open spec fn declared_count(b: Seq<u8>) -> nat {
    if i32_at(b, 4) > 0 {
        i32_at(b, 4) as nat
    } else {
        0
    }
}

/// Where entry `i` starts.
pub open spec fn entry_offset(i: int) -> int {
    28 + 132 * i
}

/// Whether the block-size field varies between neighbouring entries.
pub open spec fn block_sizes_vary(entries: Seq<EntryModel>) -> bool {
    exists|i: int|
        0 < i < entries.len() && (#[trigger] entries[i]).block_size != entries[i - 1].block_size
}

/// The entries that the header declares.
pub open spec fn declared_entries(b: Seq<u8>) -> Seq<EntryModel> {
    Seq::new(declared_count(b), |i: int| entry_at(b, entry_offset(i)))
}

/// The PIT that the bytes hold, or why they hold none. Bytes behind the last declared entry do
/// not matter.
pub open spec fn pit_of(b: Seq<u8>) -> Result<PitModel, PitError> {
    if b.len() < 4 {
        Err(PitError::Truncated)
    } else if u32_at(b, 0) != PIT_MAGIC {
        Err(PitError::BadMagic(u32_at(b, 0)))
    } else if b.len() < 28 || b.len() < entry_offset(declared_count(b) as int) {
        Err(PitError::Truncated)
    } else {
        Ok(
            PitModel {
                entries: declared_entries(b),
                is_new_version: block_sizes_vary(declared_entries(b)),
                unknown: field_text(b, 8, 8),
                project: field_text(b, 16, 8),
                reserved: i32_at(b, 24),
            },
        )
    }
}

/// What a parse came to, by the table's content.
pub open spec fn parse_outcome(r: Result<PitData, PitError>) -> Result<PitModel, PitError> {
    match r {
        Ok(pit) => Ok(pit@),
        Err(e) => Err(e),
    }
}

impl Clone for PitEntry {
    fn clone(&self) -> (r: Self)
        ensures
            r == *self,
    {
        PitEntry {
            binary_type: self.binary_type,
            device_type: self.device_type,
            partition_id: self.partition_id,
            attributes: self.attributes,
            update_attributes: self.update_attributes,
            block_size: self.block_size,
            block_count: self.block_count,
            file_offset: self.file_offset,
            file_size: self.file_size,
            partition: self.partition.clone(),
            file_name: self.file_name.clone(),
            delta_name: self.delta_name.clone(),
        }
    }
}

/// The text of a parse error.
pub open spec fn pit_error_text(e: PitError) -> Seq<char> {
    match e {
        PitError::BadMagic(m) => "magic number mismatch: got 0x"@ + pad_left(
            hex_upper(m as nat),
            8,
            '0',
        ),
        PitError::Truncated => "PIT data ended unexpectedly"@,
    }
}

impl PitError {
    /// The error in words.
    pub fn message(&self) -> (s: String)
        ensures
            s@ == pit_error_text(*self),
    {
        match self {
            PitError::BadMagic(m) => {
                let mut s = String::from_str("magic number mismatch: got 0x");
                let digits = hex_text(*m as u64, true);
                let padded = padded_left(digits.as_str(), 8, '0');
                s.append(padded.as_str());
                s
            },
            PitError::Truncated => String::from_str("PIT data ended unexpectedly"),
        }
    }
}

/// Read the signed number at `at`.
fn read_i32(b: &[u8], at: usize) -> (r: i32)
    requires
        at + 4 <= b.len(),
    ensures
        r == i32_at(b@, at as int),
{
    to_signed32(read_u32(b, at))
}

/// Read the `n` bytes at `at` as text, up to the first NUL.
fn fixed_string(b: &[u8], at: usize, n: usize) -> (s: String)
    requires
        at + n <= b.len(),
    ensures
        s@ == field_text(b@, at as int, n as int),
{
    let field: &[u8] = &b[at..at + n];
    let end: usize = nul_position(field);
    let head: &[u8] = &field[0..end];
    assert(head@ == field@.take(end as int));
    text_from_utf8(head)
}

/// Read the entry at `at`.
fn read_entry(b: &[u8], at: usize) -> (e: PitEntry)
    requires
        at + ENTRY_LEN <= b.len(),
    ensures
        e@ == entry_at(b@, at as int),
{
    PitEntry {
        binary_type: read_i32(b, at),
        device_type: read_i32(b, at + 4),
        partition_id: read_i32(b, at + 8),
        attributes: read_i32(b, at + 12),
        update_attributes: read_i32(b, at + 16),
        block_size: read_i32(b, at + 20),
        block_count: read_i32(b, at + 24),
        file_offset: read_i32(b, at + 28),
        file_size: read_i32(b, at + 32),
        partition: fixed_string(b, at + 36, 32),
        file_name: fixed_string(b, at + 68, 32),
        delta_name: fixed_string(b, at + 100, 32),
    }
}

impl PitData {
    /// Parse a PIT from raw bytes (a `.pit` file or a live dump).
    ///
    /// Trailing bytes after the last declared entry are ignored: live dumps are padded to a
    /// block boundary.
    pub fn parse(bytes: &[u8]) -> (r: Result<PitData, PitError>)
        ensures
            parse_outcome(r) == pit_of(bytes@),
    {
        if bytes.len() < 4 {
            return Err(PitError::Truncated);
        }
        let magic: u32 = read_u32(bytes, 0);
        if magic != PIT_MAGIC {
            return Err(PitError::BadMagic(magic));
        }
        if bytes.len() < HEADER_LEN {
            return Err(PitError::Truncated);
        }
        let count: i32 = read_i32(bytes, 4);
        let unknown = fixed_string(bytes, 8, 8);
        let project = fixed_string(bytes, 16, 8);
        let reserved: i32 = read_i32(bytes, 24);

        let ghost all = declared_entries(bytes@);
        let mut entries: Vec<PitEntry> = Vec::new();
        let mut is_new_version = false;
        let mut last_block_size: i32 = 0;
        let mut i: i32 = 0;
        let mut pos: usize = HEADER_LEN;
        while i < count
            invariant
                count == i32_at(bytes@, 4),
                all == declared_entries(bytes@),
                0 <= i,
                i <= declared_count(bytes@),
                pos == entry_offset(i as int),
                pos <= bytes.len(),
                entries@.len() == i,
                forall|k: int| 0 <= k < i ==> #[trigger] entries@[k]@ == all[k],
                i > 0 ==> last_block_size == all[i - 1].block_size,
                is_new_version == block_sizes_vary(all.take(i as int)),
                u32_at(bytes@, 0) == PIT_MAGIC,
                bytes.len() >= HEADER_LEN,
            decreases count - i,
        {
            if bytes.len() - pos < ENTRY_LEN {
                return Err(PitError::Truncated);
            }
            let entry = read_entry(bytes, pos);
            assert(entry@ == all[i as int]);
            proof {
                let before = all.take(i as int);
                let after = all.take(i + 1);
                if block_sizes_vary(before) {
                    let k = choose|k: int|
                        0 < k < before.len() && (#[trigger] before[k]).block_size != before[k
                            - 1].block_size;
                    assert(after[k].block_size != after[k - 1].block_size);
                }
                if i > 0 && last_block_size != entry.block_size {
                    assert(after[i as int].block_size != after[i - 1].block_size);
                }
                if block_sizes_vary(after) {
                    let k = choose|k: int|
                        0 < k < after.len() && (#[trigger] after[k]).block_size != after[k
                            - 1].block_size;
                    if k < i {
                        assert(before[k].block_size != before[k - 1].block_size);
                    }
                }
            }
            if i > 0 && last_block_size != entry.block_size {
                is_new_version = true;
            }
            last_block_size = entry.block_size;
            entries.push(entry);
            i = i + 1;
            pos = pos + ENTRY_LEN;
        }
        assert(all.take(i as int) == all);
        let pit = PitData { entries, is_new_version, unknown, project, reserved };
        assert(pit@.entries == all);
        Ok(pit)
    }
}

/// One PIT field's human-readable labelling: the field's own name plus the descriptions for
/// each numeric value it can hold.
#[derive(Debug, Clone, Copy)]
pub struct Field {
    pub label: &'static str,
    pub values: &'static [&'static str],
}

impl Field {
    /// The descriptions of the values 0, 1, 2 and so on.
    pub open spec fn descriptions(&self) -> Seq<Seq<char>> {
        Seq::new(self.values@.len(), |i: int| self.values@[i]@)
    }

    /// The description of a raw value: `"Unknown"` where there is none.
    pub open spec fn described(&self, value: i32) -> Seq<char> {
        if 0 <= value < self.descriptions().len() {
            self.descriptions()[value as int]
        } else {
            "Unknown"@
        }
    }

    fn new(label: &'static str, values: &'static [&'static str]) -> (f: Field)
        ensures
            f.label == label,
            f.descriptions() == Seq::new(values@.len(), |i: int| values@[i]@),
    {
        Field { label, values }
    }

    /// Describe a raw value, or `"Unknown"` if it is out of range.
    pub fn describe(&self, value: i32) -> (s: &'static str)
        ensures
            s@ == self.described(value),
    {
        if value >= 0 && (value as u64) < self.values.len() as u64 {
            self.values[value as usize]
        } else {
            "Unknown"
        }
    }
}

/// The labels and descriptions used to render a PIT, which differ between the old and new PIT
/// generations.
#[derive(Debug, Clone, Copy)]
pub struct FieldMapper {
    pub binary_type: Field,
    pub device_type: Field,
    pub attributes: Field,
    pub update_attributes: Field,
    pub block_size_label: &'static str,
    pub block_count_label: &'static str,
}

/// Whether a field has this label and these descriptions.
pub open spec fn field_is(f: Field, label: Seq<char>, descriptions: Seq<Seq<char>>) -> bool {
    f.label@ == label && f.descriptions() == descriptions
}

/// What the values of `binary_type` mean.
pub open spec fn binary_types() -> Seq<Seq<char>> {
    seq!["Phone / AP"@, "Modem / CP"@]
}

/// What the values of `device_type` mean.
pub open spec fn device_types(is_new: bool) -> Seq<Seq<char>> {
    if is_new {
        seq!["OneNAND"@, "NAND"@, "EMMC"@, "SPI"@, "IDE"@, "NAND X16"@]
    } else {
        seq!["OneNAND"@, "NAND"@, "MoviNAND"@]
    }
}

/// What the values of `attributes` mean.
pub open spec fn attribute_values(is_new: bool) -> Seq<Seq<char>> {
    if is_new {
        seq![
            "None"@,
            "BCT"@,
            "Bootloader"@,
            "Partition Table"@,
            "NV-Data"@,
            "Data"@,
            "MBR"@,
            "EBR"@,
            "GP1"@,
            "GP1"@,
        ]
    } else {
        seq!["Read-only"@, "Read-write"@, "STL"@]
    }
}

/// What the values of `update_attributes` mean.
pub open spec fn update_attribute_values(is_new: bool) -> Seq<Seq<char>> {
    if is_new {
        seq!["None"@, "Basic"@, "Enhanced"@, "EXT2"@, "YAFFS2"@, "EXT4"@]
    } else {
        seq!["None"@, "FOTA"@, "Secure"@, "Secure FOTA"@]
    }
}

/// Whether a mapper holds the labels of the given PIT generation.
pub open spec fn is_mapper_for(m: FieldMapper, is_new: bool) -> bool {
    &&& field_is(m.binary_type, "Binary Type"@, binary_types())
    &&& field_is(m.device_type, "Device Type"@, device_types(is_new))
    &&& field_is(
        m.attributes,
        if is_new {
            "Partition Type"@
        } else {
            "Attributes"@
        },
        attribute_values(is_new),
    )
    &&& field_is(
        m.update_attributes,
        if is_new {
            "Filesystem"@
        } else {
            "Update Attributes"@
        },
        update_attribute_values(is_new),
    )
    &&& m.block_size_label@ == if is_new {
        "Start Block"@
    } else {
        "Block Size"@
    }
    &&& m.block_count_label@ == "Block Count"@
}

impl FieldMapper {
    /// Pick the mapper matching a PIT's generation.
    pub fn for_version(is_new: bool) -> (m: FieldMapper)
        ensures
            is_mapper_for(m, is_new),
    {
        let m = if is_new {
            FieldMapper {
                binary_type: Field::new("Binary Type", &["Phone / AP", "Modem / CP"]),
                device_type: Field::new(
                    "Device Type",
                    &["OneNAND", "NAND", "EMMC", "SPI", "IDE", "NAND X16"],
                ),
                attributes: Field::new(
                    "Partition Type",
                    &[
                        "None",
                        "BCT",
                        "Bootloader",
                        "Partition Table",
                        "NV-Data",
                        "Data",
                        "MBR",
                        "EBR",
                        "GP1",
                        "GP1",
                    ],
                ),
                update_attributes: Field::new(
                    "Filesystem",
                    &["None", "Basic", "Enhanced", "EXT2", "YAFFS2", "EXT4"],
                ),
                block_size_label: "Start Block",
                block_count_label: "Block Count",
            }
        } else {
            FieldMapper {
                binary_type: Field::new("Binary Type", &["Phone / AP", "Modem / CP"]),
                device_type: Field::new("Device Type", &["OneNAND", "NAND", "MoviNAND"]),
                attributes: Field::new("Attributes", &["Read-only", "Read-write", "STL"]),
                update_attributes: Field::new(
                    "Update Attributes",
                    &["None", "FOTA", "Secure", "Secure FOTA"],
                ),
                block_size_label: "Block Size",
                block_count_label: "Block Count",
            }
        };
        assert(m.binary_type.descriptions() == binary_types());
        assert(m.device_type.descriptions() == device_types(is_new));
        assert(m.attributes.descriptions() == attribute_values(is_new));
        assert(m.update_attributes.descriptions() == update_attribute_values(is_new));
        m
    }
}

/// Bytes behind the last declared entry change nothing: a table that parses, parses the same
/// with anything appended.
pub proof fn law_trailing_bytes_ignored(b: Seq<u8>, tail: Seq<u8>)
    requires
        pit_of(b) is Ok,
    ensures
        pit_of(b + tail) == pit_of(b),
{
    let c = b + tail;
    assert forall|at: int, n: int| 0 <= at && 0 <= n && at + n <= b.len() implies #[trigger] field_text(c, at, n)
        == field_text(b, at, n) by {
        assert(c.subrange(at, at + n) == b.subrange(at, at + n));
    }
    assert forall|i: int| 0 <= i < declared_count(b) implies entry_at(c, entry_offset(i))
        == #[trigger] entry_at(b, entry_offset(i)) by {
        let at = entry_offset(i);
        assert(at + 132 <= b.len());
    }
    assert(declared_entries(c) == declared_entries(b));
}

/// A name in ASCII that is followed by a NUL, or fills its field, is read as it stands.
pub proof fn law_ascii_names(b: Seq<u8>, at: int, n: int, len: int)
    requires
        0 <= at && 0 <= len <= n && at + n <= b.len(),
        forall|i: int| at <= i < at + len ==> 0 < #[trigger] b[i] < 0x80,
        len < n ==> b[at + len] == 0,
    ensures
        field_text(b, at, n) == Seq::new(len as nat, |i: int| b[at + i] as char),
{
    let field = b.subrange(at, at + n);
    lemma_nul_len(field, len as nat);
    let name = field.take(len);
    law_ascii_text(name);
    assert(field_text(b, at, n) == Seq::new(len as nat, |i: int| b[at + i] as char));
}

/// A parsed table has as many entries as its header declares, and the bytes to hold them.
pub proof fn law_entry_count(b: Seq<u8>)
    requires
        pit_of(b) is Ok,
    ensures
        pit_of(b)->Ok_0.entries.len() == declared_count(b),
        b.len() >= 28 + 132 * pit_of(b)->Ok_0.entries.len(),
{
}

/// With the right magic, a table parses exactly when it is long enough for what it declares.
pub proof fn law_truncation(b: Seq<u8>)
    requires
        b.len() >= 28,
        u32_at(b, 0) == PIT_MAGIC,
    ensures
        pit_of(b) is Ok <==> b.len() >= 28 + 132 * declared_count(b),
        pit_of(b) is Err ==> pit_of(b)->Err_0 == PitError::Truncated,
{
}

/// A PIT is of the old generation exactly when all its entries have the same block size.
pub proof fn law_generation(entries: Seq<EntryModel>)
    ensures
        !block_sizes_vary(entries) <==> (forall|i: int, j: int|
            0 <= i < entries.len() && 0 <= j < entries.len() ==> entries[i].block_size
                == entries[j].block_size),
{
    if !block_sizes_vary(entries) {
        assert forall|i: int| 0 <= i < entries.len() implies (#[trigger] entries[i]).block_size
            == entries[0].block_size by {
            lemma_same_as_first(entries, i);
        }
    }
}

proof fn lemma_same_as_first(entries: Seq<EntryModel>, i: int)
    requires
        !block_sizes_vary(entries),
        0 <= i < entries.len(),
    ensures
        entries[i].block_size == entries[0].block_size,
    decreases i,
{
    if i > 0 {
        lemma_same_as_first(entries, i - 1);
        assert(entries[i].block_size == entries[i - 1].block_size);
    }
}

/// A name stands in the `n` bytes at `at`: its characters are ASCII and none is NUL, they stand there
/// byte for byte, and NULs fill up the rest.
pub open spec fn name_stands(b: Seq<u8>, at: int, n: int, name: Seq<char>) -> bool {
    &&& 0 <= at && at + n <= b.len()
    &&& name.len() <= n
    &&& forall|i: int|
        0 <= i < name.len() ==> 0 < (#[trigger] name[i]) as int && (name[i] as int) < 0x80 && b[at
            + i] as int == name[i] as int
    &&& forall|j: int| at + name.len() <= j < at + n ==> #[trigger] b[j] == 0
}

/// A name that stands in a field is read as it is written.
pub proof fn law_names_are_read_back(b: Seq<u8>, at: int, n: int, name: Seq<char>)
    requires
        name_stands(b, at, n, name),
    ensures
        field_text(b, at, n) == name,
{
    let len = name.len() as int;
    assert forall|i: int| at <= i < at + len implies 0 < #[trigger] b[i] < 0x80 by {
        assert(name[i - at] as int == b[at + (i - at)]);
    }
    law_ascii_names(b, at, n, len);
    assert forall|i: int| 0 <= i < len implies b[at + i] as char == #[trigger] name[i] by {}
    assert(Seq::new(len as nat, |i: int| b[at + i] as char) == name);
}

/// An entry stands in the 132 bytes at `at`: nine numbers of four bytes, low byte first, then three
/// names of 32 bytes.
pub open spec fn entry_stands(b: Seq<u8>, at: int, e: EntryModel) -> bool {
    &&& holds32(b, at, pattern(e.binary_type as int, 0x1_0000_0000))
    &&& holds32(b, at + 4, pattern(e.device_type as int, 0x1_0000_0000))
    &&& holds32(b, at + 8, pattern(e.partition_id as int, 0x1_0000_0000))
    &&& holds32(b, at + 12, pattern(e.attributes as int, 0x1_0000_0000))
    &&& holds32(b, at + 16, pattern(e.update_attributes as int, 0x1_0000_0000))
    &&& holds32(b, at + 20, pattern(e.block_size as int, 0x1_0000_0000))
    &&& holds32(b, at + 24, pattern(e.block_count as int, 0x1_0000_0000))
    &&& holds32(b, at + 28, pattern(e.file_offset as int, 0x1_0000_0000))
    &&& holds32(b, at + 32, pattern(e.file_size as int, 0x1_0000_0000))
    &&& name_stands(b, at + 36, 32, e.partition)
    &&& name_stands(b, at + 68, 32, e.file_name)
    &&& name_stands(b, at + 100, 32, e.delta_name)
}

/// A table stands in the bytes: the magic number, the number of entries, two names of 8 bytes and a
/// number, and then the entries, each behind the other.
pub open spec fn table_stands(b: Seq<u8>, pit: PitModel) -> bool {
    &&& holds32(b, 0, 0x1234_9876)
    &&& holds32(b, 4, pit.entries.len() as int)
    &&& pit.entries.len() < 0x8000_0000
    &&& name_stands(b, 8, 8, pit.unknown)
    &&& name_stands(b, 16, 8, pit.project)
    &&& holds32(b, 24, pattern(pit.reserved as int, 0x1_0000_0000))
    &&& forall|i: int|
        0 <= i < pit.entries.len() ==> entry_stands(b, 28 + 132 * i, #[trigger] pit.entries[i])
}

/// Parsing a table gives back what was written: every number and every name. It is of the new
/// generation where two of its entries differ in their block size.
pub proof fn law_tables_are_read_back(b: Seq<u8>, pit: PitModel)
    requires
        table_stands(b, pit),
        pit.is_new_version <==> exists|i: int, j: int|
            0 <= i < pit.entries.len() && 0 <= j < pit.entries.len()
                && #[trigger] pit.entries[i].block_size != #[trigger] pit.entries[j].block_size,
    ensures
        pit_of(b) == Ok::<PitModel, PitError>(pit),
{
    law_32_bits_are_read_back(b, 0, 0x1234_9876);
    law_signed_32_bits_are_read_back(b, 4, pit.entries.len() as i32);
    law_signed_32_bits_are_read_back(b, 24, pit.reserved);
    law_names_are_read_back(b, 8, 8, pit.unknown);
    law_names_are_read_back(b, 16, 8, pit.project);
    let n = pit.entries.len() as int;
    assert forall|i: int| 0 <= i < n implies entry_at(b, entry_offset(i)) == #[trigger] pit.entries[i] by {
        lemma_entry_is_read_back(b, 28 + 132 * i, pit.entries[i]);
    }
    assert(declared_entries(b) == pit.entries);
    if n > 0 {
        assert(entry_stands(b, 28 + 132 * (n - 1), pit.entries[n - 1]));
    }
    law_generation(pit.entries);
}

proof fn lemma_entry_is_read_back(b: Seq<u8>, at: int, e: EntryModel)
    requires
        entry_stands(b, at, e),
    ensures
        entry_at(b, at) == e,
{
    law_signed_32_bits_are_read_back(b, at, e.binary_type);
    law_signed_32_bits_are_read_back(b, at + 4, e.device_type);
    law_signed_32_bits_are_read_back(b, at + 8, e.partition_id);
    law_signed_32_bits_are_read_back(b, at + 12, e.attributes);
    law_signed_32_bits_are_read_back(b, at + 16, e.update_attributes);
    law_signed_32_bits_are_read_back(b, at + 20, e.block_size);
    law_signed_32_bits_are_read_back(b, at + 24, e.block_count);
    law_signed_32_bits_are_read_back(b, at + 28, e.file_offset);
    law_signed_32_bits_are_read_back(b, at + 32, e.file_size);
    law_names_are_read_back(b, at + 36, 32, e.partition);
    law_names_are_read_back(b, at + 68, 32, e.file_name);
    law_names_are_read_back(b, at + 100, 32, e.delta_name);
}

/// What does not begin with the magic number is no table, and the error shows the number that it
/// begins with.
pub proof fn law_wrong_magic_is_refused(b: Seq<u8>, m: u32)
    requires
        holds32(b, 0, m as int),
        m != 0x1234_9876,
    ensures
        pit_of(b) == Err::<PitModel, PitError>(PitError::BadMagic(m)),
{
    law_32_bits_are_read_back(b, 0, m);
}

/// A table that is cut off anywhere before its last entry ends does not parse.
pub proof fn law_cut_tables_are_refused(b: Seq<u8>, pit: PitModel, n: int)
    requires
        table_stands(b, pit),
        4 <= n < 28 + 132 * pit.entries.len(),
        n <= b.len(),
    ensures
        pit_of(b.take(n)) == Err::<PitModel, PitError>(PitError::Truncated),
{
    let c = b.take(n);
    assert(holds32(c, 0, 0x1234_9876));
    law_32_bits_are_read_back(c, 0, 0x1234_9876);
    if n >= 28 {
        assert(holds32(c, 4, pit.entries.len() as int));
        law_signed_32_bits_are_read_back(c, 4, pit.entries.len() as i32);
    }
}

/// A table that declares a negative number of entries has none.
pub proof fn law_negative_counts_declare_nothing(b: Seq<u8>, count: i32)
    requires
        b.len() >= 28,
        holds32(b, 0, 0x1234_9876),
        count < 0,
        holds32(b, 4, pattern(count as int, 0x1_0000_0000)),
    ensures
        pit_of(b) matches Ok(pit) && pit.entries.len() == 0 && !pit.is_new_version,
{
    law_32_bits_are_read_back(b, 0, 0x1234_9876);
    law_signed_32_bits_are_read_back(b, 4, count);
}

/// A wrong magic number is shown by its hex digits, eight of them at least.
pub proof fn law_wrong_magic_is_shown(m: u32)
    ensures
        exists|digits: Seq<char>|
            {
                &&& #[trigger] number_of(digits, 16) == m
                &&& digits.len() >= 8 && is_digits(digits, 16, true)
                &&& pit_error_text(PitError::BadMagic(m)) == "magic number mismatch: got 0x"@
                    + digits
            },
{
    let digits = pad_left(hex_upper(m as nat), 8, '0');
    law_padded_hex_stands_for_its_number(m as nat, 8, true);
    assert(number_of(digits, 16) == m);
}

/// What the values of the coded fields are called, in either generation of tables.
pub proof fn law_values_have_their_names(f: Field, v: i32)
    ensures
        f.descriptions() == device_types(true) ==> f.described(v) == match v {
            0 => "OneNAND"@,
            1 => "NAND"@,
            2 => "EMMC"@,
            3 => "SPI"@,
            4 => "IDE"@,
            5 => "NAND X16"@,
            _ => "Unknown"@,
        },
        f.descriptions() == device_types(false) ==> f.described(v) == match v {
            0 => "OneNAND"@,
            1 => "NAND"@,
            2 => "MoviNAND"@,
            _ => "Unknown"@,
        },
        f.descriptions() == binary_types() ==> f.described(v) == match v {
            0 => "Phone / AP"@,
            1 => "Modem / CP"@,
            _ => "Unknown"@,
        },
        f.descriptions() == attribute_values(true) ==> f.described(v) == match v {
            0 => "None"@,
            1 => "BCT"@,
            2 => "Bootloader"@,
            3 => "Partition Table"@,
            4 => "NV-Data"@,
            5 => "Data"@,
            6 => "MBR"@,
            7 => "EBR"@,
            8 => "GP1"@,
            9 => "GP1"@,
            _ => "Unknown"@,
        },
        f.descriptions() == attribute_values(false) ==> f.described(v) == match v {
            0 => "Read-only"@,
            1 => "Read-write"@,
            2 => "STL"@,
            _ => "Unknown"@,
        },
        f.descriptions() == update_attribute_values(true) ==> f.described(v) == match v {
            0 => "None"@,
            1 => "Basic"@,
            2 => "Enhanced"@,
            3 => "EXT2"@,
            4 => "YAFFS2"@,
            5 => "EXT4"@,
            _ => "Unknown"@,
        },
        f.descriptions() == update_attribute_values(false) ==> f.described(v) == match v {
            0 => "None"@,
            1 => "FOTA"@,
            2 => "Secure"@,
            3 => "Secure FOTA"@,
            _ => "Unknown"@,
        },
{
}

} // verus!
