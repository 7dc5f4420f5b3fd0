//! What the program shows: partition tables, flash plans, archive listings, devices and regions.
//!
//! Every report is one text, each of its lines ended by a newline.

use vstd::arithmetic::div_mod::lemma_mod_multiples_basic;
use vstd::prelude::*;
use vstd::string::StringExecFns;

use crate::command::str_view;
use crate::flash::{
    law_plan_parts, law_plan_waste, lemma_count, lemma_wire_grows, params_for, plan_flash,
    wire_total, FlashParams, FlashSequence,
};
use crate::pit::{
    attribute_values, binary_types, device_types, update_attribute_values, EntryModel, FieldMapper,
    PitData, PitEntry, PitModel,
};
use crate::text::{
    contains_text, dec, dec_text, ends_in, ends_with, eq_ignore_case, int_text, join, joined,
    law_case_is_all_that_differs, law_joined_texts_are_all_there, lemma_contains_more,
    lemma_contains_part, lemma_contains_within, pad_left, padded_left, repeat, same_ignoring_case,
    same_text, views,
};

verus! {

/// The first entry from `from` on whose partition is called `name`, in whatever case.
pub open spec fn partition_index(entries: Seq<EntryModel>, name: Seq<char>, from: int) -> Option<
    int,
>
    decreases entries.len() - from,
{
    if from < 0 || from >= entries.len() {
        None
    } else if same_ignoring_case(entries[from].partition, name) {
        Some(from)
    } else {
        partition_index(entries, name, from + 1)
    }
}

/// The first entry from `from` on that expects a file called `name`.
pub open spec fn file_index(entries: Seq<EntryModel>, name: Seq<char>, from: int) -> Option<int>
    decreases entries.len() - from,
{
    if from < 0 || from >= entries.len() {
        None
    } else if entries[from].file_name == name {
        Some(from)
    } else {
        file_index(entries, name, from + 1)
    }
}

/// The entry that a file goes to: the one named explicitly, or else the one that expects it.
pub open spec fn target_index(
    entries: Seq<EntryModel>,
    file_base: Seq<char>,
    explicit: Option<Seq<char>>,
) -> Option<int> {
    match explicit {
        Some(name) => partition_index(entries, name, 0),
        None => file_index(entries, file_base, 0),
    }
}

/// `s` without its last `n` characters.
pub open spec fn without_last(s: Seq<char>, n: int) -> Seq<char> {
    s.take(s.len() - n)
}

/// The entry that an archive's image goes to: the one that expects it, or else the one that
/// expects it without its `.lz4`.
pub open spec fn image_index(entries: Seq<EntryModel>, name: Seq<char>) -> Option<int> {
    match file_index(entries, name, 0) {
        Some(i) => Some(i),
        None => if ends_in(name, ".lz4"@) {
            file_index(entries, without_last(name, 4), 0)
        } else {
            None
        },
    }
}

/// Whether `r` is the entry at an index, or nothing where there is no index.
pub open spec fn is_entry_at(r: Option<&PitEntry>, pit: PitData, index: Option<int>) -> bool {
    match index {
        Some(i) => 0 <= i < pit.entries@.len() && r == Some(&pit.entries@[i]),
        None => r is None,
    }
}

fn find_file<'a>(pit: &'a PitData, name: &str) -> (r: Option<&'a PitEntry>)
    ensures
        is_entry_at(r, *pit, file_index(pit@.entries, name@, 0)),
{
    let mut i: usize = 0;
    while i < pit.entries.len()
        invariant
            i <= pit.entries@.len(),
            file_index(pit@.entries, name@, i as int) == file_index(pit@.entries, name@, 0),
        decreases pit.entries@.len() - i,
    {
        assert(pit@.entries[i as int] == pit.entries@[i as int]@);
        if same_text(pit.entries[i].file_name.as_str(), name) {
            return Some(&pit.entries[i]);
        }
        i = i + 1;
    }
    None
}

fn find_partition<'a>(pit: &'a PitData, name: &str) -> (r: Option<&'a PitEntry>)
    ensures
        is_entry_at(r, *pit, partition_index(pit@.entries, name@, 0)),
{
    let mut i: usize = 0;
    while i < pit.entries.len()
        invariant
            i <= pit.entries@.len(),
            partition_index(pit@.entries, name@, i as int) == partition_index(
                pit@.entries,
                name@,
                0,
            ),
        decreases pit.entries@.len() - i,
    {
        assert(pit@.entries[i as int] == pit.entries@[i as int]@);
        if eq_ignore_case(pit.entries[i].partition.as_str(), name) {
            return Some(&pit.entries[i]);
        }
        i = i + 1;
    }
    None
}

/// Match a tar entry name to a PIT partition: directly, then with a trailing `.lz4` stripped.
pub fn match_archive_image<'a>(pit: &'a PitData, entry_name: &str) -> (r: Option<&'a PitEntry>)
    ensures
        is_entry_at(r, *pit, image_index(pit@.entries, entry_name@)),
{
    match find_file(pit, entry_name) {
        Some(e) => Some(e),
        None => if ends_with(entry_name, ".lz4") {
            proof {
                reveal_strlit(".lz4");
            }
            let n: usize = entry_name.unicode_len();
            let base: &str = entry_name.substring_char(0, n - 4);
            assert(base@ == without_last(entry_name@, 4));
            find_file(pit, base)
        } else {
            None
        },
    }
}

/// The partition that a file goes to: the one named explicitly, or else the one that expects it.
pub fn match_partition<'a>(pit: &'a PitData, file_base: &str, explicit: Option<&str>) -> (r: Option<
    &'a PitEntry,
>)
    ensures
        is_entry_at(
            r,
            *pit,
            target_index(pit@.entries, file_base@, str_view(explicit)),
        ),
{
    match explicit {
        Some(name) => find_partition(pit, name),
        None => find_file(pit, file_base),
    }
}

/// A partition and the file it expects.
pub open spec fn available_line(e: EntryModel) -> Seq<char> {
    e.partition + " ("@ + e.file_name + ")"@
}

/// The "no matching partition" error, listing every partition and its expected file name.
pub open spec fn available_text(pit: PitModel) -> Seq<char> {
    "no matching partition. Available:\n  "@ + joined(
        Seq::new(pit.entries.len(), |i: int| available_line(pit.entries[i])),
        "\n  "@,
    )
}

/// The "no matching partition" error, so that the user can pick a valid target.
pub fn available_partitions(pit: &PitData) -> (s: String)
    ensures
        s@ == available_text(pit@),
{
    let mut names: Vec<String> = Vec::new();
    let mut i: usize = 0;
    while i < pit.entries.len()
        invariant
            i <= pit.entries@.len(),
            names@.len() == i,
            forall|j: int|
                0 <= j < i ==> (#[trigger] names@[j])@ == available_line(pit.entries@[j]@),
        decreases pit.entries@.len() - i,
    {
        let e: &PitEntry = &pit.entries[i];
        let mut line = e.partition.clone();
        line.append(" (");
        line.append(e.file_name.as_str());
        line.append(")");
        names.push(line);
        i = i + 1;
    }
    assert(views(names@) == Seq::new(
        pit@.entries.len(),
        |i: int| available_line(pit@.entries[i]),
    ));
    let mut s = String::from_str("no matching partition. Available:\n  ");
    s.append(join(&names, "\n  ").as_str());
    s
}

/// The line of one sequence of a plan.
pub open spec fn sequence_line(q: FlashSequence) -> Seq<char> {
    "    seq "@ + pad_left(dec(q.index as int), 3, ' ') + ": "@ + pad_left(
        dec(q.parts as int),
        4,
        ' ',
    ) + " part(s), real "@ + pad_left(dec(q.real_size as int), 10, ' ') + " B, on-wire "@
        + pad_left(dec(q.aligned_size as int), 10, ' ') + " B"@ + (if q.is_last {
        "  (last)\n"@
    } else {
        "\n"@
    })
}

/// The lines of the sequences of a plan.
pub open spec fn sequence_lines(plan: Seq<FlashSequence>) -> Seq<char>
    decreases plan.len(),
{
    if plan.len() == 0 {
        Seq::empty()
    } else {
        sequence_lines(plan.drop_last()) + sequence_line(plan.last())
    }
}

/// The plan for `len` bytes onto a target: the target, a summary, and a line for each sequence.
pub open spec fn partition_plan_text(target: Seq<char>, len: i64, params: FlashParams) -> Seq<
    char,
> {
    let plan = params.plan(len as int);
    target + "\n    "@ + dec(len as int) + " B → "@ + dec(plan.len() as int) + " sequence(s), "@
        + dec(wire_total(plan)) + " B on the wire\n"@ + sequence_lines(plan)
}

/// Whether a plan can be made and summed up within the machine's numbers.
pub open spec fn plan_fits(len: i64, params: FlashParams) -> bool {
    &&& params.fits()
    &&& params.sequence_count(len as int) <= usize::MAX
    &&& wire_total(params.plan(len as int)) <= i64::MAX
}

fn sequence_row(q: &FlashSequence) -> (s: String)
    ensures
        s@ == sequence_line(*q),
{
    let index = dec_text(q.index as u64);
    let parts = int_text(q.parts);
    let data = int_text(q.real_size);
    let wire = int_text(q.aligned_size);
    let mut s = String::from_str("    seq ");
    s.append(padded_left(index.as_str(), 3, ' ').as_str());
    s.append(": ");
    s.append(padded_left(parts.as_str(), 4, ' ').as_str());
    s.append(" part(s), real ");
    s.append(padded_left(data.as_str(), 10, ' ').as_str());
    s.append(" B, on-wire ");
    s.append(padded_left(wire.as_str(), 10, ' ').as_str());
    s.append(" B");
    if q.is_last {
        s.append("  (last)\n");
    } else {
        s.append("\n");
    }
    s
}

/// The sequence/part plan for a single partition of `len` on-device bytes.
pub fn partition_plan(target: &str, len: i64, params: &FlashParams) -> (s: String)
    requires
        plan_fits(len, *params),
    ensures
        s@ == partition_plan_text(target@, len, *params),
{
    let plan = plan_flash(len, params);
    let ghost all = params.plan(len as int);
    let mut on_wire: i64 = 0;
    let mut rows = String::new();
    let mut i: usize = 0;
    proof {
        assert(all.take(0).len() == 0);
    }
    while i < plan.len()
        invariant
            i <= plan@.len(),
            plan@ == all,
            all == params.plan(len as int),
            plan_fits(len, *params),
            on_wire == wire_total(all.take(i as int)),
            rows@ == sequence_lines(all.take(i as int)),
        decreases plan@.len() - i,
    {
        proof {
            assert(all.take(i + 1).drop_last() == all.take(i as int));
            assert(all.take(i + 1).last() == plan@[i as int]);
            lemma_wire_grows(*params, len, i + 1);
            lemma_wire_grows(*params, len, i as int);
        }
        on_wire = on_wire + plan[i].aligned_size;
        rows.append(sequence_row(&plan[i]).as_str());
        i = i + 1;
    }
    assert(all.take(i as int) == all);
    let mut s = String::from_str(target);
    s.append("\n    ");
    s.append(int_text(len).as_str());
    s.append(" B → ");
    s.append(dec_text(plan.len() as u64).as_str());
    s.append(" sequence(s), ");
    s.append(int_text(on_wire).as_str());
    s.append(" B on the wire\n");
    s.append(rows.as_str());
    s
}

/// Whether a plan can be made and summed up.
pub fn can_plan(len: i64, params: &FlashParams) -> (r: bool)
    ensures
        r == plan_fits(len, *params),
{
    let packet: i128 = params.packet_size as i128;
    let per: i128 = params.packets_per_sequence as i128;
    assert(-0x4000_0000_0000_0000_0000_0000_0000_0000 <= packet * per
        <= 0x4000_0000_0000_0000_0000_0000_0000_0000) by (nonlinear_arith)
        requires
            -0x8000_0000_0000_0000 <= packet <= 0x7fff_ffff_ffff_ffff,
            -0x8000_0000_0000_0000 <= per <= 0x7fff_ffff_ffff_ffff,
    ;
    let seq: i128 = packet * per;
    assert(seq == params.sequence_bytes());
    if seq < i64::MIN as i128 || seq > i64::MAX as i128 {
        return false;
    }
    if len <= 0 || packet <= 0 || per <= 0 {
        assert(params.plan(len as int).len() == 0);
        return true;
    }
    proof {
        assert(seq > 0) by (nonlinear_arith)
            requires
                seq == packet * per,
                packet > 0,
                per > 0,
        ;
        lemma_count(len as int, seq as int);
        lemma_count(len as int, packet as int);
    }
    let l: i128 = len as i128;
    let count: i128 = if l % seq != 0 {
        l / seq + 1
    } else {
        l / seq
    };
    assert(count == params.sequence_count(len as int));
    if count > usize::MAX as i128 {
        return false;
    }
    let parts: i128 = if l % packet != 0 {
        l / packet + 1
    } else {
        l / packet
    };
    proof {
        law_plan_parts(*params, len);
        assert(0 <= parts * packet <= 0x4000_0000_0000_0000_0000_0000_0000_0000) by (nonlinear_arith)
            requires
                0 <= parts <= 0x7fff_ffff_ffff_ffff,
                0 < packet <= 0x7fff_ffff_ffff_ffff,
        ;
    }
    parts * packet <= i64::MAX as i128
}

/// The description of a value in a table: `"Unknown"` where there is none.
pub open spec fn described_in(values: Seq<Seq<char>>, v: i32) -> Seq<char> {
    if 0 <= v < values.len() {
        values[v as int]
    } else {
        "Unknown"@
    }
}

/// A labelled line with a description and the raw value.
pub open spec fn field_line(label: Seq<char>, desc: Seq<char>, raw: i32) -> Seq<char> {
    "    "@ + label + ": "@ + desc + " ("@ + dec(raw as int) + ")\n"@
}

/// A labelled line with a number.
pub open spec fn number_line(label: Seq<char>, v: i32) -> Seq<char> {
    "    "@ + label + ": "@ + dec(v as int) + "\n"@
}

/// A labelled line with a text.
pub open spec fn text_line(label: Seq<char>, v: Seq<char>) -> Seq<char> {
    "    "@ + label + ": "@ + v + "\n"@
}

/// The lines of entry number `i` of a PIT.
#[verifier::opaque]
pub open spec fn entry_text(i: int, e: EntryModel, is_new: bool) -> Seq<char> {
    "  Entry #"@ + dec(i) + "\n"@ + field_line(
        if is_new {
            "Filesystem"@
        } else {
            "Update Attributes"@
        },
        described_in(update_attribute_values(is_new), e.update_attributes),
        e.update_attributes,
    ) + field_line(
        if is_new {
            "Partition Type"@
        } else {
            "Attributes"@
        },
        described_in(attribute_values(is_new), e.attributes),
        e.attributes,
    ) + field_line("Binary Type"@, described_in(binary_types(), e.binary_type), e.binary_type)
        + field_line(
        "Device Type"@,
        described_in(device_types(is_new), e.device_type),
        e.device_type,
    ) + number_line(
        if is_new {
            "Start Block"@
        } else {
            "Block Size"@
        },
        e.block_size,
    ) + number_line("Block Count"@, e.block_count) + text_line("Partition Name"@, e.partition)
        + number_line("Partition ID"@, e.partition_id) + number_line("File Offset"@, e.file_offset)
        + number_line("File Size"@, e.file_size) + text_line("File Name"@, e.file_name) + (
    if e.delta_name.len() == 0 {
        "    Empty Delta Name\n"@
    } else {
        text_line("Delta Name"@, e.delta_name)
    })
}

/// The lines of the entries of a PIT.
pub open spec fn entries_text(entries: Seq<EntryModel>, is_new: bool) -> Seq<char>
    decreases entries.len(),
{
    if entries.len() == 0 {
        Seq::empty()
    } else {
        entries_text(entries.drop_last(), is_new) + entry_text(
            entries.len() - 1,
            entries.last(),
            is_new,
        )
    }
}

/// A PIT as an indented tree.
pub open spec fn pit_text(pit: PitModel) -> Seq<char> {
    "PIT File\n  Header\n"@ + text_line("Unknown string"@, pit.unknown) + text_line(
        "Project name"@,
        pit.project,
    ) + text_line(
        "Version"@,
        if pit.is_new_version {
            "v2 (new)"@
        } else {
            "v1 (old)"@
        },
    ) + number_line("Reserved"@, pit.reserved) + entries_text(pit.entries, pit.is_new_version)
}

fn push_field(s: &mut String, label: &str, desc: &str, raw: i32)
    ensures
        final(s)@ == old(s)@ + field_line(label@, desc@, raw),
{
    let mut line = String::from_str("    ");
    line.append(label);
    line.append(": ");
    line.append(desc);
    line.append(" (");
    line.append(int_text(raw as i64).as_str());
    line.append(")\n");
    s.append(line.as_str());
}

fn push_number(s: &mut String, label: &str, v: i32)
    ensures
        final(s)@ == old(s)@ + number_line(label@, v),
{
    let mut line = String::from_str("    ");
    line.append(label);
    line.append(": ");
    line.append(int_text(v as i64).as_str());
    line.append("\n");
    s.append(line.as_str());
}

fn push_text(s: &mut String, label: &str, v: &str)
    ensures
        final(s)@ == old(s)@ + text_line(label@, v@),
{
    let mut line = String::from_str("    ");
    line.append(label);
    line.append(": ");
    line.append(v);
    line.append("\n");
    s.append(line.as_str());
}

fn entry_report(i: usize, e: &PitEntry, is_new: bool) -> (s: String)
    ensures
        s@ == entry_text(i as int, e@, is_new),
{
    proof {
        reveal(entry_text);
    }
    let m = FieldMapper::for_version(is_new);
    let mut s = String::from_str("  Entry #");
    s.append(dec_text(i as u64).as_str());
    s.append("\n");
    push_field(
        &mut s,
        m.update_attributes.label,
        m.update_attributes.describe(e.update_attributes),
        e.update_attributes,
    );
    push_field(
        &mut s,
        m.attributes.label,
        m.attributes.describe(e.attributes),
        e.attributes,
    );
    push_field(
        &mut s,
        m.binary_type.label,
        m.binary_type.describe(e.binary_type),
        e.binary_type,
    );
    push_field(
        &mut s,
        m.device_type.label,
        m.device_type.describe(e.device_type),
        e.device_type,
    );
    push_number(&mut s, m.block_size_label, e.block_size);
    push_number(&mut s, m.block_count_label, e.block_count);
    push_text(&mut s, "Partition Name", e.partition.as_str());
    push_number(&mut s, "Partition ID", e.partition_id);
    push_number(&mut s, "File Offset", e.file_offset);
    push_number(&mut s, "File Size", e.file_size);
    push_text(&mut s, "File Name", e.file_name.as_str());
    if e.delta_name.as_str().is_empty() {
        s.append("    Empty Delta Name\n");
    } else {
        push_text(&mut s, "Delta Name", e.delta_name.as_str());
    }
    s
}

/// Render a PIT as an indented tree.
pub fn pit_report(pit: &PitData) -> (s: String)
    ensures
        s@ == pit_text(pit@),
{
    let ghost all = pit@.entries;
    let mut rows = String::new();
    let mut i: usize = 0;
    proof {
        assert(all.take(0).len() == 0);
    }
    while i < pit.entries.len()
        invariant
            i <= pit.entries@.len(),
            all == pit@.entries,
            rows@ == entries_text(all.take(i as int), pit.is_new_version),
        decreases pit.entries@.len() - i,
    {
        proof {
            assert(all.take(i + 1).drop_last() == all.take(i as int));
            assert(all.take(i + 1).last() == pit.entries@[i as int]@);
        }
        rows.append(entry_report(i, &pit.entries[i], pit.is_new_version).as_str());
        i = i + 1;
    }
    assert(all.take(i as int) == all);
    let mut s = String::from_str("PIT File\n  Header\n");
    push_text(&mut s, "Unknown string", pit.unknown.as_str());
    push_text(&mut s, "Project name", pit.project.as_str());
    push_text(
        &mut s,
        "Version",
        if pit.is_new_version {
            "v2 (new)"
        } else {
            "v1 (old)"
        },
    );
    push_number(&mut s, "Reserved", pit.reserved);
    s.append(rows.as_str());
    s
}

/// A file goes to the partition that is named, in whatever case, or else to the one that expects a
/// file of exactly its name; of several, the first counts. There is no target where no partition
/// fits.
pub proof fn law_target_is_the_first_that_fits(
    entries: Seq<EntryModel>,
    base: Seq<char>,
    explicit: Option<Seq<char>>,
)
    ensures
        match target_index(entries, base, explicit) {
            Some(i) => 0 <= i < entries.len() && fits_target(entries[i], base, explicit)
                && forall|j: int|
                0 <= j < i ==> !fits_target(#[trigger] entries[j], base, explicit),
            None => forall|j: int|
                0 <= j < entries.len() ==> !fits_target(#[trigger] entries[j], base, explicit),
        },
{
    match explicit {
        Some(name) => {
            lemma_partition_index(entries, name, 0);
            assert forall|j: int| 0 <= j < entries.len() implies fits_target(
                #[trigger] entries[j],
                base,
                explicit,
            ) == same_ignoring_case(entries[j].partition, name) by {
                law_case_is_all_that_differs(entries[j].partition, name);
            }
        },
        None => lemma_file_index(entries, base, 0),
    }
}

/// Whether a file called `base` goes to a partition: it has the name that was asked for, but for
/// the case of ASCII letters, or, where none was, expects a file of that name.
pub open spec fn fits_target(
    e: EntryModel,
    base: Seq<char>,
    explicit: Option<Seq<char>>,
) -> bool {
    match explicit {
        Some(name) => e.partition.len() == name.len() && forall|i: int|
            0 <= i < name.len() ==> {
                ||| #[trigger] e.partition[i] == name[i]
                ||| 'a' <= e.partition[i] <= 'z' && e.partition[i] as int == name[i] as int + 0x20
                ||| 'a' <= name[i] <= 'z' && name[i] as int == e.partition[i] as int + 0x20
            },
        None => e.file_name == base,
    }
}

proof fn lemma_partition_index(entries: Seq<EntryModel>, name: Seq<char>, from: int)
    requires
        0 <= from,
    ensures
        match partition_index(entries, name, from) {
            Some(i) => from <= i < entries.len() && same_ignoring_case(entries[i].partition, name)
                && forall|j: int|
                from <= j < i ==> !same_ignoring_case((#[trigger] entries[j]).partition, name),
            None => forall|j: int|
                from <= j < entries.len() ==> !same_ignoring_case(
                    (#[trigger] entries[j]).partition,
                    name,
                ),
        },
    decreases entries.len() - from,
{
    if from < entries.len() && !same_ignoring_case(entries[from].partition, name) {
        lemma_partition_index(entries, name, from + 1);
    }
}

proof fn lemma_file_index(entries: Seq<EntryModel>, name: Seq<char>, from: int)
    requires
        0 <= from,
    ensures
        match file_index(entries, name, from) {
            Some(i) => from <= i < entries.len() && entries[i].file_name == name && forall|j: int|
                from <= j < i ==> (#[trigger] entries[j]).file_name != name,
            None => forall|j: int|
                from <= j < entries.len() ==> (#[trigger] entries[j]).file_name != name,
        },
    decreases entries.len() - from,
{
    if from < entries.len() && entries[from].file_name != name {
        lemma_file_index(entries, name, from + 1);
    }
}

/// A value that a table describes has its description, and every other is `Unknown`.
pub proof fn law_values_out_of_range_are_unknown(values: Seq<Seq<char>>, v: i32)
    ensures
        v < 0 || v >= values.len() ==> described_in(values, v) == "Unknown"@,
        0 <= v < values.len() ==> described_in(values, v) == values[v as int],
{
}

/// An image of an archive goes to the first partition that expects it by its name, and where there is
/// none and the name is one with `.lz4` behind it, to the first that expects the name without that.
#[verifier::spinoff_prover]
pub proof fn law_image_goes_where_it_is_expected(
    entries: Seq<EntryModel>,
    name: Seq<char>,
    core: Seq<char>,
)
    ensures
        match image_index(entries, name) {
            Some(i) => {
                &&& 0 <= i < entries.len()
                &&& entries[i].file_name == name || (name == entries[i].file_name + ".lz4"@ && forall|
                    j: int,
                |
                    0 <= j < entries.len() ==> (#[trigger] entries[j]).file_name != name)
                &&& forall|j: int|
                    0 <= j < i ==> (#[trigger] entries[j]).file_name != entries[i].file_name
            },
            None => forall|j: int|
                0 <= j < entries.len() ==> (#[trigger] entries[j]).file_name != name && (name == core
                    + ".lz4"@ ==> entries[j].file_name != core),
        },
{
    lemma_file_index(entries, name, 0);
    reveal_strlit(".lz4");
    let n = name.len() as int;
    if ends_in(name, ".lz4"@) {
        let short = without_last(name, 4);
        lemma_file_index(entries, short, 0);
        assert(short + ".lz4"@ == name) by {
            assert(name.subrange(n - 4, n) == ".lz4"@);
            assert(name.take(n - 4) + name.subrange(n - 4, n) == name);
        }
        if name == core + ".lz4"@ {
            assert(core == short);
        }
    } else if name == core + ".lz4"@ {
        assert(name.subrange(n - 4, n) == ".lz4"@);
    }
}

/// Where there is no matching partition, every partition is offered with the file that it expects.
pub proof fn law_every_partition_is_offered(pit: PitModel, i: int)
    requires
        0 <= i < pit.entries.len(),
    ensures
        contains_text(
            available_text(pit),
            pit.entries[i].partition + " ("@ + pit.entries[i].file_name + ")"@,
        ),
{
    let lines = Seq::new(pit.entries.len(), |j: int| available_line(pit.entries[j]));
    let none = Seq::<char>::empty();
    let head = "no matching partition. Available:\n  "@;
    law_joined_texts_are_all_there(lines, "\n  "@, i);
    lemma_contains_within(head, joined(lines, "\n  "@), none, lines[i]);
    assert(head + joined(lines, "\n  "@) + none == available_text(pit));
}

/// A plan is shown with the length, with the number of sequences of 31457280 bytes that it takes, and
/// with the bytes on the wire: the length, rounded up to whole packets.
pub proof fn law_plan_shows_its_figures(target: Seq<char>, len: i64, version: i16)
    requires
        len > 0,
        plan_fits(len, params_for(version)),
    ensures
        exists|n: int, w: int, packet: int|
            {
                &&& packet == if version >= 2 {
                    0x10_0000int
                } else {
                    0x2_0000
                }
                &&& (n - 1) * 31_457_280 < len <= n * 31_457_280
                &&& w % packet == 0 && len <= w < len + packet
                &&& contains_text(
                    #[trigger] partition_plan_text(target, len, params_for(version)),
                    target + "\n    "@ + #[trigger] dec(len as int) + " B → "@ + #[trigger] dec(n)
                        + " sequence(s), "@ + #[trigger] dec(w) + " B on the wire\n"@,
                ) && #[trigger] is_packet(packet)
            },
{
    let params = params_for(version);
    let plan = params.plan(len as int);
    let (n, w, packet) = (plan.len() as int, wire_total(plan), params.packet_size as int);
    lemma_count(len as int, params.sequence_bytes());
    assert(params.sequence_bytes() == 31_457_280);
    law_plan_waste(params, len);
    law_plan_parts(params, len);
    let c = crate::flash::ceil_div(len as int, packet);
    lemma_mod_multiples_basic(c, packet);
    let none = Seq::<char>::empty();
    let head = target + "\n    "@ + dec(len as int) + " B → "@ + dec(n) + " sequence(s), "@ + dec(w)
        + " B on the wire\n"@;
    lemma_contains_part(none, head, sequence_lines(plan));
    assert(none + head + sequence_lines(plan) == partition_plan_text(target, len, params));
    assert(is_packet(packet));
}

/// Whether a number is the size of a packet of either bootloader generation.
pub open spec fn is_packet(n: int) -> bool {
    n == 0x10_0000 || n == 0x2_0000
}

/// Every sequence of a plan has a line with its number, its parts and both of its sizes.
pub proof fn law_every_sequence_is_shown(target: Seq<char>, len: i64, params: FlashParams, i: int)
    requires
        0 <= i < params.plan(len as int).len(),
    ensures
        ({
            let q = params.plan(len as int)[i];
            contains_text(
                partition_plan_text(target, len, params),
                dec(q.index as int) + ": "@ + repeat(' ', 4 - dec(q.parts as int).len()) + dec(
                    q.parts as int,
                ) + " part(s), real "@ + repeat(' ', 10 - dec(q.real_size as int).len()) + dec(
                    q.real_size as int,
                ) + " B, on-wire "@ + repeat(' ', 10 - dec(q.aligned_size as int).len()) + dec(
                    q.aligned_size as int,
                ) + " B"@,
            )
        }),
{
    let plan = params.plan(len as int);
    let q = plan[i];
    let row = dec(q.index as int) + ": "@ + repeat(' ', 4 - dec(q.parts as int).len()) + dec(
        q.parts as int,
    ) + " part(s), real "@ + repeat(' ', 10 - dec(q.real_size as int).len()) + dec(
        q.real_size as int,
    ) + " B, on-wire "@ + repeat(' ', 10 - dec(q.aligned_size as int).len()) + dec(
        q.aligned_size as int,
    ) + " B"@;
    let front = "    seq "@ + repeat(' ', 3 - dec(q.index as int).len());
    let tail = if q.is_last {
        "  (last)\n"@
    } else {
        "\n"@
    };
    let none = Seq::<char>::empty();
    assert(sequence_line(q) == front + row + tail);
    lemma_contains_part(front, row, tail);
    lemma_sequence_lines(plan, i, row);
    let head = target + "\n    "@ + dec(len as int) + " B → "@ + dec(plan.len() as int)
        + " sequence(s), "@ + dec(wire_total(plan)) + " B on the wire\n"@;
    lemma_contains_within(head, sequence_lines(plan), none, row);
    assert(head + sequence_lines(plan) + none == partition_plan_text(target, len, params));
}

proof fn lemma_sequence_lines(plan: Seq<FlashSequence>, i: int, part: Seq<char>)
    requires
        0 <= i < plan.len(),
        contains_text(sequence_line(plan[i]), part),
    ensures
        contains_text(sequence_lines(plan), part),
    decreases plan.len(),
{
    let none = Seq::<char>::empty();
    let before = plan.drop_last();
    let all = sequence_lines(plan);
    if i < before.len() {
        lemma_sequence_lines(before, i, part);
        lemma_contains_within(none, sequence_lines(before), sequence_line(plan.last()), part);
        assert(none + sequence_lines(before) + sequence_line(plan.last()) == all);
    } else {
        lemma_contains_within(sequence_lines(before), sequence_line(plan[i]), none, part);
        assert(sequence_lines(before) + sequence_line(plan[i]) + none == all);
    }
}

/// Every entry of a table is printed under its number, with each of its values under its label and in
/// decimal.
#[verifier::spinoff_prover]
pub proof fn law_every_entry_is_printed(pit: PitModel, i: int)
    requires
        0 <= i < pit.entries.len(),
    ensures
        contains_text(pit_text(pit), entry_text(i, pit.entries[i], pit.is_new_version)),
        ({
            let e = pit.entries[i];
            let all = entry_text(i, e, pit.is_new_version);
            &&& contains_text(all, "  Entry #"@ + dec(i) + "\n"@)
            &&& contains_text(
                all,
                (if pit.is_new_version {
                    "    Filesystem: "@
                } else {
                    "    Update Attributes: "@
                }) + described_in(update_attribute_values(pit.is_new_version), e.update_attributes)
                    + " ("@ + dec(e.update_attributes as int) + ")\n"@,
            )
            &&& contains_text(
                all,
                (if pit.is_new_version {
                    "    Partition Type: "@
                } else {
                    "    Attributes: "@
                }) + described_in(attribute_values(pit.is_new_version), e.attributes) + " ("@ + dec(
                    e.attributes as int,
                ) + ")\n"@,
            )
            &&& contains_text(
                all,
                "    Binary Type: "@ + described_in(binary_types(), e.binary_type) + " ("@ + dec(
                    e.binary_type as int,
                ) + ")\n"@,
            )
            &&& contains_text(
                all,
                "    Device Type: "@ + described_in(
                    device_types(pit.is_new_version),
                    e.device_type,
                ) + " ("@ + dec(e.device_type as int) + ")\n"@,
            )
            &&& contains_text(
                all,
                (if pit.is_new_version {
                    "    Start Block: "@
                } else {
                    "    Block Size: "@
                }) + dec(e.block_size as int) + "\n"@,
            )
            &&& contains_text(all, "    Block Count: "@ + dec(e.block_count as int) + "\n"@)
            &&& contains_text(all, "    Partition Name: "@ + e.partition + "\n"@)
            &&& contains_text(all, "    Partition ID: "@ + dec(e.partition_id as int) + "\n"@)
            &&& contains_text(all, "    File Offset: "@ + dec(e.file_offset as int) + "\n"@)
            &&& contains_text(all, "    File Size: "@ + dec(e.file_size as int) + "\n"@)
            &&& contains_text(all, "    File Name: "@ + e.file_name + "\n"@)
            &&& e.delta_name.len() > 0 ==> contains_text(
                all,
                "    Delta Name: "@ + e.delta_name + "\n"@,
            )
        }),
{
    let e = pit.entries[i];
    let none = Seq::<char>::empty();
    lemma_entries_text(pit.entries, pit.is_new_version, i);
    let head = "PIT File\n  Header\n"@ + text_line("Unknown string"@, pit.unknown) + text_line(
        "Project name"@,
        pit.project,
    ) + text_line(
        "Version"@,
        if pit.is_new_version {
            "v2 (new)"@
        } else {
            "v1 (old)"@
        },
    ) + number_line("Reserved"@, pit.reserved);
    lemma_contains_within(
        head,
        entries_text(pit.entries, pit.is_new_version),
        none,
        entry_text(i, e, pit.is_new_version),
    );
    assert(head + entries_text(pit.entries, pit.is_new_version) + none == pit_text(pit));
    let parts = entry_parts(i, e, pit.is_new_version);
    lemma_entry_text(i, e, pit.is_new_version);
    lemma_put_together(parts, 0);
    lemma_put_together(parts, 1);
    lemma_put_together(parts, 2);
    lemma_put_together(parts, 3);
    lemma_put_together(parts, 4);
    lemma_put_together(parts, 5);
    lemma_put_together(parts, 6);
    lemma_put_together(parts, 7);
    lemma_put_together(parts, 8);
    lemma_put_together(parts, 9);
    lemma_put_together(parts, 10);
    lemma_put_together(parts, 11);
    lemma_put_together(parts, 12);
    reveal_strlit("    ");
    reveal_strlit(": ");
    reveal_strlit("Filesystem");
    reveal_strlit("    Filesystem: ");
    assert("    "@ + "Filesystem"@ + ": "@ == "    Filesystem: "@);
    reveal_strlit("Update Attributes");
    reveal_strlit("    Update Attributes: ");
    assert("    "@ + "Update Attributes"@ + ": "@ == "    Update Attributes: "@);
    reveal_strlit("Partition Type");
    reveal_strlit("    Partition Type: ");
    assert("    "@ + "Partition Type"@ + ": "@ == "    Partition Type: "@);
    reveal_strlit("Attributes");
    reveal_strlit("    Attributes: ");
    assert("    "@ + "Attributes"@ + ": "@ == "    Attributes: "@);
    reveal_strlit("Binary Type");
    reveal_strlit("    Binary Type: ");
    assert("    "@ + "Binary Type"@ + ": "@ == "    Binary Type: "@);
    reveal_strlit("Device Type");
    reveal_strlit("    Device Type: ");
    assert("    "@ + "Device Type"@ + ": "@ == "    Device Type: "@);
    reveal_strlit("Start Block");
    reveal_strlit("    Start Block: ");
    assert("    "@ + "Start Block"@ + ": "@ == "    Start Block: "@);
    reveal_strlit("Block Size");
    reveal_strlit("    Block Size: ");
    assert("    "@ + "Block Size"@ + ": "@ == "    Block Size: "@);
    reveal_strlit("Block Count");
    reveal_strlit("    Block Count: ");
    assert("    "@ + "Block Count"@ + ": "@ == "    Block Count: "@);
    reveal_strlit("Partition Name");
    reveal_strlit("    Partition Name: ");
    assert("    "@ + "Partition Name"@ + ": "@ == "    Partition Name: "@);
    reveal_strlit("Partition ID");
    reveal_strlit("    Partition ID: ");
    assert("    "@ + "Partition ID"@ + ": "@ == "    Partition ID: "@);
    reveal_strlit("File Offset");
    reveal_strlit("    File Offset: ");
    assert("    "@ + "File Offset"@ + ": "@ == "    File Offset: "@);
    reveal_strlit("File Size");
    reveal_strlit("    File Size: ");
    assert("    "@ + "File Size"@ + ": "@ == "    File Size: "@);
    reveal_strlit("File Name");
    reveal_strlit("    File Name: ");
    assert("    "@ + "File Name"@ + ": "@ == "    File Name: "@);
    reveal_strlit("Delta Name");
    reveal_strlit("    Delta Name: ");
    assert("    "@ + "Delta Name"@ + ": "@ == "    Delta Name: "@);
}

proof fn lemma_entries_text(entries: Seq<EntryModel>, is_new: bool, i: int)
    requires
        0 <= i < entries.len(),
    ensures
        contains_text(entries_text(entries, is_new), entry_text(i, entries[i], is_new)),
    decreases entries.len(),
{
    let none = Seq::<char>::empty();
    let before = entries.drop_last();
    let part = entry_text(i, entries[i], is_new);
    let front = entries_text(before, is_new);
    let last = entry_text(entries.len() - 1, entries.last(), is_new);
    assert(entries_text(entries, is_new) == front + last);
    if i < before.len() {
        assert(before[i] == entries[i]);
        lemma_entries_text(before, is_new, i);
        lemma_contains_within(none, front, last, part);
        assert(none + front + last == front + last);
    } else {
        lemma_contains_part(front, part, none);
        assert(front + part + none == front + last);
    }
}

/// Texts, one behind the other.
pub open spec fn put_together(parts: Seq<Seq<char>>) -> Seq<char>
    decreases parts.len(),
{
    if parts.len() == 0 {
        Seq::empty()
    } else {
        put_together(parts.drop_last()) + parts.last()
    }
}

proof fn lemma_put_together(parts: Seq<Seq<char>>, i: int)
    requires
        0 <= i < parts.len(),
    ensures
        contains_text(put_together(parts), parts[i]),
    decreases parts.len(),
{
    let before = parts.drop_last();
    if i < before.len() {
        lemma_put_together(before, i);
        assert(before[i] == parts[i]);
    }
    lemma_contains_more(put_together(before), parts.last(), parts[i]);
}

/// The lines of an entry, one by one.
pub open spec fn entry_parts(i: int, e: EntryModel, is_new: bool) -> Seq<Seq<char>> {
    seq![
        "  Entry #"@ + dec(i) + "\n"@,
        field_line(
            if is_new {
                "Filesystem"@
            } else {
                "Update Attributes"@
            },
            described_in(update_attribute_values(is_new), e.update_attributes),
            e.update_attributes,
        ),
        field_line(
            if is_new {
                "Partition Type"@
            } else {
                "Attributes"@
            },
            described_in(attribute_values(is_new), e.attributes),
            e.attributes,
        ),
        field_line("Binary Type"@, described_in(binary_types(), e.binary_type), e.binary_type),
        field_line(
            "Device Type"@,
            described_in(device_types(is_new), e.device_type),
            e.device_type,
        ),
        number_line(
            if is_new {
                "Start Block"@
            } else {
                "Block Size"@
            },
            e.block_size,
        ),
        number_line("Block Count"@, e.block_count),
        text_line("Partition Name"@, e.partition),
        number_line("Partition ID"@, e.partition_id),
        number_line("File Offset"@, e.file_offset),
        number_line("File Size"@, e.file_size),
        text_line("File Name"@, e.file_name),
        if e.delta_name.len() == 0 {
            "    Empty Delta Name\n"@
        } else {
            text_line("Delta Name"@, e.delta_name)
        },
    ]
}

proof fn lemma_entry_text(i: int, e: EntryModel, is_new: bool)
    ensures
        entry_text(i, e, is_new) == put_together(entry_parts(i, e, is_new)),
{
    let p = entry_parts(i, e, is_new);
    reveal(entry_text);
    assert(p.take(0).len() == 0);
    assert(put_together(p.take(0)) == Seq::<char>::empty());
    assert(p.take(1).drop_last() == p.take(0) && p.take(1).last() == p[0]);
    assert(put_together(p.take(1)) == p[0]);
    assert(p.take(2).drop_last() == p.take(1) && p.take(2).last() == p[1]);
    assert(put_together(p.take(2)) == put_together(p.take(1)) + p[1]);
    assert(p.take(3).drop_last() == p.take(2) && p.take(3).last() == p[2]);
    assert(put_together(p.take(3)) == put_together(p.take(2)) + p[2]);
    assert(p.take(4).drop_last() == p.take(3) && p.take(4).last() == p[3]);
    assert(put_together(p.take(4)) == put_together(p.take(3)) + p[3]);
    assert(p.take(5).drop_last() == p.take(4) && p.take(5).last() == p[4]);
    assert(put_together(p.take(5)) == put_together(p.take(4)) + p[4]);
    assert(p.take(6).drop_last() == p.take(5) && p.take(6).last() == p[5]);
    assert(put_together(p.take(6)) == put_together(p.take(5)) + p[5]);
    assert(p.take(7).drop_last() == p.take(6) && p.take(7).last() == p[6]);
    assert(put_together(p.take(7)) == put_together(p.take(6)) + p[6]);
    assert(p.take(8).drop_last() == p.take(7) && p.take(8).last() == p[7]);
    assert(put_together(p.take(8)) == put_together(p.take(7)) + p[7]);
    assert(p.take(9).drop_last() == p.take(8) && p.take(9).last() == p[8]);
    assert(put_together(p.take(9)) == put_together(p.take(8)) + p[8]);
    assert(p.take(10).drop_last() == p.take(9) && p.take(10).last() == p[9]);
    assert(put_together(p.take(10)) == put_together(p.take(9)) + p[9]);
    assert(p.take(11).drop_last() == p.take(10) && p.take(11).last() == p[10]);
    assert(put_together(p.take(11)) == put_together(p.take(10)) + p[10]);
    assert(p.take(12).drop_last() == p.take(11) && p.take(12).last() == p[11]);
    assert(put_together(p.take(12)) == put_together(p.take(11)) + p[11]);
    assert(p.take(13).drop_last() == p.take(12) && p.take(13).last() == p[12]);
    assert(put_together(p.take(13)) == put_together(p.take(12)) + p[12]);
    assert(p.take(13) == p);
}

} // verus!
