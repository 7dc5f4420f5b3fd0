//! What flashing a file would do: which partition each image goes to, how large it is on the
//! device, and how it is cut up. Nothing here writes anything.

use vstd::prelude::*;
use vstd::string::StringExecFns;

use crate::archive::{
    declared_size, law_declared_sizes_are_read_back, law_nothing_else_declares_a_size,
    lz4_content_size, ArchiveImage,
};
use crate::bytes::{holds64, signed64, to_signed64};
use crate::command::{str_view, text_view};
use crate::flash::{params_for, wire_total, FlashParams};
use crate::pit::{EntryModel, PitData, PitEntry, PitModel};
use crate::report::{
    available_partitions, available_text, image_index, match_archive_image, match_partition,
    partition_plan, partition_plan_text, plan_fits, sequence_lines, target_index,
};
use crate::text::{
    contains_text, dec, dec_text, ends_in, ends_with, int_text, lemma_contains_all_three,
    lemma_contains_more, lemma_contains_part, lemma_regroup, lemma_regroup_four,
};

verus! {

/// A text to show, and what went wrong after it, if anything did.
pub struct Report {
    pub text: String,
    pub error: Option<String>,
}

/// A report, by content.
#[verifier::ext_equal]
pub struct ReportModel {
    pub text: Seq<char>,
    pub error: Option<Seq<char>>,
}

impl View for Report {
    type V = ReportModel;

    open spec fn view(&self) -> ReportModel {
        ReportModel { text: self.text@, error: text_view(self.error) }
    }
}

/// Whether a file name is that of an Odin archive.
pub open spec fn is_archive_name(base: Seq<char>) -> bool {
    ends_in(base, ".tar"@) || ends_in(base, ".tar.md5"@)
}

/// Whether a file name is that of an Odin archive (`.tar` or `.tar.md5`).
pub fn is_archive(base: &str) -> (r: bool)
    ensures
        r == is_archive_name(base@),
{
    ends_with(base, ".tar") || ends_with(base, ".tar.md5")
}

/// The head of every dry run.
pub open spec fn header_text(params: FlashParams) -> Seq<char> {
    "DRY RUN — no data will be written to the device.\nPacket:  "@ + dec(params.packet_size as int)
        + " bytes/part; one sequence = "@ + dec(params.sequence_bytes()) + " bytes\n\n"@
}

/// The head of every dry run.
pub fn plan_header(params: &FlashParams) -> (s: String)
    requires
        params.fits(),
    ensures
        s@ == header_text(*params),
{
    let mut s = String::from_str("DRY RUN — no data will be written to the device.\nPacket:  ");
    s.append(int_text(params.packet_size).as_str());
    s.append(" bytes/part; one sequence = ");
    s.append(int_text(params.sequence_size()).as_str());
    s.append(" bytes\n\n");
    s
}

/// The bytes that a file of `stored` bytes beginning with `head` has on the device, as far as
/// its header tells.
pub open spec fn planned_len(base: Seq<char>, stored: i64, head: Seq<u8>) -> i64 {
    if ends_in(base, ".lz4"@) {
        match declared_size(head) {
            Some(n) => signed64(n),
            None => stored,
        }
    } else {
        stored
    }
}

/// What a dry run says about compression.
pub open spec fn compression_note(base: Seq<char>, stored: i64, head: Seq<u8>) -> Seq<char> {
    if ends_in(base, ".lz4"@) {
        match declared_size(head) {
            Some(n) => "LZ4: "@ + dec(stored as int) + " compressed bytes → "@ + dec(n as int)
                + " bytes on device (frame header)\n"@,
            None => "note: "@ + base
                + " is LZ4 but carries no content-size header; planning against the compressed size — the real on-device size will differ.\n"@,
        }
    } else {
        Seq::empty()
    }
}

/// A partition as the target of a single image.
pub open spec fn single_target(e: EntryModel) -> Seq<char> {
    e.partition + " (id "@ + dec(e.partition_id as int) + ", binaryType "@ + dec(
        e.binary_type as int,
    ) + ", deviceType "@ + dec(e.device_type as int) + ")"@
}

/// A partition as the target of a single image.
pub fn single_target_text(e: &PitEntry) -> (s: String)
    ensures
        s@ == single_target(e@),
{
    let mut s = e.partition.clone();
    s.append(" (id ");
    s.append(int_text(e.partition_id as i64).as_str());
    s.append(", binaryType ");
    s.append(int_text(e.binary_type as i64).as_str());
    s.append(", deviceType ");
    s.append(int_text(e.device_type as i64).as_str());
    s.append(")");
    s
}

/// What a dry run of a single image shows.
pub open spec fn single_plan(
    base: Seq<char>,
    partition: Option<Seq<char>>,
    stored: i64,
    head: Seq<u8>,
    pit: PitModel,
    params: FlashParams,
) -> ReportModel {
    let note = compression_note(base, stored, head);
    match target_index(pit.entries, base, partition) {
        None => ReportModel { text: note, error: Some(available_text(pit)) },
        Some(i) => ReportModel {
            text: note + partition_plan_text(
                single_target(pit.entries[i]),
                planned_len(base, stored, head),
                params,
            ),
            error: None,
        },
    }
}

/// Show what flashing a single image of `stored` bytes, which begins with `head`, would do.
pub fn plan_single(
    base: &str,
    partition: Option<&str>,
    stored: i64,
    head: &[u8],
    pit: &PitData,
    params: &FlashParams,
) -> (r: Report)
    requires
        target_index(pit@.entries, base@, str_view(partition)) is Some ==> plan_fits(
            planned_len(base@, stored, head@),
            *params,
        ),
    ensures
        r@ == single_plan(base@, str_view(partition), stored, head@, pit@, *params),
{
    let mut text = String::new();
    let mut len: i64 = stored;
    if ends_with(base, ".lz4") {
        match lz4_content_size(head) {
            Some(n) => {
                text.append("LZ4: ");
                text.append(int_text(stored).as_str());
                text.append(" compressed bytes → ");
                text.append(dec_text(n).as_str());
                text.append(" bytes on device (frame header)\n");
                len = to_signed64(n);
            },
            None => {
                text.append("note: ");
                text.append(base);
                text.append(
                    " is LZ4 but carries no content-size header; planning against the compressed size — the real on-device size will differ.\n",
                );
            },
        }
    }
    assert(text@ == compression_note(base@, stored, head@));
    match match_partition(pit, base, partition) {
        None => Report { text, error: Some(available_partitions(pit)) },
        Some(e) => {
            let target = single_target_text(e);
            text.append(partition_plan(target.as_str(), len, params).as_str());
            Report { text, error: None }
        },
    }
}

/// A partition as the target of an archive's image.
pub open spec fn image_target(e: EntryModel, img: ArchiveImage) -> Seq<char> {
    e.partition + " (id "@ + dec(e.partition_id as int) + ")"@ + (if img.compressed {
        "  [lz4 "@ + dec(img.stored_size as int) + "→"@ + dec(img.real_size as int) + " B]"@
    } else {
        Seq::empty()
    })
}

/// What a dry run shows for one image of an archive.
pub open spec fn image_plan(img: ArchiveImage, pit: PitModel, params: FlashParams) -> Seq<char> {
    match image_index(pit.entries, img.name@) {
        Some(i) => partition_plan_text(
            image_target(pit.entries[i], img),
            signed64(img.real_size),
            params,
        ),
        None => img.name@ + "  — no matching PIT partition (skipped)\n"@,
    }
}

/// What a dry run shows for the images of an archive.
pub open spec fn image_plans(
    images: Seq<ArchiveImage>,
    pit: PitModel,
    params: FlashParams,
) -> Seq<char>
    decreases images.len(),
{
    if images.len() == 0 {
        Seq::empty()
    } else {
        image_plans(images.drop_last(), pit, params) + image_plan(images.last(), pit, params)
    }
}

/// How many images of an archive have a partition to go to.
pub open spec fn matched_count(images: Seq<ArchiveImage>, pit: PitModel) -> nat
    decreases images.len(),
{
    if images.len() == 0 {
        0
    } else {
        matched_count(images.drop_last(), pit) + if image_index(
            pit.entries,
            images.last().name@,
        ) is Some {
            1nat
        } else {
            0
        }
    }
}

/// What a dry run of an archive shows.
pub open spec fn archive_plan(
    file: Seq<char>,
    images: Seq<ArchiveImage>,
    pit: PitModel,
    params: FlashParams,
) -> Seq<char> {
    "Archive: "@ + file + " — "@ + dec(images.len() as int) + " image(s)\n\n"@ + image_plans(
        images,
        pit,
        params,
    ) + "\n"@ + dec(matched_count(images, pit) as int) + "/"@ + dec(images.len() as int)
        + " image(s) matched to a partition.\n"@
}

/// Every image that has a partition to go to can be planned for.
pub open spec fn images_fit(images: Seq<ArchiveImage>, pit: PitModel, params: FlashParams) -> bool {
    forall|i: int|
        0 <= i < images.len() && image_index(pit.entries, (#[trigger] images[i]).name@) is Some
            ==> plan_fits(signed64(images[i].real_size), params)
}

fn image_report(img: &ArchiveImage, pit: &PitData, params: &FlashParams) -> (r: (String, bool))
    requires
        image_index(pit@.entries, img.name@) is Some ==> plan_fits(
            signed64(img.real_size),
            *params,
        ),
    ensures
        r.0@ == image_plan(*img, pit@, *params),
        r.1 == (image_index(pit@.entries, img.name@) is Some),
{
    match match_archive_image(pit, img.name.as_str()) {
        Some(e) => {
            let mut target = e.partition.clone();
            target.append(" (id ");
            target.append(int_text(e.partition_id as i64).as_str());
            target.append(")");
            let mut comp = String::new();
            if img.compressed {
                comp.append("  [lz4 ");
                comp.append(dec_text(img.stored_size).as_str());
                comp.append("→");
                comp.append(dec_text(img.real_size).as_str());
                comp.append(" B]");
            }
            target.append(comp.as_str());
            proof {
                let i = image_index(pit@.entries, img.name@)->0;
                assert(pit@.entries[i] == e@);
                if img.compressed {
                    assert(comp@ == "  [lz4 "@ + dec(img.stored_size as int) + "→"@ + dec(
                        img.real_size as int,
                    ) + " B]"@);
                }
                assert(target@ == image_target(e@, *img));
            }
            (partition_plan(target.as_str(), to_signed64(img.real_size), params), true)
        },
        None => {
            let mut s = img.name.clone();
            s.append("  — no matching PIT partition (skipped)\n");
            (s, false)
        },
    }
}

/// Show what flashing every image of an archive would do.
pub fn plan_archive(
    file: &str,
    images: &Vec<ArchiveImage>,
    pit: &PitData,
    params: &FlashParams,
) -> (s: String)
    requires
        images_fit(images@, pit@, *params),
    ensures
        s@ == archive_plan(file@, images@, pit@, *params),
{
    let mut rows = String::new();
    let mut matched: usize = 0;
    let mut i: usize = 0;
    proof {
        assert(images@.take(0).len() == 0);
    }
    while i < images.len()
        invariant
            i <= images@.len(),
            images_fit(images@, pit@, *params),
            rows@ == image_plans(images@.take(i as int), pit@, *params),
            matched == matched_count(images@.take(i as int), pit@),
            matched <= i,
        decreases images@.len() - i,
    {
        proof {
            assert(images@.take(i + 1).drop_last() == images@.take(i as int));
            assert(images@.take(i + 1).last() == images@[i as int]);
        }
        let (row, found) = image_report(&images[i], pit, params);
        rows.append(row.as_str());
        if found {
            matched = matched + 1;
        }
        i = i + 1;
    }
    assert(images@.take(i as int) == images@);
    let mut s = String::from_str("Archive: ");
    s.append(file);
    s.append(" — ");
    s.append(dec_text(images.len() as u64).as_str());
    s.append(" image(s)\n\n");
    s.append(rows.as_str());
    s.append("\n");
    s.append(dec_text(matched as u64).as_str());
    s.append("/");
    s.append(dec_text(images.len() as u64).as_str());
    s.append(" image(s) matched to a partition.\n");
    s
}

/// Whether a file begins with the header of an LZ4 frame that declares `n` bytes of content.
pub open spec fn frame_declares(head: Seq<u8>, n: int) -> bool {
    &&& head.len() >= 14
    &&& head[0] == 0x04 && head[1] == 0x22 && head[2] == 0x4D && head[3] == 0x18
    &&& head[4] / 8 % 2 == 1
    &&& holds64(head, 6, n)
}

/// A compressed image is as long on the device as its frame declares, and any other image as long as
/// the file is.
#[verifier::spinoff_prover]
pub proof fn law_images_are_planned_at_their_real_length(
    name: Seq<char>,
    stored: i64,
    head: Seq<u8>,
    n: i64,
)
    requires
        n >= 0,
        frame_declares(head, n as int),
    ensures
        planned_len(name + ".lz4"@, stored, head) == n,
        contains_text(
            compression_note(name + ".lz4"@, stored, head),
            dec(stored as int) + " compressed bytes → "@ + dec(n as int) + " bytes on device"@,
        ),
        (forall|x: Seq<char>| name != #[trigger] (x + ".lz4"@)) ==> planned_len(name, stored, head)
            == stored && compression_note(name, stored, head) == Seq::<char>::empty(),
{
    reveal_strlit(".lz4");
    law_declared_sizes_are_read_back(head, n as u64);
    let base = name + ".lz4"@;
    assert(base.subrange(base.len() - 4, base.len() as int) == ".lz4"@);
    let figures = dec(stored as int) + " compressed bytes → "@ + dec(n as int)
        + " bytes on device"@;
    lemma_contains_part("LZ4: "@, figures, " (frame header)\n"@);
    assert("LZ4: "@ + figures + " (frame header)\n"@ == compression_note(base, stored, head)) by {
        reveal_strlit(" bytes on device (frame header)\n");
        reveal_strlit(" bytes on device");
        reveal_strlit(" (frame header)\n");
        assert(" bytes on device"@ + " (frame header)\n"@ == " bytes on device (frame header)\n"@);
    }
    if ends_in(name, ".lz4"@) {
        let x = name.subrange(0, name.len() - 4);
        assert(name == x + ".lz4"@);
    }
}

/// A compressed image whose frame declares no length is planned at the length of the file.
pub proof fn law_undeclared_lengths_are_those_of_the_file(
    base: Seq<char>,
    stored: i64,
    head: Seq<u8>,
)
    requires
        head.len() < 14 || head[0] != 0x04 || head[1] != 0x22 || head[2] != 0x4D || head[3] != 0x18
            || head[4] / 8 % 2 == 0,
    ensures
        planned_len(base, stored, head) == stored,
{
    law_nothing_else_declares_a_size(head);
}

/// An archive is a file whose name ends in `.tar` or `.tar.md5`.
#[verifier::spinoff_prover]
pub proof fn law_archive_names(name: Seq<char>)
    ensures
        is_archive_name(name + ".tar"@),
        is_archive_name(name + ".tar.md5"@),
        is_archive_name(name) ==> exists|x: Seq<char>|
            name == #[trigger] (x + ".tar"@) || name == x + ".tar.md5"@,
{
    reveal_strlit(".tar");
    reveal_strlit(".tar.md5");
    let (a, b) = (name + ".tar"@, name + ".tar.md5"@);
    assert(a.subrange(a.len() - 4, a.len() as int) == ".tar"@);
    assert(b.subrange(b.len() - 8, b.len() as int) == ".tar.md5"@);
    if ends_in(name, ".tar"@) {
        let x = name.subrange(0, name.len() - 4);
        assert(name == x + ".tar"@);
    } else if ends_in(name, ".tar.md5"@) {
        let x = name.subrange(0, name.len() - 8);
        assert(name == x + ".tar.md5"@);
        assert((x + ".tar"@).len() >= 0);
    }
}

/// The head of a dry run shows the packet size of the bootloader's generation and the 31457280 bytes
/// of a sequence.
pub proof fn law_header_shows_the_sizes(version: i16)
    ensures
        contains_text(
            header_text(params_for(version)),
            dec(
                if version >= 2 {
                    0x10_0000
                } else {
                    0x2_0000
                },
            ) + " bytes/part; one sequence = "@ + dec(31_457_280) + " bytes\n\n"@,
        ),
{
    let params = params_for(version);
    if version >= 2 {
        assert(0x10_0000 * 30 == 31_457_280);
    } else {
        assert(0x2_0000 * 240 == 31_457_280);
    }
    lemma_header(dec(params.packet_size as int), dec(params.sequence_bytes()));
}

proof fn lemma_header(packet: Seq<char>, sequence: Seq<char>)
    ensures
        contains_text(
            "DRY RUN — no data will be written to the device.\nPacket:  "@ + packet
                + " bytes/part; one sequence = "@ + sequence + " bytes\n\n"@,
            packet + " bytes/part; one sequence = "@ + sequence + " bytes\n\n"@,
        ),
{
    let head = "DRY RUN — no data will be written to the device.\nPacket:  "@;
    let figures = packet + " bytes/part; one sequence = "@ + sequence + " bytes\n\n"@;
    lemma_regroup_four(
        head,
        packet,
        " bytes/part; one sequence = "@,
        sequence,
        " bytes\n\n"@,
    );
    lemma_contains_more(head, figures, figures);
}

/// Every image of an archive is shown: with the plan of its partition, for the length it has on the
/// device, or as one that is skipped. The number of images is shown before them, and how many have a
/// partition behind them.
pub proof fn law_every_image_is_shown(
    file: Seq<char>,
    images: Seq<ArchiveImage>,
    pit: PitModel,
    params: FlashParams,
    k: int,
)
    requires
        0 <= k < images.len(),
    ensures
        contains_text(archive_plan(file, images, pit, params), image_plan(images[k], pit, params)),
        contains_text(
            archive_plan(file, images, pit, params),
            "Archive: "@ + file + " — "@ + dec(images.len() as int) + " image(s)\n\n"@,
        ),
        contains_text(
            archive_plan(file, images, pit, params),
            "\n"@ + dec(matched_count(images, pit) as int) + "/"@ + dec(images.len() as int)
                + " image(s) matched to a partition.\n"@,
        ),
        matched_count(images, pit) == images.filter(
            |img: ArchiveImage| image_index(pit.entries, img.name@) is Some,
        ).len(),
{
    let head = "Archive: "@ + file + " — "@ + dec(images.len() as int) + " image(s)\n\n"@;
    let tail = "\n"@ + dec(matched_count(images, pit) as int) + "/"@ + dec(images.len() as int)
        + " image(s) matched to a partition.\n"@;
    let rows = image_plans(images, pit, params);
    lemma_image_is_shown(images, pit, params, k);
    lemma_contains_all_three(head, rows, tail, image_plan(images[k], pit, params));
    lemma_regroup(
        head + rows,
        "\n"@,
        dec(matched_count(images, pit) as int),
        "/"@,
        dec(images.len() as int),
        " image(s) matched to a partition.\n"@,
    );
    lemma_matched_count(images, pit);
}

proof fn lemma_matched_count(images: Seq<ArchiveImage>, pit: PitModel)
    ensures
        matched_count(images, pit) == images.filter(
            |img: ArchiveImage| image_index(pit.entries, img.name@) is Some,
        ).len(),
    decreases images.len(),
{
    reveal(Seq::filter);
    if images.len() > 0 {
        lemma_matched_count(images.drop_last(), pit);
    }
}

proof fn lemma_image_is_shown(
    images: Seq<ArchiveImage>,
    pit: PitModel,
    params: FlashParams,
    k: int,
)
    requires
        0 <= k < images.len(),
    ensures
        contains_text(image_plans(images, pit, params), image_plan(images[k], pit, params)),
    decreases images.len(),
{
    let before = images.drop_last();
    let rows = image_plans(before, pit, params);
    let last = image_plan(images.last(), pit, params);
    lemma_contains_more(rows, last, image_plan(images[k], pit, params));
    if k < before.len() {
        lemma_image_is_shown(before, pit, params, k);
        assert(before[k] == images[k]);
    }
}

proof fn lemma_plan_shows(
    target: Seq<char>,
    len: Seq<char>,
    count: Seq<char>,
    wire: Seq<char>,
    lines: Seq<char>,
    part: Seq<char>,
)
    ensures
        ({
            let all = target + "\n    "@ + len + " B → "@ + count + " sequence(s), "@ + wire
                + " B on the wire\n"@ + lines;
            contains_text(all, "\n    "@ + len + " B → "@) && (contains_text(target, part)
                ==> contains_text(all, part))
        }),
{
    let shown = "\n    "@ + len + " B → "@;
    let rest = count + " sequence(s), "@ + wire + " B on the wire\n"@ + lines;
    let all = target + "\n    "@ + len + " B → "@ + count + " sequence(s), "@ + wire
        + " B on the wire\n"@ + lines;
    let front = target + "\n    "@ + len + " B → "@;
    assert(front =~= target + shown);
    lemma_regroup(front, count, " sequence(s), "@, wire, " B on the wire\n"@, lines);
    lemma_contains_more(target, shown, part);
    lemma_contains_more(front, rest, part);
    lemma_contains_more(front, rest, shown);
}

#[verifier::spinoff_prover]
proof fn lemma_target_shows(e: EntryModel, img: ArchiveImage)
    ensures
        contains_text(
            image_target(e, img),
            e.partition + " (id "@ + dec(e.partition_id as int) + ")"@,
        ),
        img.compressed ==> contains_text(
            image_target(e, img),
            "[lz4 "@ + dec(img.stored_size as int) + "→"@ + dec(img.real_size as int) + " B]"@,
        ),
{
    let none = Seq::<char>::empty();
    let named = e.partition + " (id "@ + dec(e.partition_id as int) + ")"@;
    if img.compressed {
        let (a, b) = (dec(img.stored_size as int), dec(img.real_size as int));
        let sizes = "[lz4 "@ + a + "→"@ + b + " B]"@;
        assert("  [lz4 "@ == "  "@ + "[lz4 "@) by {
            reveal_strlit("  [lz4 ");
            reveal_strlit("[lz4 ");
            reveal_strlit("  ");
        }
        lemma_regroup("  "@, "[lz4 "@, a, "→"@, b, " B]"@);
        lemma_contains_more(named, "  "@ + sizes, named);
        lemma_contains_all_three(named, none, none, named);
        assert(named + none + none == named);
        lemma_contains_more("  "@, sizes, sizes);
        lemma_contains_part(named + "  "@, sizes, none);
        assert(named + "  "@ + sizes + none == named + ("  "@ + sizes));
    } else {
        lemma_contains_part(none, named, none);
        assert(none + named + none == named + none);
    }
}

#[verifier::spinoff_prover]
proof fn lemma_skipped_shows(name: Seq<char>)
    ensures
        contains_text(
            name + "  — no matching PIT partition (skipped)\n"@,
            name + "  — no matching PIT partition (skipped)"@,
        ),
{
    let none = Seq::<char>::empty();
    let line = name + "  — no matching PIT partition (skipped)"@;
    reveal_strlit("  — no matching PIT partition (skipped)\n");
    reveal_strlit("  — no matching PIT partition (skipped)");
    reveal_strlit("\n");
    assert("  — no matching PIT partition (skipped)\n"@
        == "  — no matching PIT partition (skipped)"@ + "\n"@);
    lemma_contains_part(none, line, "\n"@);
    assert(none + line + "\n"@ == name + "  — no matching PIT partition (skipped)\n"@);
}

/// An image that goes to a partition is shown with that partition's name and id, and a compressed one
/// with both of its sizes; one that goes nowhere is shown with its own name.
pub proof fn law_images_are_shown_with_their_target(
    img: ArchiveImage,
    pit: PitModel,
    params: FlashParams,
)
    ensures
        image_index(pit.entries, img.name@) matches Some(i) ==> {
            let e = pit.entries[i];
            let plan = image_plan(img, pit, params);
            &&& contains_text(plan, e.partition + " (id "@ + dec(e.partition_id as int) + ")"@)
            &&& img.compressed ==> contains_text(
                plan,
                "[lz4 "@ + dec(img.stored_size as int) + "→"@ + dec(img.real_size as int) + " B]"@,
            )
            &&& img.real_size <= i64::MAX ==> contains_text(
                plan,
                "\n    "@ + dec(img.real_size as int) + " B → "@,
            )
        },
        image_index(pit.entries, img.name@) is None ==> contains_text(
            image_plan(img, pit, params),
            img.name@ + "  — no matching PIT partition (skipped)"@,
        ),
{
    match image_index(pit.entries, img.name@) {
        Some(i) => {
            let e = pit.entries[i];
            let len = signed64(img.real_size);
            let target = image_target(e, img);
            let named = e.partition + " (id "@ + dec(e.partition_id as int) + ")"@;
            let seqs = params.plan(len as int);
            lemma_plan_shows(
                target,
                dec(len as int),
                dec(seqs.len() as int),
                dec(wire_total(seqs)),
                sequence_lines(seqs),
                named,
            );
            let sizes = "[lz4 "@ + dec(img.stored_size as int) + "→"@ + dec(img.real_size as int)
                + " B]"@;
            lemma_target_shows(e, img);
            lemma_plan_shows(
                target,
                dec(len as int),
                dec(seqs.len() as int),
                dec(wire_total(seqs)),
                sequence_lines(seqs),
                sizes,
            );
        },
        None => {
            lemma_skipped_shows(img.name@);
        },
    }
}

} // verus!
