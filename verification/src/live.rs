//! What a live flash is about to do: the partition each image goes to, the bytes it will write,
//! and what the user is shown before being asked.

use vstd::prelude::*;
use vstd::string::StringExecFns;

use crate::archive::{
    declared_size, law_declared_sizes_are_read_back, law_nothing_else_declares_a_size,
    lz4_content_size, real_size, ArchiveImage,
};
use crate::bytes::{signed64, to_signed64};
use crate::command::str_view;
use crate::dryrun::{
    compression_note, frame_declares, is_archive, is_archive_name, law_archive_names, planned_len,
    single_plan, single_target, single_target_text, ReportModel,
};
use crate::flash::FlashParams;
use crate::number::or_text;
use crate::path::{base_of, basename, law_base_name_is_the_last_name};
use crate::pit::{EntryModel, PitData, PitEntry, PitModel};
use crate::progress::{bytes_text, human_bytes, is_critical, is_critical_partition};
use crate::report::{
    available_partitions, available_text, image_index, match_archive_image, match_partition,
    partition_plan, partition_plan_text, plan_fits, target_index,
};
use crate::text::{
    contains_text, dec, dec_text, ends_in, ends_with, int_text, lemma_contains_all_three,
    lemma_contains_more, lemma_regroup, same_text, views,
};

verus! {

/// Whether a live flash of `file` is that of a whole archive. Its images are matched to their own
/// partitions, so naming one is an error.
pub open spec fn archive_route(file: Seq<char>, partition: Option<Seq<char>>) -> Result<
    bool,
    Seq<char>,
> {
    if is_archive_name(base_of(file)) {
        if partition is Some {
            Err(
                "a partition name can't be given for a whole-archive flash — every image is matched to its own partition"@,
            )
        } else {
            Ok(true)
        }
    } else {
        Ok(false)
    }
}

/// Decide whether a live flash is that of a whole archive or of a single image.
pub fn route_flash(file: &str, partition: Option<&str>) -> (r: Result<bool, String>)
    ensures
        or_text(r) == archive_route(file@, str_view(partition)),
{
    let base = basename(file);
    if is_archive(base.as_str()) {
        if partition.is_some() {
            return Err(
                String::from_str(
                    "a partition name can't be given for a whole-archive flash — every image is matched to its own partition",
                ),
            );
        }
        return Ok(true);
    }
    Ok(false)
}

/// The bytes that a file of `stored` bytes beginning with `head` writes to the device. A
/// compressed file has to say.
pub open spec fn source_len(base: Seq<char>, stored: i64, head: Seq<u8>) -> Result<i64, Seq<char>> {
    if ends_in(base, ".lz4"@) {
        match declared_size(head) {
            Some(n) => Ok(signed64(n)),
            None => Err(
                "this .lz4 has no content-size header, so the on-device length is unknown — decompress it first and flash the raw image"@,
            ),
        }
    } else {
        Ok(stored)
    }
}

/// The bytes that will land on the device. The length of a `.lz4` file is read from its frame
/// header.
pub fn flash_source_len(base: &str, stored: i64, head: &[u8]) -> (r: Result<i64, String>)
    ensures
        or_text(r) == source_len(base@, stored, head@),
{
    if ends_with(base, ".lz4") {
        match lz4_content_size(head) {
            Some(n) => Ok(to_signed64(n)),
            None => Err(
                String::from_str(
                    "this .lz4 has no content-size header, so the on-device length is unknown — decompress it first and flash the raw image",
                ),
            ),
        }
    } else {
        Ok(stored)
    }
}

/// The partition that a file goes to, or the list of those there are.
pub open spec fn target_of(
    pit: PitModel,
    base: Seq<char>,
    partition: Option<Seq<char>>,
) -> Result<EntryModel, Seq<char>> {
    match target_index(pit.entries, base, partition) {
        Some(i) => Ok(pit.entries[i]),
        None => Err(available_text(pit)),
    }
}

/// A target, by content.
pub open spec fn entry_result(r: Result<PitEntry, String>) -> Result<EntryModel, Seq<char>> {
    match r {
        Ok(e) => Ok(e@),
        Err(m) => Err(m@),
    }
}

/// Find the partition that a file goes to.
pub fn find_target(pit: &PitData, base: &str, partition: Option<&str>) -> (r: Result<
    PitEntry,
    String,
>)
    ensures
        entry_result(r) == target_of(pit@, base@, str_view(partition)),
{
    match match_partition(pit, base, partition) {
        Some(e) => Ok(e.clone()),
        None => Err(available_partitions(pit)),
    }
}

/// What is shown before a single image is flashed.
pub open spec fn single_text(e: EntryModel, len: i64, params: FlashParams) -> Seq<char> {
    "\nAbout to FLASH — this WRITES to the device:\n"@ + partition_plan_text(
        single_target(e),
        len,
        params,
    )
}

/// What is shown before a single image is flashed.
pub fn announce_single(e: &PitEntry, len: i64, params: &FlashParams) -> (s: String)
    requires
        plan_fits(len, *params),
    ensures
        s@ == single_text(e@, len, *params),
{
    let mut s = String::from_str("\nAbout to FLASH — this WRITES to the device:\n");
    let target = single_target_text(e);
    s.append(partition_plan(target.as_str(), len, params).as_str());
    s
}

/// A partition by name and id.
pub open spec fn short_target(e: EntryModel) -> Seq<char> {
    e.partition + " (id "@ + dec(e.partition_id as int) + ")"@
}

fn short_target_text(e: &PitEntry) -> (s: String)
    ensures
        s@ == short_target(e@),
{
    let mut s = e.partition.clone();
    s.append(" (id ");
    s.append(int_text(e.partition_id as i64).as_str());
    s.append(")");
    s
}

/// What is shown before a partition is zero-filled.
pub open spec fn erase_text(e: EntryModel, size: i64, params: FlashParams) -> Seq<char> {
    "\nAbout to ERASE (zero-fill) — this WRITES zeros to the device:\n"@ + partition_plan_text(
        short_target(e),
        size,
        params,
    )
}

/// What is shown before a partition is zero-filled.
pub fn announce_erase(e: &PitEntry, size: i64, params: &FlashParams) -> (s: String)
    requires
        plan_fits(size, *params),
    ensures
        s@ == erase_text(e@, size, *params),
{
    let mut s = String::from_str(
        "\nAbout to ERASE (zero-fill) — this WRITES zeros to the device:\n",
    );
    let target = short_target_text(e);
    s.append(partition_plan(target.as_str(), size, params).as_str());
    s
}

/// An image of an archive with the partition it goes to and the bytes it writes there.
pub struct ArchiveTarget {
    pub name: String,
    pub entry: PitEntry,
    pub size: i64,
}

/// An archive target, by content.
#[verifier::ext_equal]
pub struct TargetModel {
    pub name: Seq<char>,
    pub entry: EntryModel,
    pub size: i64,
}

impl View for ArchiveTarget {
    type V = TargetModel;

    open spec fn view(&self) -> TargetModel {
        TargetModel { name: self.name@, entry: self.entry@, size: self.size }
    }
}

/// The contents of a list of targets.
pub open spec fn target_models(v: Seq<ArchiveTarget>) -> Seq<TargetModel> {
    Seq::new(v.len(), |i: int| v[i]@)
}

/// The targets of the images that have a partition to go to.
pub open spec fn targets_of(images: Seq<ArchiveImage>, pit: PitModel) -> Seq<TargetModel>
    decreases images.len(),
{
    if images.len() == 0 {
        Seq::empty()
    } else {
        let before = targets_of(images.drop_last(), pit);
        let img = images.last();
        match image_index(pit.entries, img.name@) {
            Some(i) => before.push(
                TargetModel {
                    name: img.name@,
                    entry: pit.entries[i],
                    size: signed64(img.real_size),
                },
            ),
            None => before,
        }
    }
}

/// The names of the images that have none.
pub open spec fn skipped_of(images: Seq<ArchiveImage>, pit: PitModel) -> Seq<Seq<char>>
    decreases images.len(),
{
    if images.len() == 0 {
        Seq::empty()
    } else {
        let before = skipped_of(images.drop_last(), pit);
        if image_index(pit.entries, images.last().name@) is None {
            before.push(images.last().name@)
        } else {
            before
        }
    }
}

/// The images of an archive, sorted into those that go somewhere and those that do not.
pub struct Matched {
    pub targets: Vec<ArchiveTarget>,
    pub skipped: Vec<String>,
}

/// Match each image of an archive to a partition. It is an error if none has one.
pub fn match_images(images: &Vec<ArchiveImage>, pit: &PitData) -> (r: Result<Matched, String>)
    ensures
        match r {
            Ok(m) => {
                &&& targets_of(images@, pit@).len() > 0
                &&& target_models(m.targets@) == targets_of(images@, pit@)
                &&& views(m.skipped@) == skipped_of(images@, pit@)
            },
            Err(e) => {
                &&& targets_of(images@, pit@).len() == 0
                &&& e@
                    == "no image in the archive matches a PIT partition — nothing to flash"@
            },
        },
{
    let mut targets: Vec<ArchiveTarget> = Vec::new();
    let mut skipped: Vec<String> = Vec::new();
    let mut i: usize = 0;
    proof {
        assert(images@.take(0).len() == 0);
        assert(target_models(targets@) == Seq::<TargetModel>::empty());
        assert(views(skipped@) == Seq::<Seq<char>>::empty());
    }
    while i < images.len()
        invariant
            i <= images@.len(),
            target_models(targets@) == targets_of(images@.take(i as int), pit@),
            views(skipped@) == skipped_of(images@.take(i as int), pit@),
        decreases images@.len() - i,
    {
        proof {
            assert(images@.take(i + 1).drop_last() == images@.take(i as int));
            assert(images@.take(i + 1).last() == images@[i as int]);
        }
        let ghost before = target_models(targets@);
        let ghost missed = views(skipped@);
        let img: &ArchiveImage = &images[i];
        match match_archive_image(pit, img.name.as_str()) {
            Some(e) => {
                let t = ArchiveTarget {
                    name: img.name.clone(),
                    entry: e.clone(),
                    size: to_signed64(img.real_size),
                };
                let ghost model = t@;
                targets.push(t);
                assert(target_models(targets@) == before.push(model));
            },
            None => {
                skipped.push(img.name.clone());
                assert(views(skipped@) == missed.push(img.name@));
            },
        }
        i = i + 1;
    }
    assert(images@.take(i as int) == images@);
    if targets.len() == 0 {
        return Err(
            String::from_str(
                "no image in the archive matches a PIT partition — nothing to flash",
            ),
        );
    }
    Ok(Matched { targets, skipped })
}

/// The bytes that targets write in all.
pub open spec fn sum_of_sizes(targets: Seq<TargetModel>) -> int
    decreases targets.len(),
{
    if targets.len() == 0 {
        0
    } else {
        sum_of_sizes(targets.drop_last()) + targets.last().size
    }
}

/// Every running sum of the bytes that targets write is a 64-bit number.
pub open spec fn sums_fit(targets: Seq<TargetModel>) -> bool {
    forall|k: int|
        0 <= k <= targets.len() ==> i64::MIN <= #[trigger] sum_of_sizes(targets.take(k)) <= i64::MAX
}

/// The bytes that targets write in all, or `None` where a running sum is no 64-bit number.
pub fn total_size(targets: &Vec<ArchiveTarget>) -> (r: Option<i64>)
    ensures
        match r {
            Some(n) => sums_fit(target_models(targets@)) && n == sum_of_sizes(
                target_models(targets@),
            ),
            None => !sums_fit(target_models(targets@)),
        },
{
    let ghost all = target_models(targets@);
    let mut total: i64 = 0;
    let mut i: usize = 0;
    proof {
        assert(all.take(0).len() == 0);
    }
    while i < targets.len()
        invariant
            i <= targets@.len(),
            all == target_models(targets@),
            total == sum_of_sizes(all.take(i as int)),
            forall|k: int|
                0 <= k <= i ==> i64::MIN <= #[trigger] sum_of_sizes(all.take(k)) <= i64::MAX,
        decreases targets@.len() - i,
    {
        proof {
            assert(all.take(i + 1).drop_last() == all.take(i as int));
            assert(all.take(i + 1).last() == targets@[i as int]@);
        }
        let sum: i128 = total as i128 + targets[i].size as i128;
        assert(sum == sum_of_sizes(all.take(i + 1)));
        if sum < i64::MIN as i128 || sum > i64::MAX as i128 {
            return None;
        }
        total = sum as i64;
        i = i + 1;
    }
    assert(all.take(i as int) == all);
    Some(total)
}

/// Whether any target is a brick-prone partition.
pub open spec fn some_critical(targets: Seq<TargetModel>) -> bool {
    exists|i: int| 0 <= i < targets.len() && is_critical((#[trigger] targets[i]).entry.partition)
}

/// Whether any target is a brick-prone partition.
pub fn any_critical(targets: &Vec<ArchiveTarget>) -> (r: bool)
    ensures
        r == some_critical(target_models(targets@)),
{
    let ghost all = target_models(targets@);
    let mut i: usize = 0;
    while i < targets.len()
        invariant
            i <= targets@.len(),
            all == target_models(targets@),
            forall|j: int| 0 <= j < i ==> !is_critical((#[trigger] all[j]).entry.partition),
        decreases targets@.len() - i,
    {
        assert(all[i as int] == targets@[i as int]@);
        if is_critical_partition(targets[i].entry.partition.as_str()) {
            return true;
        }
        i = i + 1;
    }
    false
}

/// The plan of one target.
pub open spec fn target_plan(t: TargetModel, params: FlashParams) -> Seq<char> {
    partition_plan_text(short_target(t.entry) + "  <= "@ + t.name, t.size, params)
}

/// The plans of the targets.
pub open spec fn target_plans(targets: Seq<TargetModel>, params: FlashParams) -> Seq<char>
    decreases targets.len(),
{
    if targets.len() == 0 {
        Seq::empty()
    } else {
        target_plans(targets.drop_last(), params) + target_plan(targets.last(), params)
    }
}

/// The lines of the skipped images.
pub open spec fn skipped_lines(skipped: Seq<Seq<char>>) -> Seq<char>
    decreases skipped.len(),
{
    if skipped.len() == 0 {
        Seq::empty()
    } else {
        skipped_lines(skipped.drop_last()) + ("  "@ + skipped.last()
            + "  — no matching PIT partition (skipped)\n"@)
    }
}

/// What is shown before an archive is flashed.
pub open spec fn archive_text(
    file: Seq<char>,
    targets: Seq<TargetModel>,
    skipped: Seq<Seq<char>>,
    total: i64,
    params: FlashParams,
) -> Seq<char> {
    "\nAbout to FLASH "@ + dec(targets.len() as int) + " image(s) from "@ + file
        + " — this WRITES to the device:\n"@ + target_plans(targets, params) + skipped_lines(
        skipped,
    ) + "\nTotal: "@ + bytes_text(total as int) + " across "@ + dec(targets.len() as int)
        + " partition(s).\n"@
}

/// Every target can be planned for.
pub open spec fn targets_fit(targets: Seq<TargetModel>, params: FlashParams) -> bool {
    forall|i: int| 0 <= i < targets.len() ==> plan_fits((#[trigger] targets[i]).size, params)
}

fn target_rows(targets: &Vec<ArchiveTarget>, params: &FlashParams) -> (s: String)
    requires
        targets_fit(target_models(targets@), *params),
    ensures
        s@ == target_plans(target_models(targets@), *params),
{
    let ghost all = target_models(targets@);
    let mut s = String::new();
    let mut i: usize = 0;
    proof {
        assert(all.take(0).len() == 0);
    }
    while i < targets.len()
        invariant
            i <= targets@.len(),
            all == target_models(targets@),
            targets_fit(all, *params),
            s@ == target_plans(all.take(i as int), *params),
        decreases targets@.len() - i,
    {
        proof {
            assert(all.take(i + 1).drop_last() == all.take(i as int));
            assert(all.take(i + 1).last() == all[i as int]);
            assert(plan_fits(all[i as int].size, *params));
        }
        let t: &ArchiveTarget = &targets[i];
        let mut target = short_target_text(&t.entry);
        target.append("  <= ");
        target.append(t.name.as_str());
        s.append(partition_plan(target.as_str(), t.size, params).as_str());
        i = i + 1;
    }
    assert(all.take(i as int) == all);
    s
}

fn skipped_rows(skipped: &Vec<String>) -> (s: String)
    ensures
        s@ == skipped_lines(views(skipped@)),
{
    let ghost all = views(skipped@);
    let mut s = String::new();
    let mut i: usize = 0;
    proof {
        assert(all.take(0).len() == 0);
    }
    while i < skipped.len()
        invariant
            i <= skipped@.len(),
            all == views(skipped@),
            s@ == skipped_lines(all.take(i as int)),
        decreases skipped@.len() - i,
    {
        proof {
            assert(all.take(i + 1).drop_last() == all.take(i as int));
            assert(all.take(i + 1).last() == all[i as int]);
        }
        let mut line = String::from_str("  ");
        line.append(skipped[i].as_str());
        line.append("  — no matching PIT partition (skipped)\n");
        s.append(line.as_str());
        i = i + 1;
    }
    assert(all.take(i as int) == all);
    s
}

/// What is shown before an archive is flashed.
pub fn announce_archive(file: &str, m: &Matched, total: i64, params: &FlashParams) -> (s: String)
    requires
        targets_fit(target_models(m.targets@), *params),
    ensures
        s@ == archive_text(
            file@,
            target_models(m.targets@),
            views(m.skipped@),
            total,
            *params,
        ),
{
    let count = dec_text(m.targets.len() as u64);
    let mut s = String::from_str("\nAbout to FLASH ");
    s.append(count.as_str());
    s.append(" image(s) from ");
    s.append(file);
    s.append(" — this WRITES to the device:\n");
    s.append(target_rows(&m.targets, params).as_str());
    s.append(skipped_rows(&m.skipped).as_str());
    s.append("\nTotal: ");
    s.append(human_bytes(total).as_str());
    s.append(" across ");
    s.append(count.as_str());
    s.append(" partition(s).\n");
    s
}

/// The last target called `name`, looking back from `n`.
pub open spec fn last_target(targets: Seq<TargetModel>, name: Seq<char>, n: int) -> Option<int>
    decreases n,
{
    if n <= 0 || n > targets.len() {
        None
    } else if targets[n - 1].name == name {
        Some(n - 1)
    } else {
        last_target(targets, name, n - 1)
    }
}

/// The target of the image called `name`, when the archive is read a second time to flash it.
/// Where an archive has two images of one name, the target of the last counts.
pub fn lookup_target(targets: &Vec<ArchiveTarget>, name: &str) -> (r: Option<usize>)
    ensures
        match last_target(target_models(targets@), name@, targets@.len() as int) {
            Some(i) => r == Some(i as usize) && 0 <= i < targets@.len(),
            None => r is None,
        },
{
    let ghost all = target_models(targets@);
    let mut n: usize = targets.len();
    while n > 0
        invariant
            n <= targets@.len(),
            all == target_models(targets@),
            last_target(all, name@, n as int) == last_target(all, name@, targets@.len() as int),
        decreases n,
    {
        assert(all[n - 1] == targets@[n - 1]@);
        if same_text(targets[n - 1].name.as_str(), name) {
            return Some(n - 1);
        }
        n = n - 1;
    }
    None
}

/// Each image of an archive either goes to a partition or is skipped.
pub proof fn law_every_image_is_accounted_for(images: Seq<ArchiveImage>, pit: PitModel)
    ensures
        targets_of(images, pit).len() + skipped_of(images, pit).len() == images.len(),
        targets_of(images, pit).len() == crate::dryrun::matched_count(images, pit),
    decreases images.len(),
{
    if images.len() > 0 {
        law_every_image_is_accounted_for(images.drop_last(), pit);
    }
}

/// What the dry run says of an archive's image is what the live flash does with it: the same
/// partition and the same number of bytes.
pub proof fn law_live_targets_are_the_planned_ones(images: Seq<ArchiveImage>, pit: PitModel, k: int)
    requires
        0 <= k < targets_of(images, pit).len(),
    ensures
        exists|i: int|
            {
                &&& 0 <= i < images.len()
                &&& image_index(pit.entries, (#[trigger] images[i]).name@) matches Some(e)
                    && targets_of(images, pit)[k] == (TargetModel {
                    name: images[i].name@,
                    entry: pit.entries[e],
                    size: signed64(images[i].real_size),
                })
            },
    decreases images.len(),
{
    let before = images.drop_last();
    let earlier = targets_of(before, pit);
    if k < earlier.len() {
        law_live_targets_are_the_planned_ones(before, pit, k);
        let i = choose|i: int|
            {
                &&& 0 <= i < before.len()
                &&& image_index(pit.entries, (#[trigger] before[i]).name@) matches Some(e)
                    && earlier[k] == (TargetModel {
                    name: before[i].name@,
                    entry: pit.entries[e],
                    size: signed64(before[i].real_size),
                })
            };
        assert(images[i] == before[i]);
    } else {
        assert(images[images.len() - 1] == images.last());
    }
}

/// A single image goes to the partition that the dry run names, with the number of bytes that it
/// plans for; where the dry run finds no partition, the live flash is refused with the same text.
pub proof fn law_live_single_is_the_planned_one(
    base: Seq<char>,
    partition: Option<Seq<char>>,
    stored: i64,
    head: Seq<u8>,
    pit: PitModel,
    params: FlashParams,
)
    ensures
        source_len(base, stored, head) matches Ok(len) ==> len == planned_len(base, stored, head),
        match target_of(pit, base, partition) {
            Ok(e) => single_plan(base, partition, stored, head, pit, params) == (ReportModel {
                text: compression_note(base, stored, head) + partition_plan_text(
                    single_target(e),
                    planned_len(base, stored, head),
                    params,
                ),
                error: None,
            }),
            Err(m) => single_plan(base, partition, stored, head, pit, params).error == Some(m),
        },
{
}

/// An image is as large on the device from an archive as it is alone.
pub proof fn law_archived_size_is_the_planned_one(name: Seq<char>, stored: u64, head: Seq<u8>)
    ensures
        signed64(real_size(name, stored, head)) == planned_len(name, signed64(stored), head),
{
}

/// What is flashed from a compressed file is as long as its frame declares, alone or in an archive;
/// what is flashed from any other file is as long as the file.
#[verifier::spinoff_prover]
pub proof fn law_images_are_flashed_at_their_real_length(
    name: Seq<char>,
    stored: i64,
    head: Seq<u8>,
    n: i64,
)
    requires
        n >= 0,
        frame_declares(head, n as int),
    ensures
        source_len(name + ".lz4"@, stored, head) == Ok::<i64, Seq<char>>(n),
        real_size(name + ".lz4"@, stored as u64, head) == n,
        (forall|x: Seq<char>| name != #[trigger] (x + ".lz4"@)) ==> source_len(name, stored, head)
            == Ok::<i64, Seq<char>>(stored) && real_size(name, stored as u64, head) == stored as u64,
{
    reveal_strlit(".lz4");
    law_declared_sizes_are_read_back(head, n as u64);
    let base = name + ".lz4"@;
    assert(base.subrange(base.len() - 4, base.len() as int) == ".lz4"@);
    if ends_in(name, ".lz4"@) {
        let x = name.subrange(0, name.len() - 4);
        assert(name == x + ".lz4"@);
    }
}

/// A compressed file that does not say how long its content is cannot be flashed.
pub proof fn law_undeclared_lengths_are_refused(name: Seq<char>, stored: i64, head: Seq<u8>)
    requires
        head.len() < 14 || head[0] != 0x04 || head[1] != 0x22 || head[2] != 0x4D || head[3] != 0x18
            || head[4] / 8 % 2 == 0,
    ensures
        source_len(name + ".lz4"@, stored, head) is Err,
{
    law_nothing_else_declares_a_size(head);
    let base = name + ".lz4"@;
    assert(base.subrange(base.len() - ".lz4"@.len(), base.len() as int) == ".lz4"@);
}

/// A file in any directory is flashed as an archive if its name ends in `.tar` or `.tar.md5`, which
/// no partition may be given for.
#[verifier::spinoff_prover]
pub proof fn law_archives_are_flashed_whole(dir: Seq<char>, name: Seq<char>, partition: Seq<char>)
    requires
        !name.contains('/'),
    ensures
        archive_route(dir + seq!['/'] + (name + ".tar"@), None) == Ok::<bool, Seq<char>>(true),
        archive_route(dir + seq!['/'] + (name + ".tar.md5"@), None) == Ok::<bool, Seq<char>>(true),
        archive_route(dir + seq!['/'] + (name + ".tar"@), Some(partition)) is Err,
        archive_route(dir + seq!['/'] + (name + ".tar.md5"@), Some(partition)) is Err,
{
    law_archive_names(name);
    let (a, b) = (name + ".tar"@, name + ".tar.md5"@);
    reveal_strlit(".tar");
    reveal_strlit(".tar.md5");
    assert(!a.contains('/')) by {
        if a.contains('/') {
            let i = choose|i: int| 0 <= i < a.len() && a[i] == '/';
            assert(i < name.len() && name[i] == '/');
        }
    }
    assert(!b.contains('/')) by {
        if b.contains('/') {
            let i = choose|i: int| 0 <= i < b.len() && b[i] == '/';
            assert(i < name.len() && name[i] == '/');
        }
    }
    assert(a.len() >= 4 && b.len() >= 8);
    law_base_name_is_the_last_name(dir, a);
    law_base_name_is_the_last_name(dir, b);
}

/// A file in any directory whose name ends otherwise is flashed as a single image.
pub proof fn law_other_files_are_single_images(
    dir: Seq<char>,
    name: Seq<char>,
    partition: Option<Seq<char>>,
)
    requires
        name.len() > 0,
        !name.contains('/'),
        name != seq!['.'],
        name != seq!['.', '.'],
        forall|x: Seq<char>| name != #[trigger] (x + ".tar"@) && name != x + ".tar.md5"@,
    ensures
        archive_route(dir + seq!['/'] + name, partition) == Ok::<bool, Seq<char>>(false),
{
    law_archive_names(name);
    law_base_name_is_the_last_name(dir, name);
}

/// Every image that has a partition is a target, behind those of the images before it, and its size
/// is the one it has on the device.
pub proof fn law_every_matched_image_is_a_target(images: Seq<ArchiveImage>, pit: PitModel, k: int)
    requires
        0 <= k < images.len(),
        images[k].real_size <= i64::MAX,
    ensures
        image_index(pit.entries, images[k].name@) matches Some(e) ==> {
            let at = targets_of(images.take(k), pit).len() as int;
            &&& at < targets_of(images, pit).len()
            &&& targets_of(images, pit)[at].name == images[k].name@
            &&& targets_of(images, pit)[at].entry == pit.entries[e]
            &&& targets_of(images, pit)[at].size == images[k].real_size
        },
        image_index(pit.entries, images[k].name@) is None ==> {
            let at = skipped_of(images.take(k), pit).len() as int;
            at < skipped_of(images, pit).len() && skipped_of(images, pit)[at] == images[k].name@
        },
    decreases images.len(),
{
    let before = images.drop_last();
    if k < before.len() {
        law_every_matched_image_is_a_target(before, pit, k);
        assert(before[k] == images[k]);
        assert(before.take(k) == images.take(k));
    } else {
        assert(images.take(k) == before);
    }
}

/// The total is the sum of the sizes: of one target its size, and of targets behind others the one
/// total and the other.
pub proof fn law_total_is_the_sum(a: Seq<TargetModel>, b: Seq<TargetModel>, t: TargetModel)
    ensures
        sum_of_sizes(Seq::empty()) == 0,
        sum_of_sizes(seq![t]) == t.size,
        sum_of_sizes(a + b) == sum_of_sizes(a) + sum_of_sizes(b),
    decreases b.len(),
{
    assert(seq![t].drop_last() == Seq::<TargetModel>::empty());
    reveal_with_fuel(sum_of_sizes, 2);
    if b.len() == 0 {
        assert(a + b == a);
    } else {
        law_total_is_the_sum(a, b.drop_last(), t);
        assert((a + b).drop_last() == a + b.drop_last());
    }
}

/// The target that is found for a name has it, and none behind it does; where none is found, no
/// target has it.
pub proof fn law_last_target_of_a_name_counts(targets: Seq<TargetModel>, name: Seq<char>, n: int)
    requires
        0 <= n <= targets.len(),
    ensures
        match last_target(targets, name, n) {
            Some(i) => 0 <= i < n && targets[i].name == name && forall|j: int|
                i < j < n ==> (#[trigger] targets[j]).name != name,
            None => forall|j: int| 0 <= j < n ==> (#[trigger] targets[j]).name != name,
        },
    decreases n,
{
    if n > 0 && targets[n - 1].name != name {
        law_last_target_of_a_name_counts(targets, name, n - 1);
    }
}

/// Before an archive is flashed, the plan of every target is shown, with the partition, its id and
/// the image, and the line of every image that is skipped.
pub proof fn law_every_target_is_announced(
    file: Seq<char>,
    targets: Seq<TargetModel>,
    skipped: Seq<Seq<char>>,
    total: i64,
    params: FlashParams,
    k: int,
)
    ensures
        0 <= k < targets.len() ==> contains_text(
            archive_text(file, targets, skipped, total, params),
            partition_plan_text(
                targets[k].entry.partition + " (id "@ + dec(targets[k].entry.partition_id as int)
                    + ")"@ + "  <= "@ + targets[k].name,
                targets[k].size,
                params,
            ),
        ),
        0 <= k < skipped.len() ==> contains_text(
            archive_text(file, targets, skipped, total, params),
            "  "@ + skipped[k] + "  — no matching PIT partition (skipped)\n"@,
        ),
        contains_text(
            archive_text(file, targets, skipped, total, params),
            "\nTotal: "@ + bytes_text(total as int) + " across "@ + dec(targets.len() as int)
                + " partition(s).\n"@,
        ),
        contains_text(
            archive_text(file, targets, skipped, total, params),
            "\nAbout to FLASH "@ + dec(targets.len() as int) + " image(s) from "@ + file
                + " — this WRITES to the device:\n"@,
        ),
{
    let head = "\nAbout to FLASH "@ + dec(targets.len() as int) + " image(s) from "@ + file
        + " — this WRITES to the device:\n"@;
    let plans = target_plans(targets, params);
    let lines = skipped_lines(skipped);
    let tail = "\nTotal: "@ + bytes_text(total as int) + " across "@ + dec(targets.len() as int)
        + " partition(s).\n"@;
    lemma_regroup(
        head + plans + lines,
        "\nTotal: "@,
        bytes_text(total as int),
        " across "@,
        dec(targets.len() as int),
        " partition(s).\n"@,
    );
    lemma_contains_all_three(head, plans, lines, target_plan(targets[k], params));
    let line = "  "@ + skipped[k] + "  — no matching PIT partition (skipped)\n"@;
    lemma_contains_all_three(head + plans, lines, tail, line);
    lemma_contains_more(head + plans + lines, tail, target_plan(targets[k], params));
    lemma_contains_more(head + plans + lines, tail, head);
    if 0 <= k < targets.len() {
        lemma_target_is_shown(targets, params, k);
    }
    if 0 <= k < skipped.len() {
        lemma_skipped_is_shown(skipped, k);
    }
}

proof fn lemma_target_is_shown(targets: Seq<TargetModel>, params: FlashParams, k: int)
    requires
        0 <= k < targets.len(),
    ensures
        contains_text(target_plans(targets, params), target_plan(targets[k], params)),
    decreases targets.len(),
{
    let before = targets.drop_last();
    lemma_contains_more(
        target_plans(before, params),
        target_plan(targets.last(), params),
        target_plan(targets[k], params),
    );
    if k < before.len() {
        lemma_target_is_shown(before, params, k);
        assert(before[k] == targets[k]);
    }
}

proof fn lemma_skipped_is_shown(skipped: Seq<Seq<char>>, k: int)
    requires
        0 <= k < skipped.len(),
    ensures
        contains_text(
            skipped_lines(skipped),
            "  "@ + skipped[k] + "  — no matching PIT partition (skipped)\n"@,
        ),
    decreases skipped.len(),
{
    let before = skipped.drop_last();
    lemma_contains_more(
        skipped_lines(before),
        "  "@ + skipped.last() + "  — no matching PIT partition (skipped)\n"@,
        "  "@ + skipped[k] + "  — no matching PIT partition (skipped)\n"@,
    );
    if k < before.len() {
        lemma_skipped_is_shown(before, k);
        assert(before[k] == skipped[k]);
    }
}

/// Before a partition is written or zero-filled, its name, its id and the bytes to be written are shown.
pub proof fn law_targets_are_announced(e: EntryModel, len: i64, params: FlashParams)
    ensures
        contains_text(
            single_text(e, len, params),
            partition_plan_text(
                e.partition + " (id "@ + dec(e.partition_id as int) + ", binaryType "@ + dec(
                    e.binary_type as int,
                ) + ", deviceType "@ + dec(e.device_type as int) + ")"@,
                len,
                params,
            ),
        ),
        contains_text(
            erase_text(e, len, params),
            partition_plan_text(
                e.partition + " (id "@ + dec(e.partition_id as int) + ")"@,
                len,
                params,
            ),
        ),
{
    let plan = partition_plan_text(single_target(e), len, params);
    lemma_contains_more("\nAbout to FLASH — this WRITES to the device:\n"@, plan, plan);
    let erased = partition_plan_text(short_target(e), len, params);
    lemma_contains_more(
        "\nAbout to ERASE (zero-fill) — this WRITES zeros to the device:\n"@,
        erased,
        erased,
    );
}

} // verus!
