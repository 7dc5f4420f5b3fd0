//! Reports: partition tables, dry runs, and what a live flash announces.

use thor::archive::{archive_image, ArchiveImage, TarEntryInfo};
use thor::dryrun::{is_archive, plan_archive, plan_header, plan_single, single_target_text};
use thor::flash::FlashParams;
use thor::live::{
    announce_archive, announce_erase, announce_single, any_critical, find_target, flash_source_len,
    lookup_target, match_images, route_flash, total_size,
};
use thor::pit::{PitData, PitEntry};
use thor::report::{
    available_partitions, can_plan, match_archive_image, match_partition, partition_plan, pit_report,
};

fn params() -> FlashParams {
    FlashParams::for_bootloader_version(3)
}

fn entry(id: i32, partition: &str, file_name: &str) -> PitEntry {
    PitEntry {
        partition_id: id,
        device_type: 2,
        partition: partition.to_string(),
        file_name: file_name.to_string(),
        ..PitEntry::default()
    }
}

fn pit() -> PitData {
    PitData {
        entries: vec![
            entry(1, "SBL1", "sbl1.mbn"),
            entry(20, "BOOT", "boot.img"),
            entry(21, "Recovery", "recovery.img"),
        ],
        is_new_version: true,
        unknown: "COM_TAR2".to_string(),
        project: "MSM8937".to_string(),
        reserved: 0,
    }
}

fn image(name: &str, stored_size: u64, real_size: u64) -> ArchiveImage {
    ArchiveImage { name: name.to_string(), stored_size, real_size, compressed: name.ends_with(".lz4") }
}

/// The first bytes of an LZ4 frame that declares `n` bytes.
fn lz4_head(n: u64) -> Vec<u8> {
    let mut h = vec![0x04, 0x22, 0x4D, 0x18, 0x68, 0x40];
    h.extend(n.to_le_bytes());
    h
}

#[test]
fn partitions_are_matched_by_name_or_file() {
    let pit = pit();
    let by_name = |name: &str| match_partition(&pit, "x", Some(name)).map(|e| e.partition_id);
    assert_eq!(by_name("boot"), Some(20));
    assert_eq!(by_name("RECOVERY"), Some(21));
    assert_eq!(by_name("x"), None);
    let by_file = |file: &str| match_partition(&pit, file, None).map(|e| e.partition_id);
    assert_eq!(by_file("boot.img"), Some(20));
    assert_eq!(by_file("BOOT.IMG"), None);
    let of_image = |name: &str| match_archive_image(&pit, name).map(|e| e.partition_id);
    assert_eq!(of_image("boot.img"), Some(20));
    assert_eq!(of_image("boot.img.lz4"), Some(20));
    assert_eq!(of_image("boot.img.lz4.lz4"), None);
    assert_eq!(of_image(".lz4"), None);
}

#[test]
fn an_exact_file_name_beats_a_stripped_one() {
    let mut pit = pit();
    pit.entries.push(entry(30, "ODD", "boot.img.lz4"));
    assert_eq!(match_archive_image(&pit, "boot.img.lz4").unwrap().partition_id, 30);
}

#[test]
fn a_table_is_shown_as_a_tree() {
    let mut pit = pit();
    pit.entries.truncate(1);
    pit.entries[0].attributes = 5;
    pit.entries[0].update_attributes = 1;
    pit.entries[0].block_size = 8192;
    pit.entries[0].block_count = 1024;
    let want = "PIT File\n  Header\n    Unknown string: COM_TAR2\n    Project name: MSM8937\n    \
                Version: v2 (new)\n    Reserved: 0\n  Entry #0\n    Filesystem: Basic (1)\n    \
                Partition Type: Data (5)\n    Binary Type: Phone / AP (0)\n    Device Type: EMMC (2)\n    \
                Start Block: 8192\n    Block Count: 1024\n    Partition Name: SBL1\n    Partition ID: 1\n    \
                File Offset: 0\n    File Size: 0\n    File Name: sbl1.mbn\n    Empty Delta Name\n";
    assert_eq!(pit_report(&pit), want);
    pit.is_new_version = false;
    pit.entries[0].delta_name = "d".to_string();
    let old = pit_report(&pit);
    assert!(old.contains("    Version: v1 (old)\n"));
    assert!(old.contains("    Update Attributes: FOTA (1)\n    Attributes: Unknown (5)\n"));
    assert!(old.contains("    Device Type: MoviNAND (2)\n    Block Size: 8192\n"));
    assert!(old.ends_with("    Delta Name: d\n"));
}

#[test]
fn a_missing_partition_lists_those_there_are() {
    assert_eq!(
        available_partitions(&pit()),
        "no matching partition. Available:\n  SBL1 (sbl1.mbn)\n  BOOT (boot.img)\n  Recovery (recovery.img)"
    );
    let err = find_target(&pit(), "boot.img", Some("NOPE")).unwrap_err();
    assert!(err.starts_with("no matching partition."));
    assert_eq!(find_target(&pit(), "boot.img", None).unwrap().partition, "BOOT");
}

#[test]
fn a_plan_lists_its_sequences() {
    let want = "BOOT\n    31457780 B → 2 sequence(s), 32505856 B on the wire\n    \
                seq   0:   30 part(s), real   31457280 B, on-wire   31457280 B\n    \
                seq   1:    1 part(s), real        500 B, on-wire    1048576 B  (last)\n";
    assert_eq!(partition_plan("BOOT", 31_457_780, &params()), want);
    assert_eq!(
        partition_plan("BOOT", 0, &params()),
        "BOOT\n    0 B → 0 sequence(s), 0 B on the wire\n"
    );
}

#[test]
fn plans_beyond_the_machine_are_recognised() {
    assert!(can_plan(5_000_000_000, &params()));
    assert!(can_plan(-1, &params()));
    assert!(!can_plan(i64::MAX, &params()));
    let huge = FlashParams { packet_size: i64::MAX, packets_per_sequence: 2, flash_timeout_ms: 0 };
    assert!(!can_plan(0, &huge));
}

#[test]
fn archives_are_known_by_their_names() {
    assert!(is_archive("AP.tar") && is_archive("AP.tar.md5"));
    assert!(!is_archive("boot.img") && !is_archive("AP.tar.lz4") && !is_archive("AP.TAR"));
    assert_eq!(route_flash("/x/AP.tar", None), Ok(true));
    assert_eq!(route_flash("/x.tar/boot.img", Some("BOOT")), Ok(false));
    assert!(route_flash("AP.tar.md5", Some("BOOT")).unwrap_err().starts_with("a partition name can't"));
}

#[test]
fn a_dry_run_says_what_a_flash_would_do() {
    assert_eq!(
        plan_header(&params()),
        "DRY RUN — no data will be written to the device.\nPacket:  1048576 bytes/part; \
         one sequence = 31457280 bytes\n\n"
    );
    let target = "BOOT (id 20, binaryType 0, deviceType 2)";
    assert_eq!(single_target_text(&pit().entries[1]), target);

    let r = plan_single("boot.img", None, 10, b"", &pit(), &params());
    assert_eq!(r.text, partition_plan(target, 10, &params()));
    assert_eq!(r.error, None);

    let r = plan_single("b.lz4", Some("BOOT"), 10, &lz4_head(77), &pit(), &params());
    assert_eq!(
        r.text,
        format!(
            "LZ4: 10 compressed bytes → 77 bytes on device (frame header)\n{}",
            partition_plan(target, 77, &params())
        )
    );

    let r = plan_single("b.lz4", Some("BOOT"), 10, b"??", &pit(), &params());
    assert!(r.text.starts_with("note: b.lz4 is LZ4 but carries no content-size header;"));
    assert!(r.text.ends_with(&partition_plan(target, 10, &params())));

    let r = plan_single("odd.img", None, 10, b"", &pit(), &params());
    assert_eq!(r.text, "");
    assert_eq!(r.error, Some(available_partitions(&pit())));
}

#[test]
fn a_dry_run_of_an_archive_covers_every_image() {
    let images = vec![image("boot.img.lz4", 5, 100), image("odd.bin", 7, 7), image("sbl1.mbn", 9, 9)];
    let want = format!(
        "Archive: AP.tar — 3 image(s)\n\n{}odd.bin  — no matching PIT partition (skipped)\n{}\n\
         2/3 image(s) matched to a partition.\n",
        partition_plan("BOOT (id 20)  [lz4 5→100 B]", 100, &params()),
        partition_plan("SBL1 (id 1)", 9, &params()),
    );
    assert_eq!(plan_archive("AP.tar", &images, &pit(), &params()), want);
}

#[test]
fn a_live_flash_has_to_know_the_length() {
    assert_eq!(flash_source_len("boot.img", 10, &lz4_head(77)), Ok(10));
    assert_eq!(flash_source_len("boot.img.lz4", 10, &lz4_head(77)), Ok(77));
    assert!(flash_source_len("boot.img.lz4", 10, b"").unwrap_err().starts_with("this .lz4 has no"));
}

#[test]
fn announcements_show_the_plan() {
    let e = &pit().entries[1];
    assert_eq!(
        announce_single(e, 10, &params()),
        format!(
            "\nAbout to FLASH — this WRITES to the device:\n{}",
            partition_plan("BOOT (id 20, binaryType 0, deviceType 2)", 10, &params())
        )
    );
    assert_eq!(
        announce_erase(e, 10, &params()),
        format!(
            "\nAbout to ERASE (zero-fill) — this WRITES zeros to the device:\n{}",
            partition_plan("BOOT (id 20)", 10, &params())
        )
    );
}

#[test]
fn an_archive_is_announced_with_its_total() {
    let images = vec![image("boot.img.lz4", 5, 2048), image("odd.bin", 7, 7), image("recovery.img", 9, 0)];
    let m = match_images(&images, &pit()).unwrap();
    assert_eq!(m.skipped, ["odd.bin"]);
    assert_eq!(m.targets.len() + m.skipped.len(), images.len());
    assert_eq!((m.targets[0].name.as_str(), m.targets[0].size), ("boot.img.lz4", 2048));
    assert_eq!(m.targets[1].entry.partition_id, 21);
    assert_eq!(total_size(&m.targets), Some(2048));
    assert!(!any_critical(&m.targets));
    assert_eq!(
        announce_archive("AP.tar", &m, 2048, &params()),
        format!(
            "\nAbout to FLASH 2 image(s) from AP.tar — this WRITES to the device:\n{}{}  odd.bin  — no \
             matching PIT partition (skipped)\n\nTotal: 2.0 KiB across 2 partition(s).\n",
            partition_plan("BOOT (id 20)  <= boot.img.lz4", 2048, &params()),
            partition_plan("Recovery (id 21)  <= recovery.img", 0, &params()),
        )
    );
}

#[test]
fn an_archive_with_nothing_to_flash_is_refused() {
    let err = match_images(&vec![image("odd.bin", 7, 7)], &pit()).err().unwrap();
    assert_eq!(err, "no image in the archive matches a PIT partition — nothing to flash");
}

#[test]
fn critical_targets_and_totals_that_overflow_are_seen() {
    let images = vec![image("sbl1.mbn", 1, i64::MAX as u64), image("boot.img", 1, 1)];
    let m = match_images(&images, &pit()).unwrap();
    assert!(any_critical(&m.targets));
    assert_eq!(total_size(&m.targets), None);
    assert_eq!(total_size(&Vec::new()), Some(0));
}

#[test]
fn the_last_image_of_a_name_counts() {
    let images = vec![image("boot.img", 1, 1), image("sbl1.mbn", 2, 2), image("boot.img", 3, 3)];
    let m = match_images(&images, &pit()).unwrap();
    assert_eq!(lookup_target(&m.targets, "boot.img"), Some(2));
    assert_eq!(lookup_target(&m.targets, "sbl1.mbn"), Some(1));
    assert_eq!(lookup_target(&m.targets, "odd.bin"), None);
}

#[test]
fn an_image_is_as_large_live_as_planned_and_alone_as_archived() {
    for (name, head) in [("boot.img", lz4_head(77)), ("boot.img.lz4", lz4_head(77))] {
        let live = flash_source_len(name, 10, &head).unwrap();
        let planned = plan_single(name, Some("BOOT"), 10, &head, &pit(), &params()).text;
        assert!(planned.contains(&format!("\n    {live} B → ")));
        let entry = TarEntryInfo { name: name.to_string(), size: 10 };
        assert_eq!(archive_image(&entry, &head).real_size as i64, live);
    }
}
