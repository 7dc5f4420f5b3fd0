//! Partition tables.

use thor::pit::{FieldMapper, PitData, PitError, PIT_MAGIC};

#[test]
fn new_generation_labels_match_reference_log() {
    let m = FieldMapper::for_version(true);
    assert_eq!(m.binary_type.label, "Binary Type");
    assert_eq!(m.binary_type.describe(0), "Phone / AP");
    assert_eq!(m.device_type.label, "Device Type");
    assert_eq!(m.device_type.describe(2), "EMMC");
    assert_eq!(m.attributes.label, "Partition Type");
    assert_eq!(m.attributes.describe(5), "Data");
    assert_eq!(m.update_attributes.label, "Filesystem");
    assert_eq!(m.update_attributes.describe(1), "Basic");
    assert_eq!(m.block_size_label, "Start Block");
    assert_eq!(m.block_count_label, "Block Count");
}

#[test]
fn old_generation_uses_old_labels() {
    let m = FieldMapper::for_version(false);
    assert_eq!(m.attributes.label, "Attributes");
    assert_eq!(m.attributes.describe(0), "Read-only");
    assert_eq!(m.update_attributes.label, "Update Attributes");
    assert_eq!(m.block_size_label, "Block Size");
    assert_eq!(m.device_type.describe(2), "MoviNAND");
}

#[test]
fn out_of_range_value_is_unknown_not_a_panic() {
    let m = FieldMapper::for_version(true);
    assert_eq!(m.device_type.describe(999), "Unknown");
    assert_eq!(m.device_type.describe(-1), "Unknown");
}

#[test]
fn rejects_wrong_magic() {
    let err = PitData::parse(&[0, 1, 2, 3, 4, 5, 6, 7]).unwrap_err();
    assert!(matches!(err, PitError::BadMagic(_)));
}

/// A field of `n` bytes that holds `text`.
fn field(text: &[u8], n: usize) -> Vec<u8> {
    let mut f = text.to_vec();
    f.resize(n, 0);
    f
}

/// A table whose entries have these block sizes and partition names.
fn table(entries: &[(i32, &[u8])]) -> Vec<u8> {
    let mut b = PIT_MAGIC.to_le_bytes().to_vec();
    b.extend((entries.len() as i32).to_le_bytes());
    b.extend(field(b"COM_TAR2", 8));
    b.extend(field(b"MSM8937", 8));
    b.extend((-3i32).to_le_bytes());
    for (i, (block_size, name)) in entries.iter().enumerate() {
        for v in [0, 2, i as i32 + 1, 5, 1, *block_size, 1024, -1, i32::MIN] {
            b.extend(v.to_le_bytes());
        }
        b.extend(field(name, 32));
        b.extend(field(b"sbl1.mbn", 32));
        b.extend(field(b"", 32));
    }
    b
}

#[test]
fn a_table_is_read_field_by_field() {
    let pit = PitData::parse(&table(&[(8192, b"SBL1"), (9216, b"BOOT")])).unwrap();
    assert_eq!(pit.unknown, "COM_TAR2");
    assert_eq!(pit.project, "MSM8937");
    assert_eq!(pit.reserved, -3);
    assert_eq!(pit.entries.len(), 2);
    assert!(pit.is_new_version);
    let e = &pit.entries[0];
    assert_eq!((e.binary_type, e.device_type, e.partition_id), (0, 2, 1));
    assert_eq!((e.attributes, e.update_attributes), (5, 1));
    assert_eq!((e.block_size, e.block_count), (8192, 1024));
    assert_eq!((e.file_offset, e.file_size), (-1, i32::MIN));
    assert_eq!(e.partition, "SBL1");
    assert_eq!(e.file_name, "sbl1.mbn");
    assert_eq!(e.delta_name, "");
    assert_eq!(pit.entries[1].partition, "BOOT");
}

#[test]
fn equal_block_sizes_are_the_old_generation() {
    assert!(!PitData::parse(&table(&[(512, b"A"), (512, b"B"), (512, b"C")])).unwrap().is_new_version);
    assert!(PitData::parse(&table(&[(512, b"A"), (512, b"B"), (0, b"C")])).unwrap().is_new_version);
    assert!(!PitData::parse(&table(&[(7, b"A")])).unwrap().is_new_version);
    assert!(!PitData::parse(&table(&[])).unwrap().is_new_version);
}

#[test]
fn bytes_behind_the_last_entry_are_ignored() {
    let mut b = table(&[(1, b"A"), (2, b"B")]);
    let want = PitData::parse(&b).unwrap().entries;
    b.extend([0xee; 300]);
    assert_eq!(PitData::parse(&b).unwrap().entries, want);
}

#[test]
fn a_table_that_is_cut_short_is_truncated() {
    let b = table(&[(1, b"A"), (2, b"B")]);
    for n in 0..b.len() {
        let err = PitData::parse(&b[..n]).unwrap_err();
        assert_eq!(err, PitError::Truncated, "{n}");
        assert_eq!(err.message(), "PIT data ended unexpectedly");
    }
}

#[test]
fn a_negative_count_declares_nothing() {
    let mut b = table(&[]);
    b[4..8].copy_from_slice(&(-1i32).to_le_bytes());
    assert!(PitData::parse(&b).unwrap().entries.is_empty());
}

#[test]
fn names_end_at_the_first_nul() {
    let full = [b'N'; 32];
    let pit = PitData::parse(&table(&[(1, b"AB\0CD"), (1, &full), (1, &[0xff, b'X'])])).unwrap();
    assert_eq!(pit.entries[0].partition, "AB");
    assert_eq!(pit.entries[1].partition, "N".repeat(32));
    assert_eq!(pit.entries[2].partition, "\u{fffd}X");
}

#[test]
fn wrong_magic_is_shown_in_hex() {
    let err = PitData::parse(&[0xef, 0xbe, 0, 0]).unwrap_err();
    assert_eq!(err, PitError::BadMagic(0xbeef));
    assert_eq!(err.message(), "magic number mismatch: got 0x0000BEEF");
}

#[test]
fn every_value_has_its_description() {
    let m = FieldMapper::for_version(true);
    let kinds: Vec<&str> = (0..11).map(|i| m.attributes.describe(i)).collect();
    assert_eq!(
        kinds,
        [
            "None", "BCT", "Bootloader", "Partition Table", "NV-Data", "Data", "MBR", "EBR", "GP1",
            "GP1", "Unknown"
        ]
    );
    let m = FieldMapper::for_version(false);
    assert_eq!(m.update_attributes.describe(3), "Secure FOTA");
    assert_eq!(m.update_attributes.describe(4), "Unknown");
    assert_eq!(m.binary_type.describe(1), "Modem / CP");
    assert_eq!(m.block_count_label, "Block Count");
}
