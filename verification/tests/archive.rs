//! Reading firmware archives: tar listings, tar extraction and LZ4 frames.

use std::io::Write;

use lz4_flex::frame::{FrameEncoder, FrameInfo};
use tar::{Builder, EntryType, GnuExtSparseHeader, Header};
use thor::archive::{
    archive_image, decoded_image, decompress_lz4, extract_tar, find_item, list_items, list_tar,
    lz4_content_size, ArchiveError, TarEntryInfo, TarItem,
};

fn lz4_compress_with_size(payload: &[u8]) -> Vec<u8> {
    let info = FrameInfo::new().content_size(Some(payload.len() as u64));
    let mut enc = FrameEncoder::with_frame_info(info, Vec::new());
    enc.write_all(payload).unwrap();
    enc.finish().unwrap()
}

fn build_tar(files: &[(&str, &[u8])]) -> Vec<u8> {
    let mut b = Builder::new(Vec::new());
    for (name, data) in files {
        let mut h = Header::new_gnu();
        h.set_size(data.len() as u64);
        h.set_mode(0o644);
        h.set_cksum();
        b.append_data(&mut h, name, *data).unwrap();
    }
    b.into_inner().unwrap()
}

#[test]
fn lz4_content_size_reads_the_header() {
    let payload = b"partition image contents ".repeat(40);
    let compressed = lz4_compress_with_size(&payload);
    assert_eq!(lz4_content_size(&compressed), Some(payload.len() as u64));
}

#[test]
fn lz4_content_size_none_for_non_lz4() {
    assert_eq!(lz4_content_size(b"not an lz4 frame at all"), None);
}

#[test]
fn decompress_lz4_round_trips() {
    let payload = b"the quick brown boot.img ".repeat(100);
    let compressed = lz4_compress_with_size(&payload);
    assert_eq!(decompress_lz4(&compressed).unwrap(), payload);
}

#[test]
fn list_tar_returns_top_level_files_with_sizes() {
    let tar = build_tar(&[("boot.img", b"BOOTDATA"), ("recovery.img", b"RECOVERY!!")]);
    let entries = list_tar(&tar[..]).unwrap();
    assert_eq!(entries.len(), 2);
    assert!(entries.contains(&TarEntryInfo { name: "boot.img".into(), size: 8 }));
    assert!(entries.contains(&TarEntryInfo { name: "recovery.img".into(), size: 10 }));
}

#[test]
fn extract_tar_returns_entry_bytes() {
    let tar = build_tar(&[("boot.img", b"BOOTDATA"), ("recovery.img", b"RECOVERY!!")]);
    assert_eq!(extract_tar(&tar[..],"boot.img").unwrap(), b"BOOTDATA");
}

#[test]
fn extract_tar_missing_is_not_found() {
    let tar = build_tar(&[("boot.img", b"BOOTDATA")]);
    assert!(matches!(extract_tar(&tar[..],"nope.img"), Err(ArchiveError::NotFound(_))));
}

#[test]
fn a_frame_without_a_declared_size_has_none() {
    let mut enc = FrameEncoder::new(Vec::new());
    enc.write_all(b"some image").unwrap();
    let compressed = enc.finish().unwrap();
    assert_eq!(lz4_content_size(&compressed), None);
    assert_eq!(decompress_lz4(&compressed).unwrap(), b"some image");
}

#[test]
fn a_header_cut_short_declares_nothing() {
    let compressed = lz4_compress_with_size(b"some image");
    assert_eq!(lz4_content_size(&compressed[..14]), Some(10));
    assert_eq!(lz4_content_size(&compressed[..13]), None);
    assert_eq!(lz4_content_size(&compressed[..4]), None);
    assert_eq!(lz4_content_size(&[]), None);
}

#[test]
fn what_is_no_frame_cannot_be_decompressed() {
    let err = decompress_lz4(b"not an lz4 frame at all").unwrap_err();
    assert!(matches!(err, ArchiveError::Lz4(_)));
    assert!(err.message().starts_with("LZ4 error: "));
}

#[test]
fn decoder_results_become_images_or_errors() {
    assert_eq!(decoded_image(Ok(vec![1, 2])).unwrap(), [1, 2]);
    assert_eq!(decoded_image(Err("bad".into())).unwrap_err().message(), "LZ4 error: bad");
}

#[test]
fn only_top_level_entries_are_listed_but_all_can_be_extracted() {
    let tar = build_tar(&[("meta/info.txt", b"INFO"), ("boot.img", b"BOOT")]);
    let names: Vec<String> = list_tar(&tar).unwrap().into_iter().map(|e| e.name).collect();
    assert_eq!(names, ["boot.img"]);
    assert_eq!(extract_tar(&tar, "meta/info.txt").unwrap(), b"INFO");
}

#[test]
fn the_first_of_two_entries_of_one_name_is_extracted() {
    let tar = build_tar(&[("a.img", b"ONE"), ("a.img", b"TWO")]);
    assert_eq!(list_tar(&tar).unwrap().len(), 2);
    assert_eq!(extract_tar(&tar, "a.img").unwrap(), b"ONE");
}

#[test]
fn a_checksum_behind_the_archive_does_no_harm() {
    let mut tar = build_tar(&[("boot.img", b"BOOTDATA")]);
    tar.extend_from_slice(b"0123456789abcdef0123456789abcdef  boot.tar\n");
    assert_eq!(list_tar(&tar).unwrap().len(), 1);
    assert_eq!(extract_tar(&tar, "boot.img").unwrap(), b"BOOTDATA");
}

#[test]
fn a_broken_archive_is_a_tar_error() {
    let mut tar = build_tar(&[("boot.img", b"BOOTDATA"), ("recovery.img", b"RECOVERY!!")]);
    tar[1024 + 148] = b'x';
    let err = list_tar(&tar).unwrap_err();
    assert!(matches!(err, ArchiveError::Tar(_)));
    assert!(err.message().starts_with("tar error: "));
    assert_eq!(extract_tar(&tar, "boot.img").unwrap(), b"BOOTDATA");
    assert!(matches!(extract_tar(&tar, "recovery.img"), Err(ArchiveError::Tar(_))));
}

#[test]
fn every_listed_entry_is_found() {
    let tar = build_tar(&[("a.img", b"A"), ("dir/b.img", b"B"), ("c.img.lz4", b"CC")]);
    for e in list_tar(&tar).unwrap() {
        assert_eq!(extract_tar(&tar, &e.name).unwrap().len() as u64, e.size);
    }
    let err = extract_tar(&tar, "nope").unwrap_err();
    assert_eq!(err.message(), "entry not found in archive: nope");
}

#[test]
fn an_error_on_the_walk_hides_what_comes_after_it() {
    let item = |name: &str| -> Result<TarItem, String> {
        Ok(TarItem { path: name.as_bytes().to_vec(), size: 3, kind: b'0' })
    };
    let steps = vec![item("a"), Err("torn".to_string()), item("b")];
    assert_eq!(list_items(&steps).unwrap_err().message(), "tar error: torn");
    assert_eq!(find_item(&steps, "a").unwrap(), 0);
    assert_eq!(find_item(&steps, "b").unwrap_err().message(), "tar error: torn");
    let steps = vec![item("x/y"), item("b"), item("./c")];
    assert_eq!(list_items(&steps).unwrap(), [TarEntryInfo { name: "b".into(), size: 3 }]);
    assert_eq!(find_item(&steps, "x/y").unwrap(), 0);
}

#[test]
fn only_files_are_listed() {
    let mut b = Builder::new(Vec::new());
    let mut add = |kind: EntryType, name: &str, data: &[u8]| {
        let mut h = Header::new_gnu();
        h.set_entry_type(kind);
        h.set_size(data.len() as u64);
        h.set_mode(0o644);
        h.set_cksum();
        b.append_data(&mut h, name, data).unwrap();
    };
    add(EntryType::Directory, "meta", b"");
    add(EntryType::Directory, "other/", b"");
    add(EntryType::Fifo, "pipe", b"");
    add(EntryType::Continuous, "recovery.img", b"RECOVERY");
    add(EntryType::Regular, "boot.img", b"BOOT");
    let entries = list_tar(&b.into_inner().unwrap()).unwrap();
    assert_eq!(
        entries,
        [
            TarEntryInfo { name: "recovery.img".into(), size: 8 },
            TarEntryInfo { name: "boot.img".into(), size: 4 },
        ]
    );
}

#[test]
fn the_type_byte_tells_a_file() {
    let names = |kinds: &[u8]| -> usize {
        let items = kinds.iter().map(|k| Ok(TarItem { path: b"a".to_vec(), size: 0, kind: *k }));
        list_items(&items.collect()).unwrap().len()
    };
    assert_eq!(names(b"07S"), 3);
    assert_eq!(names(b"123456xgLK"), 0);
    let dir = TarItem { path: b"a/".to_vec(), size: 0, kind: b'0' };
    assert!(list_items(&vec![Ok(dir)]).unwrap().is_empty());
}

/// A sparse entry with `n` segments of 512 bytes, each behind a hole of 512 bytes. Its header gives
/// `size`, or else the size of its data.
fn sparse_entry(name: &str, n: u64, size: Option<u64>) -> Vec<u8> {
    let mut h = Header::new_gnu();
    h.set_path(name).unwrap();
    h.set_mode(0o644);
    h.set_entry_type(EntryType::GNUSparse);
    h.set_size(size.unwrap_or(n * 512));
    let mut maps = GnuExtSparseHeader::new();
    let gnu = h.as_gnu_mut().unwrap();
    gnu.set_real_size(n * 1024);
    gnu.set_is_extended(n > 4);
    for i in 0..n as usize {
        let map = if i < 4 { &mut gnu.sparse[i] } else { &mut maps.sparse_mut()[i - 4] };
        map.set_offset(i as u64 * 1024 + 512);
        map.set_length(512);
    }
    h.set_cksum();
    let mut out = h.as_bytes().to_vec();
    if n > 4 {
        out.extend_from_slice(maps.as_bytes());
    }
    for i in 0..n {
        out.extend_from_slice(&[i as u8 + 1; 512]);
    }
    out
}

/// What a sparse entry with `n` segments holds.
fn sparse_content(n: u64) -> Vec<u8> {
    (0..n).flat_map(|i| [[0u8; 512], [i as u8 + 1; 512]].concat()).collect()
}

/// Entries, with the empty blocks that end an archive.
fn archive_of(entries: &[Vec<u8>]) -> Vec<u8> {
    let mut out = entries.concat();
    out.resize(out.len() + 1024, 0);
    out
}

/// A file as an entry, without what ends an archive.
fn file_entry(name: &str, data: &[u8]) -> Vec<u8> {
    let mut tar = build_tar(&[(name, data)]);
    tar.truncate(512 + data.len().div_ceil(512) * 512);
    tar
}

/// The message about an entry that would take a walk too far.
const TOO_LARGE: &str = "tar error: a sparse entry is too large";

#[test]
fn sparse_files_are_listed_and_extracted_whatever_stands_beside_them() {
    let text = b"15 size=1000000000000000000\n and size=18446744073709551615";
    let tar = archive_of(&[
        file_entry("first.img", b"FIRST"),
        sparse_entry("system.img", 6, None),
        file_entry("notes.txt", text),
        sparse_entry("small.img", 2, None),
    ]);
    let info = |name: &str, size: u64| TarEntryInfo { name: name.into(), size };
    let text_len = text.len() as u64;
    assert_eq!(
        list_tar(&tar).unwrap(),
        [
            info("first.img", 5),
            info("system.img", 6144),
            info("notes.txt", text_len),
            info("small.img", 2048),
        ]
    );
    assert_eq!(extract_tar(&tar, "first.img").unwrap(), b"FIRST");
    assert_eq!(extract_tar(&tar, "system.img").unwrap(), sparse_content(6));
    assert_eq!(extract_tar(&tar, "notes.txt").unwrap(), text);
    assert_eq!(extract_tar(&tar, "small.img").unwrap(), sparse_content(2));
}

#[test]
fn what_a_file_holds_is_no_header() {
    let inner = archive_of(&[sparse_entry("inner.img", 6, Some(u64::MAX - 1023))]);
    let tar = archive_of(&[file_entry("nested.tar", &inner), sparse_entry("outer.img", 5, None)]);
    let names: Vec<String> = list_tar(&tar).unwrap().into_iter().map(|e| e.name).collect();
    assert_eq!(names, ["nested.tar", "outer.img"]);
    assert_eq!(extract_tar(&tar, "nested.tar").unwrap(), inner);
    assert_eq!(list_tar(&inner).unwrap_err().message(), TOO_LARGE);
}

#[test]
fn a_sparse_entry_that_is_too_large_is_an_error() {
    let boot = file_entry("boot.img", b"BOOT");
    assert_eq!(boot.len(), 1024);
    // Behind the header and the data stands the last block that has a position.
    let most = u64::MAX - 1023 - 1024;
    let tar = archive_of(&[boot.clone(), sparse_entry("huge.img", 6, Some(most))]);
    assert_eq!(list_tar(&tar).unwrap_err().message(), TOO_LARGE);
    assert_eq!(extract_tar(&tar, "boot.img").unwrap(), b"BOOT");
    assert_eq!(extract_tar(&tar, "huge.img").unwrap_err().message(), TOO_LARGE);
    // With a block less, or without maps, it is a broken archive like others.
    for entry in [sparse_entry("huge.img", 6, Some(most - 512)), sparse_entry("huge.img", 4, Some(most))] {
        let tar = archive_of(&[boot.clone(), entry]);
        let message = list_tar(&tar).unwrap_err().message();
        assert!(message.starts_with("tar error: mismatch in sparse file"), "{message}");
        assert_eq!(extract_tar(&tar, "boot.img").unwrap(), b"BOOT");
    }
}

#[test]
fn a_record_may_give_the_size() {
    let records = |size: u64| -> Vec<u8> {
        let mut b = Builder::new(Vec::new());
        b.append_pax_extensions([("size", size.to_string().as_bytes())]).unwrap();
        let mut out = b.into_inner().unwrap();
        out.truncate(1024);
        out
    };
    let boot = file_entry("boot.img", b"BOOT");
    // The records and the header of the entry they describe come first.
    let most = u64::MAX - 1023 - 2048;
    let tar = archive_of(&[boot.clone(), records(most), sparse_entry("huge.img", 6, None)]);
    assert_eq!(list_tar(&tar).unwrap_err().message(), TOO_LARGE);
    assert_eq!(extract_tar(&tar, "boot.img").unwrap(), b"BOOT");
    let tar = archive_of(&[boot, records(3072), sparse_entry("fine.img", 6, Some(0))]);
    assert_eq!(extract_tar(&tar, "fine.img").unwrap(), sparse_content(6));
}

#[test]
fn images_have_the_size_that_their_header_declares() {
    let head = &lz4_compress_with_size(&[7u8; 1000])[..16];
    let packed = TarEntryInfo { name: "boot.img.lz4".into(), size: 40 };
    let image = archive_image(&packed, head);
    assert_eq!((image.stored_size, image.real_size, image.compressed), (40, 1000, true));
    let image = archive_image(&packed, b"??");
    assert_eq!((image.real_size, image.compressed), (40, true));
    let plain = TarEntryInfo { name: "boot.img".into(), size: 40 };
    let image = archive_image(&plain, head);
    assert_eq!((image.real_size, image.compressed), (40, false));
}
