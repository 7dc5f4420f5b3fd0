//! Where the headers of a tar archive are.

use tar::{EntryType, Header};
use thor::headers::{
    begin_entry, find_overflow, has_maps, last_map, next_place, read_header, records_size, Hop,
    TarHeader, WalkPlace,
};

fn header(kind: EntryType, size: u64) -> Vec<u8> {
    let mut h = Header::new_gnu();
    h.set_entry_type(kind);
    h.set_size(size);
    h.set_cksum();
    h.as_bytes().to_vec()
}

/// What a plain GNU header of this type and size says.
fn plain(kind: u8, size: u64) -> TarHeader {
    TarHeader { kind, size, gnu: true, ustar: false, extended: false }
}

#[test]
fn headers_are_read() {
    assert_eq!(read_header(&header(EntryType::Regular, 1234)), Some(plain(b'0', 1234)));
    assert_eq!(read_header(&header(EntryType::XHeader, 7)), Some(plain(b'x', 7)));
    // A size that octal digits have no room for is binary.
    assert_eq!(read_header(&header(EntryType::Regular, u64::MAX)), Some(plain(b'0', u64::MAX)));
    let mut h = Header::new_ustar();
    h.set_size(5);
    h.set_cksum();
    let read = read_header(h.as_bytes()).unwrap();
    assert!(read.ustar && !read.gnu && read.size == 5);
}

#[test]
fn a_walk_ends_at_what_is_no_header() {
    assert_eq!(read_header(&[0; 512]), None);
    let mut bad = header(EntryType::Regular, 1);
    bad[0] = b'a';
    assert_eq!(read_header(&bad), None);
    let mut h = Header::new_gnu();
    h.as_mut_bytes()[124..136].copy_from_slice(b"not a number");
    h.set_cksum();
    assert_eq!(read_header(h.as_bytes()), None);
}

#[test]
fn numbers_may_have_whitespace_around_them() {
    let mut h = Header::new_gnu();
    h.as_mut_bytes()[124..136].copy_from_slice(b"  +17 \0 9999");
    h.set_cksum();
    assert_eq!(read_header(h.as_bytes()).unwrap().size, 0o17);
}

#[test]
fn records_give_a_size_by_their_key() {
    assert_eq!(records_size(b"11 size=42\n"), Some(42));
    assert_eq!(records_size(b"9 path=a\n11 size=42\n11 size=43\n"), Some(42));
    assert_eq!(records_size(b"28 size=9223372036854775808\n"), Some(1 << 63));
    assert_eq!(records_size(b"9 path=a\n"), None);
    assert_eq!(records_size(b""), None);
    // A record of a wrong length, an empty line, and what is no number end the search.
    assert_eq!(records_size(b"12 size=42\n"), None);
    assert_eq!(records_size(b"8 path=a\n11 size=42\n"), None);
    assert_eq!(records_size(b"\n11 size=42\n"), None);
    assert_eq!(records_size(b"11 size=4x\n11 size=42\n"), None);
    assert_eq!(records_size(b"29 size=18446744073709551616\n"), None);
    assert_eq!(records_size(b"size=42\n"), None);
}

#[test]
fn a_walk_goes_on_behind_the_data() {
    let place = begin_entry(1024);
    let next = |h: TarHeader| next_place(&place, &h, None, 0, true);
    assert_eq!(next(plain(b'0', 0)), Hop::Next(begin_entry(1536)));
    assert_eq!(next(plain(b'0', 1)), Hop::Next(begin_entry(2048)));
    assert_eq!(next(plain(b'0', 513)), Hop::Next(begin_entry(2560)));
    assert_eq!(next(plain(b'0', u64::MAX)), Hop::End);
    assert_eq!(next_place(&place, &plain(b'0', 1), Some(1024), 0, true), Hop::Next(begin_entry(2560)));
}

#[test]
fn extensions_belong_to_the_entry_behind_them() {
    let place = begin_entry(0);
    let named = WalkPlace { at: 1024, long_name: true, ..place };
    assert_eq!(next_place(&place, &plain(b'L', 20), None, 0, true), Hop::Next(named));
    assert_eq!(next_place(&named, &plain(b'L', 20), None, 0, true), Hop::End);
    let both = WalkPlace { at: 1536, long_link: true, ..named };
    assert_eq!(next_place(&named, &plain(b'K', 0), None, 0, true), Hop::Next(both));
    let told = WalkPlace { at: 2560, records: Some((2048, 2060)), ..both };
    assert_eq!(next_place(&both, &plain(b'x', 12), None, 0, true), Hop::Next(told));
    assert_eq!(next_place(&told, &plain(b'x', 12), None, 0, true), Hop::End);
    // The size in the records is that of the entry, not of another extension.
    let hop = next_place(&told, &plain(b'g', 12), Some(9000), 0, true);
    assert_eq!(hop, Hop::Next(begin_entry(3584)));
}

#[test]
fn maps_stand_between_a_sparse_header_and_its_data() {
    let sparse = TarHeader { extended: true, ..plain(b'S', 512) };
    assert!(has_maps(&sparse) && !has_maps(&plain(b'S', 512)));
    let place = begin_entry(0);
    assert_eq!(next_place(&place, &sparse, None, 3, true), Hop::Next(begin_entry(2560)));
    assert_eq!(next_place(&place, &sparse, None, 3, false), Hop::End);
    let huge = TarHeader { size: u64::MAX - 1023, ..sparse };
    assert_eq!(next_place(&place, &huge, None, 0, true), Hop::Next(begin_entry(u64::MAX - 511)));
    assert_eq!(next_place(&place, &huge, None, 1, false), Hop::TooLarge);
    assert_eq!(next_place(&place, &TarHeader { gnu: false, ..sparse }, None, 0, true), Hop::End);
    let mut map = [0u8; 512];
    assert!(last_map(&map));
    map[504] = 1;
    assert!(!last_map(&map));
}

#[test]
fn an_archive_that_holds_its_data_has_no_overflow() {
    let mut tar = header(EntryType::Regular, 600);
    tar.resize(512 + 1024, 7);
    tar.extend_from_slice(&header(EntryType::Regular, 0));
    assert_eq!(find_overflow(&tar), None);
    assert_eq!(find_overflow(&[]), None);
    assert_eq!(find_overflow(&[1; 100]), None);
}
