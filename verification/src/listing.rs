//! Listings: devices on the bus, files of an archive, regions of memory, and kernel-log lines.

use vstd::arithmetic::power::pow;
use vstd::prelude::*;
use vstd::string::StringExecFns;

use crate::archive::{EntryInfo, TarEntryInfo};
use crate::bootlog::{carve, carved_log, log_kind, log_lines, BootLog};
use crate::bytes::{signed64, to_signed64};
use crate::command::text_result;
use crate::progress::{bytes_text, human_bytes};
use crate::text::{
    contains_text, dec, dec_text, ends_in, ends_with, hex, hex_text, is_digits,
    law_decimal_stands_for_its_number, law_padded_hex_stands_for_its_number, lemma_contains_part,
    lemma_contains_within, lemma_numeral_len, number_of, pad_left, pad_right, padded_left,
    padded_right, repeat, views,
};
use crate::transport::DeviceInfo;
use crate::upload::{region_models, span, Region, RegionModel};

verus! {

/// The line of one device.
pub open spec fn device_line(d: DeviceInfo) -> Seq<char> {
    "  "@ + d.identifier@ + " — "@ + d.display_name@ + "  (VID "@ + pad_left(
        hex(d.vendor_id as nat),
        4,
        '0',
    ) + ", PID "@ + pad_left(hex(d.product_id as nat), 4, '0') + ")\n"@
}

/// The lines of devices.
pub open spec fn device_lines(devices: Seq<DeviceInfo>) -> Seq<char>
    decreases devices.len(),
{
    if devices.len() == 0 {
        Seq::empty()
    } else {
        device_lines(devices.drop_last()) + device_line(devices.last())
    }
}

/// The list of connected devices.
pub open spec fn devices_text(devices: Seq<DeviceInfo>) -> Seq<char> {
    if devices.len() == 0 {
        "No Samsung devices found.\n"@
    } else {
        "Found "@ + dec(devices.len() as int) + " Samsung device(s):\n"@ + device_lines(devices)
    }
}

fn device_row(d: &DeviceInfo) -> (s: String)
    ensures
        s@ == device_line(*d),
{
    let vendor = hex_text(d.vendor_id as u64, false);
    let product = hex_text(d.product_id as u64, false);
    let mut s = String::from_str("  ");
    s.append(d.identifier.as_str());
    s.append(" — ");
    s.append(d.display_name.as_str());
    s.append("  (VID ");
    s.append(padded_left(vendor.as_str(), 4, '0').as_str());
    s.append(", PID ");
    s.append(padded_left(product.as_str(), 4, '0').as_str());
    s.append(")\n");
    s
}

/// List the connected devices.
pub fn list_devices(devices: &Vec<DeviceInfo>) -> (s: String)
    ensures
        s@ == devices_text(devices@),
{
    if devices.len() == 0 {
        return String::from_str("No Samsung devices found.\n");
    }
    let mut rows = String::new();
    let mut i: usize = 0;
    proof {
        assert(devices@.take(0).len() == 0);
    }
    while i < devices.len()
        invariant
            i <= devices@.len(),
            rows@ == device_lines(devices@.take(i as int)),
        decreases devices@.len() - i,
    {
        proof {
            assert(devices@.take(i + 1).drop_last() == devices@.take(i as int));
            assert(devices@.take(i + 1).last() == devices@[i as int]);
        }
        rows.append(device_row(&devices[i]).as_str());
        i = i + 1;
    }
    assert(devices@.take(i as int) == devices@);
    let mut s = String::from_str("Found ");
    s.append(dec_text(devices.len() as u64).as_str());
    s.append(" Samsung device(s):\n");
    s.append(rows.as_str());
    s
}

/// The line of one file of an archive, with a note if it is compressed.
pub open spec fn file_line(e: EntryInfo, note: Seq<char>) -> Seq<char> {
    "  "@ + pad_left(dec(e.size as int), 12, ' ') + " bytes  "@ + e.name + (if ends_in(
        e.name,
        ".lz4"@,
    ) {
        note
    } else {
        Seq::empty()
    }) + "\n"@
}

/// The lines of the files of an archive.
pub open spec fn file_lines(entries: Seq<EntryInfo>, note: Seq<char>) -> Seq<char>
    decreases entries.len(),
{
    if entries.len() == 0 {
        Seq::empty()
    } else {
        file_lines(entries.drop_last(), note) + file_line(entries.last(), note)
    }
}

/// The contents of a listing.
pub open spec fn entry_infos(v: Seq<TarEntryInfo>) -> Seq<EntryInfo> {
    Seq::new(v.len(), |i: int| v[i]@)
}

/// The list of the files of an archive.
pub open spec fn archive_listing(path: Seq<char>, entries: Seq<EntryInfo>) -> Seq<char> {
    if entries.len() == 0 {
        "No top-level files in "@ + path + ".\n"@
    } else {
        dec(entries.len() as int) + " file(s) in "@ + path + ":\n"@ + file_lines(
            entries,
            "  (LZ4-compressed)"@,
        )
    }
}

fn file_row(e: &TarEntryInfo, note: &str) -> (s: String)
    ensures
        s@ == file_line(e@, note@),
{
    let size = dec_text(e.size);
    let mut s = String::from_str("  ");
    s.append(padded_left(size.as_str(), 12, ' ').as_str());
    s.append(" bytes  ");
    s.append(e.name.as_str());
    if ends_with(e.name.as_str(), ".lz4") {
        s.append(note);
    } else {
        assert(s@ + Seq::<char>::empty() == s@);
    }
    s.append("\n");
    s
}

fn file_rows(entries: &Vec<TarEntryInfo>, note: &str) -> (s: String)
    ensures
        s@ == file_lines(entry_infos(entries@), note@),
{
    let ghost all = entry_infos(entries@);
    let mut s = String::new();
    let mut i: usize = 0;
    proof {
        assert(all.take(0).len() == 0);
    }
    while i < entries.len()
        invariant
            i <= entries@.len(),
            all == entry_infos(entries@),
            s@ == file_lines(all.take(i as int), note@),
        decreases entries@.len() - i,
    {
        proof {
            assert(all.take(i + 1).drop_last() == all.take(i as int));
            assert(all.take(i + 1).last() == entries@[i as int]@);
        }
        s.append(file_row(&entries[i], note).as_str());
        i = i + 1;
    }
    assert(all.take(i as int) == all);
    s
}

/// List the files of an archive.
pub fn list_files(path: &str, entries: &Vec<TarEntryInfo>) -> (s: String)
    ensures
        s@ == archive_listing(path@, entry_infos(entries@)),
{
    if entries.len() == 0 {
        let mut s = String::from_str("No top-level files in ");
        s.append(path);
        s.append(".\n");
        return s;
    }
    let mut s = dec_text(entries.len() as u64);
    s.append(" file(s) in ");
    s.append(path);
    s.append(":\n");
    s.append(file_rows(entries, "  (LZ4-compressed)").as_str());
    s
}

/// List the files of an archive in the shell, without a headline.
pub fn shell_list_files(entries: &Vec<TarEntryInfo>) -> (s: String)
    ensures
        s@ == file_lines(entry_infos(entries@), "  (LZ4)"@),
{
    file_rows(entries, "  (LZ4)")
}

/// An address with `0x` and 16 digits.
pub open spec fn address_text(a: u64) -> Seq<char> {
    "0x"@ + pad_left(hex(a as nat), 16, '0')
}

/// The line of one region.
pub open spec fn region_line(r: RegionModel) -> Seq<char> {
    "  "@ + pad_right(r.name, 16) + " "@ + address_text(r.start) + ".."@ + address_text(r.end)
        + "  ("@ + bytes_text(signed64(span(r.start, r.end)) as int) + ")\n"@
}

/// The lines of regions.
pub open spec fn region_lines(regions: Seq<RegionModel>) -> Seq<char>
    decreases regions.len(),
{
    if regions.len() == 0 {
        Seq::empty()
    } else {
        region_lines(regions.drop_last()) + region_line(regions.last())
    }
}

/// The list of the regions that a device reports.
pub open spec fn regions_text(regions: Seq<RegionModel>) -> Seq<char> {
    if regions.len() == 0 {
        "No regions reported (some bootloaders don't expose a probe table).\n"@
    } else {
        dec(regions.len() as int) + " region(s):\n"@ + region_lines(regions)
    }
}

fn address_digits(a: u64) -> (s: String)
    ensures
        s@ == address_text(a),
{
    let digits = hex_text(a, false);
    let mut s = String::from_str("0x");
    s.append(padded_left(digits.as_str(), 16, '0').as_str());
    s
}

fn region_row(r: &Region) -> (s: String)
    ensures
        s@ == region_line(r@),
{
    let mut s = String::from_str("  ");
    s.append(padded_right(r.name.as_str(), 16).as_str());
    s.append(" ");
    s.append(address_digits(r.start).as_str());
    s.append("..");
    s.append(address_digits(r.end).as_str());
    s.append("  (");
    s.append(human_bytes(to_signed64(r.size())).as_str());
    s.append(")\n");
    s
}

/// List the regions that a device reports.
pub fn list_regions(regions: &Vec<Region>) -> (s: String)
    ensures
        s@ == regions_text(region_models(regions@)),
{
    if regions.len() == 0 {
        return String::from_str(
            "No regions reported (some bootloaders don't expose a probe table).\n",
        );
    }
    let ghost all = region_models(regions@);
    let mut rows = String::new();
    let mut i: usize = 0;
    proof {
        assert(all.take(0).len() == 0);
    }
    while i < regions.len()
        invariant
            i <= regions@.len(),
            all == region_models(regions@),
            rows@ == region_lines(all.take(i as int)),
        decreases regions@.len() - i,
    {
        proof {
            assert(all.take(i + 1).drop_last() == all.take(i as int));
            assert(all.take(i + 1).last() == regions@[i as int]@);
        }
        rows.append(region_row(&regions[i]).as_str());
        i = i + 1;
    }
    assert(all.take(i as int) == all);
    let mut s = dec_text(regions.len() as u64);
    s.append(" region(s):\n");
    s.append(rows.as_str());
    s
}

/// Lines, each ended by a newline.
pub open spec fn lines_text(lines: Seq<Seq<char>>) -> Seq<char>
    decreases lines.len(),
{
    if lines.len() == 0 {
        Seq::empty()
    } else {
        lines_text(lines.drop_last()) + lines.last() + "\n"@
    }
}

/// The kernel log in a dump with a headline, or that there is none.
pub open spec fn carve_text(dump: Seq<u8>) -> Result<Seq<char>, Seq<char>> {
    let log = carved_log(dump);
    let lines = log_lines(log);
    if lines.len() == 0 {
        Err("no kernel log found — wrong memory range, or a format we don't recognize"@)
    } else {
        Ok(
            "Carved "@ + dec(lines.len() as int) + " kernel-log line(s) ("@ + log_kind(log)
                + "):\n\n"@ + lines_text(lines),
        )
    }
}

fn lines_rows(lines: &Vec<String>) -> (s: String)
    ensures
        s@ == lines_text(views(lines@)),
{
    let ghost all = views(lines@);
    let mut s = String::new();
    let mut i: usize = 0;
    proof {
        assert(all.take(0).len() == 0);
    }
    while i < lines.len()
        invariant
            i <= lines@.len(),
            all == views(lines@),
            s@ == lines_text(all.take(i as int)),
        decreases lines@.len() - i,
    {
        proof {
            assert(all.take(i + 1).drop_last() == all.take(i as int));
            assert(all.take(i + 1).last() == all[i as int]);
        }
        s.append(lines[i].as_str());
        s.append("\n");
        i = i + 1;
    }
    assert(all.take(i as int) == all);
    s
}

/// Carve the kernel log from a dump and show it: the structured `printk_log` records first (with
/// timestamps), then the 5.10+ ringbuffer text, else a clear error.
pub fn carve_report(dump: &[u8]) -> (r: Result<String, String>)
    ensures
        text_result(r) == carve_text(dump@),
{
    let log: BootLog = carve(dump);
    if log.is_empty() {
        return Err(
            String::from_str(
                "no kernel log found — wrong memory range, or a format we don't recognize",
            ),
        );
    }
    let mut s = String::from_str("Carved ");
    s.append(dec_text(log.len() as u64).as_str());
    s.append(" kernel-log line(s) (");
    s.append(log.kind());
    s.append("):\n\n");
    s.append(lines_rows(&log.lines()).as_str());
    Ok(s)
}

/// Every device is listed with its identifier, its name and both of its ids, in hex.
pub proof fn law_every_device_is_listed(devices: Seq<DeviceInfo>, i: int)
    requires
        0 <= i < devices.len(),
    ensures
        exists|vid: Seq<char>, pid: Seq<char>|
            {
                &&& #[trigger] number_of(vid, 16) == devices[i].vendor_id
                &&& #[trigger] number_of(pid, 16) == devices[i].product_id
                &&& is_digits(vid, 16, false) && is_digits(pid, 16, false)
                &&& vid.len() >= 4 && pid.len() >= 4
                &&& contains_text(
                    devices_text(devices),
                    "  "@ + devices[i].identifier@ + " — "@ + devices[i].display_name@ + "  (VID "@
                        + vid + ", PID "@ + pid + ")\n"@,
                )
            },
        exists|n: Seq<char>| #[trigger]
            number_of(n, 10) == devices.len() && contains_text(
                devices_text(devices),
                "Found "@ + n + " Samsung device(s):\n"@,
            ),
{
    let d = devices[i];
    let vid = pad_left(hex(d.vendor_id as nat), 4, '0');
    let pid = pad_left(hex(d.product_id as nat), 4, '0');
    law_padded_hex_stands_for_its_number(d.vendor_id as nat, 4, false);
    law_padded_hex_stands_for_its_number(d.product_id as nat, 4, false);
    lemma_device_lines(devices, i);
    let none = Seq::<char>::empty();
    let n = dec(devices.len() as int);
    let head = "Found "@ + n + " Samsung device(s):\n"@;
    lemma_contains_within(head, device_lines(devices), none, device_line(d));
    assert(head + device_lines(devices) + none == devices_text(devices));
    lemma_contains_part(none, head, device_lines(devices));
    assert(none + head + device_lines(devices) == devices_text(devices));
    law_decimal_stands_for_its_number(devices.len() as int);
    assert(number_of(vid, 16) == d.vendor_id && number_of(pid, 16) == d.product_id);
    assert(number_of(n, 10) == devices.len());
}

proof fn lemma_device_lines(devices: Seq<DeviceInfo>, i: int)
    requires
        0 <= i < devices.len(),
    ensures
        contains_text(device_lines(devices), device_line(devices[i])),
    decreases devices.len(),
{
    let none = Seq::<char>::empty();
    let before = devices.drop_last();
    let all = device_lines(devices);
    if i < before.len() {
        lemma_device_lines(before, i);
        lemma_contains_within(none, device_lines(before), device_line(devices.last()), device_line(devices[i]));
        assert(none + device_lines(before) + device_line(devices.last()) == all);
    } else {
        lemma_contains_part(device_lines(before), device_line(devices[i]), none);
        assert(device_lines(before) + device_line(devices[i]) + none == all);
    }
}

/// Every file of an archive is listed with its size in bytes and its name, and with a note exactly
/// where its name ends in `.lz4`.
#[verifier::spinoff_prover]
pub proof fn law_every_file_is_listed(path: Seq<char>, entries: Seq<EntryInfo>, i: int)
    requires
        0 <= i < entries.len(),
    ensures
        exists|size: Seq<char>|
            {
                &&& #[trigger] number_of(size, 10) == entries[i].size
                &&& is_digits(size, 10, false)
                &&& contains_text(
                    archive_listing(path, entries),
                    size + " bytes  "@ + entries[i].name + (if entries[i].name.len() >= 4
                        && entries[i].name.skip(entries[i].name.len() - 4) == ".lz4"@ {
                        "  (LZ4-compressed)\n"@
                    } else {
                        "\n"@
                    }),
                )
            },
        exists|n: Seq<char>| #[trigger]
            number_of(n, 10) == entries.len() && contains_text(
                archive_listing(path, entries),
                n + " file(s) in "@ + path + ":\n"@,
            ),
{
    let e = entries[i];
    let note = "  (LZ4-compressed)"@;
    let size = dec(e.size as int);
    let n = dec(entries.len() as int);
    law_decimal_stands_for_its_number(e.size as int);
    law_decimal_stands_for_its_number(entries.len() as int);
    reveal_strlit(".lz4");
    reveal_strlit("  (LZ4-compressed)");
    reveal_strlit("  (LZ4-compressed)\n");
    reveal_strlit("\n");
    let compressed = e.name.len() >= 4 && e.name.skip(e.name.len() - 4) == ".lz4"@;
    assert(ends_in(e.name, ".lz4"@) == compressed) by {
        if e.name.len() >= 4 {
            assert(e.name.skip(e.name.len() - 4) == e.name.subrange(
                e.name.len() - 4,
                e.name.len() as int,
            ));
        }
    }
    let tail = if compressed {
        "  (LZ4-compressed)\n"@
    } else {
        "\n"@
    };
    let row = size + " bytes  "@ + e.name + tail;
    let front = "  "@ + repeat(' ', 12 - size.len());
    let none = Seq::<char>::empty();
    assert("  (LZ4-compressed)"@ + "\n"@ == "  (LZ4-compressed)\n"@);
    assert(file_line(e, note) == front + row + none);
    lemma_contains_part(front, row, none);
    lemma_file_lines(entries, note, i, row);
    let head = n + " file(s) in "@ + path + ":\n"@;
    lemma_contains_within(head, file_lines(entries, note), none, row);
    assert(head + file_lines(entries, note) + none == archive_listing(path, entries));
    lemma_contains_part(none, head, file_lines(entries, note));
    assert(none + head + file_lines(entries, note) == archive_listing(path, entries));
    assert(number_of(size, 10) == e.size);
    assert(number_of(n, 10) == entries.len());
}

proof fn lemma_file_lines(entries: Seq<EntryInfo>, note: Seq<char>, i: int, part: Seq<char>)
    requires
        0 <= i < entries.len(),
        contains_text(file_line(entries[i], note), part),
    ensures
        contains_text(file_lines(entries, note), part),
    decreases entries.len(),
{
    let none = Seq::<char>::empty();
    let before = entries.drop_last();
    let all = file_lines(entries, note);
    if i < before.len() {
        lemma_file_lines(before, note, i, part);
        lemma_contains_within(none, file_lines(before, note), file_line(entries.last(), note), part);
        assert(none + file_lines(before, note) + file_line(entries.last(), note) == all);
    } else {
        lemma_contains_within(file_lines(before, note), file_line(entries[i], note), none, part);
        assert(file_lines(before, note) + file_line(entries[i], note) + none == all);
    }
}

/// Every region is listed with its name and both addresses, in 16 hex digits each.
pub proof fn law_every_region_is_listed(regions: Seq<RegionModel>, i: int)
    requires
        0 <= i < regions.len(),
    ensures
        exists|a: Seq<char>, b: Seq<char>|
            {
                &&& #[trigger] number_of(a, 16) == regions[i].start
                &&& #[trigger] number_of(b, 16) == regions[i].end
                &&& is_digits(a, 16, false) && is_digits(b, 16, false)
                &&& a.len() == 16 && b.len() == 16
                &&& contains_text(
                    regions_text(regions),
                    "  "@ + regions[i].name + repeat(' ', 16 - regions[i].name.len()) + " "@ + "0x"@
                        + a + ".."@ + "0x"@ + b + "  ("@,
                )
            },
        exists|n: Seq<char>| #[trigger]
            number_of(n, 10) == regions.len() && contains_text(
                regions_text(regions),
                n + " region(s):\n"@,
            ),
{
    let r = regions[i];
    let a = pad_left(hex(r.start as nat), 16, '0');
    let b = pad_left(hex(r.end as nat), 16, '0');
    law_padded_hex_stands_for_its_number(r.start as nat, 16, false);
    law_padded_hex_stands_for_its_number(r.end as nat, 16, false);
    reveal_with_fuel(pow, 17);
    assert(pow(16, 16) == 0x1_0000_0000_0000_0000);
    lemma_numeral_len(r.start as nat, 16, 16, false);
    lemma_numeral_len(r.end as nat, 16, 16, false);
    let row = "  "@ + r.name + repeat(' ', 16 - r.name.len()) + " "@ + "0x"@ + a + ".."@ + "0x"@ + b
        + "  ("@;
    let tail = bytes_text(signed64(span(r.start, r.end)) as int) + ")\n"@;
    let none = Seq::<char>::empty();
    assert(region_line(r) == none + row + tail);
    lemma_contains_part(none, row, tail);
    lemma_region_lines(regions, i, row);
    let n = dec(regions.len() as int);
    law_decimal_stands_for_its_number(regions.len() as int);
    let head = n + " region(s):\n"@;
    lemma_contains_within(head, region_lines(regions), none, row);
    assert(head + region_lines(regions) + none == regions_text(regions));
    lemma_contains_part(none, head, region_lines(regions));
    assert(none + head + region_lines(regions) == regions_text(regions));
    assert(number_of(a, 16) == r.start && number_of(b, 16) == r.end);
    assert(number_of(n, 10) == regions.len());
}

proof fn lemma_region_lines(regions: Seq<RegionModel>, i: int, part: Seq<char>)
    requires
        0 <= i < regions.len(),
        contains_text(region_line(regions[i]), part),
    ensures
        contains_text(region_lines(regions), part),
    decreases regions.len(),
{
    let none = Seq::<char>::empty();
    let before = regions.drop_last();
    let all = region_lines(regions);
    if i < before.len() {
        lemma_region_lines(before, i, part);
        lemma_contains_within(none, region_lines(before), region_line(regions.last()), part);
        assert(none + region_lines(before) + region_line(regions.last()) == all);
    } else {
        lemma_contains_within(region_lines(before), region_line(regions[i]), none, part);
        assert(region_lines(before) + region_line(regions[i]) + none == all);
    }
}

/// Every line of a carved log is shown, and their number; there is an error exactly where there is
/// no line.
pub proof fn law_every_carved_line_is_shown(dump: Seq<u8>, i: int)
    ensures
        carve_text(dump) is Ok <==> log_lines(carved_log(dump)).len() > 0,
        0 <= i < log_lines(carved_log(dump)).len() ==> contains_text(
            carve_text(dump)->Ok_0,
            log_lines(carved_log(dump))[i] + "\n"@,
        ),
        log_lines(carved_log(dump)).len() > 0 ==> exists|n: Seq<char>| #[trigger]
            number_of(n, 10) == log_lines(carved_log(dump)).len() && contains_text(
                carve_text(dump)->Ok_0,
                "Carved "@ + n + " kernel-log line(s) ("@,
            ),
{
    let log = carved_log(dump);
    let lines = log_lines(log);
    let none = Seq::<char>::empty();
    if lines.len() > 0 {
        let n = dec(lines.len() as int);
        law_decimal_stands_for_its_number(lines.len() as int);
        let front = "Carved "@ + n + " kernel-log line(s) ("@;
        let rest = log_kind(log) + "):\n\n"@;
        let text = carve_text(dump)->Ok_0;
        lemma_contains_part(none, front, rest + lines_text(lines));
        assert(none + front + (rest + lines_text(lines)) == text);
        assert(number_of(n, 10) == lines.len());
        if 0 <= i < lines.len() {
            lemma_lines_text(lines, i, lines[i] + "\n"@);
            lemma_contains_within(front + rest, lines_text(lines), none, lines[i] + "\n"@);
            assert(front + rest + lines_text(lines) + none == text);
        }
    }
}

proof fn lemma_lines_text(lines: Seq<Seq<char>>, i: int, part: Seq<char>)
    requires
        0 <= i < lines.len(),
        part == lines[i] + "\n"@,
    ensures
        contains_text(lines_text(lines), part),
    decreases lines.len(),
{
    let none = Seq::<char>::empty();
    let before = lines.drop_last();
    let front = lines_text(before);
    let last = lines.last() + "\n"@;
    assert(lines_text(lines) == front + last);
    if i < before.len() {
        assert(before[i] == lines[i]);
        lemma_lines_text(before, i, part);
        lemma_contains_within(none, front, last, part);
        assert(none + front + last == front + last);
    } else {
        lemma_contains_part(front, part, none);
        assert(front + part + none == front + last);
    }
}

} // verus!
