//! Listings of devices, files, regions and kernel-log lines.

use thor::archive::TarEntryInfo;
use thor::listing::{carve_report, list_devices, list_files, list_regions, shell_list_files};
use thor::transport::DeviceInfo;
use thor::upload::Region;

#[test]
fn devices_are_listed_with_their_ids() {
    assert_eq!(list_devices(&Vec::new()), "No Samsung devices found.\n");
    let d = DeviceInfo {
        display_name: "Gadget".into(),
        identifier: "1:7".into(),
        vendor_id: 0x4e8,
        product_id: 0x685d,
    };
    assert_eq!(
        list_devices(&vec![d.clone(), d]),
        "Found 2 Samsung device(s):\n  1:7 — Gadget  (VID 04e8, PID 685d)\n  1:7 — Gadget  (VID 04e8, PID 685d)\n"
    );
}

#[test]
fn files_are_listed_with_their_sizes() {
    let files = vec![
        TarEntryInfo { name: "boot.img.lz4".into(), size: 123 },
        TarEntryInfo { name: "big".into(), size: 1_234_567_890_123 },
    ];
    assert_eq!(
        list_files("AP.tar", &files),
        "2 file(s) in AP.tar:\n           123 bytes  boot.img.lz4  (LZ4-compressed)\n  1234567890123 bytes  big\n"
    );
    assert_eq!(
        shell_list_files(&files),
        "           123 bytes  boot.img.lz4  (LZ4)\n  1234567890123 bytes  big\n"
    );
    assert_eq!(list_files("AP.tar", &Vec::new()), "No top-level files in AP.tar.\n");
    assert_eq!(shell_list_files(&Vec::new()), "");
}

#[test]
fn regions_are_listed_with_their_addresses() {
    let r = Region { ptype: 1, name: "DRAM".into(), start: 0x8000_0000, end: 0x8020_0000 };
    assert_eq!(
        list_regions(&vec![r]),
        "1 region(s):\n  DRAM             0x0000000080000000..0x0000000080200000  (2.0 MiB)\n"
    );
    assert!(list_regions(&Vec::new()).starts_with("No regions reported"));
    let all = Region { ptype: 1, name: "A name longer than that".into(), start: 0, end: u64::MAX };
    assert_eq!(
        list_regions(&vec![all]),
        "1 region(s):\n  A name longer than that 0x0000000000000000..0xffffffffffffffff  (-1 B)\n"
    );
}

#[test]
fn a_carved_log_comes_with_a_headline() {
    let mut dump = Vec::new();
    for i in 0..5u64 {
        let mut r = vec![0u8; 24];
        r[0..8].copy_from_slice(&(i * 1_000_000_000).to_le_bytes());
        r[8] = 24;
        r[10] = 8;
        r[16..24].copy_from_slice(b"a line!!");
        dump.extend(r);
    }
    let text = carve_report(&dump).unwrap();
    assert!(text.starts_with("Carved 5 kernel-log line(s) (structured printk_log):\n\n[    0.000000] a line!!\n"));
    assert!(text.ends_with("[    4.000000] a line!!\n"));
    assert_eq!(
        carve_report(&[0; 100]).unwrap_err(),
        "no kernel log found — wrong memory range, or a format we don't recognize"
    );
}
