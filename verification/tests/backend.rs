//! Devices and endpoints on the bus.

use thor::backend::{
    device_identifier, find_bulk_interface, requested_size, samsung_devices, AltSetting, BusDevice,
    EndpointInfo, TransferKind,
};
use thor::transport::{UsbError, SAMSUNG_VENDOR_ID};

fn device(vendor_id: u16, address: u8, product: Option<&str>) -> BusDevice {
    BusDevice { vendor_id, product_id: 0x685d, bus: 3, address, product: product.map(|p| p.to_string()) }
}

fn alt(interface_number: u8, class: u8, endpoints: &[u8]) -> AltSetting {
    let bulk = |address: &u8| EndpointInfo { address: *address, kind: TransferKind::Bulk };
    AltSetting { interface_number, class, endpoints: endpoints.iter().map(bulk).collect() }
}

#[test]
fn only_samsung_devices_are_listed() {
    let found = samsung_devices(&vec![
        device(0x1234, 1, Some("mouse")),
        device(SAMSUNG_VENDOR_ID, 12, None),
        device(SAMSUNG_VENDOR_ID, 7, Some("Gadget")),
    ]);
    assert_eq!(found.len(), 2);
    assert_eq!(found[0].display_name, "Samsung device");
    assert_eq!(found[0].identifier, "3:12");
    assert_eq!(found[1].display_name, "Gadget");
    assert_eq!((found[1].vendor_id, found[1].product_id), (0x04e8, 0x685d));
    assert_eq!(device_identifier(0, 255), "0:255");
}

#[test]
fn data_interfaces_are_preferred() {
    let alts = vec![
        alt(0, 2, &[0x82]),
        alt(1, 0xff, &[0x81, 0x01]),
        alt(2, 0x0a, &[0x83, 0x02, 0x84]),
        alt(3, 0x0a, &[0x85, 0x05]),
    ];
    assert_eq!(find_bulk_interface(&alts).unwrap(), (2, 0x84, 0x02));
}

#[test]
fn any_interface_with_both_directions_will_do() {
    let alts = vec![alt(0, 0x0a, &[0x82]), alt(1, 0xff, &[0x01, 0x81]), alt(2, 0xff, &[0x02, 0x82])];
    assert_eq!(find_bulk_interface(&alts).unwrap(), (1, 0x81, 0x01));
    assert!(matches!(find_bulk_interface(&vec![alt(0, 0x0a, &[1])]), Err(UsbError::NoEndpoints)));
    assert!(matches!(find_bulk_interface(&Vec::new()), Err(UsbError::NoEndpoints)));
}

#[test]
fn endpoints_that_are_not_bulk_are_passed_over() {
    let kinds = [TransferKind::Control, TransferKind::Isochronous, TransferKind::Interrupt];
    for kind in kinds {
        let mut mixed = alt(2, 0x0a, &[0x81, 0x01]);
        mixed.endpoints.push(EndpointInfo { address: 0x83, kind });
        mixed.endpoints.insert(0, EndpointInfo { address: 0x03, kind });
        assert_eq!(find_bulk_interface(&vec![mixed]).unwrap(), (2, 0x81, 0x01));
        let mut alone = alt(2, 0x0a, &[0x01]);
        alone.endpoints.push(EndpointInfo { address: 0x81, kind });
        assert!(matches!(find_bulk_interface(&vec![alone]), Err(UsbError::NoEndpoints)));
    }
}

#[test]
fn reads_are_asked_for_in_whole_packets() {
    assert_eq!(requested_size(0, 512), 512);
    assert_eq!(requested_size(1, 512), 512);
    assert_eq!(requested_size(512, 512), 512);
    assert_eq!(requested_size(513, 512), 1024);
    assert_eq!(requested_size(500, 0), 500);
    assert_eq!(requested_size(0, 0), 1);
}
