//! What a USB backend has to decide: which devices count, which interface and endpoints to
//! claim, and how many bytes to ask for. The transfers themselves are the backend's own.

use vstd::arithmetic::div_mod::{
    lemma_fundamental_div_mod, lemma_mod_multiples_basic, lemma_mod_self_0,
};
use vstd::prelude::*;
use vstd::string::StringExecFns;

use crate::flash::ceil_div;
use crate::text::{dec, dec_text, digit_number, law_decimal_stands_for_its_number};
use crate::transport::{DeviceInfo, UsbError, SAMSUNG_VENDOR_ID};

verus! {

/// USB class code for CDC-data interfaces, the one Samsung download mode presents.
pub const USB_CLASS_CDC_DATA: u8 = 0x0A;

/// How an endpoint transfers data.
#[derive(Debug, Clone, Copy, PartialEq, Eq, Structural)]
pub enum TransferKind {
    Control,
    Isochronous,
    Bulk,
    Interrupt,
}

/// An endpoint, as its descriptor gives it.
#[derive(Debug, Clone, Copy, PartialEq, Eq, Structural)]
pub struct EndpointInfo {
    pub address: u8,
    pub kind: TransferKind,
}

/// One alternate setting of an interface, as its descriptors give it.
#[derive(Debug, Clone, PartialEq, Eq)]
pub struct AltSetting {
    pub interface_number: u8,
    pub class: u8,
    /// Its endpoints, in order.
    pub endpoints: Vec<EndpointInfo>,
}

/// A device as the bus reports it.
#[derive(Debug, Clone, PartialEq, Eq)]
pub struct BusDevice {
    pub vendor_id: u16,
    pub product_id: u16,
    pub bus: u8,
    pub address: u8,
    pub product: Option<String>,
}

/// How a device is told from others: bus number and address.
pub open spec fn identifier_text(bus: u8, address: u8) -> Seq<char> {
    dec(bus as int) + ":"@ + dec(address as int)
}

/// The identifier of a device.
pub fn device_identifier(bus: u8, address: u8) -> (s: String)
    ensures
        s@ == identifier_text(bus, address),
{
    let mut s = dec_text(bus as u64);
    s.append(":");
    s.append(dec_text(address as u64).as_str());
    s
}

/// Whether `info` describes the bus device `d`.
pub open spec fn describes(info: DeviceInfo, d: BusDevice) -> bool {
    &&& info.vendor_id == d.vendor_id
    &&& info.product_id == d.product_id
    &&& info.identifier@ == identifier_text(d.bus, d.address)
    &&& info.display_name@ == match d.product {
        Some(p) => p@,
        None => "Samsung device"@,
    }
}

/// The Samsung devices among those on the bus.
pub open spec fn samsung_only(devices: Seq<BusDevice>) -> Seq<BusDevice>
    decreases devices.len(),
{
    if devices.len() == 0 {
        Seq::empty()
    } else {
        let before = samsung_only(devices.drop_last());
        if devices.last().vendor_id == SAMSUNG_VENDOR_ID {
            before.push(devices.last())
        } else {
            before
        }
    }
}

/// Describe a device.
fn describe_device(d: &BusDevice) -> (info: DeviceInfo)
    ensures
        describes(info, *d),
{
    let display_name = match &d.product {
        Some(p) => p.clone(),
        None => String::from_str("Samsung device"),
    };
    DeviceInfo {
        display_name,
        identifier: device_identifier(d.bus, d.address),
        vendor_id: d.vendor_id,
        product_id: d.product_id,
    }
}

/// Describe all Samsung devices (vendor `0x04E8`) on the bus, in order.
pub fn samsung_devices(devices: &Vec<BusDevice>) -> (r: Vec<DeviceInfo>)
    ensures
        r@.len() == samsung_only(devices@).len(),
        forall|i: int| 0 <= i < r@.len() ==> describes(#[trigger] r@[i], samsung_only(devices@)[i]),
{
    let mut r: Vec<DeviceInfo> = Vec::new();
    let mut i: usize = 0;
    while i < devices.len()
        invariant
            i <= devices@.len(),
            r@.len() == samsung_only(devices@.take(i as int)).len(),
            forall|j: int|
                0 <= j < r@.len() ==> describes(
                    #[trigger] r@[j],
                    samsung_only(devices@.take(i as int))[j],
                ),
        decreases devices@.len() - i,
    {
        proof {
            assert(devices@.take(i + 1).drop_last() == devices@.take(i as int));
        }
        if devices[i].vendor_id == SAMSUNG_VENDOR_ID {
            r.push(describe_device(&devices[i]));
        }
        i = i + 1;
    }
    assert(devices@.take(i as int) == devices@);
    r
}

/// Whether an endpoint address is an IN endpoint: its high bit is set.
pub open spec fn is_in(address: u8) -> bool {
    address & 0x80 != 0
}

/// Whether an endpoint is a bulk endpoint of the given direction.
pub open spec fn is_bulk(e: EndpointInfo, incoming: bool) -> bool {
    e.kind == TransferKind::Bulk && is_in(e.address) == incoming
}

/// The last bulk endpoint of the given direction.
pub open spec fn last_endpoint(endpoints: Seq<EndpointInfo>, incoming: bool) -> Option<u8>
    decreases endpoints.len(),
{
    if endpoints.len() == 0 {
        None
    } else if is_bulk(endpoints.last(), incoming) {
        Some(endpoints.last().address)
    } else {
        last_endpoint(endpoints.drop_last(), incoming)
    }
}

/// The interface number and the bulk IN and OUT endpoint of a setting that has both.
pub open spec fn bulk_pair(alt: AltSetting) -> Option<(u8, u8, u8)> {
    match (last_endpoint(alt.endpoints@, true), last_endpoint(alt.endpoints@, false)) {
        (Some(i), Some(o)) => Some((alt.interface_number, i, o)),
        _ => None,
    }
}

/// The first setting from `from` on that has both endpoints; of CDC-data class, if `cdc`.
pub open spec fn first_pair(alts: Seq<AltSetting>, cdc: bool, from: int) -> Option<(u8, u8, u8)>
    decreases alts.len() - from,
{
    if from < 0 || from >= alts.len() {
        None
    } else if bulk_pair(alts[from]) is Some && (!cdc || alts[from].class == USB_CLASS_CDC_DATA) {
        bulk_pair(alts[from])
    } else {
        first_pair(alts, cdc, from + 1)
    }
}

/// The interface to claim: the first CDC-data one with both endpoints, else the first of any
/// class.
pub open spec fn chosen_interface(alts: Seq<AltSetting>) -> Option<(u8, u8, u8)> {
    match first_pair(alts, true, 0) {
        Some(p) => Some(p),
        None => first_pair(alts, false, 0),
    }
}

/// Find the bulk IN and OUT endpoints of one setting. Where there are several, the last one counts.
fn endpoints_of(alt: &AltSetting) -> (r: Option<(u8, u8, u8)>)
    ensures
        r == bulk_pair(*alt),
{
    let mut in_addr: Option<u8> = None;
    let mut out_addr: Option<u8> = None;
    let mut i: usize = 0;
    while i < alt.endpoints.len()
        invariant
            i <= alt.endpoints@.len(),
            in_addr == last_endpoint(alt.endpoints@.take(i as int), true),
            out_addr == last_endpoint(alt.endpoints@.take(i as int), false),
        decreases alt.endpoints@.len() - i,
    {
        proof {
            assert(alt.endpoints@.take(i + 1).drop_last() == alt.endpoints@.take(i as int));
        }
        let e: EndpointInfo = alt.endpoints[i];
        if e.kind == TransferKind::Bulk {
            if e.address & 0x80 != 0 {
                in_addr = Some(e.address);
            } else {
                out_addr = Some(e.address);
            }
        }
        i = i + 1;
    }
    assert(alt.endpoints@.take(i as int) == alt.endpoints@);
    match (in_addr, out_addr) {
        (Some(i), Some(o)) => Some((alt.interface_number, i, o)),
        _ => None,
    }
}

/// Find `(interface_number, bulk_in_addr, bulk_out_addr)`. Prefers a CDC-data interface, falling
/// back to any interface that has both a bulk IN and a bulk OUT endpoint.
pub fn find_bulk_interface(alts: &Vec<AltSetting>) -> (r: Result<(u8, u8, u8), UsbError>)
    ensures
        match chosen_interface(alts@) {
            Some(p) => r == Ok::<(u8, u8, u8), UsbError>(p),
            None => r == Err::<(u8, u8, u8), UsbError>(UsbError::NoEndpoints),
        },
{
    let mut fallback: Option<(u8, u8, u8)> = None;
    let mut i: usize = 0;
    while i < alts.len()
        invariant
            i <= alts@.len(),
            first_pair(alts@, true, i as int) == first_pair(alts@, true, 0),
            match fallback {
                Some(p) => first_pair(alts@, false, 0) == Some(p),
                None => first_pair(alts@, false, 0) == first_pair(alts@, false, i as int),
            },
        decreases alts@.len() - i,
    {
        let pair = endpoints_of(&alts[i]);
        if let Some(sel) = pair {
            if alts[i].class == USB_CLASS_CDC_DATA {
                return Ok(sel);
            }
            if fallback.is_none() {
                fallback = Some(sel);
            }
        }
        i = i + 1;
    }
    match fallback {
        Some(sel) => Ok(sel),
        None => Err(UsbError::NoEndpoints),
    }
}

/// Whether a setting has the bulk endpoints `i`, of direction IN, and `o`, of direction OUT.
pub open spec fn has_bulk_pair(alt: AltSetting, i: u8, o: u8) -> bool {
    &&& exists|k: int|
        0 <= k < alt.endpoints@.len() && is_bulk(#[trigger] alt.endpoints@[k], true)
            && alt.endpoints@[k].address == i
    &&& exists|k: int|
        0 <= k < alt.endpoints@.len() && is_bulk(#[trigger] alt.endpoints@[k], false)
            && alt.endpoints@[k].address == o
}

/// The endpoints that are found are bulk endpoints of one setting of the interface that is found,
/// which is of CDC-data class if any setting with both is. Nothing is found exactly where no
/// setting has both.
pub proof fn law_found_endpoints_are_bulk(alts: Seq<AltSetting>)
    ensures
        match chosen_interface(alts) {
            Some((n, i, o)) => exists|a: int|
                {
                    &&& 0 <= a < alts.len()
                    &&& #[trigger] alts[a].interface_number == n
                    &&& has_bulk_pair(alts[a], i, o)
                    &&& alts[a].class == 0x0A || forall|b: int|
                        #![trigger alts[b]]
                        0 <= b < alts.len() && alts[b].class == 0x0A ==> forall|
                            x: u8,
                            y: u8,
                        |
                            !has_bulk_pair(alts[b], x, y)
                },
            None => forall|b: int, x: u8, y: u8|
                0 <= b < alts.len() ==> !#[trigger] has_bulk_pair(alts[b], x, y),
        },
{
    lemma_first_pair(alts, true, 0);
    lemma_first_pair(alts, false, 0);
    assert forall|b: int, x: u8, y: u8| 0 <= b < alts.len() && bulk_pair(alts[b]) is None implies
        !#[trigger] has_bulk_pair(alts[b], x, y) by {
        lemma_last_endpoint(alts[b].endpoints@, true);
        lemma_last_endpoint(alts[b].endpoints@, false);
    }
    if let Some(p) = chosen_interface(alts) {
        let cdc = first_pair(alts, true, 0) is Some;
        let a = choose|a: int|
            0 <= a < alts.len() && #[trigger] bulk_pair(alts[a]) == Some(p) && (!cdc
                || alts[a].class == USB_CLASS_CDC_DATA);
        lemma_last_endpoint(alts[a].endpoints@, true);
        lemma_last_endpoint(alts[a].endpoints@, false);
        assert(has_bulk_pair(alts[a], p.1, p.2));
        assert(alts[a].interface_number == p.0);
    }
}

/// The last endpoint of a direction is one of them, and there is none only where there is none.
proof fn lemma_last_endpoint(endpoints: Seq<EndpointInfo>, incoming: bool)
    ensures
        match last_endpoint(endpoints, incoming) {
            Some(a) => exists|k: int|
                0 <= k < endpoints.len() && is_bulk(#[trigger] endpoints[k], incoming)
                    && endpoints[k].address == a,
            None => forall|k: int|
                0 <= k < endpoints.len() ==> !is_bulk(#[trigger] endpoints[k], incoming),
        },
    decreases endpoints.len(),
{
    if endpoints.len() > 0 {
        let before = endpoints.drop_last();
        lemma_last_endpoint(before, incoming);
        assert(endpoints.last() == endpoints[endpoints.len() - 1]);
        assert(forall|k: int| 0 <= k < before.len() ==> before[k] == #[trigger] endpoints[k]);
        if !is_bulk(endpoints.last(), incoming) {
            if let Some(a) = last_endpoint(before, incoming) {
                let k = choose|k: int|
                    0 <= k < before.len() && is_bulk(#[trigger] before[k], incoming)
                        && before[k].address == a;
                assert(is_bulk(endpoints[k], incoming));
            }
        }
    }
}

/// The first pair is that of some setting, and there is none only where no setting has one.
proof fn lemma_first_pair(alts: Seq<AltSetting>, cdc: bool, from: int)
    requires
        0 <= from <= alts.len(),
    ensures
        match first_pair(alts, cdc, from) {
            Some(p) => exists|a: int|
                from <= a < alts.len() && #[trigger] bulk_pair(alts[a]) == Some(p) && (!cdc
                    || alts[a].class == USB_CLASS_CDC_DATA),
            None => forall|a: int|
                from <= a < alts.len() ==> #[trigger] bulk_pair(alts[a]) is None || (cdc
                    && alts[a].class != USB_CLASS_CDC_DATA),
        },
    decreases alts.len() - from,
{
    if from < alts.len() {
        lemma_first_pair(alts, cdc, from + 1);
    }
}

/// How many bytes to ask an endpoint for: a multiple of its packet size that holds `max_len`
/// bytes, and one packet at least.
pub open spec fn request_len(max_len: int, packet: int) -> int {
    let p = if packet < 1 {
        1
    } else {
        packet
    };
    if max_len == 0 {
        p
    } else {
        ceil_div(max_len, p) * p
    }
}

/// How many bytes to ask an IN endpoint for. A device ends the transfer early with a short
/// packet, so the reply holds only what it sent.
pub fn requested_size(max_len: usize, packet: usize) -> (n: usize)
    requires
        request_len(max_len as int, packet as int) <= usize::MAX,
    ensures
        n == request_len(max_len as int, packet as int),
{
    let p: usize = if packet < 1 {
        1
    } else {
        packet
    };
    if max_len == 0 {
        return p;
    }
    let whole: usize = max_len / p;
    let rest: usize = max_len % p;
    proof {
        crate::flash::lemma_count(max_len as int, p as int);
        let q = whole as int;
        assert(q * p <= (q + 1) * p) by (nonlinear_arith)
            requires
                p > 0,
        ;
    }
    if rest == 0 {
        whole * p
    } else {
        (whole + 1) * p
    }
}

/// A transfer is asked for in whole packets: the least number of them that holds what is wanted, and
/// one at least.
pub proof fn law_whole_packets_are_requested(max_len: int, packet: int)
    requires
        max_len >= 0,
        packet >= 1,
    ensures
        request_len(max_len, packet) % packet == 0,
        request_len(max_len, packet) >= max_len,
        max_len > 0 ==> request_len(max_len, packet) < max_len + packet,
        max_len == 0 ==> request_len(max_len, packet) == packet,
        request_len(max_len, 0) == if max_len == 0 {
            1
        } else {
            max_len
        },
{
    lemma_mod_self_0(packet);
    if max_len > 0 {
        let n = ceil_div(max_len, packet);
        lemma_mod_multiples_basic(n, packet);
        lemma_fundamental_div_mod(max_len + packet - 1, packet);
        assert(packet * n == n * packet) by (nonlinear_arith);
        assert(ceil_div(max_len, 1) == max_len);
        assert(max_len * 1 == max_len);
    }
}

/// The devices that count are those of vendor `0x04E8`, all of them, in the order of the bus.
pub proof fn law_samsung_devices_are_those_of_its_vendor(devices: Seq<BusDevice>)
    ensures
        samsung_only(devices) == devices.filter(|d: BusDevice| d.vendor_id == 0x04E8),
    decreases devices.len(),
{
    reveal(Seq::filter);
    if devices.len() > 0 {
        law_samsung_devices_are_those_of_its_vendor(devices.drop_last());
    }
}

/// An endpoint whose address is 128 or more is an IN endpoint, any other an OUT endpoint.
pub proof fn law_direction_is_the_high_bit(address: u8)
    ensures
        is_in(address) <==> address >= 128,
{
    assert(address & 0x80 != 0 <==> address >= 128) by (bit_vector);
}

/// The setting that is chosen is the first of CDC-data class with both endpoints, or else the first of
/// any class; of several endpoints of one direction, the last counts.
pub proof fn law_first_setting_and_last_endpoints_count(alts: Seq<AltSetting>, a: int, x: int, y: int)
    requires
        0 <= a < alts.len(),
        ({
            let endpoints = alts[a].endpoints@;
            &&& 0 <= x < endpoints.len() && 0 <= y < endpoints.len()
            &&& endpoints[x].kind == TransferKind::Bulk && endpoints[x].address >= 128
            &&& endpoints[y].kind == TransferKind::Bulk && endpoints[y].address < 128
            &&& forall|k: int|
                x < k < endpoints.len() && (#[trigger] endpoints[k]).kind == TransferKind::Bulk
                    ==> endpoints[k].address < 128
            &&& forall|k: int|
                y < k < endpoints.len() && (#[trigger] endpoints[k]).kind == TransferKind::Bulk
                    ==> endpoints[k].address >= 128
        }),
        alts[a].class == 0x0A ==> forall|b: int, i: u8, o: u8|
            0 <= b < a && alts[b].class == 0x0A ==> !#[trigger] has_bulk_pair(alts[b], i, o),
        alts[a].class != 0x0A ==> (forall|b: int, i: u8, o: u8|
            0 <= b < a ==> !#[trigger] has_bulk_pair(alts[b], i, o)) && (forall|
            b: int,
            i: u8,
            o: u8,
        |
            0 <= b < alts.len() && alts[b].class == 0x0A ==> !#[trigger] has_bulk_pair(
                alts[b],
                i,
                o,
            )),
    ensures
        chosen_interface(alts) == Some(
            (
                alts[a].interface_number,
                alts[a].endpoints@[x].address,
                alts[a].endpoints@[y].address,
            ),
        ),
{
    let endpoints = alts[a].endpoints@;
    assert forall|k: int| 0 <= k < endpoints.len() implies is_in((#[trigger] endpoints[k]).address)
        == (endpoints[k].address >= 128) by {
        law_direction_is_the_high_bit(endpoints[k].address);
    }
    lemma_last_counts(endpoints, true, x);
    lemma_last_counts(endpoints, false, y);
    assert forall|b: int| 0 <= b < alts.len() && (forall|i: u8, o: u8|
        !#[trigger] has_bulk_pair(alts[b], i, o)) implies #[trigger] bulk_pair(alts[b]) is None by {
        lemma_last_endpoint(alts[b].endpoints@, true);
        lemma_last_endpoint(alts[b].endpoints@, false);
        if let Some(p) = bulk_pair(alts[b]) {
            assert(has_bulk_pair(alts[b], p.1, p.2));
        }
    }
    let cdc = alts[a].class == 0x0A;
    lemma_first_counts(alts, cdc, 0, a);
    if !cdc {
        lemma_first_pair(alts, true, 0);
    }
}

proof fn lemma_last_counts(endpoints: Seq<EndpointInfo>, incoming: bool, x: int)
    requires
        0 <= x < endpoints.len(),
        is_bulk(endpoints[x], incoming),
        forall|k: int| x < k < endpoints.len() ==> !is_bulk(#[trigger] endpoints[k], incoming),
    ensures
        last_endpoint(endpoints, incoming) == Some(endpoints[x].address),
    decreases endpoints.len(),
{
    assert(endpoints.last() == endpoints[endpoints.len() - 1]);
    if x < endpoints.len() - 1 {
        let before = endpoints.drop_last();
        assert(forall|k: int| 0 <= k < before.len() ==> before[k] == #[trigger] endpoints[k]);
        lemma_last_counts(before, incoming, x);
    }
}

proof fn lemma_first_counts(alts: Seq<AltSetting>, cdc: bool, from: int, a: int)
    requires
        0 <= from <= a < alts.len(),
        bulk_pair(alts[a]) is Some,
        cdc ==> alts[a].class == 0x0A,
        forall|b: int|
            from <= b < a ==> #[trigger] bulk_pair(alts[b]) is None || (cdc && alts[b].class
                != 0x0A),
    ensures
        first_pair(alts, cdc, from) == bulk_pair(alts[a]),
    decreases a - from,
{
    if from < a {
        assert(bulk_pair(alts[from]) is None || (cdc && alts[from].class != 0x0A));
        lemma_first_counts(alts, cdc, from + 1, a);
    }
}

/// Devices in different places have different identifiers.
#[verifier::spinoff_prover]
pub proof fn law_identifiers_tell_devices_apart(bus: u8, address: u8, other_bus: u8, other: u8)
    requires
        identifier_text(bus, address) == identifier_text(other_bus, other),
    ensures
        bus == other_bus,
        address == other,
{
    reveal_strlit(":");
    let (a, b) = (dec(bus as int), dec(other_bus as int));
    let (c, d) = (dec(address as int), dec(other as int));
    let s = identifier_text(bus, address);
    law_decimal_stands_for_its_number(bus as int);
    law_decimal_stands_for_its_number(other_bus as int);
    law_decimal_stands_for_its_number(address as int);
    law_decimal_stands_for_its_number(other as int);
    assert(digit_number(':') == -1);
    assert(s[a.len() as int] == ':' && s[b.len() as int] == ':');
    if a.len() < b.len() {
        assert(b[a.len() as int] == s[a.len() as int]);
    }
    if b.len() < a.len() {
        assert(a[b.len() as int] == s[b.len() as int]);
    }
    assert(a == s.take(a.len() as int) && b == s.take(a.len() as int));
    assert(c == s.skip(a.len() as int + 1) && d == s.skip(a.len() as int + 1));
}

} // verus!
