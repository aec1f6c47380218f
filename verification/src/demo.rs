//! The deterministic fake tree of `--demo`: screenshots and trying the UI
//! without hardware.
use vstd::prelude::*;
use crate::text::{chars_eq, chars_of, owned};
use crate::tree::{lemma_sorted_by_name, sort_by_port, sorted_by_name};
use crate::usb::{device_views, Device, DeviceView, Endpoint, Interface, InterfaceView};

verus! {

/// A demo endpoint: the direction follows bit 7 of the address.
pub open spec fn demo_ep(address: u8, transfer: u8, max_packet: u16, interval: u8) -> Endpoint {
    Endpoint { address, input: address & 0x80 != 0, transfer, max_packet, interval }
}

/// A demo interface: always alternate setting 0.
pub open spec fn demo_iface(
    number: u8,
    class: u8,
    subclass: u8,
    protocol: u8,
    endpoints: Seq<Endpoint>,
) -> InterfaceView {
    InterfaceView { number, alt: 0, class, subclass, protocol, endpoints }
}

/// Representative interfaces/endpoints for the demo devices, so the detail
/// panel shows real descriptor depth without hardware.
pub open spec fn demo_interfaces_of(name: Seq<char>) -> Seq<InterfaceView> {
    if name == "1-1"@ {
        seq![
            demo_iface(0, 0x03, 0x01, 0x01, seq![demo_ep(0x81, 3, 8, 8)]),
            demo_iface(1, 0x03, 0x00, 0x00, seq![demo_ep(0x82, 3, 32, 2)]),
        ]
    } else if name == "1-2"@ {
        seq![
            demo_iface(0, 0x01, 0x01, 0x00, seq![]),
            demo_iface(1, 0x01, 0x02, 0x00, seq![demo_ep(0x01, 1, 294, 1)]),
            demo_iface(2, 0x01, 0x02, 0x00, seq![demo_ep(0x82, 1, 294, 1)]),
            demo_iface(3, 0xff, 0x00, 0x00, seq![demo_ep(0x83, 3, 4, 8)]),
        ]
    } else if name == "1-3.1"@ {
        seq![
            demo_iface(0, 0x03, 0x01, 0x01, seq![demo_ep(0x81, 3, 8, 10)]),
            demo_iface(1, 0x03, 0x00, 0x00, seq![demo_ep(0x82, 3, 16, 10)]),
        ]
    } else if name == "1-3.2"@ {
        seq![demo_iface(0, 0x03, 0x01, 0x02, seq![demo_ep(0x81, 3, 8, 8)])]
    } else if name == "2-1"@ {
        seq![demo_iface(0, 0x08, 0x06, 0x50, seq![demo_ep(0x81, 2, 1024, 0), demo_ep(0x02, 2, 1024, 0)])]
    } else if name == "2-3"@ {
        seq![
            demo_iface(0, 0x0e, 0x01, 0x00, seq![demo_ep(0x87, 3, 16, 8)]),
            demo_iface(1, 0x0e, 0x02, 0x00, seq![demo_ep(0x81, 1, 3072, 1)]),
            demo_iface(2, 0x01, 0x01, 0x00, seq![]),
            demo_iface(3, 0x01, 0x02, 0x00, seq![demo_ep(0x86, 1, 192, 4)]),
        ]
    } else {
        seq![]
    }
}

fn ep(address: u8, transfer: u8, max_packet: u16, interval: u8) -> (e: Endpoint)
    ensures
        e == demo_ep(address, transfer, max_packet, interval),
{
    Endpoint { address, input: address & 0x80 != 0, transfer, max_packet, interval }
}

fn iface(number: u8, class: u8, subclass: u8, protocol: u8, endpoints: Vec<Endpoint>) -> (i:
    Interface)
    ensures
        i@ == demo_iface(number, class, subclass, protocol, endpoints@),
{
    Interface { number, alt: 0, class, subclass, protocol, endpoints }
}

fn str_eq(a: &str, b: &str) -> (r: bool)
    ensures
        r == (a@ == b@),
{
    let x = chars_of(a);
    let y = chars_of(b);
    chars_eq(x.as_slice(), y.as_slice())
}

/// Representative interfaces/endpoints for `--demo` devices.
pub fn demo_interfaces(name: &str) -> (r: Vec<Interface>)
    ensures
        r@.map_values(|i: Interface| i@) == demo_interfaces_of(name@),
{
    if str_eq(name, "1-1") {
        let a = iface(0, 0x03, 0x01, 0x01, vec![ep(0x81, 3, 8, 8)]);
        let b = iface(1, 0x03, 0x00, 0x00, vec![ep(0x82, 3, 32, 2)]);
        let ghost vs = seq![a@, b@];
        let r = vec![a, b];
        assert(r@.map_values(|i: Interface| i@) =~= vs);
        assert(vs =~~= demo_interfaces_of(name@));
        r
    } else if str_eq(name, "1-2") {
        let a = iface(0, 0x01, 0x01, 0x00, vec![]);
        let b = iface(1, 0x01, 0x02, 0x00, vec![ep(0x01, 1, 294, 1)]);
        let c = iface(2, 0x01, 0x02, 0x00, vec![ep(0x82, 1, 294, 1)]);
        let d = iface(3, 0xff, 0x00, 0x00, vec![ep(0x83, 3, 4, 8)]);
        let ghost vs = seq![a@, b@, c@, d@];
        assert(a@.endpoints =~= seq![]);
        let r = vec![a, b, c, d];
        assert(r@.map_values(|i: Interface| i@) =~= vs);
        assert(vs =~~= demo_interfaces_of(name@));
        r
    } else if str_eq(name, "1-3.1") {
        let a = iface(0, 0x03, 0x01, 0x01, vec![ep(0x81, 3, 8, 10)]);
        let b = iface(1, 0x03, 0x00, 0x00, vec![ep(0x82, 3, 16, 10)]);
        let ghost vs = seq![a@, b@];
        let r = vec![a, b];
        assert(r@.map_values(|i: Interface| i@) =~= vs);
        assert(vs =~~= demo_interfaces_of(name@));
        r
    } else if str_eq(name, "1-3.2") {
        let a = iface(0, 0x03, 0x01, 0x02, vec![ep(0x81, 3, 8, 8)]);
        let ghost vs = seq![a@];
        let r = vec![a];
        assert(r@.map_values(|i: Interface| i@) =~= vs);
        assert(vs =~~= demo_interfaces_of(name@));
        r
    } else if str_eq(name, "2-1") {
        let a = iface(0, 0x08, 0x06, 0x50, vec![ep(0x81, 2, 1024, 0), ep(0x02, 2, 1024, 0)]);
        let ghost vs = seq![a@];
        let r = vec![a];
        assert(r@.map_values(|i: Interface| i@) =~= vs);
        assert(vs =~~= demo_interfaces_of(name@));
        r
    } else if str_eq(name, "2-3") {
        let a = iface(0, 0x0e, 0x01, 0x00, vec![ep(0x87, 3, 16, 8)]);
        let b = iface(1, 0x0e, 0x02, 0x00, vec![ep(0x81, 1, 3072, 1)]);
        let c = iface(2, 0x01, 0x01, 0x00, vec![]);
        let d = iface(3, 0x01, 0x02, 0x00, vec![ep(0x86, 1, 192, 4)]);
        let ghost vs = seq![a@, b@, c@, d@];
        assert(c@.endpoints =~= seq![]);
        let r = vec![a, b, c, d];
        assert(r@.map_values(|i: Interface| i@) =~= vs);
        assert(vs =~~= demo_interfaces_of(name@));
        r
    } else {
        let r: Vec<Interface> = Vec::new();
        assert(r@.map_values(|i: Interface| i@) =~= seq![]);
        r
    }
}

/// A demo device as the scan would report it: no serial, device number 0,
/// a manufacturer only when one is given.
pub open spec fn demo_device(
    name: &str,
    vid: u16,
    pid: u16,
    manufacturer: &str,
    product: &str,
    speed: &str,
    class: u8,
    ifaces: Seq<u8>,
    power: Option<u16>,
) -> DeviceView {
    DeviceView {
        name: name@,
        vid,
        pid,
        manufacturer: if manufacturer@.len() == 0 {
            None
        } else {
            Some(manufacturer@)
        },
        product: Some(product@),
        serial: None,
        speed: speed@,
        class,
        iface_classes: ifaces,
        devnum: 0,
        max_power_ma: power,
        interfaces: demo_interfaces_of(name@),
    }
}

fn dev(
    name: &str,
    vid: u16,
    pid: u16,
    manufacturer: &str,
    product: &str,
    speed: &str,
    class: u8,
    ifaces: Vec<u8>,
    power: Option<u16>,
) -> (d: Device)
    ensures
        d@ == demo_device(name, vid, pid, manufacturer, product, speed, class, ifaces@, power),
{
    let interfaces = demo_interfaces(name);
    Device {
        name: owned(name),
        vid,
        pid,
        manufacturer: if manufacturer.is_empty() {
            None
        } else {
            Some(owned(manufacturer))
        },
        product: Some(owned(product)),
        serial: None,
        speed: owned(speed),
        class,
        iface_classes: ifaces,
        devnum: 0,
        max_power_ma: power,
        interfaces,
    }
}

/// The demo devices always present.
pub open spec fn demo_base() -> Seq<DeviceView> {
    seq![
        demo_device("usb1", 0, 0, "", "xhci-hcd", "", 0x09, seq![], None),
        demo_device("1-1", 0x046d, 0xc52b, "Logitech", "Unifying Receiver", "12", 0x00, seq![0x03], Some(98)),
        demo_device("1-2", 0x07fd, 0x000b, "MOTU", "M2", "480", 0xef, seq![0x01, 0x01, 0xff], Some(500)),
        demo_device("1-3", 0x05e3, 0x0610, "Genesys Logic", "USB2.0 Hub", "480", 0x09, seq![], Some(100)),
        demo_device("1-3.1", 0x3434, 0x0121, "Keychron", "Keychron K8", "12", 0x00, seq![0x03], Some(500)),
        demo_device("1-3.2", 0x046d, 0xb034, "Logitech", "MX Master 3S", "12", 0x00, seq![0x03], Some(100)),
        demo_device("usb2", 0, 0, "", "xhci-hcd", "", 0x09, seq![], None),
    ]
}

/// The SSD of the demo.
pub open spec fn demo_ssd() -> DeviceView {
    demo_device("2-1", 0x0781, 0x558c, "SanDisk", "Extreme SSD", "10000", 0x00, seq![0x08], Some(896))
}

/// The webcam of the demo.
pub open spec fn demo_webcam() -> DeviceView {
    demo_device("2-3", 0x046d, 0x082d, "Logitech", "HD Pro Webcam C920", "480", 0xef, seq![0x0e, 0x01], Some(500))
}

/// The demo devices at second `t`, before sorting: on a 30 s loop the SSD is
/// plugged in from 6 s to 24 s, the webcam is unplugged from 14 s to 20 s.
pub open spec fn demo_unsorted(t: int) -> Seq<DeviceView> {
    let s = t % 30;
    let a = if 6 <= s < 24 {
        demo_base().push(demo_ssd())
    } else {
        demo_base()
    };
    if !(14 <= s < 20) {
        a.push(demo_webcam())
    } else {
        a
    }
}

/// Deterministic fake tree for `--demo`; `t` is seconds since start. On a
/// 30 s loop an SSD plugs in at 6 s and unplugs at 24 s, and a webcam
/// unplugs at 14 s and returns at 20 s.
pub fn demo_scan(t: u64) -> (r: Vec<Device>)
    ensures
        device_views(r@) == sorted_by_name(demo_unsorted(t as int)),
{
    let ghost t0 = t;
    let t = t % 30;
    assert(t as int == t0 as int % 30);
    let d0 = dev("usb1", 0, 0, "", "xhci-hcd", "", 0x09, vec![], None);
    let d1 = dev("1-1", 0x046d, 0xc52b, "Logitech", "Unifying Receiver", "12", 0x00, vec![0x03], Some(98));
    let d2 = dev("1-2", 0x07fd, 0x000b, "MOTU", "M2", "480", 0xef, vec![0x01, 0x01, 0xff], Some(500));
    let d3 = dev("1-3", 0x05e3, 0x0610, "Genesys Logic", "USB2.0 Hub", "480", 0x09, vec![], Some(100));
    let d4 = dev("1-3.1", 0x3434, 0x0121, "Keychron", "Keychron K8", "12", 0x00, vec![0x03], Some(500));
    let d5 = dev("1-3.2", 0x046d, 0xb034, "Logitech", "MX Master 3S", "12", 0x00, vec![0x03], Some(100));
    let d6 = dev("usb2", 0, 0, "", "xhci-hcd", "", 0x09, vec![], None);
    let ghost vs = seq![d0@, d1@, d2@, d3@, d4@, d5@, d6@];
    proof {
        assert(vs[0] == demo_base()[0]) by {
            assert(d0@.iface_classes =~= seq![]);
        }
        assert(vs[1] == demo_base()[1]) by {
            assert(d1@.iface_classes =~= seq![0x03u8]);
        }
        assert(vs[2] == demo_base()[2]) by {
            assert(d2@.iface_classes =~= seq![0x01u8, 0x01, 0xff]);
        }
        assert(vs[3] == demo_base()[3]) by {
            assert(d3@.iface_classes =~= seq![]);
        }
        assert(vs[4] == demo_base()[4]) by {
            assert(d4@.iface_classes =~= seq![0x03u8]);
        }
        assert(vs[5] == demo_base()[5]) by {
            assert(d5@.iface_classes =~= seq![0x03u8]);
        }
        assert(vs[6] == demo_base()[6]) by {
            assert(d6@.iface_classes =~= seq![]);
        }
        assert(vs =~= demo_base());
    }
    let mut devices: Vec<Device> = vec![d0, d1, d2, d3, d4, d5, d6];
    assert(device_views(devices@) =~= demo_base());
    if 6 <= t && t < 24 {
        let ssd = dev("2-1", 0x0781, 0x558c, "SanDisk", "Extreme SSD", "10000", 0x00, vec![0x08], Some(896));
        assert(ssd@ == demo_ssd()) by {
            assert(ssd@.iface_classes =~= seq![0x08u8]);
        }
        let ghost before = devices@;
        devices.push(ssd);
        assert(device_views(devices@) =~= device_views(before).push(demo_ssd()));
    }
    let ghost mid = device_views(devices@);
    assert(mid == (if 6 <= t < 24 {
        demo_base().push(demo_ssd())
    } else {
        demo_base()
    }));
    if !(14 <= t && t < 20) {
        let cam = dev(
            "2-3",
            0x046d,
            0x082d,
            "Logitech",
            "HD Pro Webcam C920",
            "480",
            0xef,
            vec![0x0e, 0x01],
            Some(500),
        );
        assert(cam@ == demo_webcam()) by {
            assert(cam@.iface_classes =~= seq![0x0eu8, 0x01]);
        }
        let ghost before = devices@;
        devices.push(cam);
        assert(device_views(devices@) =~= device_views(before).push(demo_webcam()));
    }
    assert(device_views(devices@) =~= demo_unsorted(t as int));
    sort_by_port(devices)
}


proof fn lemma_not_in_base(x: DeviceView)
    requires
        x.vid == 0x0781 || (x.vid == 0x046d && x.pid == 0x082d),
    ensures
        !demo_base().contains(x),
{
    assert forall|i: int| 0 <= i < demo_base().len() implies demo_base()[i] != x by {
        let b = demo_base();
        assert(b[i].vid != x.vid || b[i].pid != x.pid);
    }
}

/// The demo repeats every 30 seconds. In each loop the SSD is plugged in
/// from second 6 to second 24 and the webcam is unplugged from second 14 to
/// second 20; the other devices are always there.
pub proof fn lemma_demo_schedule(t: nat)
    ensures
        sorted_by_name(demo_unsorted(t as int)) == sorted_by_name(demo_unsorted(t + 30int)),
        sorted_by_name(demo_unsorted(t as int)).contains(demo_ssd()) <==> (6 <= t % 30 < 24),
        sorted_by_name(demo_unsorted(t as int)).contains(demo_webcam()) <==> !(14 <= t % 30 < 20),
        forall|i: int|
            0 <= i < demo_base().len() ==> sorted_by_name(demo_unsorted(t as int)).contains(
                #[trigger] demo_base()[i],
            ),
{
    broadcast use vstd::seq_lib::group_to_multiset_ensures;

    assert((t + 30) % 30 == t % 30);
    let u = demo_unsorted(t as int);
    let r = sorted_by_name(u);
    lemma_sorted_by_name(u);
    let s = t % 30;
    let b = demo_base();
    let a = if 6 <= s < 24 {
        b.push(demo_ssd())
    } else {
        b
    };
    lemma_not_in_base(demo_ssd());
    lemma_not_in_base(demo_webcam());
    assert(demo_ssd() != demo_webcam());
    assert(u == (if !(14 <= s < 20) {
        a.push(demo_webcam())
    } else {
        a
    }));
    assert forall|i: int| 0 <= i < b.len() implies r.contains(#[trigger] b[i]) by {
        assert(a[i] == b[i]);
        if !(14 <= s < 20) {
            assert(u[i] == b[i]);
        }
        assert(u.contains(b[i]));
        assert(u.to_multiset().count(b[i]) > 0);
    }
    if 6 <= s < 24 {
        assert(a[b.len() as int] == demo_ssd());
        assert(u[b.len() as int] == demo_ssd());
        assert(u.to_multiset().count(demo_ssd()) > 0);
    } else {
        if u.contains(demo_ssd()) {
            let k = choose|k: int| 0 <= k < u.len() && u[k] == demo_ssd();
            if k < b.len() {
                assert(b[k] == u[k]);
                assert(b.contains(demo_ssd()));
            }
        }
        assert(u.to_multiset().count(demo_ssd()) == 0);
    }
    if !(14 <= s < 20) {
        assert(u[a.len() as int] == demo_webcam());
        assert(u.to_multiset().count(demo_webcam()) > 0);
    } else {
        if u.contains(demo_webcam()) {
            let k = choose|k: int| 0 <= k < u.len() && u[k] == demo_webcam();
            if k < b.len() {
                assert(b[k] == u[k]);
                assert(b.contains(demo_webcam()));
            }
        }
        assert(u.to_multiset().count(demo_webcam()) == 0);
    }
}


proof fn lemma_names_differ(a: Seq<char>, b: Seq<char>, k: int)
    requires
        a.len() != b.len() || (0 <= k < a.len() && k < b.len() && a[k] != b[k]),
    ensures
        a != b,
{
}

/// Every demo device that can appear, in the order the demo lists them.
pub open spec fn demo_all() -> Seq<DeviceView> {
    demo_base().push(demo_ssd()).push(demo_webcam())
}

proof fn lemma_demo_all_distinct()
    ensures
        forall|i: int, j: int|
            0 <= i < j < demo_all().len() ==> (#[trigger] demo_all()[i]).name != (#[trigger] demo_all()[j]).name,
{
    reveal_strlit("usb1");
    reveal_strlit("1-1");
    reveal_strlit("1-2");
    reveal_strlit("1-3");
    reveal_strlit("1-3.1");
    reveal_strlit("1-3.2");
    reveal_strlit("usb2");
    reveal_strlit("2-1");
    reveal_strlit("2-3");
    let all = demo_all();
    lemma_names_differ(all[0].name, all[1].name, 0);
    lemma_names_differ(all[0].name, all[2].name, 0);
    lemma_names_differ(all[0].name, all[3].name, 0);
    lemma_names_differ(all[0].name, all[4].name, 0);
    lemma_names_differ(all[0].name, all[5].name, 0);
    lemma_names_differ(all[0].name, all[6].name, 3);
    lemma_names_differ(all[0].name, all[7].name, 0);
    lemma_names_differ(all[0].name, all[8].name, 0);
    lemma_names_differ(all[1].name, all[2].name, 2);
    lemma_names_differ(all[1].name, all[3].name, 2);
    lemma_names_differ(all[1].name, all[4].name, 0);
    lemma_names_differ(all[1].name, all[5].name, 0);
    lemma_names_differ(all[1].name, all[6].name, 0);
    lemma_names_differ(all[1].name, all[7].name, 0);
    lemma_names_differ(all[1].name, all[8].name, 0);
    lemma_names_differ(all[2].name, all[3].name, 2);
    lemma_names_differ(all[2].name, all[4].name, 0);
    lemma_names_differ(all[2].name, all[5].name, 0);
    lemma_names_differ(all[2].name, all[6].name, 0);
    lemma_names_differ(all[2].name, all[7].name, 0);
    lemma_names_differ(all[2].name, all[8].name, 0);
    lemma_names_differ(all[3].name, all[4].name, 0);
    lemma_names_differ(all[3].name, all[5].name, 0);
    lemma_names_differ(all[3].name, all[6].name, 0);
    lemma_names_differ(all[3].name, all[7].name, 0);
    lemma_names_differ(all[3].name, all[8].name, 0);
    lemma_names_differ(all[4].name, all[5].name, 4);
    lemma_names_differ(all[4].name, all[6].name, 0);
    lemma_names_differ(all[4].name, all[7].name, 0);
    lemma_names_differ(all[4].name, all[8].name, 0);
    lemma_names_differ(all[5].name, all[6].name, 0);
    lemma_names_differ(all[5].name, all[7].name, 0);
    lemma_names_differ(all[5].name, all[8].name, 0);
    lemma_names_differ(all[6].name, all[7].name, 0);
    lemma_names_differ(all[6].name, all[8].name, 0);
    lemma_names_differ(all[7].name, all[8].name, 2);
}

/// No two devices of the demo share a name.
pub proof fn lemma_demo_names_distinct(t: nat)
    ensures
        forall|i: int, j: int|
            0 <= i < j < sorted_by_name(demo_unsorted(t as int)).len() ==> (#[trigger] sorted_by_name(
                demo_unsorted(t as int),
            )[i]).name != (#[trigger] sorted_by_name(demo_unsorted(t as int))[j]).name,
{
    broadcast use vstd::seq_lib::group_to_multiset_ensures;

    lemma_demo_all_distinct();
    let all = demo_all();
    let u = demo_unsorted(t as int);
    let s = t % 30;
    // u is `all` with some of its last two devices left out
    let f = |i: int| if i < 7 {
        i
    } else if i == 7 && 6 <= s < 24 {
        7
    } else {
        8
    };
    assert forall|i: int| 0 <= i < u.len() implies 0 <= #[trigger] f(i) < all.len() && u[i] == all[f(i)] by {
        if i < 7 {
            assert(u[i] == demo_base()[i]);
        }
    }
    assert forall|i: int, j: int| 0 <= i < j < u.len() implies (#[trigger] u[i]).name != (#[trigger] u[j]).name by {
        assert(f(i) < f(j));
        assert(all[f(i)].name != all[f(j)].name);
    }
    assert(u.no_duplicates());
    u.lemma_multiset_has_no_duplicates();
    let r = sorted_by_name(u);
    lemma_sorted_by_name(u);
    assert forall|i: int, j: int| 0 <= i < j < r.len() implies (#[trigger] r[i]).name != (#[trigger] r[j]).name by {
        assert(r.contains(r[i]) && r.contains(r[j]));
        assert(u.to_multiset().count(r[i]) > 0 && u.to_multiset().count(r[j]) > 0);
        let a = choose|a: int| 0 <= a < u.len() && u[a] == r[i];
        let b = choose|b: int| 0 <= b < u.len() && u[b] == r[j];
        if r[i].name == r[j].name {
            assert(a == b);
            assert(u.to_multiset().count(r[i]) == 1);
            r.lemma_multiset_has_no_duplicates_conv();
        }
    }
}

} // verus!
