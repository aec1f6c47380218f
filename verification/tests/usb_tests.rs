use usbtree::demo::demo_scan;
use usbtree::descriptors::parse_interfaces;
use usbtree::ids::{parse_overrides, parse_usb_ids, product_key};
use usbtree::tree::{child_count, diff, flatten};
use usbtree::usb::{is_newer, parse_max_power, Device};

fn dev(name: &str, vid: u16, pid: u16, class: u8, ifaces: &[u8]) -> Device {
    Device {
        name: name.into(),
        vid,
        pid,
        manufacturer: None,
        product: None,
        serial: None,
        speed: "480".into(),
        class,
        iface_classes: ifaces.to_vec(),
        devnum: 0,
        max_power_ma: None,
        interfaces: Vec::new(),
    }
}

#[test]
fn max_power_parses_sysfs() {
    assert_eq!(parse_max_power("500mA\n"), Some(500));
    assert_eq!(parse_max_power("0mA"), Some(0));
    assert_eq!(parse_max_power(""), None);
}

#[test]
fn parses_interfaces_and_endpoints() {
    // config(9) + interface(9, mass-storage BOT) + endpoint(7, bulk IN 512)
    let config = [
        9, 2, 25, 0, 1, 1, 0, 0x80, 50, //
        9, 4, 0, 0, 1, 0x08, 0x06, 0x50, 0, //
        7, 5, 0x81, 0x02, 0x00, 0x02, 0,
    ];
    let ifaces = parse_interfaces(&config);
    assert_eq!(ifaces.len(), 1);
    let i = &ifaces[0];
    assert_eq!((i.class, i.subclass, i.protocol), (0x08, 0x06, 0x50));
    assert_eq!(i.endpoints.len(), 1);
    let e = &i.endpoints[0];
    assert_eq!(e.address, 0x81);
    assert!(e.input);
    assert_eq!(e.transfer, 2); // bulk
    assert_eq!(e.max_packet, 512);

    // Linux sysfs blob leads with an 18-byte device descriptor; skip it.
    let mut sysfs = vec![18, 1];
    sysfs.extend(std::iter::repeat_n(0, 16));
    sysfs.extend_from_slice(&config);
    assert_eq!(parse_interfaces(&sysfs), ifaces);
}

#[test]
fn tree_nests_and_collapses() {
    let devices = vec![
        dev("usb1", 0, 0, 0x09, &[]),
        dev("1-1", 0x046d, 0xc52b, 0x00, &[0x03]),
        dev("1-1.4", 0x05e3, 0x0610, 0x09, &[]),
    ];
    let rows = flatten(&devices, &[]);
    assert_eq!(rows, vec![(0, 0), (1, 1), (2, 2)], "usb1 > 1-1 > 1-1.4 by depth");
    assert_eq!(devices[1].parent_name().as_deref(), Some("usb1"));
    assert_eq!(devices[2].parent_name().as_deref(), Some("1-1"));
    assert_eq!(
        devices[1].effective_class(),
        0x03,
        "composite falls back to interface class"
    );

    // collapsing usb1 hides the whole subtree, no orphan resurfacing
    let collapsed = vec!["usb1".to_string()];
    assert_eq!(flatten(&devices, &collapsed).len(), 1);
    assert_eq!(child_count(&devices, "usb1"), 1);
}

#[test]
fn usb_ids_parse() {
    let sample = "# comment\n\
046d  Logitech, Inc.\n\
\tc52b  Unifying Receiver\n\
\t\t01  weird interface line\n\
07fd  Mark of the Unicorn\n\
\n\
C 03  Human Interface Device\n\
\t01  Boot Interface Subclass\n";
    let db = parse_usb_ids(sample);
    assert_eq!(db.vendors[&0x046d], "Logitech, Inc.");
    assert_eq!(db.products[&product_key(0x046d, 0xc52b)], "Unifying Receiver");
    assert_eq!(db.vendors.len(), 2, "class section must not become a vendor");
    assert_eq!(db.products.len(), 1, "class subclass lines must be ignored");
}

#[test]
fn overrides_parse() {
    let map = parse_overrides("# comment\n07fd:000b MOTU M2 Audio Interface\n\nbad line\n");
    assert_eq!(map.len(), 1);
    assert_eq!(map[&product_key(0x07fd, 0x000b)], "MOTU M2 Audio Interface");
}

#[test]
fn misc_class_resolves_via_interfaces() {
    // Misc/IAD at device level, like the MOTU M2
    let d = dev("1-9", 0x07fd, 0x000b, 0xef, &[0xff, 0x01, 0x01]);
    assert_eq!(d.effective_class(), 0x01);
    assert_eq!(d.class_name(), "Audio");
}

#[test]
fn diff_detects_hotplug() {
    let before = vec![dev("usb1", 0, 0, 0x09, &[]), dev("1-1", 1, 2, 0x03, &[])];
    let mut after = before.clone();
    after.push(dev("1-2", 0x0781, 0x5567, 0x08, &[]));
    let (added, removed) = diff(&before, &after);
    assert_eq!(added.len(), 1);
    assert_eq!(added[0].name, "1-2");
    assert!(removed.is_empty());
    let (added, removed) = diff(&after, &before);
    assert_eq!(removed.len(), 1);
    assert!(added.is_empty());
}

#[test]
fn version_compare() {
    assert!(is_newer("0.0.2", "0.0.1"));
    assert!(is_newer("0.1.0", "0.0.9"));
    assert!(is_newer("1.0.0", "0.9.9"));
    assert!(!is_newer("0.0.1", "0.0.1"));
    assert!(!is_newer("0.0.1", "0.0.2"));
    assert!(is_newer("0.0.2", "0.0.1")); // shorter/longer parts default to 0
}

#[test]
fn demo_tree_is_sorted_and_loops() {
    let names: Vec<String> = demo_scan(0).into_iter().map(|d| d.name).collect();
    assert_eq!(names, vec!["usb1", "1-1", "1-2", "1-3", "1-3.1", "1-3.2", "usb2", "2-3"]);
    let at10: Vec<String> = demo_scan(10).into_iter().map(|d| d.name).collect();
    assert!(at10.contains(&"2-1".to_string()));
    let at15: Vec<String> = demo_scan(15).into_iter().map(|d| d.name).collect();
    assert!(!at15.contains(&"2-3".to_string()));
    assert_eq!(demo_scan(40), demo_scan(10));
}
