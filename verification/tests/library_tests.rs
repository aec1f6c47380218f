use std::collections::HashMap;

use usbtree::demo::demo_scan;
use usbtree::descriptors::{interfaces_from, parse_interfaces};
use usbtree::ids::{
    ids_cache_path, overrides_path, parse_usb_ids, product_key, ConfigBase, NameDb,
};
use usbtree::metrics::{add_traffic, parse_counter, Metrics, RateMap, Reading};
use usbtree::rows::{device_matches, rails};
use usbtree::tree::{flatten, scan_from, sort_by_port};
use usbtree::usb::{
    config_power_ma, port_device, release_version, root_hub_device, tidy_bus, BusInfo, Device,
    PortInfo, UsbSpeed,
};

fn dev(name: &str, vid: u16, pid: u16) -> Device {
    Device {
        name: name.into(),
        vid,
        pid,
        manufacturer: None,
        product: None,
        serial: None,
        speed: String::new(),
        class: 0,
        iface_classes: Vec::new(),
        devnum: 3,
        max_power_ma: None,
        interfaces: Vec::new(),
    }
}

fn port(bus: &str, chain: &[u8], vid: u16) -> PortInfo {
    PortInfo {
        bus_id: bus.into(),
        port_chain: chain.to_vec(),
        vendor_id: vid,
        product_id: 1,
        manufacturer: None,
        product: Some("Thing".into()),
        serial: None,
        speed: Some(UsbSpeed::High),
        class: 0,
        interface_classes: vec![0, 3, 0, 8],
        address: 7,
        max_power_ma: Some(100),
        interfaces: Vec::new(),
    }
}

#[test]
fn scan_builds_roots_then_sorted_ports() {
    let buses = vec![
        BusInfo { bus_id: "002".into(), driver: Some("xhci".into()), system_name: None },
        BusInfo { bus_id: "001".into(), driver: None, system_name: Some("Root".into()) },
    ];
    let ports = vec![port("001", &[2], 1), port("001", &[], 2), port("001", &[1, 10], 3), port("001", &[1, 2], 4)];
    let devices = scan_from(buses, Some(ports));
    let names: Vec<&str> = devices.iter().map(|d| d.name.as_str()).collect();
    assert_eq!(names, vec!["usb1", "1-1.2", "1-1.10", "1-2", "usb2"]);
    assert_eq!(devices[4].product.as_deref(), Some("Bus 002"));
    assert_eq!(devices[4].manufacturer.as_deref(), Some("xhci"));
    assert_eq!(devices[0].product.as_deref(), Some("Root"));
    assert_eq!(devices[1].speed, "480");
    assert_eq!(devices[1].iface_classes, vec![3, 8]);
    // devices unreadable: the root hubs alone, in bus order
    let buses = vec![
        BusInfo { bus_id: "3".into(), driver: None, system_name: None },
        BusInfo { bus_id: "1".into(), driver: None, system_name: None },
    ];
    let roots: Vec<String> = scan_from(buses, None).into_iter().map(|d| d.name).collect();
    assert_eq!(roots, vec!["usb3", "usb1"]);
}

#[test]
fn root_and_port_devices_are_named_like_sysfs() {
    let d = root_hub_device("001", None, None);
    assert_eq!(d.name, "usb1");
    assert_eq!(d.devnum, 1);
    assert_eq!(d.class, 0x09);
    let p = port_device(port("003", &[4, 1, 2], 9));
    assert_eq!(p.name, "3-4.1.2");
    assert_eq!(p.devnum, 7);
    assert_eq!(tidy_bus("000"), "0");
    assert_eq!(tidy_bus("0abc"), "0abc");
    assert_eq!(tidy_bus("12"), "12");
}

#[test]
fn sorting_keeps_every_device() {
    let devices = vec![dev("1-1.10", 1, 1), dev("usb1", 0, 0), dev("1-1.2", 2, 2), dev("1-1", 3, 3), dev("1-1.2", 4, 4)];
    let sorted = sort_by_port(devices.clone());
    let names: Vec<&str> = sorted.iter().map(|d| d.name.as_str()).collect();
    assert_eq!(names, vec!["usb1", "1-1", "1-1.2", "1-1.2", "1-1.10"]);
    // stable: equal keys keep their order
    assert_eq!((sorted[2].vid, sorted[3].vid), (2, 4));
    for d in &devices {
        assert_eq!(
            devices.iter().filter(|e| *e == d).count(),
            sorted.iter().filter(|e| *e == d).count()
        );
    }
}

#[test]
fn rails_widen_three_columns_per_level() {
    let devices = vec![dev("usb1", 0, 0), dev("1-1", 1, 1), dev("1-1.1", 2, 2), dev("1-1.1.3", 3, 3), dev("1-2", 4, 4)];
    let rows = flatten(&devices, &[]);
    let r = rails(&rows);
    for (row, rail) in rows.iter().zip(&r) {
        assert_eq!(rail.chars().count(), 3 * row.0);
    }
    // folding 1-1 hides its children: the next row is not deeper
    let rows = flatten(&devices, &["1-1".to_string()]);
    assert_eq!(rows, vec![(0, 0), (1, 1), (1, 4)]);
}

#[test]
fn demo_follows_its_schedule() {
    for t in 0..60u64 {
        let names: Vec<String> = demo_scan(t).into_iter().map(|d| d.name).collect();
        let s = t % 30;
        assert_eq!(names.contains(&"2-1".to_string()), (6..24).contains(&s), "ssd at {t}");
        assert_eq!(names.contains(&"2-3".to_string()), !(14..20).contains(&s), "webcam at {t}");
        assert!(names.contains(&"1-3.2".to_string()));
        assert_eq!(demo_scan(t), demo_scan(t + 30));
    }
}

#[test]
fn first_urb_sample_is_a_baseline() {
    let devices = vec![dev("1-1", 1, 1), dev("1-2", 2, 2), dev("1-3", 3, 3)];
    let mut m = Metrics::Urb { prev: RateMap::new(), warning: None };
    let out = m.sample(&devices, &Reading::Counters(vec![Some(100), None, Some(7)]));
    assert_eq!(out.get("1-1"), Some(&0));
    assert_eq!(out.get("1-2"), None);
    assert_eq!(out.get("1-3"), Some(&0));
    let out = m.sample(&devices, &Reading::Counters(vec![Some(130), Some(5), Some(3)]));
    assert_eq!(out.get("1-1"), Some(&30));
    assert_eq!(out.get("1-2"), Some(&0)); // first sight
    assert_eq!(out.get("1-3"), Some(&0)); // counter went back
    assert!(!m.is_bytes());
}

#[test]
fn demo_and_usbmon_samples() {
    let mut d1 = dev("1-1", 1, 1);
    d1.devnum = 4;
    let devices = vec![d1, dev("2-1", 2, 2), dev("gadget", 3, 3)];
    let mut m = Metrics::demo();
    let out = m.sample(&devices, &Reading::Rates(vec![0, 9, 3]));
    assert!(matches!(m, Metrics::Demo { tick: 1 }));
    assert_eq!(out.get("1-1"), None); // no traffic, not listed
    assert_eq!(out.get("2-1"), Some(&9));
    assert!(m.is_bytes());
    let mut u = Metrics::UsbMon;
    let out = u.sample(&devices, &Reading::Traffic(vec![((1, 4), 512), ((2, 3), 0)]));
    assert_eq!(out.get("1-1"), Some(&512));
    assert_eq!(out.get("2-1"), Some(&0));
    assert_eq!(out.get("gadget"), None); // no bus number
    assert_eq!(out.len(), 2);
}

#[test]
fn traffic_adds_up_per_address() {
    let mut t = Vec::new();
    add_traffic(&mut t, (1, 2), 8);
    add_traffic(&mut t, (1, 3), 64);
    add_traffic(&mut t, (1, 2), 8);
    assert_eq!(t, vec![((1, 2), 16), ((1, 3), 64)]);
}

#[test]
fn counters_parse_trimmed() {
    assert_eq!(parse_counter("1234\n"), Some(1234));
    assert_eq!(parse_counter("  7 "), Some(7));
    assert_eq!(parse_counter("x"), None);
    assert_eq!(parse_counter("18446744073709551616"), None);
}

#[test]
fn release_version_reads_the_redirect() {
    assert_eq!(
        release_version("https://github.com/o/r/releases/tag/v0.0.7\n").as_deref(),
        Some("0.0.7")
    );
    assert_eq!(release_version("https://github.com/o/r/releases/tag/1.2").as_deref(), Some("1.2"));
    assert_eq!(release_version("https://github.com/o/r/releases"), None);
    assert_eq!(release_version(""), None);
}

#[test]
fn config_files_follow_the_environment() {
    let (base, parts) = ids_cache_path(true, true, true).unwrap();
    assert_eq!(base, ConfigBase::XdgConfigHome);
    assert_eq!(parts, vec!["usbtree".to_string(), "usb.ids".to_string()]);
    let (base, parts) = overrides_path(false, true, true).unwrap();
    assert_eq!(base, ConfigBase::Home);
    assert_eq!(parts, vec![".config", "usbtree", "overrides.ids"]);
    assert_eq!(ids_cache_path(false, false, true).unwrap().0, ConfigBase::AppData);
    assert!(ids_cache_path(false, false, false).is_none());
}

#[test]
fn labels_take_names_in_order() {
    let mut d = dev("1-1", 0x046d, 0xc52b);
    let mut names = NameDb::empty();
    // built-in database
    assert_eq!(d.label(&names), "Unifying Receiver");
    assert_eq!(d.vendor_name(&names), "Logitech, Inc.");
    // a downloaded usb.ids wins over the built-in one
    names.downloaded = Some(parse_usb_ids("046d  Logi\n\tc52b  Receiver (downloaded)\n"));
    assert_eq!(d.label(&names), "Receiver (downloaded)");
    assert_eq!(d.vendor_name(&names), "Logi");
    // the device's own product string wins over both
    d.product = Some("USB Receiver".into());
    assert_eq!(d.label(&names), "USB Receiver");
    // the user's override wins over everything
    let mut overrides = HashMap::new();
    overrides.insert(product_key(0x046d, 0xc52b), "My receiver".to_string());
    names.overrides = overrides;
    assert_eq!(d.label(&names), "My receiver");
    // nothing known: vendor and class, else the ids
    let mut unknown = dev("1-5", 0xfff0, 0xfff1);
    assert_eq!(unknown.label(&NameDb::empty()), "Unknown device fff0:fff1");
    assert_eq!(unknown.vendor_name(&NameDb::empty()), "fff0");
    unknown.manufacturer = Some("Acme".into());
    unknown.class = 0x08;
    assert_eq!(unknown.label(&NameDb::empty()), "Acme Storage");
    assert_eq!(unknown.label_given(&NameDb::empty(), Some("Widget".into()), None), "Widget");
    assert_eq!(unknown.vendor_name_given(&NameDb::empty(), Some("Other".into())), "Acme");
}

#[test]
fn filter_matches_any_human_field() {
    let names = NameDb::empty();
    let d = dev("1-1", 0x046d, 0xc52b);
    assert!(device_matches(&d, "logitech", &names)); // vendor from usb.ids
    assert!(device_matches(&d, "unifying", &names)); // label
    assert!(device_matches(&d, "046d:c5", &names)); // ids
    assert!(device_matches(&d, "1-1", &names)); // sysfs name
    assert!(!device_matches(&d, "LOGITECH", &names)); // the query comes lower-cased
    assert!(!device_matches(&d, "webcam", &names));
}

#[test]
fn interfaces_need_a_valid_descriptor() {
    assert!(parse_interfaces(&[1, 2, 3]).is_empty());
    assert!(parse_interfaces(&[]).is_empty());
    assert!(interfaces_from(None).is_empty());
    let one = interfaces_from(Some((vec![(0, 0, 3, 1, 1)], vec![(0, 0x81, 0x03, 8, 10), (1, 0x02, 0x02, 64, 0)])));
    assert_eq!(one.len(), 1);
    assert_eq!(one[0].endpoints.len(), 1);
    assert!(one[0].endpoints[0].input);
    assert_eq!(one[0].endpoints[0].transfer, 3);
}

#[test]
fn config_power_counts_units() {
    assert_eq!(config_power_ma(50, Some(UsbSpeed::High)), 100);
    assert_eq!(config_power_ma(112, Some(UsbSpeed::Super)), 896);
    assert_eq!(config_power_ma(250, None), 500);
}
