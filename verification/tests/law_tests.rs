use usbtree::demo::demo_scan;
use usbtree::ids::{parse_usb_ids, product_key};
use usbtree::metrics::RateMap;
use usbtree::namemap::NameMap;
use usbtree::session::{
    keep_histories, push_events, record_rates, reselect, selected_name, Hotplug, HISTORY, LOG_CAP,
};
use usbtree::tree::{diff, flatten};
use usbtree::usb::Device;

#[test]
fn demo_names_are_distinct_at_every_second() {
    for t in 0..60u64 {
        let names: Vec<String> = demo_scan(t).into_iter().map(|d| d.name).collect();
        for i in 0..names.len() {
            for j in (i + 1)..names.len() {
                assert_ne!(names[i], names[j], "t = {t}");
            }
        }
    }
}

const IDS: &str = "# header\n\
046d  Logitech, Inc.  \n\
\tc52b  Unifying Receiver \n\
\t\t01  interface line\n\
\n\
\tc077  M105 Optical Mouse\n\
C 03  Human Interface Device\n\
\t01  Boot Interface Subclass\n\
07fd  Mark of the Unicorn\n\
\t000b  M2\n";

#[test]
fn usb_ids_products_sit_under_known_vendors_with_trimmed_names() {
    let db = parse_usb_ids(IDS);
    for k in db.products.keys() {
        assert!(db.vendors.contains_key(&((k >> 16) as u16)), "product {k:08x}");
    }
    for name in db.vendors.values().chain(db.products.values()) {
        assert_eq!(name.trim(), name.as_str());
    }
    assert_eq!(db.vendors[&0x046d], "Logitech, Inc.");
    assert_eq!(db.products[&product_key(0x046d, 0xc52b)], "Unifying Receiver");
    assert_eq!(db.products[&product_key(0x07fd, 0x000b)], "M2");
}

#[test]
fn usb_ids_comment_and_blank_lines_change_nothing() {
    let plain = parse_usb_ids(IDS);
    let noisy = IDS.replace("\tc077", "# note\n\n\t\t02  deeper\n\tc077");
    let db = parse_usb_ids(&noisy);
    assert_eq!(db.vendors, plain.vendors);
    assert_eq!(db.products, plain.products);
}

#[test]
fn usb_ids_class_section_ends_vendor_scope() {
    let db = parse_usb_ids(IDS);
    // "\t01" after "C 03" must not land under Logitech
    assert!(!db.products.contains_key(&product_key(0x046d, 0x0001)));
    assert_eq!(db.products.len(), 3);
    assert_eq!(db.vendors.len(), 2);
}

#[test]
fn folding_removes_exactly_the_rows_inside_folded_subtrees() {
    let devices = demo_scan(10);
    let all = flatten(&devices, &[]);
    for name in ["usb1", "1-3", "usb2"] {
        let collapsed = vec![name.to_string()];
        let mut expected = Vec::new();
        let mut inside: Option<usize> = None;
        for &(depth, i) in &all {
            if let Some(d) = inside {
                if depth > d {
                    continue;
                }
                inside = None;
            }
            expected.push((depth, i));
            if devices[i].name == name {
                inside = Some(depth);
            }
        }
        assert_eq!(flatten(&devices, &collapsed), expected, "folding {name}");
    }
}

fn name_list(ds: &[Device]) -> Vec<String> {
    ds.iter().map(|d| d.name.clone()).collect()
}

#[test]
fn a_rescan_keeps_log_histories_and_selection_in_step() {
    // second 0 -> second 10: the SSD (2-1) appears; second 10 -> 15: the webcam (2-3) leaves
    let before = demo_scan(0);
    let after = demo_scan(10);
    let (added, removed) = diff(&before, &after);
    assert_eq!(name_list(&added.iter().map(|d| (*d).clone()).collect::<Vec<_>>()), vec!["2-1"]);
    assert!(removed.is_empty());

    let log: Vec<usize> = (0..LOG_CAP - 1).collect();
    let log = push_events(log, vec![1000; added.len()], vec![2000; removed.len()]);
    assert_eq!(log.len(), LOG_CAP);
    assert_eq!(log[0], 1000);

    let mut h = Hotplug::new();
    h.record(&added, removed.iter().map(|d| (*d).clone()).collect(), 10_000);
    assert_eq!(h.flash.get("2-1"), Some(&10_000));

    let mut rates = RateMap::new();
    rates.insert("2-1".to_string(), 42);
    let mut hist: NameMap<Vec<u64>> = NameMap::new();
    hist.insert("9-9".to_string(), vec![5; HISTORY]);
    record_rates(&mut hist, &after, &rates);
    keep_histories(&mut hist, &after, &h.ghosts);
    for d in &after {
        let want = if d.name == "2-1" { 42 } else { 0 };
        assert_eq!(hist.get(&d.name).unwrap().last(), Some(&want));
        assert!(hist.get(&d.name).unwrap().len() <= HISTORY);
    }
    assert!(hist.get("9-9").is_none());
    assert_eq!(hist.len(), after.len());

    // the webcam was selected; it leaves and lingers as a ghost row
    let old_rows = flatten(&after, &[]);
    let cam = old_rows.iter().position(|&(_, i)| after[i].name == "2-3").unwrap();
    let name = selected_name(Some(cam), &old_rows, &after);
    let later = demo_scan(15);
    let (back, gone) = diff(&after, &later);
    assert!(back.is_empty());
    h.record(&back, gone.iter().map(|d| (*d).clone()).collect(), 15_000);
    let mut render = later.clone();
    render.extend(h.ghosts.iter().map(|(d, _)| d.clone()));
    let rows = flatten(&render, &[]);
    let sel = reselect(&rows, &render, &name).unwrap();
    assert!(sel < rows.len());
    assert_eq!(render[rows[sel].1].name, "2-3");
    assert_eq!(reselect(&[], &render, &name), None);
}
