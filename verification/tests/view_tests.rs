use usbtree::ids::NameDb;
use usbtree::session::{
    clock, fold, keep_histories, push_events, record_rates, reselect, selected_name, stamp,
    Hotplug, HISTORY, LOG_CAP,
};
use usbtree::metrics::RateMap;
use usbtree::namemap::NameMap;
use usbtree::ui::{
    bus_count, class_hue, click_target, device_copy, device_menu, event_copy, event_menu,
    filter_key, has_traffic, key_action, match_count, menu_rect, opened_filter, row_at,
    scroll_target, tail_layout, tail_pad, vid_pid, Action, ContextMenu, Filter, FilterEffect,
    Focus, Hue, Key, Panes, RateCell, Rect,
};
use usbtree::usb::Device;

fn dev(name: &str, vid: u16, pid: u16) -> Device {
    Device {
        name: name.into(),
        vid,
        pid,
        manufacturer: None,
        product: Some(format!("Product {name}")),
        serial: None,
        speed: "480".into(),
        class: 0x03,
        iface_classes: Vec::new(),
        devnum: 0,
        max_power_ma: None,
        interfaces: Vec::new(),
    }
}

#[test]
fn menu_hit_test_excludes_borders() {
    let m = ContextMenu {
        rect: Rect::new(5, 5, 12, 5), // 3 content rows: y = 6,7,8
        items: vec![(String::new(), String::new(), String::new()); 3],
        hover: 0,
    };
    assert_eq!(m.item_at(6, 6), Some(0)); // first content row
    assert_eq!(m.item_at(6, 8), Some(2)); // last content row
    assert_eq!(m.item_at(6, 5), None); // top border
    assert_eq!(m.item_at(6, 9), None); // bottom border
    assert_eq!(m.item_at(5, 7), None); // left border
    assert_eq!(m.item_at(16, 7), None); // right border (x+width-1)
}

#[test]
fn rect_new_clamps_to_the_screen_edge() {
    let r = Rect::new(65530, 65535, 20, 3);
    assert_eq!((r.width, r.height), (5, 0));
    assert_eq!(r.right(), 65535);
    let r = Rect::new(1, 2, 3, 4);
    assert_eq!((r.right(), r.bottom()), (4, 6));
    assert!(r.contains(1, 2));
    assert!(r.contains(3, 5));
    assert!(!r.contains(4, 5));
    assert!(!r.contains(3, 6));
}

#[test]
fn row_at_skips_borders_and_scrolls() {
    let pane = Rect::new(0, 10, 40, 6); // content rows y = 11..=14
    assert_eq!(row_at(pane, 0, 10, 3, 10), None); // top border
    assert_eq!(row_at(pane, 0, 10, 3, 11), Some(0));
    assert_eq!(row_at(pane, 0, 10, 3, 14), Some(3));
    assert_eq!(row_at(pane, 0, 10, 3, 15), None); // bottom border
    assert_eq!(row_at(pane, 5, 10, 3, 12), Some(6)); // scrolled by 5
    assert_eq!(row_at(pane, 8, 10, 3, 13), None); // past the list
    assert_eq!(row_at(pane, 0, 10, 40, 12), None); // right of the pane
}

#[test]
fn menu_opens_inside_the_screen() {
    let screen = Rect::new(0, 0, 80, 24);
    let d = dev("1-2", 0x046d, 0xc52b);
    let items = device_menu(&d, &NameDb::empty());
    assert_eq!(items.len(), 4);
    // widest label "full details" (12) + 4, four items + 2
    let r = menu_rect(screen, 10, 5, &items);
    assert_eq!(r, Rect { x: 10, y: 5, width: 16, height: 6 });
    let r = menu_rect(screen, 79, 23, &items);
    assert_eq!(r, Rect { x: 64, y: 18, width: 16, height: 6 });
    let ev = event_menu("046d:c52b", "Unifying Receiver");
    let r = menu_rect(screen, 0, 0, &ev);
    assert_eq!((r.width, r.height), (8, 4));
}

#[test]
fn device_menu_lists_ids_name_path_serial_details() {
    let mut d = dev("1-2", 0x046d, 0xc52b);
    d.serial = Some("ABC123".into());
    let items = device_menu(&d, &NameDb::empty());
    let labels: Vec<&str> = items.iter().map(|i| i.0.as_str()).collect();
    assert_eq!(labels, vec!["vid:pid", "name", "sysfs path", "serial", "full details"]);
    assert_eq!(items[0].1, "046d:c52b");
    assert_eq!(items[1].1, "Product 1-2");
    assert_eq!(items[2].1, "1-2");
    assert_eq!(items[3].1, "ABC123");
    assert_eq!(items[4].1, "Product 1-2\n046d:c52b\n1-2\nABC123");
    assert_eq!(items[4].2, "1-2 details");
    let ev = event_menu("046d:c52b", "Unifying Receiver");
    assert_eq!(ev[0], ("id".to_string(), "046d:c52b".to_string(), "event id".to_string()));
    assert_eq!(ev[1].2, "event name");
}

#[test]
fn yank_copies_ids_or_details() {
    let d = dev("3-1.2", 0x0781, 0x558c);
    let names = NameDb::empty();
    assert_eq!(vid_pid(&d), "0781:558c");
    assert_eq!(device_copy(&d, &names, false), ("0781:558c".to_string(), "0781:558c".to_string()));
    assert_eq!(
        device_copy(&d, &names, true),
        ("Product 3-1.2\n0781:558c\n3-1.2".to_string(), "3-1.2 details".to_string())
    );
    assert_eq!(event_copy("a:b", "Cam", true), ("Cam".to_string(), "event name".to_string()));
    assert_eq!(event_copy("a:b", "Cam", false), ("a:b".to_string(), "event id".to_string()));
}

fn panes() -> Panes {
    Panes { focus: Focus::Tree, tree: Some(2), tree_len: 5, log: None, log_len: 3 }
}

#[test]
fn nav_clamps_to_the_list() {
    let mut p = panes();
    p.nav(1);
    assert_eq!(p.tree, Some(3));
    p.nav(10);
    assert_eq!(p.tree, Some(4));
    p.nav(-100);
    assert_eq!(p.tree, Some(0));
    p.nav_to(isize::MAX);
    assert_eq!(p.tree, Some(4));
    p.nav_to(0);
    assert_eq!(p.tree, Some(0));
    let mut empty = Panes { tree: None, tree_len: 0, ..panes() };
    empty.nav(1);
    assert_eq!(empty.tree, None);
}

#[test]
fn focus_parks_events_cursor_on_newest() {
    let mut p = panes();
    p.toggle_focus();
    assert_eq!(p.focus, Focus::Events);
    assert_eq!(p.log, Some(0));
    p.nav(2);
    assert_eq!(p.log, Some(2));
    assert_eq!(p.tree, Some(2)); // tree untouched
    p.toggle_focus();
    assert_eq!(p.focus, Focus::Tree);
    assert_eq!(p.log, None); // snaps back to newest
    let mut quiet = Panes { log_len: 0, ..panes() };
    quiet.set_focus(Focus::Events);
    assert_eq!(quiet.log, None);
    p.select(Focus::Events, 1);
    assert_eq!((p.focus, p.log), (Focus::Events, Some(1)));
}

#[test]
fn clicks_and_wheel_find_their_pane() {
    let tree = Rect::new(0, 0, 40, 10);
    let log = Rect::new(0, 10, 40, 6);
    let p = panes();
    assert_eq!(click_target(tree, 0, log, 0, &p, 5, 2), Some((Focus::Tree, 1)));
    assert_eq!(click_target(tree, 0, log, 0, &p, 5, 12), Some((Focus::Events, 1)));
    assert_eq!(click_target(tree, 0, log, 0, &p, 5, 9), None); // tree's bottom border
    assert_eq!(scroll_target(tree, log, 5, 9), Some(Focus::Tree));
    assert_eq!(scroll_target(tree, log, 5, 15), Some(Focus::Events));
    assert_eq!(scroll_target(tree, log, 50, 5), None);
}

#[test]
fn keys_map_to_actions() {
    assert_eq!(key_action(Key::Char('j'), false, false, false), (Action::Nav(1), true));
    assert_eq!(key_action(Key::Up, false, false, false), (Action::Nav(-1), true));
    assert_eq!(key_action(Key::End, false, false, false), (Action::NavTo(isize::MAX), true));
    assert_eq!(key_action(Key::Char('h'), false, false, false), (Action::Fold(Some(true)), true));
    assert_eq!(key_action(Key::Enter, false, false, false), (Action::Fold(None), true));
    assert_eq!(key_action(Key::Char('Y'), false, false, false), (Action::Yank(true), true));
    assert_eq!(key_action(Key::Char('q'), false, false, false), (Action::Quit, true));
    // Esc closes an open menu and does nothing else, then drops the filter, then quits
    assert_eq!(key_action(Key::Esc, false, true, true), (Action::Nothing, true));
    assert_eq!(key_action(Key::Esc, false, false, true), (Action::ClearFilter, true));
    assert_eq!(key_action(Key::Esc, false, false, false), (Action::Quit, true));
    // while typing a filter every key goes to it and the menu stays
    assert_eq!(key_action(Key::Char('q'), true, true, true), (Action::EditFilter(Key::Char('q')), false));
    assert_eq!(key_action(Key::Char('x'), false, false, false), (Action::Nothing, true));
}

#[test]
fn filter_box_edits_commits_and_drops() {
    let f = Some(Filter { query: "lo".into(), editing: true });
    let (f, e) = filter_key(f, Key::Char('g'));
    assert_eq!(e, FilterEffect::Rebuild);
    assert_eq!(f.as_ref().map(|f| f.query.as_str()), Some("log"));
    let (f, e) = filter_key(f, Key::Backspace);
    assert_eq!(e, FilterEffect::Rebuild);
    assert_eq!(f.as_ref().map(|f| f.query.as_str()), Some("lo"));
    let (f, e) = filter_key(f, Key::Down);
    assert_eq!(e, FilterEffect::Nav(1));
    let (f, _) = filter_key(f, Key::Enter);
    let f = f.unwrap();
    assert!(!f.editing);
    assert_eq!(f.query, "lo");
    let reopened = opened_filter(Some(f));
    assert!(reopened.editing);
    assert_eq!(reopened.query, "lo");
    // Enter on an empty query drops the filter; Esc always does
    let (f, _) = filter_key(Some(Filter { query: String::new(), editing: true }), Key::Enter);
    assert!(f.is_none());
    let (f, _) = filter_key(Some(reopened), Key::Esc);
    assert!(f.is_none());
    let (f, e) = filter_key(None, Key::Tab);
    assert!(f.is_none());
    assert_eq!(e, FilterEffect::Ignore);
    assert_eq!(opened_filter(None).query, "");
}

#[test]
fn row_tail_drops_sparkline_before_rate() {
    assert_eq!(tail_layout(30, true), (true, RateCell::Rate));
    assert_eq!(tail_layout(21, true), (false, RateCell::Rate));
    assert_eq!(tail_layout(10, true), (false, RateCell::Tick));
    assert_eq!(tail_layout(10, false), (false, RateCell::Hidden));
    assert_eq!(tail_pad(50, 30, 10), 10);
    assert_eq!(tail_pad(40, 30, 10), 2);
    assert!(has_traffic(&[5, 0, 0]));
    let mut h = vec![7u64];
    h.extend(std::iter::repeat_n(0, 10));
    assert!(!has_traffic(&h)); // the 7 is older than the sparkline
    assert!(!has_traffic(&[]));
}

#[test]
fn counts_for_header_and_filter_box() {
    let devices = vec![dev("usb1", 0, 0), dev("1-1", 0x046d, 0xc52b), dev("usb2", 0, 0)];
    assert_eq!(bus_count(&devices), 2);
    let rows = vec![(0, 0), (1, 1), (0, 2)];
    let names = NameDb::empty();
    assert_eq!(match_count(&rows, &devices, "USB", &names), 2);
    assert_eq!(match_count(&rows, &devices, "c52b", &names), 1);
    assert_eq!(match_count(&rows, &devices, "nothing-like-this", &names), 0);
}

#[test]
fn classes_have_hues() {
    assert_eq!(class_hue(0x01), Hue::Teal);
    assert_eq!(class_hue(0xe0), Hue::Green);
    assert_eq!(class_hue(0x08), Hue::Yellow);
    assert_eq!(class_hue(0x09), Hue::Sky);
    assert_eq!(class_hue(0xff), Hue::Text);
}

#[test]
fn stamps_pad_minutes_and_seconds() {
    assert_eq!(clock(0), "00:00");
    assert_eq!(clock(65), "01:05");
    assert_eq!(clock(6000), "100:00");
    assert_eq!(stamp(125), "[02:05] ");
}

#[test]
fn log_puts_newest_first_and_caps() {
    let log = push_events(vec![1, 2], vec![10, 11], vec![20, 21]);
    assert_eq!(log, vec![21, 20, 11, 10, 1, 2]);
    let big: Vec<usize> = (0..LOG_CAP).collect();
    let log = push_events(big, vec![999], vec![]);
    assert_eq!(log.len(), LOG_CAP);
    assert_eq!(log[0], 999);
    assert_eq!(log[LOG_CAP - 1], LOG_CAP - 2);
}

#[test]
fn hotplug_highlights_and_ghosts_expire() {
    let mut h = Hotplug::new();
    let cam = dev("2-3", 0x046d, 0x082d);
    let ssd = dev("2-1", 0x0781, 0x558c);
    h.record(&[&ssd], vec![cam.clone()], 1000);
    assert_eq!(h.flash.get("2-1"), Some(&1000));
    assert_eq!(h.ghost_since("2-3"), Some(1000));
    assert_eq!(h.ghosts.len(), 1);
    // the webcam comes back: its ghost goes; the SSD leaves
    h.record(&[&cam], vec![ssd.clone()], 5000);
    assert_eq!(h.ghost_since("2-3"), None);
    assert_eq!(h.ghost_since("2-1"), Some(5000));
    assert_eq!(h.flash.get("2-3"), Some(&5000));
    // 30 s later everything has faded
    h.record(&[], vec![], 35000);
    assert_eq!(h.flash.get("2-1"), None);
    assert_eq!(h.flash.get("2-3"), None);
    assert!(h.ghosts.is_empty());
    // the same device leaving twice keeps a single ghost
    let mut h = Hotplug::new();
    h.record(&[], vec![cam.clone()], 0);
    h.record(&[], vec![cam.clone()], 10);
    assert_eq!(h.ghosts.len(), 1);
    assert_eq!(h.ghost_since("2-3"), Some(10));
}

#[test]
fn history_keeps_the_last_sixty_samples() {
    let devices = vec![dev("1-1", 1, 1), dev("1-2", 2, 2)];
    let mut rates = RateMap::new();
    rates.insert("1-1".to_string(), 7);
    let mut hist: NameMap<Vec<u64>> = NameMap::new();
    for _ in 0..(HISTORY + 5) {
        record_rates(&mut hist, &devices, &rates);
    }
    assert_eq!(hist.get("1-1").unwrap().len(), HISTORY);
    assert_eq!(hist.get("1-1").unwrap().last(), Some(&7));
    assert_eq!(hist.get("1-2").unwrap().last(), Some(&0));
    // only present devices and ghosts keep their history
    let ghosts = vec![(dev("1-2", 2, 2), 0u64)];
    keep_histories(&mut hist, &devices[..1], &ghosts);
    assert!(hist.get("1-1").is_some());
    assert!(hist.get("1-2").is_some());
    keep_histories(&mut hist, &devices[..1], &[]);
    assert!(hist.get("1-2").is_none());
    assert_eq!(hist.len(), 1);
}

#[test]
fn selection_follows_the_device() {
    let old = vec![dev("usb1", 0, 0), dev("1-1", 1, 1), dev("1-2", 2, 2)];
    let rows = vec![(0, 0), (1, 1), (1, 2)];
    let name = selected_name(Some(2), &rows, &old);
    assert_eq!(name.as_deref(), Some("1-2"));
    assert_eq!(selected_name(Some(9), &rows, &old), None);
    // 1-1 left: 1-2 moves up a row and stays selected
    let new = vec![dev("usb1", 0, 0), dev("1-2", 2, 2)];
    let new_rows = vec![(0, 0), (1, 1)];
    assert_eq!(reselect(&new_rows, &new, &name), Some(1));
    // gone entirely: back to the top; nothing to show: no selection
    assert_eq!(reselect(&new_rows, &new, &Some("9-9".to_string())), Some(0));
    assert_eq!(reselect(&[], &new, &name), None);
}

#[test]
fn fold_toggles_only_devices_with_children() {
    let devices = vec![dev("usb1", 0, 0), dev("1-1", 1, 1), dev("1-1.1", 2, 2)];
    let mut collapsed: Vec<String> = Vec::new();
    assert!(fold(&mut collapsed, &devices, "1-1", None));
    assert_eq!(collapsed, vec!["1-1".to_string()]);
    assert!(!fold(&mut collapsed, &devices, "1-1", Some(true))); // already folded
    assert!(fold(&mut collapsed, &devices, "1-1", Some(false)));
    assert!(collapsed.is_empty());
    assert!(!fold(&mut collapsed, &devices, "1-1.1", None)); // a leaf
    assert!(collapsed.is_empty());
}
