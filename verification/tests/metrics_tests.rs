use usbtree::metrics::{
    parse_lockdown_enabled, parse_usbmon, parse_usbmon_bin, unavailable_warning_for, MonBinHdr,
    MetricsWarning, OpenFailure,
};

#[test]
fn usbmon_parse() {
    // completed interrupt IN: counted
    let l = "ffff9c1a 3003687252 C Ii:1:002:1 0:8 8 = 1f000000";
    assert_eq!(parse_usbmon(l), Some(((1, 2), 8)));
    // submitted bulk OUT: counted
    let l = "ffff9c1a 3003687252 S Bo:2:005:2 -115 512 = aa";
    assert_eq!(parse_usbmon(l), Some(((2, 5), 512)));
    // submitted IN (no data moved yet): not counted
    let l = "ffff9c1a 3003687252 S Ii:1:002:1 -115:8 8 <";
    assert_eq!(parse_usbmon(l), None);
    // control setup: skipped
    let l = "ffff9c1a 3003687252 S Co:1:001:0 s 23 01 0010 0002 0000 0";
    assert_eq!(parse_usbmon(l), None);
    assert_eq!(parse_usbmon("garbage"), None);
}

#[test]
fn lockdown_state_parse() {
    assert!(!parse_lockdown_enabled("[none] integrity confidentiality"));
    assert!(parse_lockdown_enabled("none [integrity] confidentiality"));
    assert!(parse_lockdown_enabled("none integrity [confidentiality]"));
    assert!(!parse_lockdown_enabled("none integrity confidentiality"));
}

#[test]
fn root_warning_distinguishes_lockdown_and_unloaded_usbmon() {
    assert_eq!(
        unavailable_warning_for(
            true,
            true,
            OpenFailure::PermissionDenied,
            OpenFailure::NotFound,
        ),
        Some(MetricsWarning::KernelLockdown)
    );
    assert_eq!(
        unavailable_warning_for(false, false, OpenFailure::NotFound, OpenFailure::NotFound),
        None
    );
    assert_eq!(
        unavailable_warning_for(true, false, OpenFailure::NotFound, OpenFailure::NotFound),
        Some(MetricsWarning::LoadUsbMon)
    );
}

#[test]
fn usbmon_binary_parse() {
    let mut h = MonBinHdr {
        type_: b'C',
        epnum: 0x81,
        devnum: 2,
        busnum: 1,
        length: 64,
        ..Default::default()
    };
    assert_eq!(parse_usbmon_bin(&h), Some(((1, 2), 64)));

    h.type_ = b'S';
    h.epnum = 0x02;
    h.devnum = 5;
    h.busnum = 3;
    h.length = 512;
    assert_eq!(parse_usbmon_bin(&h), Some(((3, 5), 512)));

    h.type_ = b'S';
    h.epnum = 0x81;
    assert_eq!(parse_usbmon_bin(&h), None);

    h.type_ = b'C';
    h.epnum = 0x02;
    assert_eq!(parse_usbmon_bin(&h), None);
}
