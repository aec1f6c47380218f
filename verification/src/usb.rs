//! The device model: what a scan yields, how devices are named, classified
//! and arranged into the port tree.
use vstd::prelude::*;
use crate::text::{
    chars_of, dec, find_char, lemma_hex4_injective, first_of, hex4, is_ascii_digit, is_digit, parse_dec_u16,
    parse_dec_u64, parse_u16, parse_u64, push_dec, push_hex4, push_str, rsplit_once,
    rsplit_once_chars, slice_of, split_char, split_on, split_once, split_once_chars, starts_with,
    starts_with_chars, string_of, trim, trim_chars, trim_end_matches, trim_end_matches_chars,
    trim_start_char, trim_start_char_chars, views,
};

verus! {

/// One endpoint descriptor.
#[derive(Debug, Clone, Copy, PartialEq, Eq)]
pub struct Endpoint {
    pub address: u8,
    /// true = IN (device to host), from `bEndpointAddress` bit 7.
    pub input: bool,
    /// transfer type: 0 control, 1 iso, 2 bulk, 3 interrupt.
    pub transfer: u8,
    pub max_packet: u16,
    pub interval: u8,
}

/// One interface alternate setting and its endpoints.
#[derive(Debug, Clone, PartialEq)]
pub struct Interface {
    pub number: u8,
    pub alt: u8,
    pub class: u8,
    pub subclass: u8,
    pub protocol: u8,
    pub endpoints: Vec<Endpoint>,
}

#[derive(Debug, Clone, PartialEq)]
pub struct Device {
    /// tree path, sysfs-style: "usb1" (root hub) or "1-1.4" (bus 1, port 1, port 4)
    pub name: String,
    pub vid: u16,
    pub pid: u16,
    pub manufacturer: Option<String>,
    pub product: Option<String>,
    pub serial: Option<String>,
    pub speed: String,
    pub class: u8,
    /// classes of all interfaces (composite devices describe themselves here)
    pub iface_classes: Vec<u8>,
    /// bus device number, for matching usbmon traffic
    pub devnum: u8,
    /// `bMaxPower`: max current the device requests from the bus, in mA.
    pub max_power_ma: Option<u16>,
    /// Interfaces + endpoints of the first configuration.
    pub interfaces: Vec<Interface>,
}

/// The abstract value of an [`Interface`].
#[verifier::ext_equal]
pub struct InterfaceView {
    pub number: u8,
    pub alt: u8,
    pub class: u8,
    pub subclass: u8,
    pub protocol: u8,
    pub endpoints: Seq<Endpoint>,
}

/// The abstract value of a [`Device`]: its strings as character sequences.
#[verifier::ext_equal]
pub struct DeviceView {
    pub name: Seq<char>,
    pub vid: u16,
    pub pid: u16,
    pub manufacturer: Option<Seq<char>>,
    pub product: Option<Seq<char>>,
    pub serial: Option<Seq<char>>,
    pub speed: Seq<char>,
    pub class: u8,
    pub iface_classes: Seq<u8>,
    pub devnum: u8,
    pub max_power_ma: Option<u16>,
    pub interfaces: Seq<InterfaceView>,
}

impl View for Interface {
    type V = InterfaceView;

    open spec fn view(&self) -> InterfaceView {
        InterfaceView {
            number: self.number,
            alt: self.alt,
            class: self.class,
            subclass: self.subclass,
            protocol: self.protocol,
            endpoints: self.endpoints@,
        }
    }
}

impl View for Device {
    type V = DeviceView;

    open spec fn view(&self) -> DeviceView {
        DeviceView {
            name: self.name@,
            vid: self.vid,
            pid: self.pid,
            manufacturer: self.manufacturer.deep_view(),
            product: self.product.deep_view(),
            serial: self.serial.deep_view(),
            speed: self.speed@,
            class: self.class,
            iface_classes: self.iface_classes@,
            devnum: self.devnum,
            max_power_ma: self.max_power_ma,
            interfaces: self.interfaces@.map_values(|i: Interface| i@),
        }
    }
}

/// The abstract value of each device of a list.
pub open spec fn device_views(ds: Seq<Device>) -> Seq<DeviceView> {
    ds.map_values(|d: Device| d@)
}

// ---------------------------------------------------------------------------
// Names in the port tree

pub open spec fn usb_prefix() -> Seq<char> {
    seq!['u', 's', 'b']
}

/// Root hubs are named "usbN".
pub open spec fn is_root_name(n: Seq<char>) -> bool {
    starts_with(n, usb_prefix())
}

/// The sysfs name of the parent: "1-1.4.2" -> "1-1.4", "1-1" -> "usb1";
/// root hubs and names without a '-' have none.
pub open spec fn parent_of(n: Seq<char>) -> Option<Seq<char>> {
    if is_root_name(n) {
        None
    } else {
        match split_once(n, '-') {
            None => None,
            Some((bus, path)) => match rsplit_once(path, '.') {
                Some((rest, _)) => Some(bus + seq!['-'] + rest),
                None => Some(usb_prefix() + bus),
            },
        }
    }
}

/// The text before the first `c` (the first item of `str::split`).
pub open spec fn first_field(n: Seq<char>, c: char) -> Seq<char> {
    match first_of(n, c) {
        Some(i) => n.take(i),
        None => n,
    }
}

/// The bus number in a sysfs name: "usb1" or "1-1.4" -> 1.
pub open spec fn busnum_of(n: Seq<char>) -> Option<int> {
    if is_root_name(n) {
        parse_u16(n.skip(3))
    } else {
        parse_u16(first_field(n, '-'))
    }
}

/// The identity of a device for hot-plug diffing: "name vvvv:pppp".
pub open spec fn key_of(d: DeviceView) -> Seq<char> {
    d.name + seq![' '] + hex4(d.vid) + seq![':'] + hex4(d.pid)
}

pub fn usb_chars() -> (v: Vec<char>)
    ensures
        v@ == usb_prefix(),
{
    let v = vec!['u', 's', 'b'];
    assert(v@ =~= usb_prefix());
    v
}

pub fn is_root_chars(n: &[char]) -> (b: bool)
    ensures
        b == is_root_name(n@),
{
    let p = usb_chars();
    starts_with_chars(n, p.as_slice())
}

/// `parent_of` over characters.
pub fn parent_chars(n: &[char]) -> (r: Option<Vec<char>>)
    ensures
        match r {
            Some(p) => parent_of(n@) == Some(p@),
            None => parent_of(n@) is None,
        },
{
    if is_root_chars(n) {
        return None;
    }
    match split_once_chars(n, '-') {
        None => None,
        Some((bus, path)) => match rsplit_once_chars(path.as_slice(), '.') {
            Some((rest, _)) => {
                let mut p = bus;
                p.push('-');
                let mut i: usize = 0;
                let ghost p0 = p@;
                while i < rest.len()
                    invariant
                        i <= rest.len(),
                        p@ == p0 + rest@.take(i as int),
                    decreases rest.len() - i,
                {
                    p.push(rest[i]);
                    i = i + 1;
                    assert(rest@.take(i as int) =~= rest@.take(i - 1).push(rest@[i - 1]));
                }
                assert(rest@.take(rest.len() as int) =~= rest@);
                assert(p0 =~= bus@ + seq!['-']);
                Some(p)
            },
            None => {
                let mut p = usb_chars();
                let mut i: usize = 0;
                while i < bus.len()
                    invariant
                        i <= bus.len(),
                        p@ == usb_prefix() + bus@.take(i as int),
                    decreases bus.len() - i,
                {
                    p.push(bus[i]);
                    i = i + 1;
                    assert(bus@.take(i as int) =~= bus@.take(i - 1).push(bus@[i - 1]));
                }
                assert(bus@.take(bus.len() as int) =~= bus@);
                Some(p)
            },
        },
    }
}

// ---------------------------------------------------------------------------
// Classes

/// Interface classes in the order in which they classify a composite device.
pub open spec fn class_priority() -> Seq<u8> {
    seq![0x0e, 0x01, 0x10, 0x08, 0x07, 0x06, 0x03, 0xe0, 0x02, 0x0b, 0x0d]
}

/// The first class of `pri` that `ifaces` holds.
pub open spec fn first_present(pri: Seq<u8>, ifaces: Seq<u8>) -> Option<u8>
    decreases pri.len(),
{
    if pri.len() == 0 {
        None
    } else if ifaces.contains(pri[0]) {
        Some(pri[0])
    } else {
        first_present(pri.drop_first(), ifaces)
    }
}

/// Device class; composite (0x00) and IAD/Misc (0xef) devices are
/// classified by their most meaningful interface class instead.
pub open spec fn effective_class_of(class: u8, ifaces: Seq<u8>) -> u8 {
    if class != 0 && class != 0xef {
        class
    } else {
        match first_present(class_priority(), ifaces) {
            Some(c) => c,
            None => if ifaces.len() > 0 {
                ifaces[0]
            } else {
                class
            },
        }
    }
}

/// The short name shown for a device class.
pub open spec fn class_label(class: u8) -> &'static str {
    match class {
        0x01 => "Audio",
        0x02 => "Comm",
        0x03 => "HID",
        0x05 => "Physical",
        0x06 => "Imaging",
        0x07 => "Printer",
        0x08 => "Storage",
        0x09 => "Hub",
        0x0a => "CDC-Data",
        0x0b => "Smart Card",
        0x0d => "Security",
        0x0e => "Video",
        0x0f => "Health",
        0x10 => "AV",
        0xdc => "Diagnostic",
        0xe0 => "Wireless",
        0xef => "Misc",
        0xfe => "App-specific",
        0xff => "Vendor-specific",
        _ => "Device",
    }
}

pub fn class_name(class: u8) -> (r: &'static str)
    ensures
        r == class_label(class),
{
    match class {
        0x01 => "Audio",
        0x02 => "Comm",
        0x03 => "HID",
        0x05 => "Physical",
        0x06 => "Imaging",
        0x07 => "Printer",
        0x08 => "Storage",
        0x09 => "Hub",
        0x0a => "CDC-Data",
        0x0b => "Smart Card",
        0x0d => "Security",
        0x0e => "Video",
        0x0f => "Health",
        0x10 => "AV",
        0xdc => "Diagnostic",
        0xe0 => "Wireless",
        0xef => "Misc",
        0xfe => "App-specific",
        0xff => "Vendor-specific",
        _ => "Device",
    }
}

/// The icon shown for a device class (root hubs have their own).
pub open spec fn class_icon(class: u8) -> &'static str {
    match class {
        0x01 => "\u{1f50a}",
        0x02 | 0x0a => "\u{1f4e1}",
        0x03 => "\u{2328}\u{fe0f}",
        0x06 => "\u{1f4f7}",
        0x07 => "\u{1f5a8}\u{fe0f}",
        0x08 => "\u{1f4be}",
        0x09 => "\u{1f50c}",
        0x0b => "\u{1f4b3}",
        0x0d => "\u{1f512}",
        0x0e => "\u{1f3a5}",
        0x10 => "\u{1f3ac}",
        0xe0 => "\u{1f4f6}",
        _ => "\u{1f539}",
    }
}

pub open spec fn root_icon() -> &'static str {
    "\u{1f5a5}\u{fe0f}"
}

fn contains_u8(v: &Vec<u8>, x: u8) -> (b: bool)
    ensures
        b == v@.contains(x),
{
    let mut i: usize = 0;
    while i < v.len()
        invariant
            i <= v.len(),
            forall|k: int| 0 <= k < i ==> v@[k] != x,
        decreases v.len() - i,
    {
        if v[i] == x {
            return true;
        }
        i = i + 1;
    }
    false
}

impl Device {
    pub fn is_root_hub(&self) -> (r: bool)
        ensures
            r == is_root_name(self.name@),
    {
        let n = chars_of(self.name.as_str());
        is_root_chars(n.as_slice())
    }

    /// Device class; composite (0x00) and IAD/Misc (0xef) devices are
    /// classified by their most meaningful interface class instead —
    /// e.g. a MOTU M2 reports 0xef at device level but Audio interfaces.
    pub fn effective_class(&self) -> (c: u8)
        ensures
            c == effective_class_of(self.class, self.iface_classes@),
    {
        if self.class != 0 && self.class != 0xef {
            return self.class;
        }
        let priority: Vec<u8> = vec![0x0e, 0x01, 0x10, 0x08, 0x07, 0x06, 0x03, 0xe0, 0x02, 0x0b, 0x0d];
        assert(priority@ =~= class_priority());
        assert(priority@.skip(0) =~= priority@);
        let mut i: usize = 0;
        while i < priority.len()
            invariant
                i <= priority.len(),
                self.class == 0 || self.class == 0xef,
                priority@ == class_priority(),
                first_present(class_priority(), self.iface_classes@) == first_present(
                    priority@.skip(i as int),
                    self.iface_classes@,
                ),
            decreases priority.len() - i,
        {
            let c = priority[i];
            assert(priority@.skip(i as int).drop_first() =~= priority@.skip(i + 1));
            assert(priority@.skip(i as int)[0] == c);
            if contains_u8(&self.iface_classes, c) {
                return c;
            }
            i = i + 1;
        }
        assert(priority@.skip(i as int).len() == 0);
        if self.iface_classes.len() > 0 {
            self.iface_classes[0]
        } else {
            self.class
        }
    }

    pub fn class_name(&self) -> (r: &'static str)
        ensures
            r == class_label(effective_class_of(self.class, self.iface_classes@)),
    {
        class_name(self.effective_class())
    }

    pub fn icon(&self) -> (r: &'static str)
        ensures
            r == (if is_root_name(self.name@) {
                root_icon()
            } else {
                class_icon(effective_class_of(self.class, self.iface_classes@))
            }),
    {
        if self.is_root_hub() {
            return "\u{1f5a5}\u{fe0f}";
        }
        match self.effective_class() {
            0x01 => "\u{1f50a}",
            0x02 | 0x0a => "\u{1f4e1}",
            0x03 => "\u{2328}\u{fe0f}",
            0x06 => "\u{1f4f7}",
            0x07 => "\u{1f5a8}\u{fe0f}",
            0x08 => "\u{1f4be}",
            0x09 => "\u{1f50c}",
            0x0b => "\u{1f4b3}",
            0x0d => "\u{1f512}",
            0x0e => "\u{1f3a5}",
            0x10 => "\u{1f3ac}",
            0xe0 => "\u{1f4f6}",
            _ => "\u{1f539}",
        }
    }

    /// Bus number parsed from the sysfs name: "usb1" or "1-1.4" -> 1.
    pub fn busnum(&self) -> (r: Option<u16>)
        ensures
            match r {
                Some(b) => busnum_of(self.name@) == Some(b as int),
                None => busnum_of(self.name@) is None,
            },
    {
        let n = chars_of(self.name.as_str());
        if is_root_chars(n.as_slice()) {
            let rest = slice_of(n.as_slice(), 3, n.len());
            assert(rest@ =~= n@.skip(3));
            parse_dec_u16(rest.as_slice())
        } else {
            let field = match find_char(n.as_slice(), '-') {
                Some(i) => slice_of(n.as_slice(), 0, i),
                None => n,
            };
            parse_dec_u16(field.as_slice())
        }
    }

    /// Identity key for hot-plug diffing.
    pub fn key(&self) -> (k: String)
        ensures
            k@ == key_of(self@),
    {
        let mut k = self.name.clone();
        k.push(' ');
        push_hex4(&mut k, self.vid);
        k.push(':');
        push_hex4(&mut k, self.pid);
        k
    }

    /// sysfs name of the parent device: "1-1.4.2" -> "1-1.4", "1-1" -> "usb1".
    pub fn parent_name(&self) -> (r: Option<String>)
        ensures
            r.deep_view() == parent_of(self.name@),
    {
        let n = chars_of(self.name.as_str());
        match parent_chars(n.as_slice()) {
            Some(p) => Some(string_of(p.as_slice())),
            None => None,
        }
    }
}


// ---------------------------------------------------------------------------
// Building devices from an enumeration

/// "001" (zero-padded on Linux) -> "1"; ids whose zeros are significant
/// ("0abc") stay as they are.
pub open spec fn tidy_bus_of(id: Seq<char>) -> Seq<char> {
    let t = trim_start_char(id, '0');
    if t.len() == 0 && id.len() != 0 {
        seq!['0']
    } else if t.len() != id.len() && !(t.len() > 0 && is_digit(t[0])) {
        id
    } else {
        t
    }
}

pub fn tidy_bus(id: &str) -> (r: String)
    ensures
        r@ == tidy_bus_of(id@),
{
    let cs = chars_of(id);
    let t = trim_start_char_chars(cs.as_slice(), '0');
    if t.len() == 0 && cs.len() != 0 {
        let z = vec!['0'];
        assert(z@ =~= seq!['0']);
        string_of(z.as_slice())
    } else if t.len() != cs.len() && !(t.len() > 0 && is_ascii_digit(t[0])) {
        string_of(cs.as_slice())
    } else {
        string_of(t.as_slice())
    }
}

/// The port chain written as in sysfs: "1.4.2".
pub open spec fn port_path(chain: Seq<u8>) -> Seq<char>
    decreases chain.len(),
{
    if chain.len() == 0 {
        seq![]
    } else if chain.len() == 1 {
        dec(chain[0] as nat)
    } else {
        port_path(chain.drop_last()) + seq!['.'] + dec(chain.last() as nat)
    }
}

/// The sysfs-style name of a root hub: "usb" and the tidied bus id.
pub open spec fn root_name_of(bus_id: Seq<char>) -> Seq<char> {
    usb_prefix() + tidy_bus_of(bus_id)
}

/// The sysfs-style name of a device below a root hub: "1-1.4".
pub open spec fn port_name_of(bus_id: Seq<char>, chain: Seq<u8>) -> Seq<char> {
    tidy_bus_of(bus_id) + seq!['-'] + port_path(chain)
}

pub fn port_name(bus_id: &str, chain: &[u8]) -> (r: String)
    ensures
        r@ == port_name_of(bus_id@, chain@),
{
    let mut r = tidy_bus(bus_id);
    r.push('-');
    let ghost head = r@;
    let mut i: usize = 0;
    assert(chain@.take(0) =~= seq![]);
    while i < chain.len()
        invariant
            i <= chain.len(),
            r@ == head + port_path(chain@.take(i as int)),
        decreases chain.len() - i,
    {
        let ghost before = r@;
        if i > 0 {
            r.push('.');
        }
        push_dec(&mut r, chain[i] as u64);
        i = i + 1;
        let ghost t = chain@.take(i as int);
        assert(t.drop_last() =~= chain@.take(i - 1));
        if i == 1 {
            assert(chain@.take(0) =~= seq![]);
            assert(r@ =~= head + port_path(t));
        } else {
            assert(r@ =~= head + port_path(t));
        }
    }
    assert(chain@.take(chain.len() as int) =~= chain@);
    r
}

/// Bus speed of a device as the enumeration reports it.
#[derive(Debug, Clone, Copy, PartialEq, Eq)]
pub enum UsbSpeed {
    Low,
    Full,
    High,
    Super,
    SuperPlus,
    Unknown,
}

/// The speed in Mbps as shown in the tree ("" when unknown).
pub open spec fn speed_label(s: UsbSpeed) -> &'static str {
    match s {
        UsbSpeed::Low => "1.5",
        UsbSpeed::Full => "12",
        UsbSpeed::High => "480",
        UsbSpeed::Super => "5000",
        UsbSpeed::SuperPlus => "10000",
        UsbSpeed::Unknown => "",
    }
}

pub fn speed_mbps(s: UsbSpeed) -> (r: &'static str)
    ensures
        r == speed_label(s),
{
    match s {
        UsbSpeed::Low => "1.5",
        UsbSpeed::Full => "12",
        UsbSpeed::High => "480",
        UsbSpeed::Super => "5000",
        UsbSpeed::SuperPlus => "10000",
        UsbSpeed::Unknown => "",
    }
}

/// The non-zero classes of `cs`, in order.
pub open spec fn nonzero_classes(cs: Seq<u8>) -> Seq<u8>
    decreases cs.len(),
{
    if cs.len() == 0 {
        seq![]
    } else {
        let rest = nonzero_classes(cs.drop_last());
        if cs.last() != 0 {
            rest.push(cs.last())
        } else {
            rest
        }
    }
}

fn keep_nonzero(cs: &[u8]) -> (r: Vec<u8>)
    ensures
        r@ == nonzero_classes(cs@),
{
    let mut r: Vec<u8> = Vec::new();
    let mut i: usize = 0;
    while i < cs.len()
        invariant
            i <= cs.len(),
            r@ == nonzero_classes(cs@.take(i as int)),
        decreases cs.len() - i,
    {
        assert(cs@.take(i + 1).drop_last() =~= cs@.take(i as int));
        if cs[i] != 0 {
            r.push(cs[i]);
        }
        i = i + 1;
    }
    assert(cs@.take(cs.len() as int) =~= cs@);
    r
}

/// A root hub as synthesized from the bus list: named after the bus,
/// described by the system's name for it ("Bus N" without one), always
/// device 1 of its bus.
pub fn root_hub_device(bus_id: &str, driver: Option<String>, system_name: Option<String>) -> (d:
    Device)
    ensures
        d@.name == root_name_of(bus_id@),
        d@.vid == 0 && d@.pid == 0,
        d@.manufacturer == driver.deep_view(),
        d@.product == Some(
            match system_name {
                Some(n) => n@,
                None => seq!['B', 'u', 's', ' '] + bus_id@,
            },
        ),
        d@.serial is None,
        d@.speed == Seq::<char>::empty(),
        d@.class == 0x09,
        d@.iface_classes == Seq::<u8>::empty(),
        d@.devnum == 1,
        d@.max_power_ma is None,
        d@.interfaces == Seq::<InterfaceView>::empty(),
{
    let mut name = String::new();
    name.push('u');
    name.push('s');
    name.push('b');
    let t = tidy_bus(bus_id);
    push_str(&mut name, t.as_str());
    assert(name@ =~= root_name_of(bus_id@));
    let product = match system_name {
        Some(n) => n,
        None => {
            let mut p = String::new();
            p.push('B');
            p.push('u');
            p.push('s');
            p.push(' ');
            push_str(&mut p, bus_id);
            assert(p@ =~= seq!['B', 'u', 's', ' '] + bus_id@);
            p
        },
    };
    let d = Device {
        name,
        vid: 0,
        pid: 0,
        manufacturer: driver,
        product: Some(product),
        serial: None,
        speed: String::new(),
        class: 0x09,
        iface_classes: Vec::new(),
        devnum: 1,
        max_power_ma: None,
        interfaces: Vec::new(),
    };
    assert(d@.interfaces =~= Seq::<InterfaceView>::empty());
    d
}

/// What an enumeration reports of a bus.
pub struct BusInfo {
    pub bus_id: String,
    pub driver: Option<String>,
    pub system_name: Option<String>,
}

/// The root hub device synthesized for a bus.
pub open spec fn root_view_of(b: BusInfo) -> DeviceView {
    DeviceView {
        name: root_name_of(b.bus_id@),
        vid: 0,
        pid: 0,
        manufacturer: b.driver.deep_view(),
        product: Some(
            match b.system_name {
                Some(n) => n@,
                None => seq!['B', 'u', 's', ' '] + b.bus_id@,
            },
        ),
        serial: None,
        speed: Seq::<char>::empty(),
        class: 0x09,
        iface_classes: Seq::<u8>::empty(),
        devnum: 1,
        max_power_ma: None,
        interfaces: Seq::<InterfaceView>::empty(),
    }
}

/// What an enumeration reports of a device below a root hub.
pub struct PortInfo {
    pub bus_id: String,
    pub port_chain: Vec<u8>,
    pub vendor_id: u16,
    pub product_id: u16,
    pub manufacturer: Option<String>,
    pub product: Option<String>,
    pub serial: Option<String>,
    pub speed: Option<UsbSpeed>,
    pub class: u8,
    pub interface_classes: Vec<u8>,
    pub address: u8,
    pub max_power_ma: Option<u16>,
    pub interfaces: Vec<Interface>,
}

/// The device that a port reports.
pub open spec fn port_view_of(info: PortInfo) -> DeviceView {
    DeviceView {
        name: port_name_of(info.bus_id@, info.port_chain@),
        vid: info.vendor_id,
        pid: info.product_id,
        manufacturer: info.manufacturer.deep_view(),
        product: info.product.deep_view(),
        serial: info.serial.deep_view(),
        speed: match info.speed {
            Some(s) => speed_label(s)@,
            None => Seq::<char>::empty(),
        },
        class: info.class,
        iface_classes: nonzero_classes(info.interface_classes@),
        devnum: info.address,
        max_power_ma: info.max_power_ma,
        interfaces: info.interfaces@.map_values(|i: Interface| i@),
    }
}

/// A device below a root hub, named by its port chain; interfaces of class
/// 0 do not count towards its interface classes.
pub fn port_device(info: PortInfo) -> (d: Device)
    ensures
        d@.name == port_name_of(info.bus_id@, info.port_chain@),
        d@.vid == info.vendor_id && d@.pid == info.product_id,
        d@.manufacturer == info.manufacturer.deep_view(),
        d@.product == info.product.deep_view(),
        d@.serial == info.serial.deep_view(),
        d@.speed == (match info.speed {
            Some(s) => speed_label(s)@,
            None => Seq::<char>::empty(),
        }),
        d@.class == info.class,
        d@.iface_classes == nonzero_classes(info.interface_classes@),
        d@.devnum == info.address,
        d@.max_power_ma == info.max_power_ma,
        d.interfaces@ == info.interfaces@,
{
    let name = port_name(info.bus_id.as_str(), info.port_chain.as_slice());
    let speed = match info.speed {
        Some(s) => {
            let mut t = String::new();
            push_str(&mut t, speed_mbps(s));
            t
        },
        None => String::new(),
    };
    let classes = keep_nonzero(info.interface_classes.as_slice());
    Device {
        name,
        vid: info.vendor_id,
        pid: info.product_id,
        manufacturer: info.manufacturer,
        product: info.product,
        serial: info.serial,
        speed,
        class: info.class,
        iface_classes: classes,
        devnum: info.address,
        max_power_ma: info.max_power_ma,
        interfaces: info.interfaces,
    }
}

// ---------------------------------------------------------------------------
// Small parsers

/// A sysfs `bMaxPower` value like "500mA" -> 500.
pub open spec fn max_power_of(s: Seq<char>) -> Option<int> {
    parse_u16(trim(trim_end_matches(trim(s), seq!['m', 'A'])))
}

pub fn parse_max_power(s: &str) -> (r: Option<u16>)
    ensures
        match r {
            Some(v) => max_power_of(s@) == Some(v as int),
            None => max_power_of(s@) is None,
        },
{
    let cs = chars_of(s);
    let t = trim_chars(cs.as_slice());
    let ma = vec!['m', 'A'];
    assert(ma@ =~= seq!['m', 'A']);
    let u = trim_end_matches_chars(t.as_slice(), ma.as_slice());
    let v = trim_chars(u.as_slice());
    parse_dec_u16(v.as_slice())
}

/// `bMaxPower` of a configuration descriptor in mA: the raw byte counts
/// units of 8 mA at SuperSpeed and above, 2 mA below.
pub open spec fn power_ma_of(raw: u8, speed: Option<UsbSpeed>) -> int {
    match speed {
        Some(UsbSpeed::Super) | Some(UsbSpeed::SuperPlus) => raw * 8,
        _ => raw * 2,
    }
}

pub fn config_power_ma(raw: u8, speed: Option<UsbSpeed>) -> (r: u16)
    ensures
        r == power_ma_of(raw, speed),
{
    let unit: u16 = match speed {
        Some(UsbSpeed::Super) | Some(UsbSpeed::SuperPlus) => 8,
        _ => 2,
    };
    raw as u16 * unit
}

/// A version component: its number, or 0 when it is not one.
pub open spec fn part_num(p: Seq<char>) -> u64 {
    match parse_u64(p) {
        Some(v) => v as u64,
        None => 0,
    }
}

/// The numeric components of a dotted version.
pub open spec fn version_parts(s: Seq<char>) -> Seq<u64> {
    split_on(s, '.').map_values(|p: Seq<char>| part_num(p))
}

/// Component `i` of a version; missing components count as 0.
pub open spec fn part_at(v: Seq<u64>, i: int) -> u64 {
    if 0 <= i < v.len() {
        v[i]
    } else {
        0
    }
}

/// `l` is greater than `c` in the first component, from `i` on, where they
/// differ.
pub open spec fn newer_from(l: Seq<u64>, c: Seq<u64>, i: int) -> bool
    decreases l.len() + c.len() - i,
{
    if i < 0 || (i >= l.len() && i >= c.len()) {
        false
    } else if part_at(l, i) != part_at(c, i) {
        part_at(l, i) > part_at(c, i)
    } else {
        newer_from(l, c, i + 1)
    }
}

/// Release `latest` is strictly newer than `current` by numeric
/// major.minor.patch; non-numeric or missing parts count as 0.
pub open spec fn newer_version(latest: Seq<char>, current: Seq<char>) -> bool {
    newer_from(version_parts(latest), version_parts(current), 0)
}

fn version_numbers(s: &str) -> (v: Vec<u64>)
    ensures
        v@ == version_parts(s@),
{
    let cs = chars_of(s);
    let parts = split_char(cs.as_slice(), '.');
    let mut v: Vec<u64> = Vec::new();
    let mut i: usize = 0;
    while i < parts.len()
        invariant
            i <= parts.len(),
            views(parts@) == split_on(s@, '.'),
            v@ == views(parts@).take(i as int).map_values(|p: Seq<char>| part_num(p)),
        decreases parts.len() - i,
    {
        let n = match parse_dec_u64(parts[i].as_slice()) {
            Some(n) => n,
            None => 0,
        };
        assert(views(parts@)[i as int] == parts@[i as int]@);
        v.push(n);
        i = i + 1;
        assert(v@ =~= views(parts@).take(i as int).map_values(|p: Seq<char>| part_num(p)));
    }
    assert(views(parts@).take(parts.len() as int) =~= views(parts@));
    v
}

/// The version that the final URL of a `releases/latest` redirect names:
/// its last path segment without a leading `v`, if it starts with a digit
/// (without a release the redirect ends on `.../releases`).
pub open spec fn release_version_of(url: Seq<char>) -> Option<Seq<char>> {
    let t = trim(url);
    let seg = match rsplit_once(t, '/') {
        Some((_, s)) => s,
        None => t,
    };
    let ver = if seg.len() > 0 && seg[0] == 'v' {
        seg.drop_first()
    } else {
        seg
    };
    if ver.len() > 0 && is_digit(ver[0]) {
        Some(ver)
    } else {
        None
    }
}

/// The newest release's version, read off the final redirect URL.
pub fn release_version(url: &str) -> (r: Option<String>)
    ensures
        match r {
            Some(v) => release_version_of(url@) == Some(v@),
            None => release_version_of(url@) is None,
        },
{
    let cs = chars_of(url);
    let t = trim_chars(cs.as_slice());
    let seg = match rsplit_once_chars(t.as_slice(), '/') {
        Some((_, s)) => s,
        None => t,
    };
    let ver = if seg.len() > 0 && seg[0] == 'v' {
        slice_of(seg.as_slice(), 1, seg.len())
    } else {
        seg
    };
    proof {
        if seg.len() > 0 && seg@[0] == 'v' {
            assert(seg@.subrange(1, seg@.len() as int) =~= seg@.drop_first());
        }
    }
    if ver.len() > 0 && is_ascii_digit(ver[0]) {
        Some(string_of(ver.as_slice()))
    } else {
        None
    }
}

/// True if release `latest` is strictly newer than `current` by numeric
/// major.minor.patch. Non-numeric or missing parts count as 0.
pub fn is_newer(latest: &str, current: &str) -> (b: bool)
    ensures
        b == newer_version(latest@, current@),
{
    let l = version_numbers(latest);
    let c = version_numbers(current);
    let n = if l.len() > c.len() {
        l.len()
    } else {
        c.len()
    };
    let mut i: usize = 0;
    while i < n
        invariant
            n == if l.len() > c.len() {
                l.len()
            } else {
                c.len()
            },
            i <= n,
            l@ == version_parts(latest@),
            c@ == version_parts(current@),
            newer_from(l@, c@, 0) == newer_from(l@, c@, i as int),
        decreases n - i,
    {
        let a = if i < l.len() {
            l[i]
        } else {
            0
        };
        let b = if i < c.len() {
            c[i]
        } else {
            0
        };
        if a != b {
            return a > b;
        }
        i = i + 1;
    }
    false
}

/// No version is newer than itself.
pub proof fn lemma_newer_irreflexive(v: Seq<char>)
    ensures
        !newer_version(v, v),
{
    lemma_newer_from_irreflexive(version_parts(v), 0);
}

proof fn lemma_newer_from_irreflexive(p: Seq<u64>, i: int)
    ensures
        !newer_from(p, p, i),
    decreases p.len() + p.len() - i,
{
    if !(i < 0 || i >= p.len()) {
        lemma_newer_from_irreflexive(p, i + 1);
    }
}

/// Of two versions, at most one is newer than the other.
pub proof fn lemma_newer_asymmetric(a: Seq<char>, b: Seq<char>)
    ensures
        newer_version(a, b) ==> !newer_version(b, a),
{
    lemma_newer_from_asymmetric(version_parts(a), version_parts(b), 0);
}

proof fn lemma_newer_from_asymmetric(l: Seq<u64>, c: Seq<u64>, i: int)
    ensures
        newer_from(l, c, i) ==> !newer_from(c, l, i),
    decreases l.len() + c.len() - i,
{
    if !(i < 0 || (i >= l.len() && i >= c.len())) && part_at(l, i) == part_at(c, i) {
        lemma_newer_from_asymmetric(l, c, i + 1);
    }
}


/// Being newer is transitive: versions compare as a strict order.
pub proof fn lemma_newer_transitive(a: Seq<char>, b: Seq<char>, c: Seq<char>)
    ensures
        newer_version(a, b) && newer_version(b, c) ==> newer_version(a, c),
{
    if newer_version(a, b) && newer_version(b, c) {
        lemma_newer_from_transitive(version_parts(a), version_parts(b), version_parts(c), 0);
    }
}

proof fn lemma_newer_from_transitive(a: Seq<u64>, b: Seq<u64>, c: Seq<u64>, i: int)
    requires
        i >= 0,
        newer_from(a, b, i),
        newer_from(b, c, i),
    ensures
        newer_from(a, c, i),
    decreases a.len() + b.len() + c.len() - i,
{
    if part_at(a, i) == part_at(b, i) && part_at(b, i) == part_at(c, i) {
        lemma_newer_from_transitive(a, b, c, i + 1);
    }
}

/// Two devices have the same hot-plug key exactly when they have the same
/// name, vendor id and product id.
pub proof fn lemma_key_identifies(a: DeviceView, b: DeviceView)
    ensures
        key_of(a) == key_of(b) <==> (a.name == b.name && a.vid == b.vid && a.pid == b.pid),
{
    let ka = key_of(a);
    let kb = key_of(b);
    if ka == kb {
        let n = a.name.len() as int;
        assert(ka.len() == n + 10);
        assert(b.name.len() == n);
        assert(a.name =~= ka.take(n as int));
        assert(b.name =~= kb.take(n as int));
        assert(hex4(a.vid) =~= ka.subrange(n + 1, n + 5));
        assert(hex4(b.vid) =~= kb.subrange(n + 1, n + 5));
        assert(hex4(a.pid) =~= ka.subrange(n + 6, n + 10));
        assert(hex4(b.pid) =~= kb.subrange(n + 6, n + 10));
        lemma_hex4_injective(a.vid, b.vid);
        lemma_hex4_injective(a.pid, b.pid);
    }
}

/// A composite or Misc device with interfaces is classified by one of its
/// interface classes; any other device keeps its own class.
pub proof fn lemma_effective_class_from_interfaces(class: u8, ifaces: Seq<u8>)
    ensures
        (class == 0 || class == 0xef) && ifaces.len() > 0 ==> ifaces.contains(
            effective_class_of(class, ifaces),
        ),
        class != 0 && class != 0xef ==> effective_class_of(class, ifaces) == class,
{
    lemma_first_present_contained(class_priority(), ifaces);
}

proof fn lemma_first_present_contained(pri: Seq<u8>, ifaces: Seq<u8>)
    ensures
        first_present(pri, ifaces) matches Some(c) ==> ifaces.contains(c),
    decreases pri.len(),
{
    if pri.len() > 0 && !ifaces.contains(pri[0]) {
        lemma_first_present_contained(pri.drop_first(), ifaces);
    }
}

} // verus!
