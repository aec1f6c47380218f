//! Live per-device activity: the decisions behind the rates shown per
//! device, and the parsers of what the kernel reports (usbmon text lines,
//! usbmon binary headers, the lockdown state).
use vstd::prelude::*;
use crate::text::{
    chars_eq, chars_of, parse_dec_u16, parse_dec_u64, parse_u16, parse_u64, split_char,
    lemma_parse_unsigned_range,
    split_on, split_whitespace, trim, trim_chars, views, words,
};
use crate::namemap::NameMap;
use crate::usb::{busnum_of, Device, DeviceView};

verus! {

// ---------------------------------------------------------------------------
// Per-device rates

/// Rates keyed by device name.
pub type RateMap = NameMap<u64>;

/// The value of a sysfs counter file such as `urbnum`: its trimmed text as
/// a `u64`.
pub fn parse_counter(s: &str) -> (r: Option<u64>)
    ensures
        match r {
            Some(v) => parse_u64(trim(s@)) == Some(v as int),
            None => parse_u64(trim(s@)) is None,
        },
{
    let cs = chars_of(s);
    let t = trim_chars(cs.as_slice());
    parse_dec_u64(t.as_slice())
}

// ---------------------------------------------------------------------------
// Sampling

#[derive(Debug, Clone, Copy, PartialEq, Eq)]
pub enum MetricsWarning {
    KernelLockdown,
    LoadUsbMon,
}

pub enum Metrics {
    /// URBs/s per device from the sysfs `urbnum` counters; `prev` holds the
    /// counters of the last sample.
    Urb { prev: RateMap, warning: Option<MetricsWarning> },
    /// Bytes/s per (bus, devnum) accumulated by a usbmon reader.
    UsbMon,
    /// Synthetic bytes/s for `--demo`, deterministic per device and tick.
    Demo { tick: u64 },
}

/// What was measured for the devices since the last sample.
pub enum Reading {
    /// The `urbnum` counter of each device, in device order (`None`: unreadable).
    Counters(Vec<Option<u64>>),
    /// Bytes per (bus, devnum) drained from the usbmon reader, each key once.
    Traffic(Vec<((u16, u16), u64)>),
    /// The synthetic rate of each device, in device order.
    Rates(Vec<u64>),
}

/// The usbmon address of a device: its bus number and device number.
pub open spec fn usbmon_key_of(d: DeviceView) -> Option<(u16, u16)> {
    match busnum_of(d.name) {
        Some(b) => Some((b as u16, d.devnum as u16)),
        None => None,
    }
}

/// The bytes recorded for `k` in drained traffic (the first entry for it).
pub open spec fn traffic_for(t: Seq<((u16, u16), u64)>, k: (u16, u16)) -> Option<u64>
    decreases t.len(),
{
    if t.len() == 0 {
        None
    } else if t[0].0 == k {
        Some(t[0].1)
    } else {
        traffic_for(t.drop_first(), k)
    }
}

/// The measurement for device `i` of `ds`.
pub open spec fn reading_for(r: Reading, ds: Seq<DeviceView>, i: int) -> Option<u64> {
    match r {
        Reading::Counters(v) => if 0 <= i < v.len() {
            v@[i]
        } else {
            None
        },
        Reading::Traffic(t) => match usbmon_key_of(ds[i]) {
            Some(k) => traffic_for(t@, k),
            None => None,
        },
        Reading::Rates(v) => if 0 <= i < v.len() {
            Some(v@[i])
        } else {
            None
        },
    }
}

/// URB deltas over the first `n` devices: each readable counter minus the
/// previous one for that name (0 on first sight, 0 when the counter went
/// back), and the counters to remember.
pub open spec fn urb_fold(
    ds: Seq<DeviceView>,
    r: Reading,
    prev: Map<Seq<char>, u64>,
    n: int,
) -> (Map<Seq<char>, u64>, Map<Seq<char>, u64>)
    decreases n,
{
    if n <= 0 {
        (Map::empty(), Map::empty())
    } else {
        let (out, cur) = urb_fold(ds, r, prev, n - 1);
        match reading_for(r, ds, n - 1) {
            Some(c) => {
                let name = ds[n - 1].name;
                let base = if prev.contains_key(name) {
                    prev[name]
                } else {
                    c
                };
                let delta = if c >= base {
                    (c - base) as u64
                } else {
                    0u64
                };
                (out.insert(name, delta), cur.insert(name, c))
            },
            None => (out, cur),
        }
    }
}

/// The measured values of the first `n` devices, keyed by name, those
/// not above `min` left out.
pub open spec fn reading_fold(ds: Seq<DeviceView>, r: Reading, min: int, n: int) -> Map<
    Seq<char>,
    u64,
>
    decreases n,
{
    if n <= 0 {
        Map::empty()
    } else {
        let out = reading_fold(ds, r, min, n - 1);
        match reading_for(r, ds, n - 1) {
            Some(v) => if v > min {
                out.insert(ds[n - 1].name, v)
            } else {
                out
            },
            None => out,
        }
    }
}

impl Metrics {
    pub fn demo() -> (m: Metrics)
        ensures
            m == (Metrics::Demo { tick: 0 }),
    {
        Metrics::Demo { tick: 0 }
    }

    /// True when rates are real bytes (usbmon), not URB counts.
    pub fn is_bytes(&self) -> (b: bool)
        ensures
            b == !(self is Urb),
    {
        match self {
            Metrics::Urb { .. } => false,
            Metrics::UsbMon => true,
            Metrics::Demo { .. } => true,
        }
    }

    pub fn warning(&self) -> (w: Option<MetricsWarning>)
        ensures
            w == (match self {
                Metrics::Urb { warning, .. } => *warning,
                _ => None,
            }),
    {
        match self {
            Metrics::Urb { warning, .. } => *warning,
            Metrics::UsbMon => None,
            Metrics::Demo { .. } => None,
        }
    }

    /// Per-device rate accumulated since the last call, keyed by sysfs name:
    /// URB counter deltas (the counters are kept for the next call), the
    /// drained usbmon bytes of each device, or the demo rates of the next
    /// tick that are above 0.
    pub fn sample(&mut self, devices: &[Device], reading: &Reading) -> (out: RateMap)
        requires
            *old(self) matches Metrics::Demo { tick } ==> tick < u64::MAX,
        ensures
            match *old(self) {
                Metrics::Urb { prev, warning } => {
                    let (o, c) = urb_fold(
                        crate::usb::device_views(devices@),
                        *reading,
                        prev@,
                        devices.len() as int,
                    );
                    &&& out@ == o
                    &&& *final(self) matches Metrics::Urb { prev: p2, warning: w2 }
                    &&& p2@ == c
                    &&& w2 == warning
                },
                Metrics::UsbMon => {
                    &&& out@ == reading_fold(
                        crate::usb::device_views(devices@),
                        *reading,
                        -1,
                        devices.len() as int,
                    )
                    &&& *final(self) == Metrics::UsbMon
                },
                Metrics::Demo { tick } => {
                    &&& out@ == reading_fold(
                        crate::usb::device_views(devices@),
                        *reading,
                        0,
                        devices.len() as int,
                    )
                    &&& *final(self) == (Metrics::Demo { tick: (tick + 1) as u64 })
                },
            },
    {
        let ghost ds = crate::usb::device_views(devices@);
        match self {
            Metrics::Urb { prev, warning } => {
                let mut out = RateMap::new();
                let mut cur = RateMap::new();
                let mut i: usize = 0;
                while i < devices.len()
                    invariant
                        ds == crate::usb::device_views(devices@),
                        i <= devices.len(),
                        urb_fold(ds, *reading, prev@, i as int) == (out@, cur@),
                    decreases devices.len() - i,
                {
                    match reading_at(devices, reading, i) {
                        Some(n) => {
                            let base = match prev.get(devices[i].name.as_str()) {
                                Some(b) => *b,
                                None => n,
                            };
                            let delta = if n >= base {
                                n - base
                            } else {
                                0
                            };
                            out.insert(devices[i].name.clone(), delta);
                            cur.insert(devices[i].name.clone(), n);
                        },
                        None => {},
                    }
                    i = i + 1;
                }
                *prev = cur;
                out
            },
            Metrics::UsbMon => { collect_readings(devices, reading, false) },
            Metrics::Demo { tick } => {
                *tick = *tick + 1;
                collect_readings(devices, reading, true)
            },
        }
    }
}

/// The drained bytes for `k`.
fn traffic_lookup(t: &Vec<((u16, u16), u64)>, k: (u16, u16)) -> (r: Option<u64>)
    ensures
        r == traffic_for(t@, k),
{
    let mut i: usize = 0;
    assert(t@.skip(0) =~= t@);
    while i < t.len()
        invariant
            i <= t.len(),
            traffic_for(t@, k) == traffic_for(t@.skip(i as int), k),
        decreases t.len() - i,
    {
        assert(t@.skip(i as int)[0] == t@[i as int]);
        assert(t@.skip(i as int).drop_first() =~= t@.skip(i + 1));
        if t[i].0.0 == k.0 && t[i].0.1 == k.1 {
            return Some(t[i].1);
        }
        i = i + 1;
    }
    None
}

impl Device {
    /// The usbmon address of this device: (bus number, device number).
    pub fn usbmon_key(&self) -> (k: Option<(u16, u16)>)
        ensures
            k == usbmon_key_of(self@),
    {
        match self.busnum() {
            Some(b) => Some((b, self.devnum as u16)),
            None => None,
        }
    }
}

fn reading_at(devices: &[Device], reading: &Reading, i: usize) -> (r: Option<u64>)
    requires
        i < devices.len(),
    ensures
        r == reading_for(*reading, crate::usb::device_views(devices@), i as int),
{
    match reading {
        Reading::Counters(v) => if i < v.len() {
            v[i]
        } else {
            None
        },
        Reading::Traffic(t) => match devices[i].usbmon_key() {
            Some(k) => traffic_lookup(t, k),
            None => None,
        },
        Reading::Rates(v) => if i < v.len() {
            Some(v[i])
        } else {
            None
        },
    }
}

fn collect_readings(devices: &[Device], reading: &Reading, positive: bool) -> (out: RateMap)
    ensures
        out@ == reading_fold(
            crate::usb::device_views(devices@),
            *reading,
            if positive {
                0
            } else {
                -1
            },
            devices.len() as int,
        ),
{
    let ghost ds = crate::usb::device_views(devices@);
    let ghost min: int = if positive {
        0
    } else {
        -1
    };
    let mut out = RateMap::new();
    let mut i: usize = 0;
    while i < devices.len()
        invariant
            ds == crate::usb::device_views(devices@),
            min == (if positive {
                0int
            } else {
                -1int
            }),
            i <= devices.len(),
            reading_fold(ds, *reading, min, i as int) == out@,
        decreases devices.len() - i,
    {
        match reading_at(devices, reading, i) {
            Some(v) => {
                if !positive || v > 0 {
                    out.insert(devices[i].name.clone(), v);
                }
            },
            None => {},
        }
        i = i + 1;
    }
    out
}

/// The first URB sample, with no counters remembered, gives each device it
/// could read a rate of 0 and remembers that device's counter, so the next
/// sample is a delta and not a total.
pub proof fn lemma_urb_baseline(ds: Seq<DeviceView>, r: Reading, n: int)
    ensures
        forall|k: Seq<char>| #[trigger] urb_fold(ds, r, Map::empty(), n).0.contains_key(k)
            ==> urb_fold(ds, r, Map::empty(), n).0[k] == 0,
        urb_fold(ds, r, Map::empty(), n).0.dom() == urb_fold(ds, r, Map::empty(), n).1.dom(),
    decreases n,
{
    if n > 0 {
        lemma_urb_baseline(ds, r, n - 1);
        let (o, c) = urb_fold(ds, r, Map::empty(), n - 1);
        match reading_for(r, ds, n - 1) {
            Some(v) => {
                assert(o.insert(ds[n - 1].name, 0u64).dom() =~= c.insert(ds[n - 1].name, v).dom());
            },
            None => {},
        }
    } else {
        assert(Map::<Seq<char>, u64>::empty().dom() =~= Map::<Seq<char>, u64>::empty().dom());
    }
}

/// What a URB sample does with a device it could read (the last one of
/// its name): it remembers the counter just read, for the next sample, and
/// reports the rise since the counter remembered before, 0 on first sight
/// or when the counter went back.
pub proof fn lemma_urb_sample(
    ds: Seq<DeviceView>,
    r: Reading,
    prev: Map<Seq<char>, u64>,
    n: int,
    i: int,
    c: u64,
)
    requires
        0 <= i < n,
        reading_for(r, ds, i) == Some(c),
        forall|j: int| i < j < n && (#[trigger] ds[j]).name == ds[i].name ==> reading_for(r, ds, j) is None,
    ensures
        urb_fold(ds, r, prev, n).1.contains_key(ds[i].name),
        urb_fold(ds, r, prev, n).1[ds[i].name] == c,
        urb_fold(ds, r, prev, n).0.contains_key(ds[i].name),
        urb_fold(ds, r, prev, n).0[ds[i].name] == if prev.contains_key(ds[i].name) && prev[ds[i].name] <= c {
            (c - prev[ds[i].name]) as u64
        } else {
            0u64
        },
    decreases n,
{
    if n - 1 > i {
        lemma_urb_sample(ds, r, prev, n - 1, i, c);
        if ds[n - 1].name == ds[i].name {
            assert(reading_for(r, ds, n - 1) is None);
        }
    }
}

/// A URB sample reports and remembers only devices it could read, by
/// their names.
pub proof fn lemma_urb_only_read(ds: Seq<DeviceView>, r: Reading, prev: Map<Seq<char>, u64>, n: int)
    ensures
        forall|k: Seq<char>| #[trigger] urb_fold(ds, r, prev, n).0.contains_key(k) ==> exists|i: int|
            0 <= i < n && (#[trigger] ds[i]).name == k && reading_for(r, ds, i) is Some,
        urb_fold(ds, r, prev, n).0.dom() == urb_fold(ds, r, prev, n).1.dom(),
    decreases n,
{
    if n > 0 {
        lemma_urb_only_read(ds, r, prev, n - 1);
        let (o, c) = urb_fold(ds, r, prev, n - 1);
        match reading_for(r, ds, n - 1) {
            Some(v) => {
                let name = ds[n - 1].name;
                let base = if prev.contains_key(name) {
                    prev[name]
                } else {
                    v
                };
                let delta = if v >= base {
                    (v - base) as u64
                } else {
                    0u64
                };
                assert(o.insert(name, delta).dom() =~= c.insert(name, v).dom());
            },
            None => {},
        }
    } else {
        assert(Map::<Seq<char>, u64>::empty().dom() =~= Map::<Seq<char>, u64>::empty().dom());
    }
}

/// A usbmon or demo sample reports a device it could read (the last one
/// of its name) with the value read, when that is above `min`.
pub proof fn lemma_reading_sample(ds: Seq<DeviceView>, r: Reading, min: int, n: int, i: int, v: u64)
    requires
        0 <= i < n,
        reading_for(r, ds, i) == Some(v),
        v > min,
        forall|j: int| i < j < n && (#[trigger] ds[j]).name == ds[i].name ==> reading_for(r, ds, j) is None,
    ensures
        reading_fold(ds, r, min, n).contains_key(ds[i].name),
        reading_fold(ds, r, min, n)[ds[i].name] == v,
    decreases n,
{
    if n - 1 > i {
        lemma_reading_sample(ds, r, min, n - 1, i, v);
        if ds[n - 1].name == ds[i].name {
            assert(reading_for(r, ds, n - 1) is None);
        }
    }
}

/// Every name a usbmon or demo sample reports is that of a device whose
/// reading is above `min`.
pub proof fn lemma_reading_only_above(ds: Seq<DeviceView>, r: Reading, min: int, n: int)
    ensures
        forall|k: Seq<char>| #[trigger] reading_fold(ds, r, min, n).contains_key(k) ==> exists|i: int|
            0 <= i < n && (#[trigger] ds[i]).name == k && (reading_for(r, ds, i) matches Some(v) && v > min),
    decreases n,
{
    if n > 0 {
        lemma_reading_only_above(ds, r, min, n - 1);
        let prev = reading_fold(ds, r, min, n - 1);
        assert forall|k: Seq<char>| #[trigger] reading_fold(ds, r, min, n).contains_key(k) implies exists|i: int|
            0 <= i < n && (#[trigger] ds[i]).name == k && (reading_for(r, ds, i) matches Some(v) && v > min) by {
            if prev.contains_key(k) {
                let i = choose|i: int|
                    0 <= i < n - 1 && (#[trigger] ds[i]).name == k && (reading_for(r, ds, i) matches Some(v) && v > min);
                assert(0 <= i < n);
            } else {
                assert(ds[n - 1].name == k);
            }
        }
    }
}

/// No address occurs twice in drained traffic.
pub open spec fn traffic_keys_unique(t: Seq<((u16, u16), u64)>) -> bool {
    forall|i: int, j: int| 0 <= i < j < t.len() ==> (#[trigger] t[i]).0 != (#[trigger] t[j]).0
}

proof fn lemma_traffic_for_index(t: Seq<((u16, u16), u64)>, i: int)
    requires
        traffic_keys_unique(t),
        0 <= i < t.len(),
    ensures
        traffic_for(t, t[i].0) == Some(t[i].1),
    decreases t.len(),
{
    if i > 0 {
        assert(t[0].0 != t[i].0);
        assert(traffic_keys_unique(t.drop_first())) by {
            assert forall|a: int, b: int| 0 <= a < b < t.drop_first().len() implies (
            #[trigger] t.drop_first()[a]).0 != (#[trigger] t.drop_first()[b]).0 by {
                assert(t.drop_first()[a] == t[a + 1] && t.drop_first()[b] == t[b + 1]);
            }
        }
        lemma_traffic_for_index(t.drop_first(), i - 1);
    }
}

proof fn lemma_traffic_for_absent(t: Seq<((u16, u16), u64)>, k: (u16, u16))
    requires
        forall|i: int| 0 <= i < t.len() ==> (#[trigger] t[i]).0 != k,
    ensures
        traffic_for(t, k) == None::<u64>,
    decreases t.len(),
{
    if t.len() > 0 {
        assert forall|i: int| 0 <= i < t.drop_first().len() implies (#[trigger] t.drop_first()[i]).0 != k by {
            assert(t.drop_first()[i] == t[i + 1]);
        }
        lemma_traffic_for_absent(t.drop_first(), k);
    }
}

proof fn lemma_traffic_for_update(t: Seq<((u16, u16), u64)>, i: int, v: u64, k: (u16, u16))
    requires
        0 <= i < t.len(),
        t[i].0 != k,
    ensures
        traffic_for(t.update(i, (t[i].0, v)), k) == traffic_for(t, k),
    decreases t.len(),
{
    let u = t.update(i, (t[i].0, v));
    if i > 0 {
        assert(u[0] == t[0]);
        assert(u.drop_first() =~= t.drop_first().update(i - 1, (t[i].0, v)));
        lemma_traffic_for_update(t.drop_first(), i - 1, v, k);
    } else {
        assert(u.drop_first() =~= t.drop_first());
    }
}

proof fn lemma_traffic_for_push(t: Seq<((u16, u16), u64)>, e: ((u16, u16), u64), k: (u16, u16))
    requires
        e.0 != k,
    ensures
        traffic_for(t.push(e), k) == traffic_for(t, k),
    decreases t.len(),
{
    if t.len() > 0 {
        assert(t.push(e)[0] == t[0]);
        assert(t.push(e).drop_first() =~= t.drop_first().push(e));
        lemma_traffic_for_push(t.drop_first(), e, k);
    } else {
        assert(t.push(e)[0] == e);
        assert(t.push(e).drop_first() =~= t);
    }
}

/// The bytes recorded for `k` so far, 0 when none were.
pub open spec fn traffic_total(t: Seq<((u16, u16), u64)>, k: (u16, u16)) -> int {
    match traffic_for(t, k) {
        Some(v) => v as int,
        None => 0,
    }
}

/// Adds `len` bytes to the traffic recorded for `key`, as the usbmon reader
/// does for each transfer it counts.
pub fn add_traffic(t: &mut Vec<((u16, u16), u64)>, key: (u16, u16), len: u64)
    requires
        traffic_keys_unique(old(t)@),
        traffic_total(old(t)@, key) + len <= u64::MAX,
    ensures
        traffic_keys_unique(final(t)@),
        traffic_for(final(t)@, key) == Some((traffic_total(old(t)@, key) + len) as u64),
        forall|k: (u16, u16)| k != key ==> traffic_for(final(t)@, k) == traffic_for(old(t)@, k),
{
    let mut i: usize = 0;
    while i < t.len()
        invariant
            i <= t.len(),
            t@ == old(t)@,
            traffic_keys_unique(old(t)@),
            traffic_total(old(t)@, key) + len <= u64::MAX,
            forall|j: int| 0 <= j < i ==> (#[trigger] t@[j]).0 != key,
        decreases t.len() - i,
    {
        if t[i].0.0 == key.0 && t[i].0.1 == key.1 {
            let ghost t0 = t@;
            proof {
                lemma_traffic_for_index(t0, i as int);
            }
            let v = t[i].1 + len;
            t.set(i, (key, v));
            proof {
                assert forall|a: int, b: int| 0 <= a < b < t.len() implies (#[trigger] t@[a]).0 != (
                #[trigger] t@[b]).0 by {
                    assert(t0[a].0 == t@[a].0 && t0[b].0 == t@[b].0);
                }
                lemma_traffic_for_index(t@, i as int);
                assert forall|k: (u16, u16)| k != key implies traffic_for(t@, k) == traffic_for(t0, k) by {
                    lemma_traffic_for_update(t0, i as int, v, k);
                }
            }
            return;
        }
        i = i + 1;
    }
    let ghost t0 = t@;
    proof {
        lemma_traffic_for_absent(t0, key);
    }
    t.push((key, len));
    proof {
        assert forall|a: int, b: int| 0 <= a < b < t.len() implies (#[trigger] t@[a]).0 != (
        #[trigger] t@[b]).0 by {
            if b < t0.len() {
                assert(t0[a] == t@[a] && t0[b] == t@[b]);
            } else {
                assert(t0[a] == t@[a]);
            }
        }
        lemma_traffic_for_index(t@, t0.len() as int);
        assert forall|k: (u16, u16)| k != key implies traffic_for(t@, k) == traffic_for(t0, k) by {
            lemma_traffic_for_push(t0, (key, len), k);
        }
    }
}


// ---------------------------------------------------------------------------
// Why per-device bytes are unavailable

/// How opening a usbmon source failed, as far as the warning cares.
#[derive(Debug, Clone, Copy, PartialEq, Eq)]
pub enum OpenFailure {
    PermissionDenied,
    NotFound,
    Other,
}

/// The hint shown when neither usbmon source could be opened: only root can
/// act on one; a permission error on the text source under kernel lockdown
/// means lockdown, a missing binary device means the module is not loaded.
pub open spec fn warning_for(
    is_root: bool,
    lockdown: bool,
    text: OpenFailure,
    bin: OpenFailure,
) -> Option<MetricsWarning> {
    if !is_root {
        None
    } else if lockdown && text == OpenFailure::PermissionDenied {
        Some(MetricsWarning::KernelLockdown)
    } else if bin == OpenFailure::NotFound {
        Some(MetricsWarning::LoadUsbMon)
    } else {
        None
    }
}

pub fn unavailable_warning_for(
    is_root: bool,
    lockdown: bool,
    text_kind: OpenFailure,
    bin_kind: OpenFailure,
) -> (w: Option<MetricsWarning>)
    ensures
        w == warning_for(is_root, lockdown, text_kind, bin_kind),
{
    if !is_root {
        return None;
    }
    let text_denied = match text_kind {
        OpenFailure::PermissionDenied => true,
        _ => false,
    };
    let bin_missing = match bin_kind {
        OpenFailure::NotFound => true,
        _ => false,
    };
    if lockdown && text_denied {
        Some(MetricsWarning::KernelLockdown)
    } else if bin_missing {
        Some(MetricsWarning::LoadUsbMon)
    } else {
        None
    }
}

/// A word in square brackets: the active entry of a sysfs choice list.
pub open spec fn is_bracketed(w: Seq<char>) -> bool {
    w.len() > 0 && w[0] == '[' && w.last() == ']'
}

/// The first bracketed word of `ws`.
pub open spec fn first_bracketed(ws: Seq<Seq<char>>) -> Option<Seq<char>>
    decreases ws.len(),
{
    if ws.len() == 0 {
        None
    } else if is_bracketed(ws[0]) {
        Some(ws[0])
    } else {
        first_bracketed(ws.drop_first())
    }
}

pub open spec fn none_choice() -> Seq<char> {
    seq!['[', 'n', 'o', 'n', 'e', ']']
}

/// `/sys/kernel/security/lockdown` reads like "none [integrity]
/// confidentiality": lockdown is on when the active choice is not "none".
pub open spec fn lockdown_of(s: Seq<char>) -> bool {
    match first_bracketed(words(s)) {
        Some(w) => w != none_choice(),
        None => false,
    }
}

pub fn parse_lockdown_enabled(s: &str) -> (b: bool)
    ensures
        b == lockdown_of(s@),
{
    let cs = chars_of(s);
    let ws = split_whitespace(cs.as_slice());
    let none = vec!['[', 'n', 'o', 'n', 'e', ']'];
    assert(none@ =~= none_choice());
    let mut i: usize = 0;
    assert(views(ws@).skip(0) =~= views(ws@));
    while i < ws.len()
        invariant
            i <= ws.len(),
            views(ws@) == words(s@),
            none@ == none_choice(),
            first_bracketed(words(s@)) == first_bracketed(views(ws@).skip(i as int)),
        decreases ws.len() - i,
    {
        let w = &ws[i];
        assert(views(ws@).skip(i as int)[0] == w@);
        assert(views(ws@).skip(i as int).drop_first() =~= views(ws@).skip(i + 1));
        if w.len() > 0 && w[0] == '[' && w[w.len() - 1] == ']' {
            return !chars_eq(w.as_slice(), none.as_slice());
        }
        i = i + 1;
    }
    false
}

// ---------------------------------------------------------------------------
// usbmon

/// One usbmon text line, e.g.
/// `ffff9c.. 3003687252 C Ii:1:002:1 0:8 8 = 1f00..` -> ((bus, dev), bytes).
/// Counts completed IN and submitted OUT transfers; control transfers with
/// inline setup (an 's' status word) are skipped.
pub open spec fn usbmon_line_of(line: Seq<char>) -> Option<((u16, u16), u64)> {
    let f = words(line);
    if f.len() < 6 || f[4] == seq!['s'] {
        None
    } else {
        match parse_u64(f[5]) {
            None => None,
            Some(len) => {
                let a = split_on(f[3], ':');
                if a.len() < 3 || a[0].len() < 2 {
                    None
                } else {
                    match (parse_u16(a[1]), parse_u16(a[2])) {
                        (Some(bus), Some(dev)) => if (f[2] == seq!['C'] && a[0][1] == 'i') || (f[2]
                            == seq!['S'] && a[0][1] == 'o') {
                            Some(((bus as u16, dev as u16), len as u64))
                        } else {
                            None
                        },
                        _ => None,
                    }
                }
            },
        }
    }
}

/// A usbmon line is counted only as a completed IN transfer (`C` with an
/// `i` direction) or a submitted OUT one (`S` with `o`), never a setup
/// line; what it counts is the length word, for the bus and device of its
/// address word. Such a well-formed line is always counted.
pub proof fn lemma_usbmon_directions(line: Seq<char>)
    ensures
        ({
            let f = words(line);
            let a = split_on(f[3], ':');
            &&& usbmon_line_of(line) matches Some(((bus, dev), len)) ==> {
                &&& f.len() >= 6
                &&& f[4] != seq!['s']
                &&& a.len() >= 3 && a[0].len() >= 2
                &&& (f[2] == seq!['C'] && a[0][1] == 'i') || (f[2] == seq!['S'] && a[0][1] == 'o')
                &&& parse_u64(f[5]) == Some(len as int)
                &&& parse_u16(a[1]) == Some(bus as int)
                &&& parse_u16(a[2]) == Some(dev as int)
            }
            &&& (f.len() >= 6 && f[4] != seq!['s'] && a.len() >= 3 && a[0].len() >= 2 && parse_u64(f[5]) is Some
                && parse_u16(a[1]) is Some && parse_u16(a[2]) is Some && ((f[2] == seq!['C'] && a[0][1] == 'i')
                || (f[2] == seq!['S'] && a[0][1] == 'o'))) ==> usbmon_line_of(line) is Some
        }),
{
    let f = words(line);
    if usbmon_line_of(line) is Some {
        let a = split_on(f[3], ':');
        lemma_parse_unsigned_range(f[5], 10, 0xffff_ffff_ffff_ffff);
        lemma_parse_unsigned_range(a[1], 10, 0xffff);
        lemma_parse_unsigned_range(a[2], 10, 0xffff);
    }
}

/// A binary usbmon event is counted only as a completed IN transfer
/// (`C`, endpoint bit 7 set) or a submitted OUT one (`S`, bit 7 clear) that
/// carries data, and counts its length for its bus and device.
pub proof fn lemma_usbmon_event_directions(h: MonBinHdr)
    ensures
        usbmon_event_of(h) is Some ==> h.length > 0 && ((h.type_ == 67 && h.epnum >= 0x80) || (h.type_ == 83
            && h.epnum < 0x80)) && usbmon_event_of(h) == Some(((h.busnum, h.devnum as u16), h.length as u64)),
        h.length > 0 && ((h.type_ == 67 && h.epnum >= 0x80) || (h.type_ == 83 && h.epnum < 0x80))
            ==> usbmon_event_of(h) is Some,
{
}

fn is_one_char(w: &Vec<char>, c: char) -> (b: bool)
    ensures
        b == (w@ == seq![c]),
{
    if w.len() == 1 && w[0] == c {
        assert(w@ =~= seq![c]);
        true
    } else {
        false
    }
}

pub fn parse_usbmon(line: &str) -> (r: Option<((u16, u16), u64)>)
    ensures
        r == usbmon_line_of(line@),
{
    let cs = chars_of(line);
    let f = split_whitespace(cs.as_slice());
    proof {
        assert(views(f@) == words(line@));
        if f.len() >= 6 {
            assert(views(f@)[4] == f@[4]@);
            assert(views(f@)[5] == f@[5]@);
            assert(views(f@)[3] == f@[3]@);
            assert(views(f@)[2] == f@[2]@);
        }
    }
    if f.len() < 6 || is_one_char(&f[4], 's') {
        return None;
    }
    let len = match parse_dec_u64(f[5].as_slice()) {
        Some(n) => n,
        None => return None,
    };
    let a = split_char(f[3].as_slice(), ':');
    proof {
        if a.len() >= 3 {
            assert(views(a@)[0] == a@[0]@);
            assert(views(a@)[1] == a@[1]@);
            assert(views(a@)[2] == a@[2]@);
        }
    }
    if a.len() < 3 || a[0].len() < 2 {
        return None;
    }
    let dir = a[0][1];
    let bus = match parse_dec_u16(a[1].as_slice()) {
        Some(b) => b,
        None => return None,
    };
    let dev = match parse_dec_u16(a[2].as_slice()) {
        Some(d) => d,
        None => return None,
    };
    if (is_one_char(&f[2], 'C') && dir == 'i') || (is_one_char(&f[2], 'S') && dir == 'o') {
        Some(((bus, dev), len))
    } else {
        None
    }
}

/// The header of one event of the usbmon binary interface.
#[derive(Debug, Clone, Copy, Default)]
pub struct MonBinHdr {
    pub id: u64,
    pub type_: u8,
    pub xfer_type: u8,
    pub epnum: u8,
    pub devnum: u8,
    pub busnum: u16,
    pub flag_setup: i8,
    pub flag_data: i8,
    pub ts_sec: i64,
    pub ts_usec: i32,
    pub status: i32,
    pub length: u32,
    pub len_cap: u32,
    pub setup: [u8; 8],
}

/// A binary usbmon event counts like a text line: completed IN ('C' with
/// endpoint bit 7 set) or submitted OUT ('S' without it), with data.
pub open spec fn usbmon_event_of(h: MonBinHdr) -> Option<((u16, u16), u64)> {
    let dir_in = h.epnum >= 0x80;
    if h.length > 0 && ((h.type_ == 67 && dir_in) || (h.type_ == 83 && !dir_in)) {
        Some(((h.busnum, h.devnum as u16), h.length as u64))
    } else {
        None
    }
}

pub fn parse_usbmon_bin(h: &MonBinHdr) -> (r: Option<((u16, u16), u64)>)
    ensures
        r == usbmon_event_of(*h),
{
    let dir_in = h.epnum >= 0x80;
    if h.length > 0 && ((h.type_ == 67 && dir_in) || (h.type_ == 83 && !dir_in)) {
        Some(((h.busnum, h.devnum as u16), h.length as u64))
    } else {
        None
    }
}

} // verus!
