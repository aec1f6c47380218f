//! What a rescan changes besides the device list: the hot-plug log, the
//! highlight of freshly plugged devices and the lingering rows of removed
//! ones, each device's activity history, and the selection.
use vstd::prelude::*;
use crate::namemap::{is_recent, recent_part, NameMap};
use crate::text::{chars_eq, chars_of, dec, push_dec};
use crate::tree::{count_children, is_collapsed, missing_from};
use crate::usb::{Device, DeviceView};

verus! {

/// How many activity samples are kept per device (one per rescan).
pub const HISTORY: usize = 60;

/// How many hot-plug events the log keeps.
pub const LOG_CAP: usize = 200;

/// How long, in milliseconds, added devices stay highlighted and removed
/// devices linger in the tree.
pub const HIGHLIGHT_TTL_MS: u64 = 30000;

// ---------------------------------------------------------------------------
// Time stamps

/// `format!("{:02}", n)`: the number, with a leading zero below 10.
pub open spec fn pad2(n: nat) -> Seq<char> {
    if n < 10 {
        seq!['0'] + dec(n)
    } else {
        dec(n)
    }
}

/// Seconds as `mm:ss` (minutes may run past two digits).
pub open spec fn clock_of(secs: nat) -> Seq<char> {
    pad2(secs / 60) + seq![':'] + pad2(secs % 60)
}

fn push_pad2(s: &mut String, n: u64)
    ensures
        final(s)@ == old(s)@ + pad2(n as nat),
{
    if n < 10 {
        s.push('0');
    }
    push_dec(s, n);
    assert(final(s)@ =~= old(s)@ + pad2(n as nat));
}

/// Seconds since start as `mm:ss`, as the header shows the uptime.
pub fn clock(secs: u64) -> (s: String)
    ensures
        s@ == clock_of(secs as nat),
{
    let mut s = String::new();
    push_pad2(&mut s, secs / 60);
    s.push(':');
    push_pad2(&mut s, secs % 60);
    assert(s@ =~= clock_of(secs as nat));
    s
}

/// The stamp of a hot-plug event: `[mm:ss] `.
pub fn stamp(secs: u64) -> (s: String)
    ensures
        s@ == seq!['['] + clock_of(secs as nat) + seq![']', ' '],
{
    let mut s = String::new();
    s.push('[');
    let c = clock(secs);
    crate::text::push_str(&mut s, c.as_str());
    s.push(']');
    s.push(' ');
    assert(s@ =~= seq!['['] + clock_of(secs as nat) + seq![']', ' ']);
    s
}

// ---------------------------------------------------------------------------
// The hot-plug log

/// The log after a rescan, newest first: an entry per removed device (the
/// last one first), then per added device (the last one first), then the
/// older entries; at most [`LOG_CAP`] of them.
pub open spec fn log_after<T>(log: Seq<T>, added: Seq<T>, removed: Seq<T>) -> Seq<T> {
    let all = removed.reverse() + added.reverse() + log;
    if all.len() > LOG_CAP {
        all.take(LOG_CAP as int)
    } else {
        all
    }
}

/// The log never holds more than [`LOG_CAP`] events, and a rescan's events
/// come first, the last removed device first.
pub proof fn lemma_log_capped<T>(log: Seq<T>, added: Seq<T>, removed: Seq<T>)
    ensures
        log_after(log, added, removed).len() <= LOG_CAP,
        forall|i: int|
            0 <= i < removed.len() && i < LOG_CAP ==> #[trigger] log_after(log, added, removed)[i]
                == removed[removed.len() - 1 - i],
{
    let all = removed.reverse() + added.reverse() + log;
    assert forall|i: int| 0 <= i < removed.len() && i < LOG_CAP implies #[trigger] log_after(
        log,
        added,
        removed,
    )[i] == removed[removed.len() - 1 - i] by {
        assert(all[i] == removed.reverse()[i]);
    }
}

fn push_reversed<T>(out: &mut Vec<T>, items: Vec<T>)
    ensures
        final(out)@ == old(out)@ + items@.reverse(),
{
    let ghost orig = items@;
    let mut items = items;
    while items.len() > 0
        invariant
            items.len() <= orig.len(),
            items@ == orig.take(items.len() as int),
            out@ == old(out)@ + orig.skip(items.len() as int).reverse(),
        decreases items.len(),
    {
        let ghost n = items.len();
        let x = items.pop().unwrap();
        assert(x == orig[n - 1]);
        assert(items@ =~= orig.take(n - 1));
        out.push(x);
        let ghost a = orig.skip(n - 1).reverse();
        let ghost b = orig.skip(n as int).reverse().push(orig[n - 1]);
        assert(a.len() == b.len());
        assert forall|i: int| 0 <= i < a.len() implies a[i] == b[i] by {
            if i < a.len() - 1 {
                assert(orig.skip(n - 1)[a.len() - 1 - i] == orig.skip(n as int)[b.len() - 2 - i]);
            }
        }
        assert(a =~= b);
    }
    assert(orig.skip(0) =~= orig);
}

/// Records the events of one rescan in the log.
pub fn push_events<T>(log: Vec<T>, added: Vec<T>, removed: Vec<T>) -> (r: Vec<T>)
    ensures
        r@ == log_after(log@, added@, removed@),
{
    let mut out: Vec<T> = Vec::new();
    push_reversed(&mut out, removed);
    push_reversed(&mut out, added);
    let mut rest = log;
    out.append(&mut rest);
    out.truncate(LOG_CAP);
    out
}

// ---------------------------------------------------------------------------
// Fresh and removed devices

/// The abstract value of ghost rows: each removed device with the time (ms)
/// it left.
pub open spec fn ghost_views(g: Seq<(Device, u64)>) -> Seq<(DeviceView, u64)> {
    g.map_values(|e: (Device, u64)| (e.0@, e.1))
}

/// The ghosts not named `n`.
pub open spec fn without_name(g: Seq<(DeviceView, u64)>, n: Seq<char>) -> Seq<(DeviceView, u64)> {
    g.filter(|e: (DeviceView, u64)| e.0.name != n)
}

/// The ghosts that left less than [`HIGHLIGHT_TTL_MS`] before `now`.
pub open spec fn recent_ghosts(g: Seq<(DeviceView, u64)>, now: u64) -> Seq<(DeviceView, u64)> {
    g.filter(|e: (DeviceView, u64)| is_recent(now, HIGHLIGHT_TTL_MS, e.1))
}

/// The ghosts after devices with `names` came back: theirs are gone.
pub open spec fn ghosts_dropping(g: Seq<(DeviceView, u64)>, names: Seq<Seq<char>>) -> Seq<
    (DeviceView, u64),
>
    decreases names.len(),
{
    if names.len() == 0 {
        g
    } else {
        without_name(ghosts_dropping(g, names.drop_last()), names.last())
    }
}

/// The ghosts after `removed` left at `now`: each replaces any ghost of its
/// name and goes last.
pub open spec fn ghosts_adding(g: Seq<(DeviceView, u64)>, removed: Seq<DeviceView>, now: u64) -> Seq<
    (DeviceView, u64),
>
    decreases removed.len(),
{
    if removed.len() == 0 {
        g
    } else {
        without_name(ghosts_adding(g, removed.drop_last(), now), removed.last().name).push(
            (removed.last(), now),
        )
    }
}

/// The highlights after devices with `names` were plugged in at `now`.
pub open spec fn flash_adding(m: Map<Seq<char>, u64>, names: Seq<Seq<char>>, now: u64) -> Map<
    Seq<char>,
    u64,
>
    decreases names.len(),
{
    if names.len() == 0 {
        m
    } else {
        flash_adding(m, names.drop_last(), now).insert(names.last(), now)
    }
}

/// The names of the devices of a diff.
pub open spec fn ref_names(ds: Seq<&Device>) -> Seq<Seq<char>> {
    names_of_views(crate::tree::ref_views(ds))
}

/// No two ghosts have the same name.
pub open spec fn ghost_names_unique(g: Seq<(DeviceView, u64)>) -> bool {
    forall|i: int, j: int| 0 <= i < j < g.len() ==> (#[trigger] g[i]).0.name != (#[trigger] g[j]).0.name
}

/// Freshly plugged devices by name with the time (ms) they appeared, and
/// removed devices still shown, with the time they left.
pub struct Hotplug {
    pub flash: NameMap<u64>,
    pub ghosts: Vec<(Device, u64)>,
}

proof fn lemma_filter_unique(g: Seq<(DeviceView, u64)>, p: spec_fn((DeviceView, u64)) -> bool)
    requires
        ghost_names_unique(g),
    ensures
        ghost_names_unique(g.filter(p)),
        forall|i: int| 0 <= i < g.filter(p).len() ==> g.contains(#[trigger] g.filter(p)[i]),
    decreases g.len(),
{
    reveal(Seq::filter);
    if g.len() > 0 {
        let t = g.drop_last();
        assert(ghost_names_unique(t)) by {
            assert forall|i: int, j: int| 0 <= i < j < t.len() implies (#[trigger] t[i]).0.name != (
            #[trigger] t[j]).0.name by {
                assert(t[i] == g[i] && t[j] == g[j]);
            }
        }
        lemma_filter_unique(t, p);
        let ft = t.filter(p);
        assert forall|i: int| 0 <= i < ft.len() implies g.contains(#[trigger] ft[i]) by {
            let k = choose|k: int| 0 <= k < t.len() && t[k] == ft[i];
            assert(g[k] == ft[i]);
        }
        if p(g.last()) {
            let f = ft.push(g.last());
            assert forall|i: int, j: int| 0 <= i < j < f.len() implies (#[trigger] f[i]).0.name != (
            #[trigger] f[j]).0.name by {
                if j == ft.len() {
                    let k = choose|k: int| 0 <= k < t.len() && t[k] == ft[i];
                    assert(g[k] == f[i]);
                    assert(g[g.len() - 1] == f[j]);
                } else {
                    assert(f[i] == ft[i] && f[j] == ft[j]);
                }
            }
            assert forall|i: int| 0 <= i < f.len() implies g.contains(#[trigger] f[i]) by {
                if i < ft.len() {
                    assert(f[i] == ft[i]);
                } else {
                    assert(g[g.len() - 1] == f[i]);
                }
            }
        }
    }
}

fn drop_named(g: Vec<(Device, u64)>, name: &str) -> (r: Vec<(Device, u64)>)
    ensures
        ghost_views(r@) == without_name(ghost_views(g@), name@),
{
    let ghost gv = ghost_views(g@);
    let n = chars_of(name);
    let mut rest = g;
    let mut out: Vec<(Device, u64)> = Vec::new();
    let ghost len = gv.len();
    while rest.len() > 0
        invariant
            len == gv.len(),
            rest.len() <= len,
            ghost_views(rest@) == gv.skip(len - rest.len()),
            ghost_views(out@) == without_name(gv.take(len - rest.len()), name@),
            n@ == name@,
        decreases rest.len(),
    {
        proof {
            reveal(Seq::filter);
        }
        let ghost k = len - rest.len();
        let ghost before = rest@;
        assert(ghost_views(before)[0] == gv[k]);
        let e = rest.remove(0);
        assert(ghost_views(rest@) =~= gv.skip(k + 1)) by {
            assert forall|i: int| 0 <= i < rest.len() implies ghost_views(rest@)[i] == gv.skip(k + 1)[i] by {
                assert(rest@[i] == before[i + 1]);
                assert(ghost_views(before)[i + 1] == gv.skip(k)[i + 1]);
            }
        }
        assert(gv.take(k + 1).drop_last() =~= gv.take(k));
        assert(gv.take(k + 1).last() == (e.0@, e.1));
        let en = chars_of(e.0.name.as_str());
        let ghost outv = ghost_views(out@);
        if !chars_eq(en.as_slice(), n.as_slice()) {
            out.push(e);
            assert(ghost_views(out@) =~= outv.push((e.0@, e.1)));
        } else {
            assert(ghost_views(out@) =~= outv);
        }
    }
    assert(gv.take(len as int) =~= gv);
    out
}

fn keep_recent_ghosts(g: Vec<(Device, u64)>, now: u64) -> (r: Vec<(Device, u64)>)
    ensures
        ghost_views(r@) == recent_ghosts(ghost_views(g@), now),
{
    let ghost gv = ghost_views(g@);
    let mut rest = g;
    let mut out: Vec<(Device, u64)> = Vec::new();
    let ghost len = gv.len();
    while rest.len() > 0
        invariant
            len == gv.len(),
            rest.len() <= len,
            ghost_views(rest@) == gv.skip(len - rest.len()),
            ghost_views(out@) == recent_ghosts(gv.take(len - rest.len()), now),
        decreases rest.len(),
    {
        proof {
            reveal(Seq::filter);
        }
        let ghost k = len - rest.len();
        let ghost before = rest@;
        assert(ghost_views(before)[0] == gv[k]);
        let e = rest.remove(0);
        assert(ghost_views(rest@) =~= gv.skip(k + 1)) by {
            assert forall|i: int| 0 <= i < rest.len() implies ghost_views(rest@)[i] == gv.skip(k + 1)[i] by {
                assert(rest@[i] == before[i + 1]);
                assert(ghost_views(before)[i + 1] == gv.skip(k)[i + 1]);
            }
        }
        assert(gv.take(k + 1).drop_last() =~= gv.take(k));
        assert(gv.take(k + 1).last() == (e.0@, e.1));
        let ghost outv = ghost_views(out@);
        if now.saturating_sub(e.1) < HIGHLIGHT_TTL_MS {
            out.push(e);
            assert(ghost_views(out@) =~= outv.push((e.0@, e.1)));
        } else {
            assert(ghost_views(out@) =~= outv);
        }
    }
    assert(gv.take(len as int) =~= gv);
    out
}

impl Hotplug {
    /// Nothing highlighted, no ghosts.
    pub fn new() -> (h: Hotplug)
        ensures
            h.flash@ == Map::<Seq<char>, u64>::empty(),
            h.ghosts@.len() == 0,
    {
        Hotplug { flash: NameMap::new(), ghosts: Vec::new() }
    }

    /// Records a rescan at `now` (ms): the `added` devices are highlighted
    /// and lose their ghosts, the `removed` ones become ghosts; highlights and
    /// ghosts older than [`HIGHLIGHT_TTL_MS`] go.
    pub fn record(&mut self, added: &[&Device], removed: Vec<Device>, now: u64)
        ensures
            final(self).flash@ == recent_part(
                flash_adding(old(self).flash@, ref_names(added@), now),
                now,
                HIGHLIGHT_TTL_MS,
            ),
            ghost_views(final(self).ghosts@) == recent_ghosts(
                ghosts_adding(
                    ghosts_dropping(ghost_views(old(self).ghosts@), ref_names(added@)),
                    crate::usb::device_views(removed@),
                    now,
                ),
                now,
            ),
    {
        let ghost names = ref_names(added@);
        let ghost g0 = ghost_views(self.ghosts@);
        let ghost f0 = self.flash@;
        let mut i: usize = 0;
        while i < added.len()
            invariant
                i <= added.len(),
                names == ref_names(added@),
                self.flash@ == flash_adding(f0, names.take(i as int), now),
                ghost_views(self.ghosts@) == ghosts_dropping(g0, names.take(i as int)),
            decreases added.len() - i,
        {
            assert(names.take(i + 1).drop_last() =~= names.take(i as int));
            assert(names.take(i + 1).last() == added@[i as int].name@);
            self.flash.insert(added[i].name.clone(), now);
            let mut g: Vec<(Device, u64)> = Vec::new();
            std::mem::swap(&mut g, &mut self.ghosts);
            self.ghosts = drop_named(g, added[i].name.as_str());
            i = i + 1;
        }
        assert(names.take(added.len() as int) =~= names);
        let ghost g1 = ghost_views(self.ghosts@);
        let ghost rv = crate::usb::device_views(removed@);
        let ghost rlen = rv.len();
        let mut rest = removed;
        while rest.len() > 0
            invariant
                rest.len() <= rlen,
                rlen == rv.len(),
                self.flash@ == flash_adding(f0, names, now),
                crate::usb::device_views(rest@) == rv.skip(rlen - rest.len()),
                ghost_views(self.ghosts@) == ghosts_adding(g1, rv.take(rlen - rest.len()), now),
            decreases rest.len(),
        {
            let ghost k = rlen - rest.len();
            let ghost before = rest@;
            assert(crate::usb::device_views(before)[0] == rv[k]);
            let d = rest.remove(0);
            assert(crate::usb::device_views(rest@) =~= rv.skip(k + 1)) by {
                assert forall|j: int| 0 <= j < rest.len() implies crate::usb::device_views(rest@)[j] == rv.skip(k + 1)[j] by {
                    assert(rest@[j] == before[j + 1]);
                    assert(crate::usb::device_views(before)[j + 1] == rv.skip(k)[j + 1]);
                }
            }
            assert(rv.take(k + 1).drop_last() =~= rv.take(k));
            assert(rv.take(k + 1).last() == d@);
            let mut g: Vec<(Device, u64)> = Vec::new();
            std::mem::swap(&mut g, &mut self.ghosts);
            let mut g = drop_named(g, d.name.as_str());
            let ghost gd = ghost_views(g@);
            g.push((d, now));
            assert(ghost_views(g@) =~= gd.push((d@, now)));
            self.ghosts = g;
        }
        assert(rv.take(rlen as int) =~= rv);
        self.flash.keep_recent(now, HIGHLIGHT_TTL_MS);
        let mut g: Vec<(Device, u64)> = Vec::new();
        std::mem::swap(&mut g, &mut self.ghosts);
        self.ghosts = keep_recent_ghosts(g, now);
    }

    /// When the ghost named `name` left, if there is one.
    pub fn ghost_since(&self, name: &str) -> (r: Option<u64>)
        ensures
            match r {
                Some(t) => exists|i: int|
                    0 <= i < self.ghosts@.len() && (#[trigger] self.ghosts@[i]).0.name@ == name@
                        && self.ghosts@[i].1 == t && forall|j: int|
                        0 <= j < i ==> (#[trigger] self.ghosts@[j]).0.name@ != name@,
                None => forall|i: int|
                    0 <= i < self.ghosts@.len() ==> (#[trigger] self.ghosts@[i]).0.name@ != name@,
            },
    {
        let n = chars_of(name);
        let mut i: usize = 0;
        while i < self.ghosts.len()
            invariant
                i <= self.ghosts.len(),
                n@ == name@,
                forall|j: int| 0 <= j < i ==> (#[trigger] self.ghosts@[j]).0.name@ != name@,
            decreases self.ghosts.len() - i,
        {
            let gn = chars_of(self.ghosts[i].0.name.as_str());
            if chars_eq(gn.as_slice(), n.as_slice()) {
                return Some(self.ghosts[i].1);
            }
            i = i + 1;
        }
        None
    }
}

proof fn lemma_filter_member(g: Seq<(DeviceView, u64)>, p: spec_fn((DeviceView, u64)) -> bool, e: (DeviceView, u64))
    requires
        g.filter(p).contains(e),
    ensures
        g.contains(e),
        p(e),
{
    broadcast use vstd::seq_lib::group_filter_ensures;

    g.lemma_filter_contains_rev(p, e);
    let k = choose|k: int| 0 <= k < g.filter(p).len() && g.filter(p)[k] == e;
    g.lemma_filter_pred(p, k);
}

proof fn lemma_dropping(g: Seq<(DeviceView, u64)>, names: Seq<Seq<char>>)
    requires
        ghost_names_unique(g),
    ensures
        ghost_names_unique(ghosts_dropping(g, names)),
        forall|e: (DeviceView, u64)|
            #[trigger] ghosts_dropping(g, names).contains(e) ==> g.contains(e) && !names.contains(
                e.0.name,
            ),
    decreases names.len(),
{
    if names.len() > 0 {
        let t = names.drop_last();
        let n = names.last();
        lemma_dropping(g, t);
        let p = |e: (DeviceView, u64)| e.0.name != n;
        lemma_filter_unique(ghosts_dropping(g, t), p);
        assert forall|e: (DeviceView, u64)|
            #[trigger] ghosts_dropping(g, names).contains(e) implies g.contains(e) && !names.contains(
            e.0.name,
        ) by {
            lemma_filter_member(ghosts_dropping(g, t), p, e);
            assert(ghosts_dropping(g, t).contains(e));
            if names.contains(e.0.name) {
                let k = choose|k: int| 0 <= k < names.len() && names[k] == e.0.name;
                if k < t.len() {
                    assert(t[k] == names[k]);
                }
            }
        }
    }
}

proof fn lemma_adding(g: Seq<(DeviceView, u64)>, removed: Seq<DeviceView>, now: u64)
    requires
        ghost_names_unique(g),
    ensures
        ghost_names_unique(ghosts_adding(g, removed, now)),
        forall|e: (DeviceView, u64)|
            #[trigger] ghosts_adding(g, removed, now).contains(e) ==> g.contains(e) || (
            removed.contains(e.0) && e.1 == now),
        forall|i: int|
            0 <= i < removed.len() ==> exists|k: int|
                0 <= k < ghosts_adding(g, removed, now).len() && (#[trigger] ghosts_adding(
                    g,
                    removed,
                    now,
                )[k]).0.name == (#[trigger] removed[i]).name && ghosts_adding(g, removed, now)[k].1 == now,
    decreases removed.len(),
{
    broadcast use vstd::seq_lib::group_filter_ensures;

    if removed.len() > 0 {
        let t = removed.drop_last();
        let x = removed.last();
        let prev = ghosts_adding(g, t, now);
        lemma_adding(g, t, now);
        let p = |e: (DeviceView, u64)| e.0.name != x.name;
        lemma_filter_unique(prev, p);
        let w = prev.filter(p);
        let r = w.push((x, now));
        assert(r == ghosts_adding(g, removed, now));
        assert forall|i: int, j: int| 0 <= i < j < r.len() implies (#[trigger] r[i]).0.name != (
        #[trigger] r[j]).0.name by {
            if j == w.len() {
                assert(w.contains(w[i]));
                lemma_filter_member(prev, p, w[i]);
            } else {
                assert(r[i] == w[i] && r[j] == w[j]);
            }
        }
        assert forall|e: (DeviceView, u64)| #[trigger] r.contains(e) implies g.contains(e) || (
        removed.contains(e.0) && e.1 == now) by {
            let k = choose|k: int| 0 <= k < r.len() && r[k] == e;
            if k < w.len() {
                assert(w[k] == e);
                assert(w.contains(e));
                lemma_filter_member(prev, p, e);
                if !g.contains(e) {
                    let m = choose|m: int| 0 <= m < t.len() && t[m] == e.0;
                    assert(removed[m] == e.0);
                }
            } else {
                assert(removed[removed.len() - 1] == x);
            }
        }
        assert forall|i: int| 0 <= i < removed.len() implies exists|k: int|
            0 <= k < r.len() && (#[trigger] r[k]).0.name == (#[trigger] removed[i]).name && r[k].1 == now by {
            if i == removed.len() - 1 || removed[i].name == x.name {
                assert(r[w.len() as int] == (x, now));
            } else {
                assert(t[i] == removed[i]);
                let k = choose|k: int|
                    0 <= k < prev.len() && (#[trigger] prev[k]).0.name == t[i].name && prev[k].1 == now;
                assert(p(prev[k]));
                prev.lemma_filter_contains(p, k);
                let m = choose|m: int| 0 <= m < w.len() && w[m] == prev[k];
                assert(r[m] == w[m]);
            }
        }
    }
}

/// What a rescan leaves of the ghosts and highlights: ghost names stay
/// unique; every removed device is a ghost that left now; no ghost is older
/// than [`HIGHLIGHT_TTL_MS`]; a device that came back, and did not also
/// leave, has no ghost; every added device is highlighted as of now.
pub proof fn lemma_record(
    g: Seq<(DeviceView, u64)>,
    f: Map<Seq<char>, u64>,
    added: Seq<Seq<char>>,
    removed: Seq<DeviceView>,
    now: u64,
)
    requires
        ghost_names_unique(g),
    ensures
        ({
            let r = recent_ghosts(ghosts_adding(ghosts_dropping(g, added), removed, now), now);
            &&& ghost_names_unique(r)
            &&& forall|i: int|
                0 <= i < removed.len() ==> exists|k: int|
                    0 <= k < r.len() && (#[trigger] r[k]).0.name == (#[trigger] removed[i]).name && r[k].1 == now
            &&& forall|k: int| 0 <= k < r.len() ==> is_recent(now, HIGHLIGHT_TTL_MS, (#[trigger] r[k]).1)
            &&& forall|k: int|
                0 <= k < r.len() && added.contains((#[trigger] r[k]).0.name) ==> removed.contains(r[k].0)
        }),
        forall|i: int|
            0 <= i < added.len() ==> recent_part(flash_adding(f, added, now), now, HIGHLIGHT_TTL_MS)
                .contains_key(#[trigger] added[i]) && recent_part(
                flash_adding(f, added, now),
                now,
                HIGHLIGHT_TTL_MS,
            )[added[i]] == now,
{
    broadcast use vstd::seq_lib::group_filter_ensures;

    let d = ghosts_dropping(g, added);
    lemma_dropping(g, added);
    let a = ghosts_adding(d, removed, now);
    lemma_adding(d, removed, now);
    let p = |e: (DeviceView, u64)| is_recent(now, HIGHLIGHT_TTL_MS, e.1);
    lemma_filter_unique(a, p);
    let r = a.filter(p);
    assert forall|i: int| 0 <= i < removed.len() implies exists|k: int|
        0 <= k < r.len() && (#[trigger] r[k]).0.name == (#[trigger] removed[i]).name && r[k].1 == now by {
        let k = choose|k: int| 0 <= k < a.len() && (#[trigger] a[k]).0.name == removed[i].name && a[k].1 == now;
        a.lemma_filter_contains(p, k);
        let m = choose|m: int| 0 <= m < r.len() && r[m] == a[k];
    }
    assert forall|k: int| 0 <= k < r.len() implies is_recent(now, HIGHLIGHT_TTL_MS, (#[trigger] r[k]).1) by {
        a.lemma_filter_pred(p, k);
    }
    assert forall|k: int| 0 <= k < r.len() && added.contains((#[trigger] r[k]).0.name) implies removed.contains(
        r[k].0,
    ) by {
        assert(r.contains(r[k]));
        lemma_filter_member(a, p, r[k]);
        if !removed.contains(r[k].0) || r[k].1 != now {
            assert(d.contains(r[k]));
        }
    }
    lemma_flash_adding(f, added, now);
}

proof fn lemma_flash_adding(f: Map<Seq<char>, u64>, added: Seq<Seq<char>>, now: u64)
    ensures
        forall|i: int|
            0 <= i < added.len() ==> recent_part(flash_adding(f, added, now), now, HIGHLIGHT_TTL_MS)
                .contains_key(#[trigger] added[i]) && recent_part(
                flash_adding(f, added, now),
                now,
                HIGHLIGHT_TTL_MS,
            )[added[i]] == now,
    decreases added.len(),
{
    if added.len() > 0 {
        let t = added.drop_last();
        lemma_flash_adding(f, t, now);
        assert forall|i: int|
            0 <= i < added.len() implies flash_adding(f, added, now).contains_key(#[trigger] added[i])
            && flash_adding(f, added, now)[added[i]] == now by {
            if i < t.len() && added[i] != added.last() {
                assert(t[i] == added[i]);
                assert(recent_part(flash_adding(f, t, now), now, HIGHLIGHT_TTL_MS).contains_key(t[i]));
            }
        }
    }
}

// ---------------------------------------------------------------------------
// Activity history

/// A device's history after a sample of `rate`: appended, the oldest sample
/// dropped beyond [`HISTORY`].
pub open spec fn history_push(h: Seq<u64>, rate: u64) -> Seq<u64> {
    let p = h.push(rate);
    if p.len() > HISTORY {
        p.drop_first()
    } else {
        p
    }
}

/// The rate sampled for `k`, 0 when none was.
pub open spec fn rate_of(rates: Map<Seq<char>, u64>, k: Seq<char>) -> u64 {
    if rates.contains_key(k) {
        rates[k]
    } else {
        0
    }
}

/// The histories as sequences.
pub open spec fn history_views(m: Map<Seq<char>, Vec<u64>>) -> Map<Seq<char>, Seq<u64>> {
    Map::new(|k: Seq<char>| m.contains_key(k), |k: Seq<char>| m[k]@)
}

/// The histories after the first `n` devices of `ds` took their sample.
pub open spec fn histories_after(
    m: Map<Seq<char>, Seq<u64>>,
    ds: Seq<DeviceView>,
    rates: Map<Seq<char>, u64>,
    n: int,
) -> Map<Seq<char>, Seq<u64>>
    decreases n,
{
    if n <= 0 {
        m
    } else {
        let prev = histories_after(m, ds, rates, n - 1);
        let k = ds[n - 1].name;
        let h = if prev.contains_key(k) {
            prev[k]
        } else {
            seq![]
        };
        prev.insert(k, history_push(h, rate_of(rates, k)))
    }
}

/// Appends each device's sampled rate (0 when it has none) to its history.
pub fn record_rates(hist: &mut NameMap<Vec<u64>>, devices: &[Device], rates: &NameMap<u64>)
    ensures
        history_views(final(hist)@) == histories_after(
            history_views(old(hist)@),
            crate::usb::device_views(devices@),
            rates@,
            devices.len() as int,
        ),
{
    let ghost ds = crate::usb::device_views(devices@);
    let ghost m0 = history_views(hist@);
    let mut i: usize = 0;
    while i < devices.len()
        invariant
            i <= devices.len(),
            ds == crate::usb::device_views(devices@),
            history_views(hist@) == histories_after(m0, ds, rates@, i as int),
        decreases devices.len() - i,
    {
        let ghost before = hist@;
        let name = devices[i].name.as_str();
        assert(ds[i as int].name == name@);
        let mut h = match hist.take(name) {
            Some(v) => v,
            None => Vec::new(),
        };
        let rate = match rates.get(name) {
            Some(r) => *r,
            None => 0,
        };
        h.push(rate);
        if h.len() > HISTORY {
            h.remove(0);
        }
        let ghost hv = h@;
        hist.insert(devices[i].name.clone(), h);
        proof {
            let prev = history_views(before);
            let k = name@;
            let old_h = if prev.contains_key(k) {
                prev[k]
            } else {
                seq![]
            };
            assert(hv =~= history_push(old_h, rate_of(rates@, k)));
            assert(history_views(hist@) =~= prev.insert(k, history_push(old_h, rate_of(rates@, k))));
        }
        i = i + 1;
    }
}

/// A name is kept in the histories: a device of the scan or a ghost has it.
pub open spec fn history_kept(ds: Seq<DeviceView>, ghosts: Seq<(DeviceView, u64)>, k: Seq<char>) -> bool {
    (exists|i: int| 0 <= i < ds.len() && (#[trigger] ds[i]).name == k) || (exists|i: int|
        0 <= i < ghosts.len() && (#[trigger] ghosts[i]).0.name == k)
}

/// The histories that a rescan keeps: those of the devices `ds` and of the
/// ghosts.
pub open spec fn histories_kept(
    m: Map<Seq<char>, Seq<u64>>,
    ds: Seq<DeviceView>,
    ghosts: Seq<(DeviceView, u64)>,
) -> Map<Seq<char>, Seq<u64>> {
    Map::new(|k: Seq<char>| m.contains_key(k) && history_kept(ds, ghosts, k), |k: Seq<char>| m[k])
}

/// One of the first `j` names is `k`.
pub open spec fn named_in(names: Seq<String>, j: int, k: Seq<char>) -> bool {
    exists|q: int| 0 <= q < j && (#[trigger] names[q])@ == k
}

fn has_name(devices: &[Device], ghosts: &[(Device, u64)], name: &[char]) -> (b: bool)
    ensures
        b == history_kept(crate::usb::device_views(devices@), ghost_views(ghosts@), name@),
{
    let ghost ds = crate::usb::device_views(devices@);
    let ghost gv = ghost_views(ghosts@);
    let mut i: usize = 0;
    while i < devices.len()
        invariant
            i <= devices.len(),
            ds == crate::usb::device_views(devices@),
            forall|j: int| 0 <= j < i ==> (#[trigger] ds[j]).name != name@,
        decreases devices.len() - i,
    {
        let n = chars_of(devices[i].name.as_str());
        assert(ds[i as int].name == n@);
        if chars_eq(n.as_slice(), name) {
            return true;
        }
        i = i + 1;
    }
    let mut j: usize = 0;
    while j < ghosts.len()
        invariant
            j <= ghosts.len(),
            gv == ghost_views(ghosts@),
            forall|k: int| 0 <= k < j ==> (#[trigger] gv[k]).0.name != name@,
        decreases ghosts.len() - j,
    {
        let n = chars_of(ghosts[j].0.name.as_str());
        assert(gv[j as int].0.name == n@);
        if chars_eq(n.as_slice(), name) {
            return true;
        }
        j = j + 1;
    }
    false
}

/// Keeps the history of present devices and of still-fading ghosts (whose
/// old data stays frozen); forgets the rest.
pub fn keep_histories(hist: &mut NameMap<Vec<u64>>, devices: &[Device], ghosts: &[(Device, u64)])
    ensures
        final(hist)@ == Map::new(
            |k: Seq<char>|
                old(hist)@.contains_key(k) && history_kept(
                    crate::usb::device_views(devices@),
                    ghost_views(ghosts@),
                    k,
                ),
            |k: Seq<char>| old(hist)@[k],
        ),
        history_views(final(hist)@) == histories_kept(
            history_views(old(hist)@),
            crate::usb::device_views(devices@),
            ghost_views(ghosts@),
        ),
{
    let ghost m0 = hist@;
    let ghost ds = crate::usb::device_views(devices@);
    let ghost gv = ghost_views(ghosts@);
    let mut names: Vec<String> = Vec::new();
    let es = hist.entries();
    let mut i: usize = 0;
    while i < es.len()
        invariant
            i <= es.len(),
            names.len() == i,
            forall|j: int| 0 <= j < i ==> (#[trigger] names@[j])@ == es@[j].0@,
        decreases es.len() - i,
    {
        names.push(es[i].0.clone());
        i = i + 1;
    }
    let mut j: usize = 0;
    while j < names.len()
        invariant
            j <= names.len(),
            ds == crate::usb::device_views(devices@),
            gv == ghost_views(ghosts@),
            hist@ == Map::new(
                |k: Seq<char>| m0.contains_key(k) && (history_kept(ds, gv, k) || !named_in(names@, j as int, k)),
                |k: Seq<char>| m0[k],
            ),
        decreases names.len() - j,
    {
        let n = chars_of(names[j].as_str());
        let ghost before = hist@;
        if !has_name(devices, ghosts, n.as_slice()) {
            hist.remove(names[j].as_str());
        }
        proof {
            assert forall|k: Seq<char>| #[trigger] named_in(names@, j + 1, k) == (named_in(names@, j as int, k)
                || names@[j as int]@ == k) by {
                if names@[j as int]@ == k {
                    assert(0 <= j < j + 1 && names@[j as int]@ == k);
                }
                if named_in(names@, j + 1, k) && names@[j as int]@ != k {
                    let q = choose|q: int| 0 <= q < j + 1 && (#[trigger] names@[q])@ == k;
                    assert(q < j);
                }
            }
            assert(hist@ =~= Map::new(
                |k: Seq<char>| m0.contains_key(k) && (history_kept(ds, gv, k) || !named_in(names@, j + 1, k)),
                |k: Seq<char>| m0[k],
            ));
        }
        j = j + 1;
    }
    proof {
        assert(hist@ =~= Map::new(
            |k: Seq<char>| m0.contains_key(k) && history_kept(ds, gv, k),
            |k: Seq<char>| m0[k],
        )) by {
            assert forall|k: Seq<char>| m0.contains_key(k) implies #[trigger] named_in(names@, names.len() as int, k) by {
                let q = choose|q: int| crate::namemap::entry_at(es@, q, k);
                assert(names@[q]@ == k);
            }
        }
        assert(history_views(hist@) =~= histories_kept(history_views(m0), ds, gv));
    }
}

/// Every history holds at most [`HISTORY`] samples, and after a sample each
/// device's history ends with the rate just sampled for it.
pub proof fn lemma_histories_bounded(
    m: Map<Seq<char>, Seq<u64>>,
    ds: Seq<DeviceView>,
    rates: Map<Seq<char>, u64>,
    n: int,
)
    requires
        0 <= n <= ds.len(),
        forall|k: Seq<char>| #[trigger] m.contains_key(k) ==> m[k].len() <= HISTORY,
    ensures
        forall|k: Seq<char>|
            #[trigger] histories_after(m, ds, rates, n).contains_key(k) ==> histories_after(
                m,
                ds,
                rates,
                n,
            )[k].len() <= HISTORY,
        forall|i: int|
            0 <= i < n ==> histories_after(m, ds, rates, n).contains_key((#[trigger] ds[i]).name)
                && histories_after(m, ds, rates, n)[ds[i].name].last() == rate_of(rates, ds[i].name),
    decreases n,
{
    if n > 0 {
        lemma_histories_bounded(m, ds, rates, n - 1);
        let prev = histories_after(m, ds, rates, n - 1);
        let k = ds[n - 1].name;
        let h = if prev.contains_key(k) {
            prev[k]
        } else {
            seq![]
        };
        assert(h.len() <= HISTORY);
        assert(history_push(h, rate_of(rates, k)).len() <= HISTORY);
        assert(histories_after(m, ds, rates, n) == prev.insert(k, history_push(h, rate_of(rates, k))));
    }
}

// ---------------------------------------------------------------------------
// Selection and folding

/// The name of the device on row `sel` of `rows`, if that row exists.
pub open spec fn name_at(sel: Option<usize>, rows: Seq<(usize, usize)>, ds: Seq<DeviceView>) -> Option<
    Seq<char>,
> {
    match sel {
        Some(s) => if s < rows.len() {
            Some(ds[rows[s as int].1 as int].name)
        } else {
            None
        },
        None => None,
    }
}

/// Every row points at a device of `ds`.
pub open spec fn rows_point_into(rows: Seq<(usize, usize)>, n: int) -> bool {
    forall|r: int| 0 <= r < rows.len() ==> (#[trigger] rows[r]).1 < n
}

/// The name of the selected device, to find it again after the rows change.
pub fn selected_name(sel: Option<usize>, rows: &[(usize, usize)], devices: &[Device]) -> (r: Option<String>)
    requires
        rows_point_into(rows@, devices.len() as int),
    ensures
        match r {
            Some(n) => name_at(sel, rows@, crate::usb::device_views(devices@)) == Some(n@),
            None => name_at(sel, rows@, crate::usb::device_views(devices@)) is None,
        },
{
    match sel {
        Some(s) => {
            if s < rows.len() {
                Some(devices[rows[s].1].name.clone())
            } else {
                None
            }
        },
        None => None,
    }
}

/// The first row showing a device named `n`.
pub open spec fn first_row_named(rows: Seq<(usize, usize)>, ds: Seq<DeviceView>, n: Seq<char>, p: int) -> bool {
    0 <= p < rows.len() && ds[rows[p].1 as int].name == n && forall|q: int|
        0 <= q < p ==> ds[(#[trigger] rows[q]).1 as int].name != n
}

/// Where the selection lands after the rows changed: on the first row
/// showing the device that was selected, else the top; nowhere in an empty
/// list.
pub open spec fn reselected(
    rows: Seq<(usize, usize)>,
    ds: Seq<DeviceView>,
    name: Option<Seq<char>>,
    r: Option<usize>,
) -> bool {
    if rows.len() == 0 {
        r is None
    } else {
        match r {
            Some(p) => match name {
                Some(n) => first_row_named(rows, ds, n, p as int) || (p == 0 && forall|q: int|
                    0 <= q < rows.len() ==> ds[(#[trigger] rows[q]).1 as int].name != n),
                None => p == 0,
            },
            None => false,
        }
    }
}

/// The selection after the rows changed, given the name of the device
/// that was selected.
pub fn reselect(rows: &[(usize, usize)], devices: &[Device], name: &Option<String>) -> (r: Option<usize>)
    requires
        rows_point_into(rows@, devices.len() as int),
    ensures
        reselected(rows@, crate::usb::device_views(devices@), name.deep_view(), r),
{
    let ghost ds = crate::usb::device_views(devices@);
    if rows.len() == 0 {
        return None;
    }
    match name {
        Some(n) => {
            let target = chars_of(n.as_str());
            let mut i: usize = 0;
            while i < rows.len()
                invariant
                    i <= rows.len(),
                    ds == crate::usb::device_views(devices@),
                    rows_point_into(rows@, devices.len() as int),
                    target@ == n@,
                    name.deep_view() == Some(n@),
                    forall|q: int| 0 <= q < i ==> ds[(#[trigger] rows@[q]).1 as int].name != n@,
                decreases rows.len() - i,
            {
                let c = chars_of(devices[rows[i].1].name.as_str());
                assert(ds[rows@[i as int].1 as int] == devices@[rows@[i as int].1 as int]@);
                if chars_eq(c.as_slice(), target.as_slice()) {
                    assert(first_row_named(rows@, ds, n@, i as int));
                    return Some(i);
                }
                i = i + 1;
            }
            Some(0)
        },
        None => Some(0),
    }
}

/// The folded names as a set.
pub open spec fn collapsed_set(c: Seq<String>) -> Set<Seq<char>> {
    Set::new(|n: Seq<char>| is_collapsed(c, n))
}

/// Whether folding changes the subtree of `name`: only a device with
/// children folds, and `want` (`None`: toggle) must differ from its state.
pub open spec fn fold_changes(c: Seq<String>, name: Seq<char>, kids: nat, want: Option<bool>) -> bool {
    let folded = is_collapsed(c, name);
    kids > 0 && match want {
        Some(w) => w != folded,
        None => true,
    }
}

/// `None` toggles, `Some(true)` folds, `Some(false)` unfolds the subtree of
/// the device `name` among `devices`; says whether anything changed.
pub fn fold(collapsed: &mut Vec<String>, devices: &[Device], name: &str, want: Option<bool>) -> (changed: bool)
    ensures
        changed == fold_changes(old(collapsed)@, name@, count_children(crate::usb::device_views(devices@), name@), want),
        collapsed_set(final(collapsed)@) == (if !changed {
            collapsed_set(old(collapsed)@)
        } else if is_collapsed(old(collapsed)@, name@) {
            collapsed_set(old(collapsed)@).remove(name@)
        } else {
            collapsed_set(old(collapsed)@).insert(name@)
        }),
{
    let kids = crate::tree::child_count(devices, name);
    if kids == 0 {
        return false;
    }
    let target = chars_of(name);
    let ghost c0 = collapsed@;
    let mut folded = false;
    let mut i: usize = 0;
    while i < collapsed.len()
        invariant
            i <= collapsed.len(),
            target@ == name@,
            folded == exists|j: int| 0 <= j < i && (#[trigger] collapsed@[j])@ == name@,
        decreases collapsed.len() - i,
    {
        let c = chars_of(collapsed[i].as_str());
        if chars_eq(c.as_slice(), target.as_slice()) {
            folded = true;
        }
        i = i + 1;
    }
    let target_state = match want {
        Some(w) => w,
        None => !folded,
    };
    if target_state == folded {
        return false;
    }
    if folded {
        let mut kept: Vec<String> = Vec::new();
        let mut k: usize = 0;
        while k < collapsed.len()
            invariant
                k <= collapsed.len(),
                collapsed@ == c0,
                target@ == name@,
                forall|n: Seq<char>| #[trigger] is_collapsed(kept@, n) == (n != name@ && exists|j: int|
                    0 <= j < k && (#[trigger] c0[j])@ == n),
            decreases collapsed.len() - k,
        {
            let c = chars_of(collapsed[k].as_str());
            let ghost before = kept@;
            if !chars_eq(c.as_slice(), target.as_slice()) {
                kept.push(collapsed[k].clone());
                proof {
                    assert forall|n: Seq<char>| #[trigger] is_collapsed(kept@, n) == (n != name@
                        && exists|j: int| 0 <= j < k + 1 && (#[trigger] c0[j])@ == n) by {
                        if is_collapsed(kept@, n) {
                            let j = choose|j: int| 0 <= j < kept@.len() && (#[trigger] kept@[j])@ == n;
                            if j < before.len() {
                                assert(kept@[j] == before[j]);
                                assert(is_collapsed(before, n));
                            }
                        }
                        if n != name@ && exists|j: int| 0 <= j < k + 1 && (#[trigger] c0[j])@ == n {
                            let j = choose|j: int| 0 <= j < k + 1 && (#[trigger] c0[j])@ == n;
                            if j < k {
                                assert(is_collapsed(before, n));
                                let m = choose|m: int| 0 <= m < before.len() && (#[trigger] before[m])@ == n;
                                assert(kept@[m] == before[m]);
                            } else {
                                assert(kept@[before.len() as int]@ == n);
                            }
                        }
                    }
                }
            } else {
                proof {
                    assert forall|n: Seq<char>| #[trigger] is_collapsed(kept@, n) == (n != name@
                        && exists|j: int| 0 <= j < k + 1 && (#[trigger] c0[j])@ == n) by {
                        if n != name@ && exists|j: int| 0 <= j < k + 1 && (#[trigger] c0[j])@ == n {
                            let j = choose|j: int| 0 <= j < k + 1 && (#[trigger] c0[j])@ == n;
                            assert(j < k);
                        }
                    }
                }
            }
            k = k + 1;
        }
        *collapsed = kept;
        proof {
            assert(collapsed_set(collapsed@) =~= collapsed_set(c0).remove(name@));
        }
    } else {
        collapsed.push(name.to_string());
        proof {
            assert(collapsed@.last()@ == name@);
            assert forall|n: Seq<char>| #[trigger] is_collapsed(collapsed@, n) == (is_collapsed(c0, n) || n == name@) by {
                if is_collapsed(collapsed@, n) {
                    let j = choose|j: int| 0 <= j < collapsed@.len() && (#[trigger] collapsed@[j])@ == n;
                    if j < c0.len() {
                        assert(collapsed@[j] == c0[j]);
                    }
                }
                if is_collapsed(c0, n) {
                    let j = choose|j: int| 0 <= j < c0.len() && (#[trigger] c0[j])@ == n;
                    assert(collapsed@[j] == c0[j]);
                }
                if n == name@ {
                    assert(collapsed@[c0.len() as int]@ == n);
                }
            }
            assert(collapsed_set(collapsed@) =~= collapsed_set(c0).insert(name@));
        }
    }
    true
}

// ---------------------------------------------------------------------------
// A rescan as a whole

/// The names of some devices.
pub open spec fn names_of_views(ds: Seq<DeviceView>) -> Seq<Seq<char>> {
    ds.map_values(|d: DeviceView| d.name)
}

/// The log holds `n` events after a rescan: every event of the rescan and
/// the older ones, up to [`LOG_CAP`].
pub open spec fn capped_len(n: int) -> int {
    if n > LOG_CAP {
        LOG_CAP as int
    } else {
        n
    }
}

/// What a rescan from the devices `old` to `new` leaves, taken as a whole.
/// One event is logged per added and per removed device (`added_events`,
/// `removed_events`), on a log of `log`; the ghosts `ghosts` and highlights
/// `flash` move on at `now`; each device of `new` takes its sample of
/// `rates` in the histories `hist`, which then keep only present devices and
/// ghosts; the tree shows `new` and then the ghosts, and its rows become
/// `new_rows`, where the selection is found again (`selected`) by the name
/// of the device that row `sel` of `rows` showed in `render`. Then:
/// the log holds every event of the rescan and the older ones, at most
/// [`LOG_CAP`]; each device's history ends with its sample and no history
/// is longer than [`HISTORY`]; each kept history belongs to a present
/// device or a ghost; ghost names stay unique; every added device is
/// highlighted as of `now`; and nothing is selected exactly when the tree
/// is empty, else the selected row exists.
pub proof fn lemma_rescan<T>(
    old: Seq<DeviceView>,
    new: Seq<DeviceView>,
    log: Seq<T>,
    added_events: Seq<T>,
    removed_events: Seq<T>,
    ghosts: Seq<(DeviceView, u64)>,
    flash: Map<Seq<char>, u64>,
    now: u64,
    hist: Map<Seq<char>, Seq<u64>>,
    rates: Map<Seq<char>, u64>,
    rows: Seq<(usize, usize)>,
    render: Seq<DeviceView>,
    sel: Option<usize>,
    new_rows: Seq<(usize, usize)>,
    selected: Option<usize>,
)
    requires
        added_events.len() == missing_from(new, old).len(),
        removed_events.len() == missing_from(old, new).len(),
        ghost_names_unique(ghosts),
        forall|k: Seq<char>| #[trigger] hist.contains_key(k) ==> hist[k].len() <= HISTORY,
        reselected(
            new_rows,
            new + recent_ghosts(
                ghosts_adding(
                    ghosts_dropping(ghosts, names_of_views(missing_from(new, old))),
                    missing_from(old, new),
                    now,
                ),
                now,
            ).map_values(|e: (DeviceView, u64)| e.0),
            name_at(sel, rows, render),
            selected,
        ),
    ensures
        ({
            let added = missing_from(new, old);
            let removed = missing_from(old, new);
            let g = recent_ghosts(ghosts_adding(ghosts_dropping(ghosts, names_of_views(added)), removed, now), now);
            let f = recent_part(flash_adding(flash, names_of_views(added), now), now, HIGHLIGHT_TTL_MS);
            let h = histories_kept(histories_after(hist, new, rates, new.len() as int), new, g);
            &&& log_after(log, added_events, removed_events).len() == capped_len(
                (log.len() + added.len() + removed.len()) as int,
            )
            &&& forall|i: int|
                0 <= i < new.len() ==> h.contains_key((#[trigger] new[i]).name) && h[new[i].name].last()
                    == rate_of(rates, new[i].name)
            &&& forall|k: Seq<char>| #[trigger] h.contains_key(k) ==> h[k].len() <= HISTORY && history_kept(new, g, k)
            &&& ghost_names_unique(g)
            &&& forall|i: int| 0 <= i < added.len() ==> f.contains_key((#[trigger] added[i]).name) && f[added[i].name] == now
            &&& (selected is None <==> new_rows.len() == 0)
            &&& forall|p: usize| selected == Some(p) ==> p < new_rows.len()
        }),
{
    let added = missing_from(new, old);
    let removed = missing_from(old, new);
    let names = names_of_views(added);
    let g = recent_ghosts(ghosts_adding(ghosts_dropping(ghosts, names), removed, now), now);
    let render2 = new + g.map_values(|e: (DeviceView, u64)| e.0);
    assert(log_after(log, added_events, removed_events).len() == capped_len(
        (log.len() + added.len() + removed.len()) as int,
    )) by {
        lemma_log_len(log, added_events, removed_events);
    }
    let f = recent_part(flash_adding(flash, names, now), now, HIGHLIGHT_TTL_MS);
    assert(ghost_names_unique(g) && forall|i: int|
        0 <= i < added.len() ==> f.contains_key((#[trigger] added[i]).name) && f[added[i].name] == now) by {
        lemma_record(ghosts, flash, names, removed, now);
        assert forall|i: int| 0 <= i < added.len() implies f.contains_key((#[trigger] added[i]).name) && f[added[i].name] == now by {
            assert(names[i] == added[i].name);
        }
    }
    lemma_rescan_histories(hist, new, rates, g);
    lemma_reselected_in_range(new_rows, render2, name_at(sel, rows, render), selected);
}

proof fn lemma_log_len<T>(log: Seq<T>, added: Seq<T>, removed: Seq<T>)
    ensures
        log_after(log, added, removed).len() == capped_len((log.len() + added.len() + removed.len()) as int),
{
    let all = removed.reverse() + added.reverse() + log;
    assert(all.len() == log.len() + added.len() + removed.len());
}

proof fn lemma_rescan_histories(
    hist: Map<Seq<char>, Seq<u64>>,
    new: Seq<DeviceView>,
    rates: Map<Seq<char>, u64>,
    g: Seq<(DeviceView, u64)>,
)
    requires
        forall|k: Seq<char>| #[trigger] hist.contains_key(k) ==> hist[k].len() <= HISTORY,
    ensures
        ({
            let h = histories_kept(histories_after(hist, new, rates, new.len() as int), new, g);
            &&& forall|i: int|
                0 <= i < new.len() ==> h.contains_key((#[trigger] new[i]).name) && h[new[i].name].last()
                    == rate_of(rates, new[i].name)
            &&& forall|k: Seq<char>| #[trigger] h.contains_key(k) ==> h[k].len() <= HISTORY && history_kept(new, g, k)
        }),
{
    let ha = histories_after(hist, new, rates, new.len() as int);
    lemma_histories_bounded(hist, new, rates, new.len() as int);
    let h = histories_kept(ha, new, g);
    assert forall|i: int| 0 <= i < new.len() implies h.contains_key((#[trigger] new[i]).name) && h[new[i].name].last()
        == rate_of(rates, new[i].name) by {
        assert(ha.contains_key(new[i].name));
        assert(history_kept(new, g, new[i].name));
    }
}

proof fn lemma_reselected_in_range(
    rows: Seq<(usize, usize)>,
    ds: Seq<DeviceView>,
    name: Option<Seq<char>>,
    r: Option<usize>,
)
    requires
        reselected(rows, ds, name, r),
    ensures
        r is None <==> rows.len() == 0,
        forall|p: usize| r == Some(p) ==> p < rows.len(),
{
}

} // verus!
