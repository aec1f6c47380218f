//! The port tree: ordering a scan, flattening it into display rows, and
//! telling what changed between two scans.
use vstd::prelude::*;
use crate::text::{
    chars_eq, chars_of, digit_runs, parse_dec_u32, parse_u32, rsplit_once, split_digit_runs,
    split_once, views,
};
use crate::usb::{
    device_views, key_of, is_root_name, parent_chars, parent_of, port_device,
    port_view_of, root_hub_device, root_view_of, usb_prefix, BusInfo, Device, DeviceView, PortInfo,
};

verus! {

/// The length of the longest name in `ds`.
pub open spec fn name_len_bound(ds: Seq<DeviceView>) -> nat
    decreases ds.len(),
{
    if ds.len() == 0 {
        0
    } else {
        let b = name_len_bound(ds.drop_last());
        if ds.last().name.len() > b {
            ds.last().name.len()
        } else {
            b
        }
    }
}

pub proof fn lemma_name_len_bound(ds: Seq<DeviceView>, i: int)
    requires
        0 <= i < ds.len(),
    ensures
        ds[i].name.len() <= name_len_bound(ds),
    decreases ds.len(),
{
    if i < ds.len() - 1 {
        lemma_name_len_bound(ds.drop_last(), i);
    }
}

/// A parent name is a root hub's, or shorter than its child's.
pub proof fn lemma_parent_shorter(c: Seq<char>, p: Seq<char>)
    requires
        parent_of(c) == Some(p),
    ensures
        !is_root_name(c),
        !is_root_name(p) ==> p.len() < c.len(),
{
    let (bus, path) = split_once(c, '-').unwrap();
    match rsplit_once(path, '.') {
        Some((rest, _)) => {
            let j = last_index(path);
            assert(rest.len() == j);
        },
        None => {
            assert((usb_prefix() + bus).take(3) =~= usb_prefix());
        },
    }
}

spec fn last_index(path: Seq<char>) -> int {
    crate::text::last_of(path, '.').unwrap()
}

/// How far a name is from the leaves of the tree of `ds`: every child of a
/// name measures less than it.
pub open spec fn tree_measure(ds: Seq<DeviceView>, n: Seq<char>) -> int {
    if is_root_name(n) {
        name_len_bound(ds) + 2int
    } else {
        name_len_bound(ds) + 1 - n.len()
    }
}

pub proof fn lemma_child_measure(ds: Seq<DeviceView>, i: int, p: Seq<char>)
    requires
        0 <= i < ds.len(),
        parent_of(ds[i].name) == Some(p),
    ensures
        0 < tree_measure(ds, ds[i].name) < tree_measure(ds, p),
{
    lemma_parent_shorter(ds[i].name, p);
    lemma_name_len_bound(ds, i);
}

/// The names that are folded in the tree.
pub open spec fn is_collapsed(c: Seq<String>, n: Seq<char>) -> bool {
    exists|j: int| 0 <= j < c.len() && (#[trigger] c[j])@ == n
}

/// Rows of the subtree under `ds[idx]` at `depth`: the node itself, then,
/// unless it is folded, the subtrees of its children in scan order.
pub open spec fn subtree_rows(ds: Seq<DeviceView>, idx: int, depth: usize, c: Seq<String>) -> Seq<
    (usize, usize),
>
    decreases tree_measure(ds, ds[idx].name), 1int, 0int,
{
    seq![(depth, idx as usize)] + if is_collapsed(c, ds[idx].name) {
        seq![]
    } else {
        children_rows(ds, ds[idx].name, 0, (depth + 1) as usize, c)
    }
}

/// Rows of the subtrees of the children of `p` found from `ds[from]` on.
pub open spec fn children_rows(
    ds: Seq<DeviceView>,
    p: Seq<char>,
    from: int,
    depth: usize,
    c: Seq<String>,
) -> Seq<(usize, usize)>
    decreases tree_measure(ds, p), 0int, ds.len() - from,
{
    if from < 0 || from >= ds.len() {
        seq![]
    } else {
        (if parent_of(ds[from].name) == Some(p) {
            proof {
                lemma_child_measure(ds, from, p);
            }
            subtree_rows(ds, from, depth, c)
        } else {
            seq![]
        }) + children_rows(ds, p, from + 1, depth, c)
    }
}

/// Rows of the trees under the root hubs found from `ds[from]` on.
pub open spec fn root_rows(ds: Seq<DeviceView>, from: int, c: Seq<String>) -> Seq<(usize, usize)>
    decreases ds.len() - from,
{
    if from < 0 || from >= ds.len() {
        seq![]
    } else {
        (if is_root_name(ds[from].name) {
            subtree_rows(ds, from, 0, c)
        } else {
            seq![]
        }) + root_rows(ds, from + 1, c)
    }
}

/// Some device of `ds` is named `n`.
pub open spec fn has_name(ds: Seq<DeviceView>, n: Seq<char>) -> bool {
    exists|j: int| 0 <= j < ds.len() && (#[trigger] ds[j]).name == n
}

/// A device whose parent is missing from the scan: it is shown at root level.
pub open spec fn is_orphan(ds: Seq<DeviceView>, i: int) -> bool {
    !is_root_name(ds[i].name) && match parent_of(ds[i].name) {
        None => true,
        Some(p) => !has_name(ds, p),
    }
}

/// Rows of the trees under the orphans found from `ds[from]` on.
pub open spec fn orphan_rows(ds: Seq<DeviceView>, from: int, c: Seq<String>) -> Seq<
    (usize, usize),
>
    decreases ds.len() - from,
{
    if from < 0 || from >= ds.len() {
        seq![]
    } else {
        (if is_orphan(ds, from) {
            subtree_rows(ds, from, 0, c)
        } else {
            seq![]
        }) + orphan_rows(ds, from + 1, c)
    }
}

/// The (depth, index) rows of the tree: each root hub's subtree depth first,
/// then the subtrees of orphans at root level.
pub open spec fn tree_rows(ds: Seq<DeviceView>, c: Seq<String>) -> Seq<(usize, usize)> {
    root_rows(ds, 0, c) + orphan_rows(ds, 0, c)
}

fn name_chars(d: &Device) -> (n: Vec<char>)
    ensures
        n@ == d.name@,
{
    chars_of(d.name.as_str())
}

fn contains_name(c: &[String], n: &[char]) -> (b: bool)
    ensures
        b == is_collapsed(c@, n@),
{
    let mut j: usize = 0;
    while j < c.len()
        invariant
            j <= c.len(),
            forall|k: int| 0 <= k < j ==> (#[trigger] c@[k])@ != n@,
        decreases c.len() - j,
    {
        let cj = chars_of(c[j].as_str());
        if chars_eq(cj.as_slice(), n) {
            return true;
        }
        j = j + 1;
    }
    false
}

/// The parent of `d` is named `p`.
fn is_child_of(d: &Device, p: &[char]) -> (b: bool)
    ensures
        b == (parent_of(d.name@) == Some(p@)),
{
    let n = name_chars(d);
    match parent_chars(n.as_slice()) {
        Some(q) => chars_eq(q.as_slice(), p),
        None => false,
    }
}

fn push_subtree(
    devices: &[Device],
    idx: usize,
    depth: usize,
    collapsed: &[String],
    rows: &mut Vec<(usize, usize)>,
)
    requires
        idx < devices.len(),
        depth + tree_measure(device_views(devices@), devices@[idx as int].name@) <= usize::MAX,
    ensures
        final(rows)@ == old(rows)@ + subtree_rows(
            device_views(devices@),
            idx as int,
            depth,
            collapsed@,
        ),
    decreases tree_measure(device_views(devices@), devices@[idx as int].name@), 1int, 0int,
{
    let ghost ds = device_views(devices@);
    rows.push((depth, idx));
    let name = name_chars(&devices[idx]);
    assert(ds[idx as int].name == name@);
    if contains_name(collapsed, name.as_slice()) {
        assert(rows@ =~= old(rows)@ + subtree_rows(ds, idx as int, depth, collapsed@));
        return;
    }
    proof {
        lemma_name_len_bound(ds, idx as int);
    }
    let ghost base = rows@;
    let mut i: usize = 0;
    while i < devices.len()
        invariant
            ds == device_views(devices@),
            idx < devices.len(),
            i <= devices.len(),
            name@ == ds[idx as int].name,
            depth + tree_measure(ds, name@) <= usize::MAX,
            1 <= tree_measure(ds, name@),
            rows@ + children_rows(ds, name@, i as int, (depth + 1) as usize, collapsed@)
                == base + children_rows(ds, name@, 0, (depth + 1) as usize, collapsed@),
        decreases devices.len() - i,
    {
        let ghost before = rows@;
        if is_child_of(&devices[i], name.as_slice()) {
            proof {
                lemma_child_measure(ds, i as int, name@);
            }
            push_subtree(devices, i, depth + 1, collapsed, rows);
        }
        assert(before + children_rows(ds, name@, i as int, (depth + 1) as usize, collapsed@)
            =~= rows@ + children_rows(ds, name@, i + 1, (depth + 1) as usize, collapsed@));
        i = i + 1;
    }
    assert(rows@ =~= old(rows)@ + subtree_rows(ds, idx as int, depth, collapsed@));
}


pub proof fn lemma_name_len_bound_attained(ds: Seq<DeviceView>)
    ensures
        name_len_bound(ds) == 0 || exists|i: int|
            0 <= i < ds.len() && (#[trigger] ds[i]).name.len() == name_len_bound(ds),
    decreases ds.len(),
{
    if ds.len() > 0 {
        lemma_name_len_bound_attained(ds.drop_last());
        if name_len_bound(ds) != ds.last().name.len() && name_len_bound(ds) != 0 {
            let i = choose|i: int|
                0 <= i < ds.drop_last().len() && (#[trigger] ds.drop_last()[i]).name.len()
                    == name_len_bound(ds.drop_last());
            assert(ds[i] == ds.drop_last()[i]);
        } else if name_len_bound(ds) != 0 {
            assert(ds[ds.len() - 1].name.len() == name_len_bound(ds));
        }
    }
}

/// Names no longer than `usize::MAX - 2` characters: the depth of a row then
/// always fits a `usize`.
pub open spec fn names_fit(devices: Seq<Device>) -> bool {
    forall|i: int| 0 <= i < devices.len() ==> (#[trigger] devices[i]).name@.len() + 2 <= usize::MAX
}

proof fn lemma_top_depth_fits(devices: Seq<Device>, i: int)
    requires
        names_fit(devices),
        0 <= i < devices.len(),
    ensures
        tree_measure(device_views(devices), devices[i].name@) <= usize::MAX,
{
    let ds = device_views(devices);
    lemma_name_len_bound_attained(ds);
    lemma_name_len_bound(ds, i);
    if name_len_bound(ds) != 0 {
        let j = choose|j: int| 0 <= j < ds.len() && (#[trigger] ds[j]).name.len() == name_len_bound(ds);
        assert(devices[j].name@.len() + 2 <= usize::MAX);
    }
}

/// Some device of `devices` is named `n`.
fn has_device_named(devices: &[Device], n: &[char]) -> (b: bool)
    ensures
        b == has_name(device_views(devices@), n@),
{
    let ghost ds = device_views(devices@);
    let mut j: usize = 0;
    while j < devices.len()
        invariant
            ds == device_views(devices@),
            j <= devices.len(),
            forall|k: int| 0 <= k < j ==> (#[trigger] ds[k]).name != n@,
        decreases devices.len() - j,
    {
        let m = name_chars(&devices[j]);
        if chars_eq(m.as_slice(), n) {
            assert(ds[j as int].name == n@);
            return true;
        }
        j = j + 1;
    }
    false
}

/// DFS-flatten devices into (depth, index) rows for tree rendering.
/// Children of names in `collapsed` are hidden; devices whose parent is
/// missing from the scan are shown at root level.
pub fn flatten(devices: &[Device], collapsed: &[String]) -> (rows: Vec<(usize, usize)>)
    requires
        names_fit(devices@),
    ensures
        rows@ == tree_rows(device_views(devices@), collapsed@),
{
    let ghost ds = device_views(devices@);
    let mut rows: Vec<(usize, usize)> = Vec::new();
    let mut i: usize = 0;
    while i < devices.len()
        invariant
            ds == device_views(devices@),
            names_fit(devices@),
            i <= devices.len(),
            rows@ + root_rows(ds, i as int, collapsed@) == root_rows(ds, 0, collapsed@),
        decreases devices.len() - i,
    {
        let ghost before = rows@;
        if devices[i].is_root_hub() {
            proof {
                lemma_top_depth_fits(devices@, i as int);
            }
            push_subtree(devices, i, 0, collapsed, &mut rows);
        }
        assert(before + root_rows(ds, i as int, collapsed@) =~= rows@ + root_rows(
            ds,
            i + 1,
            collapsed@,
        ));
        i = i + 1;
    }
    assert(rows@ =~= root_rows(ds, 0, collapsed@));
    let ghost base = rows@;
    let mut i: usize = 0;
    while i < devices.len()
        invariant
            ds == device_views(devices@),
            names_fit(devices@),
            i <= devices.len(),
            rows@ + orphan_rows(ds, i as int, collapsed@) == base + orphan_rows(ds, 0, collapsed@),
        decreases devices.len() - i,
    {
        let ghost before = rows@;
        let d = &devices[i];
        let orphan = if d.is_root_hub() {
            false
        } else {
            let n = name_chars(d);
            match parent_chars(n.as_slice()) {
                None => true,
                Some(p) => !has_device_named(devices, p.as_slice()),
            }
        };
        assert(orphan == is_orphan(ds, i as int));
        if orphan {
            proof {
                lemma_top_depth_fits(devices@, i as int);
            }
            push_subtree(devices, i, 0, collapsed, &mut rows);
        }
        assert(before + orphan_rows(ds, i as int, collapsed@) =~= rows@ + orphan_rows(
            ds,
            i + 1,
            collapsed@,
        ));
        i = i + 1;
    }
    assert(rows@ =~= tree_rows(ds, collapsed@));
    rows
}

/// The number of devices in `ds` whose parent is named `n`.
pub open spec fn count_children(ds: Seq<DeviceView>, n: Seq<char>) -> nat
    decreases ds.len(),
{
    if ds.len() == 0 {
        0
    } else {
        count_children(ds.drop_last(), n) + if parent_of(ds.last().name) == Some(n) {
            1nat
        } else {
            0nat
        }
    }
}

/// Direct children count (whole subtree below a collapsed node is hidden,
/// but the badge shows immediate children).
pub fn child_count(devices: &[Device], name: &str) -> (n: usize)
    ensures
        n == count_children(device_views(devices@), name@),
{
    let ghost ds = device_views(devices@);
    let target = chars_of(name);
    let mut n: usize = 0;
    let mut i: usize = 0;
    while i < devices.len()
        invariant
            ds == device_views(devices@),
            target@ == name@,
            i <= devices.len(),
            n == count_children(ds.take(i as int), name@),
            n <= i,
        decreases devices.len() - i,
    {
        assert(ds.take(i + 1).drop_last() =~= ds.take(i as int));
        if is_child_of(&devices[i], target.as_slice()) {
            n = n + 1;
        }
        i = i + 1;
    }
    assert(ds.take(devices.len() as int) =~= ds);
    n
}


// ---------------------------------------------------------------------------
// Hot-plug diff

/// Some device of `ds` has the same key as `d`.
pub open spec fn has_key(ds: Seq<DeviceView>, d: DeviceView) -> bool {
    exists|j: int| 0 <= j < ds.len() && key_of(#[trigger] ds[j]) == key_of(d)
}

/// The devices of `ds`, in order, whose key no device of `others` has.
pub open spec fn missing_from(ds: Seq<DeviceView>, others: Seq<DeviceView>) -> Seq<DeviceView>
    decreases ds.len(),
{
    if ds.len() == 0 {
        seq![]
    } else {
        let rest = missing_from(ds.drop_last(), others);
        if has_key(others, ds.last()) {
            rest
        } else {
            rest.push(ds.last())
        }
    }
}

/// The abstract value of each device of a list of references.
pub open spec fn ref_views(ds: Seq<&Device>) -> Seq<DeviceView> {
    ds.map_values(|d: &Device| d@)
}

fn key_chars(d: &Device) -> (k: Vec<char>)
    ensures
        k@ == key_of(d@),
{
    let k = d.key();
    chars_of(k.as_str())
}

fn has_key_in(keys: &Vec<Vec<char>>, k: &[char], Ghost(ds): Ghost<Seq<DeviceView>>) -> (b: bool)
    requires
        keys.len() == ds.len(),
        forall|j: int| 0 <= j < ds.len() ==> (#[trigger] keys@[j])@ == key_of(ds[j]),
    ensures
        b == exists|j: int| 0 <= j < ds.len() && key_of(#[trigger] ds[j]) == k@,
{
    let mut j: usize = 0;
    while j < keys.len()
        invariant
            keys.len() == ds.len(),
            forall|j: int| 0 <= j < ds.len() ==> (#[trigger] keys@[j])@ == key_of(ds[j]),
            j <= keys.len(),
            forall|m: int| 0 <= m < j ==> key_of(#[trigger] ds[m]) != k@,
        decreases keys.len() - j,
    {
        if chars_eq(keys[j].as_slice(), k) {
            assert(key_of(ds[j as int]) == k@);
            return true;
        }
        j = j + 1;
    }
    false
}

fn all_keys(ds: &[Device]) -> (keys: Vec<Vec<char>>)
    ensures
        keys.len() == ds.len(),
        forall|j: int| 0 <= j < ds.len() ==> (#[trigger] keys@[j])@ == key_of(ds@[j]@),
{
    let mut keys: Vec<Vec<char>> = Vec::new();
    let mut i: usize = 0;
    while i < ds.len()
        invariant
            i <= ds.len(),
            keys.len() == i,
            forall|j: int| 0 <= j < i ==> (#[trigger] keys@[j])@ == key_of(ds@[j]@),
        decreases ds.len() - i,
    {
        keys.push(key_chars(&ds[i]));
        i = i + 1;
    }
    keys
}

fn keep_missing<'a>(ds: &'a [Device], others: &'a [Device]) -> (r: Vec<&'a Device>)
    ensures
        ref_views(r@) == missing_from(device_views(ds@), device_views(others@)),
{
    let ghost os = device_views(others@);
    let ghost vs = device_views(ds@);
    let keys = all_keys(others);
    let mut r: Vec<&'a Device> = Vec::new();
    let mut i: usize = 0;
    while i < ds.len()
        invariant
            os == device_views(others@),
            vs == device_views(ds@),
            keys.len() == os.len(),
            forall|j: int| 0 <= j < os.len() ==> (#[trigger] keys@[j])@ == key_of(os[j]),
            i <= ds.len(),
            ref_views(r@) == missing_from(vs.take(i as int), os),
        decreases ds.len() - i,
    {
        let k = key_chars(&ds[i]);
        assert(vs.take(i + 1).drop_last() =~= vs.take(i as int));
        assert(vs.take(i + 1).last() == ds@[i as int]@);
        let found = has_key_in(&keys, k.as_slice(), Ghost(os));
        if !found {
            r.push(&ds[i]);
            assert(ref_views(r@) =~= missing_from(vs.take(i as int), os).push(ds@[i as int]@));
        }
        i = i + 1;
    }
    assert(vs.take(ds.len() as int) =~= vs);
    r
}

/// Hot-plug diff: (added, removed) relative to `old`.
pub fn diff<'a>(old: &'a [Device], new: &'a [Device]) -> (r: (Vec<&'a Device>, Vec<&'a Device>))
    ensures
        ref_views(r.0@) == missing_from(device_views(new@), device_views(old@)),
        ref_views(r.1@) == missing_from(device_views(old@), device_views(new@)),
{
    let added = keep_missing(new, old);
    let removed = keep_missing(old, new);
    (added, removed)
}


// ---------------------------------------------------------------------------
// Ordering a scan

/// A run of digits as a sort component; one too large for a `u32` counts 0.
pub open spec fn key_num(r: Seq<char>) -> u32 {
    match parse_u32(r) {
        Some(v) => v as u32,
        None => 0,
    }
}

/// Numeric sort key of a name: its runs of digits, so "1-1.10" sorts after
/// "1-1.2" and "usb2" after "usb1".
pub open spec fn sort_key_of(n: Seq<char>) -> Seq<u32> {
    digit_runs(n).map_values(|r: Seq<char>| key_num(r))
}

/// `a < b` in the lexicographic order of `Vec<u32>`.
pub open spec fn lex_lt(a: Seq<u32>, b: Seq<u32>) -> bool
    decreases a.len(),
{
    if b.len() == 0 {
        false
    } else if a.len() == 0 {
        true
    } else if a[0] != b[0] {
        a[0] < b[0]
    } else {
        lex_lt(a.drop_first(), b.drop_first())
    }
}

pub fn sort_key(name: &str) -> (k: Vec<u32>)
    ensures
        k@ == sort_key_of(name@),
{
    let n = chars_of(name);
    let runs = split_digit_runs(n.as_slice());
    let mut k: Vec<u32> = Vec::new();
    let mut i: usize = 0;
    while i < runs.len()
        invariant
            i <= runs.len(),
            views(runs@) == digit_runs(name@),
            k@ == views(runs@).take(i as int).map_values(|r: Seq<char>| key_num(r)),
        decreases runs.len() - i,
    {
        let v = match parse_dec_u32(runs[i].as_slice()) {
            Some(v) => v,
            None => 0,
        };
        assert(views(runs@)[i as int] == runs@[i as int]@);
        k.push(v);
        i = i + 1;
        assert(k@ =~= views(runs@).take(i as int).map_values(|r: Seq<char>| key_num(r)));
    }
    assert(views(runs@).take(runs.len() as int) =~= views(runs@));
    k
}

fn lex_less(a: &[u32], b: &[u32]) -> (r: bool)
    ensures
        r == lex_lt(a@, b@),
{
    let mut i: usize = 0;
    assert(a@.skip(0) =~= a@);
    assert(b@.skip(0) =~= b@);
    while i < a.len() && i < b.len()
        invariant
            i <= a.len(),
            i <= b.len(),
            lex_lt(a@, b@) == lex_lt(a@.skip(i as int), b@.skip(i as int)),
        decreases a.len() - i,
    {
        assert(a@.skip(i as int)[0] == a@[i as int]);
        assert(b@.skip(i as int)[0] == b@[i as int]);
        if a[i] != b[i] {
            return a[i] < b[i];
        }
        assert(a@.skip(i as int).drop_first() =~= a@.skip(i + 1));
        assert(b@.skip(i as int).drop_first() =~= b@.skip(i + 1));
        i = i + 1;
    }
    i < b.len()
}

/// `x` placed into `s` after every element whose key is not greater than its
/// own, walking from the back: one step of a stable insertion sort.
pub open spec fn insert_by_key(s: Seq<DeviceView>, x: DeviceView) -> Seq<DeviceView>
    decreases s.len(),
{
    if s.len() > 0 && lex_lt(sort_key_of(x.name), sort_key_of(s.last().name)) {
        insert_by_key(s.drop_last(), x).push(s.last())
    } else {
        s.push(x)
    }
}

/// `s` stably sorted by the numeric key of the names
/// (`sort_by_key(|d| sort_key(&d.name))`).
pub open spec fn sorted_by_name(s: Seq<DeviceView>) -> Seq<DeviceView>
    decreases s.len(),
{
    if s.len() == 0 {
        seq![]
    } else {
        insert_by_key(sorted_by_name(s.drop_last()), s.last())
    }
}

proof fn lemma_insert_at(s: Seq<DeviceView>, x: DeviceView, j: int)
    requires
        0 <= j <= s.len(),
        forall|k: int|
            j <= k < s.len() ==> lex_lt(sort_key_of(x.name), sort_key_of(#[trigger] s[k].name)),
        j == 0 || !lex_lt(sort_key_of(x.name), sort_key_of(s[j - 1].name)),
    ensures
        insert_by_key(s, x) == s.take(j).push(x) + s.skip(j),
    decreases s.len(),
{
    if j == s.len() {
        assert(s.skip(j) =~= seq![]);
        assert(s.take(j) =~= s);
        assert(s.take(j).push(x) + s.skip(j) =~= s.push(x));
    } else {
        let t = s.drop_last();
        assert(lex_lt(sort_key_of(x.name), sort_key_of(s[s.len() - 1].name)));
        assert forall|k: int|
            j <= k < t.len() implies lex_lt(sort_key_of(x.name), sort_key_of(#[trigger] t[k].name)) by {
            assert(t[k] == s[k]);
        }
        if j > 0 {
            assert(t[j - 1] == s[j - 1]);
        }
        lemma_insert_at(t, x, j);
        assert(t.take(j) =~= s.take(j));
        assert((t.take(j).push(x) + t.skip(j)).push(s.last()) =~= s.take(j).push(x) + s.skip(j));
    }
}

/// Stably sorts devices by the numeric key of their names.
pub fn sort_by_port(devices: Vec<Device>) -> (r: Vec<Device>)
    ensures
        device_views(r@) == sorted_by_name(device_views(devices@)),
{
    let ghost orig = device_views(devices@);
    let mut rest = devices;
    let mut out: Vec<Device> = Vec::new();
    let mut keys: Vec<Vec<u32>> = Vec::new();
    assert(orig.take(0) =~= seq![]);
    assert(orig.skip(0) =~= orig);
    while rest.len() > 0
        invariant
            orig.len() == out.len() + rest.len(),
            device_views(rest@) == orig.skip(out.len() as int),
            device_views(out@) == sorted_by_name(orig.take(out.len() as int)),
            keys.len() == out.len(),
            forall|k: int| 0 <= k < out.len() ==> (#[trigger] keys@[k])@ == sort_key_of(out@[k].name@),
        decreases rest.len(),
    {
        let ghost n = out.len() as int;
        let ghost old_rest = rest@;
        assert(device_views(old_rest)[0] == old_rest[0]@);
        let d = rest.remove(0);
        assert(d@ == orig[n]);
        assert(device_views(rest@) =~= orig.skip(n + 1)) by {
            assert forall|k: int| 0 <= k < rest.len() implies device_views(rest@)[k] == orig.skip(n + 1)[k] by {
                assert(rest@[k] == old_rest[k + 1]);
                assert(device_views(old_rest)[k + 1] == old_rest[k + 1]@);
            }
        }
        let kd = sort_key(d.name.as_str());
        let mut j = out.len();
        while j > 0 && lex_less(kd.as_slice(), keys[j - 1].as_slice())
            invariant
                j <= out.len(),
                keys.len() == out.len(),
                forall|k: int| 0 <= k < out.len() ==> (#[trigger] keys@[k])@ == sort_key_of(out@[k].name@),
                kd@ == sort_key_of(d.name@),
                forall|k: int|
                    j <= k < out.len() ==> lex_lt(sort_key_of(d.name@), sort_key_of(#[trigger] out@[k].name@)),
            decreases j,
        {
            j = j - 1;
        }
        proof {
            let s = device_views(out@);
            assert forall|k: int|
                j <= k < s.len() implies lex_lt(sort_key_of(d@.name), sort_key_of(#[trigger] s[k].name)) by {
                assert(s[k] == out@[k]@);
            }
            if j > 0 {
                assert(s[j - 1] == out@[j - 1]@);
            }
            lemma_insert_at(s, d@, j as int);
            assert(orig.take(n + 1).drop_last() =~= orig.take(n));
        }
        let ghost before = out@;
        out.insert(j, d);
        keys.insert(j, kd);
        proof {
            assert(device_views(out@) =~= device_views(before).take(j as int).push(d@) + device_views(before).skip(j as int));
            assert forall|k: int| 0 <= k < out.len() implies (#[trigger] keys@[k])@ == sort_key_of(out@[k].name@) by {
                if k < j {
                    assert(out@[k] == before[k]);
                } else if k > j {
                    assert(out@[k] == before[k - 1]);
                }
            }
        }
    }
    assert(orig.take(orig.len() as int) =~= orig);
    out
}


/// The devices of an enumeration: a root hub per bus, in bus order; then,
/// if the device list could be read, the devices below the root hubs (those
/// with an empty port chain are the root hubs themselves and are skipped),
/// everything stably sorted by port.
pub open spec fn scan_of(buses: Seq<BusInfo>, ports: Option<Seq<PortInfo>>) -> Seq<DeviceView> {
    let roots = buses.map_values(|b: BusInfo| root_view_of(b));
    match ports {
        None => roots,
        Some(ps) => sorted_by_name(
            roots + ps.filter(|p: PortInfo| p.port_chain@.len() > 0).map_values(|p: PortInfo| port_view_of(p)),
        ),
    }
}

/// The reported devices, if they could be listed.
pub open spec fn listed(ports: Option<Vec<PortInfo>>) -> Option<Seq<PortInfo>> {
    match ports {
        Some(v) => Some(v@),
        None => None,
    }
}

/// Builds the device list of a scan from what the enumeration reported:
/// the buses, and the devices if they could be listed.
pub fn scan_from(buses: Vec<BusInfo>, ports: Option<Vec<PortInfo>>) -> (r: Vec<Device>)
    ensures
        device_views(r@) == scan_of(buses@, listed(ports)),
{
    let ghost bs = buses@;
    let mut devices: Vec<Device> = Vec::new();
    let mut rest = buses;
    let ghost n = bs.len();
    while rest.len() > 0
        invariant
            rest.len() <= n,
            n == bs.len(),
            rest@ == bs.skip(n - rest.len()),
            device_views(devices@) == bs.take(n - rest.len()).map_values(|b: BusInfo| root_view_of(b)),
        decreases rest.len(),
    {
        let ghost k = n - rest.len();
        let ghost before = rest@;
        let b = rest.remove(0);
        assert(b == bs[k]);
        assert(rest@ =~= bs.skip(k + 1)) by {
            assert forall|i: int| 0 <= i < rest.len() implies rest@[i] == bs.skip(k + 1)[i] by {
                assert(rest@[i] == before[i + 1]);
            }
        }
        let d = root_hub_device(b.bus_id.as_str(), b.driver, b.system_name);
        let ghost dv = device_views(devices@);
        devices.push(d);
        assert(d@ =~= root_view_of(bs[k]));
        assert(device_views(devices@) =~= dv.push(d@));
        assert(bs.take(k + 1).map_values(|b: BusInfo| root_view_of(b)) =~= bs.take(k).map_values(
            |b: BusInfo| root_view_of(b),
        ).push(root_view_of(bs[k])));
    }
    assert(bs.take(n as int) =~= bs);
    match ports {
        None => devices,
        Some(ps) => {
            let ghost roots = device_views(devices@);
            let ghost pv = ps@;
            let ghost m = pv.len();
            let ghost keep = |p: PortInfo| p.port_chain@.len() > 0;
            let mut rest = ps;
            while rest.len() > 0
                invariant
                    rest.len() <= m,
                    m == pv.len(),
                    rest@ == pv.skip(m - rest.len()),
                    keep == (|p: PortInfo| p.port_chain@.len() > 0),
                    device_views(devices@) == roots + pv.take(m - rest.len()).filter(keep).map_values(
                        |p: PortInfo| port_view_of(p),
                    ),
                decreases rest.len(),
            {
                proof {
                    reveal(Seq::filter);
                }
                let ghost k = m - rest.len();
                let ghost before = rest@;
                let p = rest.remove(0);
                assert(p == pv[k]);
                assert(rest@ =~= pv.skip(k + 1)) by {
                    assert forall|i: int| 0 <= i < rest.len() implies rest@[i] == pv.skip(k + 1)[i] by {
                        assert(rest@[i] == before[i + 1]);
                    }
                }
                assert(pv.take(k + 1).drop_last() =~= pv.take(k));
                let ghost fk = pv.take(k).filter(keep);
                let ghost dv = device_views(devices@);
                if p.port_chain.len() > 0 {
                    let ghost pk = p;
                    let d = port_device(p);
                    assert(d@ =~= port_view_of(pk));
                    devices.push(d);
                    assert(device_views(devices@) =~= dv.push(d@));
                    assert(fk.push(pk).map_values(|p: PortInfo| port_view_of(p)) =~= fk.map_values(
                        |p: PortInfo| port_view_of(p),
                    ).push(port_view_of(pk)));
                    assert(dv.push(d@) =~= roots + fk.push(pk).map_values(|p: PortInfo| port_view_of(p)));
                }
            }
            assert(pv.take(m as int) =~= pv);
            sort_by_port(devices)
        },
    }
}

// ---------------------------------------------------------------------------
// Laws

/// A scan compared with itself has nothing added and nothing removed.
pub proof fn lemma_diff_self_empty(s: Seq<DeviceView>)
    ensures
        missing_from(s, s) == Seq::<DeviceView>::empty(),
{
    lemma_missing_prefix_empty(s, s.len() as int);
    assert(s.take(s.len() as int) =~= s);
}

proof fn lemma_missing_prefix_empty(s: Seq<DeviceView>, k: int)
    requires
        0 <= k <= s.len(),
    ensures
        missing_from(s.take(k), s) == Seq::<DeviceView>::empty(),
    decreases k,
{
    if k > 0 {
        let t = s.take(k);
        assert(t.drop_last() =~= s.take(k - 1));
        lemma_missing_prefix_empty(s, k - 1);
        assert(key_of(s[k - 1]) == key_of(t.last()));
        assert(has_key(s, t.last()));
    }
}

/// A diff keeps, in their order, exactly the devices whose key the other
/// scan lacks.
pub proof fn lemma_diff_is_filter(ds: Seq<DeviceView>, others: Seq<DeviceView>)
    ensures
        missing_from(ds, others) == ds.filter(|d: DeviceView| !has_key(others, d)),
    decreases ds.len(),
{
    reveal(Seq::filter);
    if ds.len() > 0 {
        lemma_diff_is_filter(ds.drop_last(), others);
    }
}

/// Every device whose key the other scan lacks is reported: a diff misses
/// no added or removed device.
pub proof fn lemma_diff_complete(ds: Seq<DeviceView>, others: Seq<DeviceView>, i: int)
    requires
        0 <= i < ds.len(),
        !has_key(others, ds[i]),
    ensures
        missing_from(ds, others).contains(ds[i]),
    decreases ds.len(),
{
    let rest = missing_from(ds.drop_last(), others);
    if i == ds.len() - 1 {
        assert(missing_from(ds, others) == rest.push(ds[i]));
        assert(missing_from(ds, others)[rest.len() as int] == ds[i]);
    } else {
        assert(ds.drop_last()[i] == ds[i]);
        lemma_diff_complete(ds.drop_last(), others, i);
        let k = choose|k: int| 0 <= k < rest.len() && rest[k] == ds[i];
        assert(missing_from(ds, others)[k] == ds[i]);
    }
}

/// A device reported added is in the new scan and has a key that no device
/// of the old scan has; one reported removed is the other way round.
pub proof fn lemma_diff_members(ds: Seq<DeviceView>, others: Seq<DeviceView>, i: int)
    requires
        0 <= i < missing_from(ds, others).len(),
    ensures
        ds.contains(missing_from(ds, others)[i]),
        !has_key(others, missing_from(ds, others)[i]),
    decreases ds.len(),
{
    let rest = missing_from(ds.drop_last(), others);
    if i < rest.len() {
        lemma_diff_members(ds.drop_last(), others, i);
        let j = choose|j: int| 0 <= j < ds.drop_last().len() && ds.drop_last()[j] == rest[i];
        assert(ds[j] == rest[i]);
    } else {
        assert(ds[ds.len() - 1] == ds.last());
    }
}

/// The rows from `d` on form blocks of subtrees at depth `d`: they start at
/// depth `d`, stay at or below it, and deepen at most one level per row.
pub open spec fn block_at(x: Seq<(usize, usize)>, d: int) -> bool {
    &&& x.len() > 0
    &&& x[0].0 == d
    &&& forall|i: int| 0 <= i < x.len() ==> (#[trigger] x[i]).0 >= d
    &&& forall|i: int| 0 < i < x.len() ==> (#[trigger] x[i]).0 <= x[i - 1].0 + 1
}

pub open spec fn blocks_at(x: Seq<(usize, usize)>, d: int) -> bool {
    x.len() == 0 || block_at(x, d)
}

/// Every row points at a device of a list of `n`.
pub open spec fn rows_in_range(x: Seq<(usize, usize)>, n: int) -> bool {
    forall|i: int| 0 <= i < x.len() ==> (#[trigger] x[i]).1 < n
}

/// A depth sequence as a tree draws it: the first row at the root, each row
/// at most one level deeper than the one before.
pub open spec fn well_formed_rows(x: Seq<(usize, usize)>) -> bool {
    blocks_at(x, 0)
}

proof fn lemma_blocks_concat(a: Seq<(usize, usize)>, b: Seq<(usize, usize)>, d: int, n: int)
    requires
        blocks_at(a, d),
        blocks_at(b, d),
        rows_in_range(a, n),
        rows_in_range(b, n),
    ensures
        blocks_at(a + b, d),
        rows_in_range(a + b, n),
{
    let c = a + b;
    if a.len() > 0 && b.len() > 0 {
        assert forall|i: int| 0 < i < c.len() implies (#[trigger] c[i]).0 <= c[i - 1].0 + 1 by {
            if i < a.len() {
                assert(c[i] == a[i] && c[i - 1] == a[i - 1]);
            } else if i == a.len() {
                assert(c[i] == b[0] && c[i - 1] == a[a.len() - 1]);
            } else {
                assert(c[i] == b[i - a.len()] && c[i - 1] == b[i - 1 - a.len()]);
            }
        }
        assert forall|i: int| 0 <= i < c.len() implies (#[trigger] c[i]).0 >= d by {
            if i < a.len() {
                assert(c[i] == a[i]);
            } else {
                assert(c[i] == b[i - a.len()]);
            }
        }
    } else if a.len() == 0 {
        assert(c =~= b);
    } else {
        assert(c =~= a);
    }
    assert forall|i: int| 0 <= i < c.len() implies (#[trigger] c[i]).1 < n by {
        if i < a.len() {
            assert(c[i] == a[i]);
        } else {
            assert(c[i] == b[i - a.len()]);
        }
    }
}

proof fn lemma_subtree_block(ds: Seq<DeviceView>, idx: int, depth: usize, c: Seq<String>)
    requires
        0 <= idx < ds.len(),
        depth + tree_measure(ds, ds[idx].name) <= usize::MAX,
    ensures
        block_at(subtree_rows(ds, idx, depth, c), depth as int),
        rows_in_range(subtree_rows(ds, idx, depth, c), ds.len() as int),
    decreases tree_measure(ds, ds[idx].name), 1int, 0int,
{
    lemma_name_len_bound(ds, idx);
    let head = seq![(depth, idx as usize)];
    let x = subtree_rows(ds, idx, depth, c);
    if is_collapsed(c, ds[idx].name) {
        assert(x =~= head);
    } else {
        let y = children_rows(ds, ds[idx].name, 0, (depth + 1) as usize, c);
        lemma_children_blocks(ds, ds[idx].name, 0, (depth + 1) as usize, c);
        assert(x == head + y);
        assert forall|i: int| 0 < i < x.len() implies (#[trigger] x[i]).0 <= x[i - 1].0 + 1 by {
            if i == 1 {
                assert(x[1] == y[0]);
            } else {
                assert(x[i] == y[i - 1] && x[i - 1] == y[i - 2]);
            }
        }
        assert forall|i: int| 0 <= i < x.len() implies (#[trigger] x[i]).0 >= depth by {
            if i > 0 {
                assert(x[i] == y[i - 1]);
            }
        }
        assert forall|i: int| 0 <= i < x.len() implies (#[trigger] x[i]).1 < ds.len() by {
            if i > 0 {
                assert(x[i] == y[i - 1]);
            }
        }
    }
}

proof fn lemma_children_blocks(
    ds: Seq<DeviceView>,
    p: Seq<char>,
    from: int,
    depth: usize,
    c: Seq<String>,
)
    requires
        depth + tree_measure(ds, p) <= usize::MAX + 1,
    ensures
        blocks_at(children_rows(ds, p, from, depth, c), depth as int),
        rows_in_range(children_rows(ds, p, from, depth, c), ds.len() as int),
    decreases tree_measure(ds, p), 0int, ds.len() - from,
{
    if !(from < 0 || from >= ds.len()) {
        let here = if parent_of(ds[from].name) == Some(p) {
            lemma_child_measure(ds, from, p);
            lemma_subtree_block(ds, from, depth, c);
            subtree_rows(ds, from, depth, c)
        } else {
            seq![]
        };
        lemma_children_blocks(ds, p, from + 1, depth, c);
        lemma_blocks_concat(
            here,
            children_rows(ds, p, from + 1, depth, c),
            depth as int,
            ds.len() as int,
        );
    }
}

proof fn lemma_top_rows(ds: Seq<DeviceView>, c: Seq<String>, from: int, orphans: bool)
    requires
        forall|i: int| 0 <= i < ds.len() ==> tree_measure(ds, #[trigger] ds[i].name) <= usize::MAX,
    ensures
        orphans ==> blocks_at(orphan_rows(ds, from, c), 0) && rows_in_range(
            orphan_rows(ds, from, c),
            ds.len() as int,
        ),
        !orphans ==> blocks_at(root_rows(ds, from, c), 0) && rows_in_range(
            root_rows(ds, from, c),
            ds.len() as int,
        ),
    decreases ds.len() - from,
{
    if !(from < 0 || from >= ds.len()) {
        assert(tree_measure(ds, ds[from].name) <= usize::MAX);
        lemma_subtree_block(ds, from, 0, c);
        lemma_top_rows(ds, c, from + 1, orphans);
        let sub = subtree_rows(ds, from, 0, c);
        if orphans {
            let here = if is_orphan(ds, from) {
                sub
            } else {
                seq![]
            };
            lemma_blocks_concat(here, orphan_rows(ds, from + 1, c), 0, ds.len() as int);
        } else {
            let here = if is_root_name(ds[from].name) {
                sub
            } else {
                seq![]
            };
            lemma_blocks_concat(here, root_rows(ds, from + 1, c), 0, ds.len() as int);
        }
    }
}

/// The rows of a flattened tree start at the root and deepen at most one
/// level per row, and each points at a device of the scan.
pub proof fn lemma_tree_rows_well_formed(devices: Seq<Device>, c: Seq<String>)
    requires
        names_fit(devices),
    ensures
        well_formed_rows(tree_rows(device_views(devices), c)),
        rows_in_range(tree_rows(device_views(devices), c), devices.len() as int),
{
    let ds = device_views(devices);
    assert forall|i: int| 0 <= i < ds.len() implies tree_measure(ds, #[trigger] ds[i].name)
        <= usize::MAX by {
        lemma_top_depth_fits(devices, i);
    }
    lemma_top_rows(ds, c, 0, true);
    lemma_top_rows(ds, c, 0, false);
    lemma_blocks_concat(root_rows(ds, 0, c), orphan_rows(ds, 0, c), 0, ds.len() as int);
}


/// No row of a folded device is followed by a deeper one: its subtree is
/// hidden.
pub open spec fn folds_hide(x: Seq<(usize, usize)>, ds: Seq<DeviceView>, c: Seq<String>) -> bool {
    forall|r: int|
        0 <= r < x.len() - 1 && is_collapsed(c, ds[(#[trigger] x[r]).1 as int].name) ==> x[r + 1].0
            <= x[r].0
}

proof fn lemma_folds_concat(
    a: Seq<(usize, usize)>,
    b: Seq<(usize, usize)>,
    d: int,
    ds: Seq<DeviceView>,
    c: Seq<String>,
)
    requires
        blocks_at(a, d),
        blocks_at(b, d),
        folds_hide(a, ds, c),
        folds_hide(b, ds, c),
    ensures
        folds_hide(a + b, ds, c),
{
    let x = a + b;
    assert forall|r: int|
        0 <= r < x.len() - 1 && is_collapsed(c, ds[(#[trigger] x[r]).1 as int].name) implies x[r + 1].0
        <= x[r].0 by {
        if r < a.len() - 1 {
            assert(x[r] == a[r] && x[r + 1] == a[r + 1]);
        } else if r == a.len() - 1 {
            assert(x[r] == a[r] && x[r + 1] == b[0]);
        } else {
            assert(x[r] == b[r - a.len()] && x[r + 1] == b[r + 1 - a.len()]);
        }
    }
}

proof fn lemma_subtree_folds(ds: Seq<DeviceView>, idx: int, depth: usize, c: Seq<String>)
    requires
        0 <= idx < ds.len() <= usize::MAX,
        depth + tree_measure(ds, ds[idx].name) <= usize::MAX,
    ensures
        folds_hide(subtree_rows(ds, idx, depth, c), ds, c),
    decreases tree_measure(ds, ds[idx].name), 1int, 0int,
{
    lemma_name_len_bound(ds, idx);
    let head = seq![(depth, idx as usize)];
    let x = subtree_rows(ds, idx, depth, c);
    if is_collapsed(c, ds[idx].name) {
        assert(x =~= head);
    } else {
        let y = children_rows(ds, ds[idx].name, 0, (depth + 1) as usize, c);
        lemma_children_folds(ds, ds[idx].name, 0, (depth + 1) as usize, c);
        assert(x == head + y);
        assert forall|r: int|
            0 <= r < x.len() - 1 && is_collapsed(c, ds[(#[trigger] x[r]).1 as int].name) implies x[r
            + 1].0 <= x[r].0 by {
            assert(x[0] == (depth, idx as usize));
            assert(r > 0);
            assert(x[r] == y[r - 1] && x[r + 1] == y[r]);
        }
    }
}

proof fn lemma_children_folds(ds: Seq<DeviceView>, p: Seq<char>, from: int, depth: usize, c: Seq<String>)
    requires
        ds.len() <= usize::MAX,
        depth + tree_measure(ds, p) <= usize::MAX + 1,
    ensures
        folds_hide(children_rows(ds, p, from, depth, c), ds, c),
    decreases tree_measure(ds, p), 0int, ds.len() - from,
{
    lemma_children_blocks(ds, p, from, depth, c);
    if !(from < 0 || from >= ds.len()) {
        let here = if parent_of(ds[from].name) == Some(p) {
            lemma_child_measure(ds, from, p);
            lemma_subtree_block(ds, from, depth, c);
            lemma_subtree_folds(ds, from, depth, c);
            subtree_rows(ds, from, depth, c)
        } else {
            seq![]
        };
        lemma_children_blocks(ds, p, from + 1, depth, c);
        lemma_children_folds(ds, p, from + 1, depth, c);
        lemma_folds_concat(here, children_rows(ds, p, from + 1, depth, c), depth as int, ds, c);
    }
}

proof fn lemma_top_folds(ds: Seq<DeviceView>, c: Seq<String>, from: int, orphans: bool)
    requires
        ds.len() <= usize::MAX,
        forall|i: int| 0 <= i < ds.len() ==> tree_measure(ds, #[trigger] ds[i].name) <= usize::MAX,
    ensures
        orphans ==> folds_hide(orphan_rows(ds, from, c), ds, c),
        !orphans ==> folds_hide(root_rows(ds, from, c), ds, c),
    decreases ds.len() - from,
{
    lemma_top_rows(ds, c, from, orphans);
    if !(from < 0 || from >= ds.len()) {
        assert(tree_measure(ds, ds[from].name) <= usize::MAX);
        lemma_subtree_block(ds, from, 0, c);
        lemma_subtree_folds(ds, from, 0, c);
        lemma_top_rows(ds, c, from + 1, orphans);
        lemma_top_folds(ds, c, from + 1, orphans);
        let sub = subtree_rows(ds, from, 0, c);
        if orphans {
            let here = if is_orphan(ds, from) {
                sub
            } else {
                seq![]
            };
            lemma_folds_concat(here, orphan_rows(ds, from + 1, c), 0, ds, c);
        } else {
            let here = if is_root_name(ds[from].name) {
                sub
            } else {
                seq![]
            };
            lemma_folds_concat(here, root_rows(ds, from + 1, c), 0, ds, c);
        }
    }
}

/// Children of folded devices are hidden: in a flattened tree the row of a
/// folded device is never followed by a deeper row.
pub proof fn lemma_folded_subtrees_hidden(devices: Seq<Device>, c: Seq<String>)
    requires
        devices.len() <= usize::MAX,
        names_fit(devices),
    ensures
        folds_hide(tree_rows(device_views(devices), c), device_views(devices), c),
{
    let ds = device_views(devices);
    assert forall|i: int| 0 <= i < ds.len() implies tree_measure(ds, #[trigger] ds[i].name)
        <= usize::MAX by {
        lemma_top_depth_fits(devices, i);
    }
    lemma_top_rows(ds, c, 0, true);
    lemma_top_rows(ds, c, 0, false);
    lemma_top_folds(ds, c, 0, true);
    lemma_top_folds(ds, c, 0, false);
    lemma_folds_concat(root_rows(ds, 0, c), orphan_rows(ds, 0, c), 0, ds, c);
}

/// The devices that rows point at, in order.
pub open spec fn row_devices(x: Seq<(usize, usize)>) -> Seq<usize> {
    x.map_values(|r: (usize, usize)| r.1)
}

proof fn lemma_row_devices_concat(a: Seq<(usize, usize)>, b: Seq<(usize, usize)>)
    ensures
        row_devices(a + b) == row_devices(a) + row_devices(b),
{
    assert(row_devices(a + b) =~= row_devices(a) + row_devices(b));
}

proof fn lemma_subtree_devices(ds: Seq<DeviceView>, idx: int, d1: usize, d2: usize, c: Seq<String>)
    requires
        0 <= idx < ds.len(),
    ensures
        row_devices(subtree_rows(ds, idx, d1, c)) == row_devices(subtree_rows(ds, idx, d2, c)),
    decreases tree_measure(ds, ds[idx].name), 1int, 0int,
{
    let n = ds[idx].name;
    let h1 = seq![(d1, idx as usize)];
    let h2 = seq![(d2, idx as usize)];
    assert(row_devices(h1) =~= row_devices(h2));
    if is_collapsed(c, n) {
        assert(subtree_rows(ds, idx, d1, c) =~= h1);
        assert(subtree_rows(ds, idx, d2, c) =~= h2);
    } else {
        lemma_children_devices(ds, n, 0, (d1 + 1) as usize, (d2 + 1) as usize, c);
        lemma_row_devices_concat(h1, children_rows(ds, n, 0, (d1 + 1) as usize, c));
        lemma_row_devices_concat(h2, children_rows(ds, n, 0, (d2 + 1) as usize, c));
    }
}

proof fn lemma_children_devices(
    ds: Seq<DeviceView>,
    p: Seq<char>,
    from: int,
    d1: usize,
    d2: usize,
    c: Seq<String>,
)
    ensures
        row_devices(children_rows(ds, p, from, d1, c)) == row_devices(children_rows(ds, p, from, d2, c)),
    decreases tree_measure(ds, p), 0int, ds.len() - from,
{
    if !(from < 0 || from >= ds.len()) {
        lemma_children_devices(ds, p, from + 1, d1, d2, c);
        if parent_of(ds[from].name) == Some(p) {
            lemma_child_measure(ds, from, p);
            lemma_subtree_devices(ds, from, d1, d2, c);
            lemma_row_devices_concat(subtree_rows(ds, from, d1, c), children_rows(ds, p, from + 1, d1, c));
            lemma_row_devices_concat(subtree_rows(ds, from, d2, c), children_rows(ds, p, from + 1, d2, c));
        } else {
            assert(children_rows(ds, p, from, d1, c) =~= children_rows(ds, p, from + 1, d1, c));
            assert(children_rows(ds, p, from, d2, c) =~= children_rows(ds, p, from + 1, d2, c));
        }
    }
}

proof fn lemma_contains_concat(a: Seq<usize>, b: Seq<usize>, i: usize)
    ensures
        (a + b).contains(i) == (a.contains(i) || b.contains(i)),
{
    if a.contains(i) {
        let k = choose|k: int| 0 <= k < a.len() && a[k] == i;
        assert((a + b)[k] == i);
    }
    if b.contains(i) {
        let k = choose|k: int| 0 <= k < b.len() && b[k] == i;
        assert((a + b)[a.len() + k] == i);
    }
    if (a + b).contains(i) {
        let k = choose|k: int| 0 <= k < (a + b).len() && (a + b)[k] == i;
        if k < a.len() {
            assert(a[k] == i);
        } else {
            assert(b[k - a.len()] == i);
        }
    }
}

proof fn lemma_children_split(ds: Seq<DeviceView>, p: Seq<char>, from: int, depth: usize, c: Seq<String>, i: usize)
    requires
        0 <= from < ds.len(),
    ensures
        row_devices(children_rows(ds, p, from, depth, c)).contains(i) == ((parent_of(ds[from].name) == Some(p)
            && row_devices(subtree_rows(ds, from, depth, c)).contains(i)) || row_devices(
            children_rows(ds, p, from + 1, depth, c),
        ).contains(i)),
{
    let here = if parent_of(ds[from].name) == Some(p) {
        subtree_rows(ds, from, depth, c)
    } else {
        seq![]
    };
    let rest = children_rows(ds, p, from + 1, depth, c);
    assert(children_rows(ds, p, from, depth, c) == here + rest);
    lemma_row_devices_concat(here, rest);
    lemma_contains_concat(row_devices(here), row_devices(rest), i);
    if parent_of(ds[from].name) != Some(p) {
        assert(row_devices(here) =~= Seq::<usize>::empty());
    }
}

/// The subtree of a child `j` of `p` found from `from` on lies within the
/// children's rows.
proof fn lemma_child_within(
    ds: Seq<DeviceView>,
    p: Seq<char>,
    from: int,
    depth: usize,
    c: Seq<String>,
    j: int,
    i: usize,
)
    requires
        0 <= from <= j < ds.len(),
        parent_of(ds[j].name) == Some(p),
        row_devices(subtree_rows(ds, j, depth, c)).contains(i),
    ensures
        row_devices(children_rows(ds, p, from, depth, c)).contains(i),
    decreases j - from,
{
    lemma_children_split(ds, p, from, depth, c, i);
    if from < j {
        lemma_child_within(ds, p, from + 1, depth, c, j, i);
    }
}

/// A device in the children's rows lies in the subtree of one of them.
proof fn lemma_within_child(ds: Seq<DeviceView>, p: Seq<char>, from: int, depth: usize, c: Seq<String>, i: usize)
    requires
        0 <= from,
        row_devices(children_rows(ds, p, from, depth, c)).contains(i),
    ensures
        exists|j: int|
            from <= j < ds.len() && parent_of(ds[j].name) == Some(p) && row_devices(
                #[trigger] subtree_rows(ds, j, depth, c),
            ).contains(i),
    decreases ds.len() - from,
{
    if from >= ds.len() {
        assert(row_devices(children_rows(ds, p, from, depth, c)) =~= Seq::<usize>::empty());
    } else {
        lemma_children_split(ds, p, from, depth, c, i);
        if !(parent_of(ds[from].name) == Some(p) && row_devices(subtree_rows(ds, from, depth, c)).contains(i)) {
            lemma_within_child(ds, p, from + 1, depth, c, i);
            let j = choose|j: int|
                from + 1 <= j < ds.len() && parent_of(ds[j].name) == Some(p) && row_devices(
                    #[trigger] subtree_rows(ds, j, depth, c),
                ).contains(i);
        }
    }
}

proof fn lemma_subtree_head(ds: Seq<DeviceView>, t: int, d: usize, c: Seq<String>)
    requires
        0 <= t < ds.len() <= usize::MAX,
    ensures
        row_devices(subtree_rows(ds, t, d, c)).contains(t as usize),
        !is_collapsed(c, ds[t].name) ==> row_devices(subtree_rows(ds, t, d, c)) == seq![t as usize]
            + row_devices(children_rows(ds, ds[t].name, 0, (d + 1) as usize, c)),
{
    let h = seq![(d, t as usize)];
    if !is_collapsed(c, ds[t].name) {
        lemma_row_devices_concat(h, children_rows(ds, ds[t].name, 0, (d + 1) as usize, c));
        assert(row_devices(h) =~= seq![t as usize]);
    }
    assert(subtree_rows(ds, t, d, c)[0] == (d, t as usize));
    assert(row_devices(subtree_rows(ds, t, d, c))[0] == t as usize);
}

/// With nothing folded, a subtree that shows `k` shows all of `k`'s subtree.
proof fn lemma_subtree_closed(ds: Seq<DeviceView>, t: int, d: usize, c: Seq<String>, k: int, x: usize)
    requires
        c.len() == 0,
        0 <= t < ds.len() <= usize::MAX,
        0 <= k < ds.len(),
        row_devices(subtree_rows(ds, t, d, c)).contains(k as usize),
        row_devices(subtree_rows(ds, k, 0, c)).contains(x),
    ensures
        row_devices(subtree_rows(ds, t, d, c)).contains(x),
    decreases tree_measure(ds, ds[t].name),
{
    assert(!is_collapsed(c, ds[t].name));
    lemma_subtree_head(ds, t, d, c);
    let kids = row_devices(children_rows(ds, ds[t].name, 0, (d + 1) as usize, c));
    lemma_contains_concat(seq![t as usize], kids, k as usize);
    lemma_contains_concat(seq![t as usize], kids, x);
    if kids.contains(k as usize) {
        lemma_within_child(ds, ds[t].name, 0, (d + 1) as usize, c, k as usize);
        let j = choose|j: int|
            0 <= j < ds.len() && parent_of(ds[j].name) == Some(ds[t].name) && row_devices(
                #[trigger] subtree_rows(ds, j, (d + 1) as usize, c),
            ).contains(k as usize);
        lemma_child_measure(ds, j, ds[t].name);
        lemma_subtree_closed(ds, j, (d + 1) as usize, c, k, x);
        lemma_child_within(ds, ds[t].name, 0, (d + 1) as usize, c, j, x);
    } else {
        assert(seq![t as usize].contains(k as usize));
        assert(seq![t as usize][0] == k as usize);
        lemma_subtree_devices(ds, k, 0, d, c);
    }
}

proof fn lemma_top_within(ds: Seq<DeviceView>, c: Seq<String>, from: int, t: int, orphans: bool, i: usize)
    requires
        0 <= from <= t < ds.len(),
        orphans ==> is_orphan(ds, t),
        !orphans ==> is_root_name(ds[t].name),
        row_devices(subtree_rows(ds, t, 0, c)).contains(i),
    ensures
        orphans ==> row_devices(orphan_rows(ds, from, c)).contains(i),
        !orphans ==> row_devices(root_rows(ds, from, c)).contains(i),
    decreases t - from,
{
    if from < t {
        lemma_top_within(ds, c, from + 1, t, orphans, i);
    }
    let sub = subtree_rows(ds, from, 0, c);
    if orphans {
        let here = if is_orphan(ds, from) {
            sub
        } else {
            seq![]
        };
        let rest = orphan_rows(ds, from + 1, c);
        assert(orphan_rows(ds, from, c) == here + rest);
        lemma_row_devices_concat(here, rest);
        lemma_contains_concat(row_devices(here), row_devices(rest), i);
    } else {
        let here = if is_root_name(ds[from].name) {
            sub
        } else {
            seq![]
        };
        let rest = root_rows(ds, from + 1, c);
        assert(root_rows(ds, from, c) == here + rest);
        lemma_row_devices_concat(here, rest);
        lemma_contains_concat(row_devices(here), row_devices(rest), i);
    }
}

/// Some root hub's or orphan's subtree shows device `i`.
proof fn lemma_under_some_top(ds: Seq<DeviceView>, c: Seq<String>, i: int)
    requires
        c.len() == 0,
        0 <= i < ds.len() <= usize::MAX,
    ensures
        exists|t: int|
            0 <= t < ds.len() && (is_root_name(ds[t].name) || is_orphan(ds, t)) && row_devices(
                #[trigger] subtree_rows(ds, t, 0, c),
            ).contains(i as usize),
    decreases name_len_bound(ds) + 2 - tree_measure(ds, ds[i].name),
{
    lemma_name_len_bound(ds, i);
    lemma_subtree_head(ds, i, 0, c);
    if !is_root_name(ds[i].name) && !is_orphan(ds, i) {
        let p = parent_of(ds[i].name)->0;
        let k = choose|k: int| 0 <= k < ds.len() && (#[trigger] ds[k]).name == p;
        lemma_child_measure(ds, i, p);
        lemma_name_len_bound(ds, k);
        lemma_under_some_top(ds, c, k);
        let t = choose|t: int|
            0 <= t < ds.len() && (is_root_name(ds[t].name) || is_orphan(ds, t)) && row_devices(
                #[trigger] subtree_rows(ds, t, 0, c),
            ).contains(k as usize);
        lemma_subtree_head(ds, k, 0, c);
        assert(!is_collapsed(c, p));
        lemma_subtree_head(ds, i, 1, c);
        lemma_child_within(ds, p, 0, 1, c, i, i as usize);
        lemma_contains_concat(seq![k as usize], row_devices(children_rows(ds, p, 0, 1, c)), i as usize);
        lemma_subtree_devices(ds, i, 1, 0, c);
        lemma_subtree_closed(ds, t, 0, c, k, i as usize);
    }
}

/// With nothing folded, every device of the scan has a row in the tree.
pub proof fn lemma_every_device_shown(devices: Seq<Device>, c: Seq<String>, i: int)
    requires
        c.len() == 0,
        devices.len() <= usize::MAX,
        0 <= i < devices.len(),
    ensures
        row_devices(tree_rows(device_views(devices), c)).contains(i as usize),
{
    let ds = device_views(devices);
    lemma_under_some_top(ds, c, i);
    let t = choose|t: int|
        0 <= t < ds.len() && (is_root_name(ds[t].name) || is_orphan(ds, t)) && row_devices(
            #[trigger] subtree_rows(ds, t, 0, c),
        ).contains(i as usize);
    lemma_row_devices_concat(root_rows(ds, 0, c), orphan_rows(ds, 0, c));
    lemma_contains_concat(row_devices(root_rows(ds, 0, c)), row_devices(orphan_rows(ds, 0, c)), i as usize);
    if is_root_name(ds[t].name) {
        lemma_top_within(ds, c, 0, t, false, i as usize);
    } else {
        lemma_top_within(ds, c, 0, t, true, i as usize);
    }
}

/// Row `r` of `x` lies strictly inside the subtree of a folded row: some
/// row above it shows a folded device, and every row from just below that
/// one down to `r` is deeper than it.
pub open spec fn inside_folded(x: Seq<(usize, usize)>, ds: Seq<DeviceView>, c: Seq<String>, r: int) -> bool {
    exists|k: int|
        0 <= k < r && is_collapsed(c, ds[x[k].1 as int].name) && forall|q: int|
            k < q <= r ==> x[k].0 < #[trigger] x[q].0
}

/// The first `n` rows of `x` that `keep` marks, in order.
pub open spec fn rows_where(x: Seq<(usize, usize)>, keep: spec_fn(int) -> bool, n: int) -> Seq<(usize, usize)>
    decreases n,
{
    if n <= 0 {
        seq![]
    } else if keep(n - 1) {
        rows_where(x, keep, n - 1).push(x[n - 1])
    } else {
        rows_where(x, keep, n - 1)
    }
}

/// The rows of `x` without those that lie inside the subtree of a folded
/// row.
pub open spec fn without_folded(x: Seq<(usize, usize)>, ds: Seq<DeviceView>, c: Seq<String>) -> Seq<
    (usize, usize),
> {
    rows_where(x, |r: int| !inside_folded(x, ds, c, r), x.len() as int)
}

proof fn lemma_rows_where_ext(
    x: Seq<(usize, usize)>,
    y: Seq<(usize, usize)>,
    p: spec_fn(int) -> bool,
    q: spec_fn(int) -> bool,
    n: int,
)
    requires
        forall|r: int| 0 <= r < n ==> x[r] == y[r],
        forall|r: int| 0 <= r < n ==> #[trigger] p(r) == q(r),
    ensures
        rows_where(x, p, n) == rows_where(y, q, n),
    decreases n,
{
    if n > 0 {
        assert forall|r: int| 0 <= r < n - 1 implies x[r] == y[r] by {}
        assert forall|r: int| 0 <= r < n - 1 implies #[trigger] p(r) == q(r) by {}
        lemma_rows_where_ext(x, y, p, q, n - 1);
        assert(p(n - 1) == q(n - 1));
        assert(x[n - 1] == y[n - 1]);
    }
}

proof fn lemma_rows_where_none(x: Seq<(usize, usize)>, p: spec_fn(int) -> bool, n: int)
    requires
        forall|r: int| 0 <= r < n ==> !#[trigger] p(r),
    ensures
        rows_where(x, p, n) == Seq::<(usize, usize)>::empty(),
    decreases n,
{
    if n > 0 {
        assert(!p(n - 1));
        lemma_rows_where_none(x, p, n - 1);
    }
}

proof fn lemma_rows_where_split(x: Seq<(usize, usize)>, p: spec_fn(int) -> bool, s: int, m: int)
    requires
        0 <= s,
        0 <= m,
        s + m <= x.len(),
    ensures
        rows_where(x, p, s + m) == rows_where(x, p, s) + rows_where(x.skip(s), |r: int| p(r + s), m),
    decreases m,
{
    let ps = |r: int| p(r + s);
    if m == 0 {
        assert(rows_where(x, p, s) + rows_where(x.skip(s), ps, 0) =~= rows_where(x, p, s));
    } else {
        lemma_rows_where_split(x, p, s, m - 1);
        assert(x.skip(s)[m - 1] == x[s + m - 1]);
        assert(ps(m - 1) == p(s + m - 1));
        if p(s + m - 1) {
            assert(rows_where(x, p, s + m) == rows_where(x, p, s + m - 1).push(x[s + m - 1]));
            assert(rows_where(x.skip(s), ps, m) == rows_where(x.skip(s), ps, m - 1).push(x[s + m - 1]));
            assert(rows_where(x, p, s) + rows_where(x.skip(s), ps, m - 1).push(x[s + m - 1]) =~= (
            rows_where(x, p, s) + rows_where(x.skip(s), ps, m - 1)).push(x[s + m - 1]));
        }
    }
}

proof fn lemma_inside_prefix(a: Seq<(usize, usize)>, b: Seq<(usize, usize)>, ds: Seq<DeviceView>, c: Seq<String>, r: int)
    requires
        0 <= r < a.len(),
    ensures
        inside_folded(a + b, ds, c, r) == inside_folded(a, ds, c, r),
{
    let x = a + b;
    if inside_folded(x, ds, c, r) {
        let k = choose|k: int|
            0 <= k < r && is_collapsed(c, ds[x[k].1 as int].name) && forall|q: int|
                k < q <= r ==> x[k].0 < #[trigger] x[q].0;
        assert(x[k] == a[k]);
        assert forall|q: int| k < q <= r implies a[k].0 < #[trigger] a[q].0 by {
            assert(x[q] == a[q]);
        }
    }
    if inside_folded(a, ds, c, r) {
        let k = choose|k: int|
            0 <= k < r && is_collapsed(c, ds[a[k].1 as int].name) && forall|q: int|
                k < q <= r ==> a[k].0 < #[trigger] a[q].0;
        assert(x[k] == a[k]);
        assert forall|q: int| k < q <= r implies x[k].0 < #[trigger] x[q].0 by {
            assert(x[q] == a[q]);
        }
    }
}

proof fn lemma_inside_suffix(
    a: Seq<(usize, usize)>,
    b: Seq<(usize, usize)>,
    d: int,
    ds: Seq<DeviceView>,
    c: Seq<String>,
    r: int,
)
    requires
        blocks_at(a, d),
        block_at(b, d),
        0 <= r < b.len(),
    ensures
        inside_folded(a + b, ds, c, r + a.len()) == inside_folded(b, ds, c, r),
{
    let x = a + b;
    let n = a.len() as int;
    if inside_folded(x, ds, c, r + n) {
        let k = choose|k: int|
            0 <= k < r + n && is_collapsed(c, ds[x[k].1 as int].name) && forall|q: int|
                k < q <= r + n ==> x[k].0 < #[trigger] x[q].0;
        if k < n {
            assert(x[k] == a[k]);
            assert(x[n] == b[0]);
            assert(x[k].0 < x[n].0);
            assert(false);
        }
        assert(x[k] == b[k - n]);
        assert forall|q: int| k - n < q <= r implies b[k - n].0 < #[trigger] b[q].0 by {
            assert(x[q + n] == b[q]);
            assert(x[k].0 < x[q + n].0);
        }
    }
    if inside_folded(b, ds, c, r) {
        let k = choose|k: int|
            0 <= k < r && is_collapsed(c, ds[b[k].1 as int].name) && forall|q: int|
                k < q <= r ==> b[k].0 < #[trigger] b[q].0;
        assert(x[k + n] == b[k]);
        assert forall|q: int| k + n < q <= r + n implies x[k + n].0 < #[trigger] x[q].0 by {
            assert(x[q] == b[q - n]);
            assert(b[k].0 < b[q - n].0);
        }
    }
}

proof fn lemma_without_folded_concat(a: Seq<(usize, usize)>, b: Seq<(usize, usize)>, d: int, ds: Seq<DeviceView>, c: Seq<String>)
    requires
        blocks_at(a, d),
        blocks_at(b, d),
    ensures
        without_folded(a + b, ds, c) == without_folded(a, ds, c) + without_folded(b, ds, c),
{
    let x = a + b;
    let n = a.len() as int;
    let p = |r: int| !inside_folded(x, ds, c, r);
    let pa = |r: int| !inside_folded(a, ds, c, r);
    let pb = |r: int| !inside_folded(b, ds, c, r);
    lemma_rows_where_split(x, p, n, b.len() as int);
    assert forall|r: int| 0 <= r < n implies #[trigger] p(r) == pa(r) by {
        lemma_inside_prefix(a, b, ds, c, r);
    }
    assert forall|r: int| 0 <= r < n implies x[r] == a[r] by {}
    lemma_rows_where_ext(x, a, p, pa, n);
    assert(x.skip(n) =~= b);
    let ps = |r: int| p(r + n);
    assert forall|r: int| 0 <= r < b.len() implies #[trigger] ps(r) == pb(r) by {
        lemma_inside_suffix(a, b, d, ds, c, r);
    }
    assert forall|r: int| 0 <= r < b.len() implies x.skip(n)[r] == b[r] by {}
    lemma_rows_where_ext(x.skip(n), b, ps, pb, b.len() as int);
}

proof fn lemma_head_hides(d: usize, idx: usize, y: Seq<(usize, usize)>, ds: Seq<DeviceView>, c: Seq<String>, r: int)
    requires
        blocks_at(y, d + 1),
        is_collapsed(c, ds[idx as int].name),
        0 <= r < y.len(),
    ensures
        inside_folded(seq![(d, idx)] + y, ds, c, r + 1),
{
    let x = seq![(d, idx)] + y;
    assert(x[0] == (d, idx));
    assert forall|q: int| 0 < q <= r + 1 implies x[0].0 < #[trigger] x[q].0 by {
        assert(x[q] == y[q - 1]);
    }
}

proof fn lemma_head_passes(d: usize, idx: usize, y: Seq<(usize, usize)>, ds: Seq<DeviceView>, c: Seq<String>, r: int)
    requires
        !is_collapsed(c, ds[idx as int].name),
        0 <= r < y.len(),
    ensures
        inside_folded(seq![(d, idx)] + y, ds, c, r + 1) == inside_folded(y, ds, c, r),
{
    let x = seq![(d, idx)] + y;
    assert(x[0] == (d, idx));
    if inside_folded(x, ds, c, r + 1) {
        let k = choose|k: int|
            0 <= k < r + 1 && is_collapsed(c, ds[x[k].1 as int].name) && forall|q: int|
                k < q <= r + 1 ==> x[k].0 < #[trigger] x[q].0;
        assert(k != 0);
        assert(x[k] == y[k - 1]);
        assert forall|q: int| k - 1 < q <= r implies y[k - 1].0 < #[trigger] y[q].0 by {
            assert(x[q + 1] == y[q]);
            assert(x[k].0 < x[q + 1].0);
        }
    }
    if inside_folded(y, ds, c, r) {
        let k = choose|k: int|
            0 <= k < r && is_collapsed(c, ds[y[k].1 as int].name) && forall|q: int|
                k < q <= r ==> y[k].0 < #[trigger] y[q].0;
        assert(x[k + 1] == y[k]);
        assert forall|q: int| k + 1 < q <= r + 1 implies x[k + 1].0 < #[trigger] x[q].0 by {
            assert(x[q] == y[q - 1]);
            assert(y[k].0 < y[q - 1].0);
        }
    }
}

proof fn lemma_without_folded_head(d: usize, idx: usize, y: Seq<(usize, usize)>, ds: Seq<DeviceView>, c: Seq<String>)
    requires
        blocks_at(y, d + 1),
    ensures
        is_collapsed(c, ds[idx as int].name) ==> without_folded(seq![(d, idx)] + y, ds, c) == seq![(d, idx)],
        !is_collapsed(c, ds[idx as int].name) ==> without_folded(seq![(d, idx)] + y, ds, c) == seq![(d, idx)]
            + without_folded(y, ds, c),
{
    let h = seq![(d, idx)];
    let x = h + y;
    let p = |r: int| !inside_folded(x, ds, c, r);
    let py = |r: int| !inside_folded(y, ds, c, r);
    let ps = |r: int| p(r + 1);
    lemma_rows_where_split(x, p, 1, y.len() as int);
    assert(x[0] == (d, idx));
    assert(p(0));
    assert(rows_where(x, p, 1) == seq![(d, idx)]) by {
        assert(rows_where(x, p, 0) =~= Seq::<(usize, usize)>::empty());
        assert(seq![(d, idx)] =~= Seq::<(usize, usize)>::empty().push(x[0]));
    }
    assert(x.skip(1) =~= y);
    if is_collapsed(c, ds[idx as int].name) {
        assert forall|r: int| 0 <= r < y.len() implies !#[trigger] ps(r) by {
            lemma_head_hides(d, idx, y, ds, c, r);
        }
        lemma_rows_where_none(x.skip(1), ps, y.len() as int);
        assert(h + Seq::<(usize, usize)>::empty() =~= h);
    } else {
        assert forall|r: int| 0 <= r < y.len() implies #[trigger] ps(r) == py(r) by {
            lemma_head_passes(d, idx, y, ds, c, r);
        }
        assert forall|r: int| 0 <= r < y.len() implies x.skip(1)[r] == y[r] by {}
        lemma_rows_where_ext(x.skip(1), y, ps, py, y.len() as int);
    }
}

proof fn lemma_without_folded_empty(ds: Seq<DeviceView>, c: Seq<String>)
    ensures
        without_folded(Seq::<(usize, usize)>::empty(), ds, c) == Seq::<(usize, usize)>::empty(),
{
}

proof fn lemma_subtree_without_folded(ds: Seq<DeviceView>, idx: int, depth: usize, c: Seq<String>)
    requires
        0 <= idx < ds.len() <= usize::MAX,
        depth + tree_measure(ds, ds[idx].name) <= usize::MAX,
    ensures
        subtree_rows(ds, idx, depth, c) == without_folded(subtree_rows(ds, idx, depth, Seq::<String>::empty()), ds, c),
    decreases tree_measure(ds, ds[idx].name), 1int, 0int,
{
    let e = Seq::<String>::empty();
    let n = ds[idx].name;
    lemma_name_len_bound(ds, idx);
    assert(!is_collapsed(e, n));
    let y = children_rows(ds, n, 0, (depth + 1) as usize, e);
    lemma_children_blocks(ds, n, 0, (depth + 1) as usize, e);
    lemma_without_folded_head(depth, idx as usize, y, ds, c);
    assert(subtree_rows(ds, idx, depth, e) == seq![(depth, idx as usize)] + y);
    if is_collapsed(c, n) {
        assert(subtree_rows(ds, idx, depth, c) =~= seq![(depth, idx as usize)]);
    } else {
        lemma_children_without_folded(ds, n, 0, (depth + 1) as usize, c);
    }
}

proof fn lemma_children_without_folded(ds: Seq<DeviceView>, p: Seq<char>, from: int, depth: usize, c: Seq<String>)
    requires
        ds.len() <= usize::MAX,
        depth + tree_measure(ds, p) <= usize::MAX + 1,
    ensures
        children_rows(ds, p, from, depth, c) == without_folded(children_rows(ds, p, from, depth, Seq::<String>::empty()), ds, c),
    decreases tree_measure(ds, p), 0int, ds.len() - from,
{
    let e = Seq::<String>::empty();
    if from < 0 || from >= ds.len() {
        lemma_without_folded_empty(ds, c);
    } else {
        let here_e = if parent_of(ds[from].name) == Some(p) {
            lemma_child_measure(ds, from, p);
            lemma_subtree_block(ds, from, depth, e);
            lemma_subtree_without_folded(ds, from, depth, c);
            subtree_rows(ds, from, depth, e)
        } else {
            lemma_without_folded_empty(ds, c);
            seq![]
        };
        lemma_children_blocks(ds, p, from + 1, depth, e);
        lemma_children_without_folded(ds, p, from + 1, depth, c);
        lemma_without_folded_concat(here_e, children_rows(ds, p, from + 1, depth, e), depth as int, ds, c);
    }
}

proof fn lemma_top_without_folded(ds: Seq<DeviceView>, c: Seq<String>, from: int, orphans: bool)
    requires
        ds.len() <= usize::MAX,
        forall|i: int| 0 <= i < ds.len() ==> tree_measure(ds, #[trigger] ds[i].name) <= usize::MAX,
    ensures
        orphans ==> orphan_rows(ds, from, c) == without_folded(orphan_rows(ds, from, Seq::<String>::empty()), ds, c),
        !orphans ==> root_rows(ds, from, c) == without_folded(root_rows(ds, from, Seq::<String>::empty()), ds, c),
    decreases ds.len() - from,
{
    let e = Seq::<String>::empty();
    if from < 0 || from >= ds.len() {
        lemma_without_folded_empty(ds, c);
    } else {
        assert(tree_measure(ds, ds[from].name) <= usize::MAX);
        lemma_subtree_block(ds, from, 0, e);
        lemma_subtree_without_folded(ds, from, 0, c);
        lemma_top_rows(ds, e, from + 1, orphans);
        lemma_top_without_folded(ds, c, from + 1, orphans);
        lemma_without_folded_empty(ds, c);
        let sub = subtree_rows(ds, from, 0, e);
        if orphans {
            let here = if is_orphan(ds, from) {
                sub
            } else {
                seq![]
            };
            lemma_without_folded_concat(here, orphan_rows(ds, from + 1, e), 0, ds, c);
        } else {
            let here = if is_root_name(ds[from].name) {
                sub
            } else {
                seq![]
            };
            lemma_without_folded_concat(here, root_rows(ds, from + 1, e), 0, ds, c);
        }
    }
}

/// Folding only hides: the rows of a tree with some devices folded are
/// the rows of the unfolded tree without those that lie inside the subtree
/// of a folded device's row. The folded rows themselves stay, and nothing
/// hidden comes back elsewhere.
pub proof fn lemma_folding_hides_subtrees(devices: Seq<Device>, c: Seq<String>)
    requires
        devices.len() <= usize::MAX,
        names_fit(devices),
    ensures
        tree_rows(device_views(devices), c) == without_folded(
            tree_rows(device_views(devices), Seq::<String>::empty()),
            device_views(devices),
            c,
        ),
{
    let ds = device_views(devices);
    let e = Seq::<String>::empty();
    assert forall|i: int| 0 <= i < ds.len() implies tree_measure(ds, #[trigger] ds[i].name)
        <= usize::MAX by {
        lemma_top_depth_fits(devices, i);
    }
    lemma_top_rows(ds, e, 0, true);
    lemma_top_rows(ds, e, 0, false);
    lemma_top_without_folded(ds, c, 0, true);
    lemma_top_without_folded(ds, c, 0, false);
    lemma_without_folded_concat(root_rows(ds, 0, e), orphan_rows(ds, 0, e), 0, ds, c);
}

proof fn lemma_lex_lt_irreflexive(a: Seq<u32>)
    ensures
        !lex_lt(a, a),
    decreases a.len(),
{
    if a.len() > 0 {
        lemma_lex_lt_irreflexive(a.drop_first());
    }
}

proof fn lemma_lex_lt_transitive(a: Seq<u32>, b: Seq<u32>, c: Seq<u32>)
    requires
        lex_lt(a, b),
        lex_lt(b, c),
    ensures
        lex_lt(a, c),
    decreases a.len(),
{
    if a.len() > 0 && a[0] == b[0] && b[0] == c[0] {
        lemma_lex_lt_transitive(a.drop_first(), b.drop_first(), c.drop_first());
    }
}

proof fn lemma_lex_lt_total(a: Seq<u32>, b: Seq<u32>)
    ensures
        lex_lt(a, b) || lex_lt(b, a) || a == b,
    decreases a.len(),
{
    if a.len() == 0 && b.len() == 0 {
        assert(a =~= b);
    } else if a.len() > 0 && b.len() > 0 && a[0] == b[0] {
        lemma_lex_lt_total(a.drop_first(), b.drop_first());
        if a.drop_first() == b.drop_first() {
            assert(a =~= seq![a[0]] + a.drop_first());
            assert(b =~= seq![b[0]] + b.drop_first());
        }
    }
}

/// `a` may stand before `b` in a scan sorted by port: the key of `b` is not
/// smaller than that of `a`.
pub open spec fn key_le(a: DeviceView, b: DeviceView) -> bool {
    !lex_lt(sort_key_of(b.name), sort_key_of(a.name))
}

/// Every device of `s` stands before the ones after it.
pub open spec fn sorted_by_key(s: Seq<DeviceView>) -> bool {
    forall|i: int, j: int| 0 <= i < j < s.len() ==> key_le(#[trigger] s[i], #[trigger] s[j])
}

proof fn lemma_key_le_transitive(a: DeviceView, b: DeviceView, c: DeviceView)
    requires
        key_le(a, b),
        key_le(b, c),
    ensures
        key_le(a, c),
{
    let (ka, kb, kc) = (sort_key_of(a.name), sort_key_of(b.name), sort_key_of(c.name));
    lemma_lex_lt_total(ka, kb);
    lemma_lex_lt_total(kb, kc);
    lemma_lex_lt_irreflexive(ka);
    if lex_lt(kc, ka) {
        if lex_lt(ka, kb) {
            lemma_lex_lt_transitive(kc, ka, kb);
        }
    }
}

proof fn lemma_insert_by_key_sorted(s: Seq<DeviceView>, x: DeviceView)
    requires
        sorted_by_key(s),
    ensures
        sorted_by_key(insert_by_key(s, x)),
        insert_by_key(s, x).to_multiset() == s.to_multiset().insert(x),
    decreases s.len(),
{
    broadcast use vstd::seq_lib::group_to_multiset_ensures;

    let r = insert_by_key(s, x);
    if s.len() > 0 && lex_lt(sort_key_of(x.name), sort_key_of(s.last().name)) {
        let t = s.drop_last();
        let l = s.last();
        assert(sorted_by_key(t)) by {
            assert forall|i: int, j: int| 0 <= i < j < t.len() implies key_le(#[trigger] t[i], #[trigger] t[j]) by {
                assert(t[i] == s[i] && t[j] == s[j]);
            }
        }
        lemma_insert_by_key_sorted(t, x);
        let rt = insert_by_key(t, x);
        assert(s =~= t.push(l));
        assert forall|i: int| 0 <= i < rt.len() implies key_le(#[trigger] rt[i], l) by {
            let e = rt[i];
            assert(rt.contains(e));
            assert(rt.to_multiset().count(e) > 0);
            if e == x {
                if lex_lt(sort_key_of(l.name), sort_key_of(x.name)) {
                    lemma_lex_lt_transitive(sort_key_of(x.name), sort_key_of(l.name), sort_key_of(x.name));
                    lemma_lex_lt_irreflexive(sort_key_of(x.name));
                }
            } else {
                assert(t.to_multiset().count(e) > 0);
                assert(t.contains(e));
                let k = choose|k: int| 0 <= k < t.len() && t[k] == e;
                assert(s[k] == e);
                assert(s[s.len() - 1] == l);
            }
        }
        assert(r == rt.push(l));
        assert forall|i: int, j: int| 0 <= i < j < r.len() implies key_le(#[trigger] r[i], #[trigger] r[j]) by {
            assert(r[i] == rt[i]);
            if j < rt.len() {
                assert(r[j] == rt[j]);
            }
        }
        assert(r.to_multiset() =~= s.to_multiset().insert(x));
    } else {
        assert(r == s.push(x));
        if s.len() > 0 {
            let l = s.last();
            assert forall|i: int, j: int| 0 <= i < j < r.len() implies key_le(#[trigger] r[i], #[trigger] r[j]) by {
                if j == s.len() {
                    if i < s.len() - 1 {
                        assert(key_le(s[i], s[s.len() - 1]));
                        lemma_key_le_transitive(s[i], l, x);
                    }
                } else {
                    assert(r[i] == s[i] && r[j] == s[j]);
                }
            }
        }
    }
}

/// Sorting a scan by port keeps exactly the devices it was given, each as
/// often as it occurs, and puts them in the order of their numeric keys.
pub proof fn lemma_sorted_by_name(s: Seq<DeviceView>)
    ensures
        sorted_by_name(s).to_multiset() == s.to_multiset(),
        sorted_by_key(sorted_by_name(s)),
    decreases s.len(),
{
    broadcast use vstd::seq_lib::group_to_multiset_ensures;

    if s.len() > 0 {
        lemma_sorted_by_name(s.drop_last());
        lemma_insert_by_key_sorted(sorted_by_name(s.drop_last()), s.last());
        assert(s =~= s.drop_last().push(s.last()));
    } else {
        assert(sorted_by_name(s) =~= s);
    }
}

} // verus!
