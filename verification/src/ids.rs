//! Human-readable names for vendor and product ids: the usb.ids database
//! format, the user's override file, and the lookup order of device labels.
use std::collections::HashMap;
use usb_ids::FromId;
use vstd::prelude::*;
use crate::text::{
    chars_of, lines, parse_hex16, parse_hex_u16, push_hex4, push_str, split_lines,
    split_once, split_once_chars, split_once_gap, split_once_gap_chars, split_once_ws,
    split_once_ws_chars, string_of, trim, trim_chars, views, hex4, is_trimmed, lemma_trim_trimmed,
    lemma_lines_around, strip_cr,
};
use crate::usb::{class_label, effective_class_of, Device, DeviceView};

verus! {

broadcast use vstd::std_specs::hash::group_hash_axioms;

/// The key under which a (vendor, product) pair is stored.
pub open spec fn product_key_of(vid: u16, pid: u16) -> u32 {
    (vid as int * 65536 + pid as int) as u32
}

pub fn product_key(vid: u16, pid: u16) -> (k: u32)
    ensures
        k == product_key_of(vid, pid),
{
    vid as u32 * 65536 + pid as u32
}

/// Distinct (vendor, product) pairs have distinct keys.
pub proof fn lemma_product_key_injective(v1: u16, p1: u16, v2: u16, p2: u16)
    ensures
        product_key_of(v1, p1) == product_key_of(v2, p2) ==> v1 == v2 && p1 == p2,
{
}

/// The names of a map as character sequences.
pub open spec fn names_of<K>(m: Map<K, String>) -> Map<K, Seq<char>> {
    m.map_values(|s: String| s@)
}

/// Vendor and product names of a usb.ids file.
pub struct IdsDb {
    pub vendors: HashMap<u16, String>,
    /// keyed by [`product_key`]
    pub products: HashMap<u32, String>,
}

/// What parsing a usb.ids file has found so far: the vendor whose products
/// follow, and the names seen.
pub struct IdsState {
    pub cur: Option<u16>,
    pub vendors: Map<u16, Seq<char>>,
    pub products: Map<u32, Seq<char>>,
}

/// `vvvv  Name`: a hex id, two spaces, then the name, trimmed.
pub open spec fn id_line_of(s: Seq<char>) -> Option<(u16, Seq<char>)> {
    match split_once_gap(s) {
        Some((id, name)) => match parse_hex_u16(id) {
            Some(v) => Some((v as u16, trim(name))),
            None => None,
        },
        None => None,
    }
}

/// One line of usb.ids: `vvvv  Vendor` starts a vendor, tab-indented
/// `pppp  Product` lines name its products, deeper lines are ignored, and any
/// other unindented line (a class section) ends the vendor.
pub open spec fn ids_step(st: IdsState, line: Seq<char>) -> IdsState {
    if line.len() == 0 || line[0] == '#' {
        st
    } else if line[0] == '\t' {
        let rest = line.drop_first();
        if rest.len() > 0 && rest[0] == '\t' {
            st
        } else {
            match (st.cur, id_line_of(rest)) {
                (Some(vid), Some((pid, name))) => IdsState {
                    products: st.products.insert(product_key_of(vid, pid), name),
                    ..st
                },
                _ => st,
            }
        }
    } else {
        match id_line_of(line) {
            Some((vid, name)) => IdsState {
                cur: Some(vid),
                vendors: st.vendors.insert(vid, name),
                ..st
            },
            None => IdsState { cur: None, ..st },
        }
    }
}

/// The state after the lines `ls`, from an empty database.
pub open spec fn ids_fold(ls: Seq<Seq<char>>) -> IdsState
    decreases ls.len(),
{
    if ls.len() == 0 {
        IdsState { cur: None, vendors: Map::empty(), products: Map::empty() }
    } else {
        ids_step(ids_fold(ls.drop_last()), ls.last())
    }
}

/// The names that a usb.ids text holds.
pub open spec fn usb_ids_of(s: Seq<char>) -> IdsState {
    ids_fold(lines(s))
}

/// The state before any line: no vendor, no names.
pub open spec fn ids_start() -> IdsState {
    IdsState { cur: None, vendors: Map::empty(), products: Map::empty() }
}

/// The state after the lines `ls`, from `st`.
pub open spec fn ids_from(st: IdsState, ls: Seq<Seq<char>>) -> IdsState
    decreases ls.len(),
{
    if ls.len() == 0 {
        st
    } else {
        ids_step(ids_from(st, ls.drop_last()), ls.last())
    }
}

proof fn lemma_ids_fold_from(ls: Seq<Seq<char>>)
    ensures
        ids_fold(ls) == ids_from(ids_start(), ls),
    decreases ls.len(),
{
    if ls.len() > 0 {
        lemma_ids_fold_from(ls.drop_last());
    }
}

proof fn lemma_ids_from_concat(st: IdsState, a: Seq<Seq<char>>, b: Seq<Seq<char>>)
    ensures
        ids_from(st, a + b) == ids_from(ids_from(st, a), b),
    decreases b.len(),
{
    if b.len() == 0 {
        assert(a + b =~= a);
    } else {
        assert((a + b).drop_last() =~= a + b.drop_last());
        lemma_ids_from_concat(st, a, b.drop_last());
    }
}

/// A line that changes nothing: blank, a comment, or indented by two tabs
/// (interface entries).
pub open spec fn ids_inert(line: Seq<char>) -> bool {
    line.len() == 0 || line[0] == '#' || (line.len() >= 2 && line[0] == '\t' && line[1] == '\t')
}

/// A top-level `vvvv  Vendor` line.
pub open spec fn vendor_line(line: Seq<char>) -> bool {
    line.len() > 0 && line[0] != '#' && line[0] != '\t' && id_line_of(line) is Some
}

/// A top-level line that names no vendor, such as a class section header.
pub open spec fn section_line(line: Seq<char>) -> bool {
    line.len() > 0 && line[0] != '#' && line[0] != '\t' && id_line_of(line) is None
}

/// The names seen so far are consistent: the current vendor is known, every
/// product belongs to a known vendor, and every name is trimmed.
pub open spec fn ids_consistent(st: IdsState) -> bool {
    &&& (st.cur matches Some(v) ==> st.vendors.contains_key(v))
    &&& forall|k: u32| #[trigger] st.products.contains_key(k) ==> st.vendors.contains_key((k / 65536) as u16)
    &&& forall|v: u16| #[trigger] st.vendors.contains_key(v) ==> is_trimmed(st.vendors[v])
    &&& forall|k: u32| #[trigger] st.products.contains_key(k) ==> is_trimmed(st.products[k])
}

proof fn lemma_product_key_vendor(vid: u16, pid: u16)
    ensures
        (product_key_of(vid, pid) / 65536) as u16 == vid,
{
    assert(vid as int * 65536 + pid as int <= u32::MAX);
    assert((vid as int * 65536 + pid as int) / 65536 == vid as int) by (nonlinear_arith)
        requires
            0 <= pid < 65536,
            0 <= vid < 65536,
    ;
}

proof fn lemma_id_line_trimmed(s: Seq<char>)
    ensures
        id_line_of(s) matches Some((_, n)) ==> is_trimmed(n),
{
    if let Some((_, name)) = split_once_gap(s) {
        lemma_trim_trimmed(name);
    }
}

proof fn lemma_ids_step_consistent(st: IdsState, line: Seq<char>)
    requires
        ids_consistent(st),
    ensures
        ids_consistent(ids_step(st, line)),
{
    let r = ids_step(st, line);
    if line.len() > 0 && line[0] == '\t' {
        let rest = line.drop_first();
        lemma_id_line_trimmed(rest);
        if let (Some(vid), Some((pid, name))) = (st.cur, id_line_of(rest)) {
            if !(rest.len() > 0 && rest[0] == '\t') {
                lemma_product_key_vendor(vid, pid);
                assert forall|k: u32| #[trigger] r.products.contains_key(k) implies r.vendors.contains_key(
                    (k / 65536) as u16,
                ) by {
                    if k != product_key_of(vid, pid) {
                        assert(st.products.contains_key(k));
                    }
                }
            }
        }
    } else {
        lemma_id_line_trimmed(line);
    }
}

proof fn lemma_ids_from_consistent(st: IdsState, ls: Seq<Seq<char>>)
    requires
        ids_consistent(st),
    ensures
        ids_consistent(ids_from(st, ls)),
    decreases ls.len(),
{
    if ls.len() > 0 {
        lemma_ids_from_consistent(st, ls.drop_last());
        lemma_ids_step_consistent(ids_from(st, ls.drop_last()), ls.last());
    }
}

/// Whatever a usb.ids text holds, every product it names belongs to a vendor
/// it names, and every name is trimmed.
pub proof fn lemma_usb_ids_consistent(s: Seq<char>)
    ensures
        forall|vid: u16, pid: u16|
            #[trigger] usb_ids_of(s).products.contains_key(product_key_of(vid, pid))
                ==> usb_ids_of(s).vendors.contains_key(vid),
        forall|vid: u16| #[trigger] usb_ids_of(s).vendors.contains_key(vid) ==> is_trimmed(
            usb_ids_of(s).vendors[vid],
        ),
        forall|k: u32| #[trigger] usb_ids_of(s).products.contains_key(k) ==> is_trimmed(
            usb_ids_of(s).products[k],
        ),
{
    lemma_ids_fold_from(lines(s));
    assert(ids_consistent(ids_start()));
    lemma_ids_from_consistent(ids_start(), lines(s));
    assert forall|vid: u16, pid: u16|
        #[trigger] usb_ids_of(s).products.contains_key(product_key_of(vid, pid)) implies usb_ids_of(
        s,
    ).vendors.contains_key(vid) by {
        lemma_product_key_vendor(vid, pid);
    }
}

/// Blank lines, comments and interface lines (two tabs deep) change
/// nothing, wherever they stand among the lines of a usb.ids text.
pub proof fn lemma_inert_lines_ignored(a: Seq<Seq<char>>, line: Seq<char>, b: Seq<Seq<char>>)
    requires
        ids_inert(line),
    ensures
        ids_fold(a + seq![line] + b) == ids_fold(a + b),
{
    lemma_ids_fold_from(a + seq![line] + b);
    lemma_ids_fold_from(a + b);
    lemma_ids_from_concat(ids_start(), a + seq![line], b);
    lemma_ids_from_concat(ids_start(), a, seq![line]);
    lemma_ids_from_concat(ids_start(), a, b);
    let st = ids_from(ids_start(), a);
    assert(seq![line].drop_last() =~= Seq::<Seq<char>>::empty());
    assert(ids_from(st, seq![line]) == ids_step(ids_from(st, seq![line].drop_last()), line));
    if line.len() >= 2 && line[0] == '\t' {
        assert(line.drop_first()[0] == line[1]);
    }
    assert(ids_step(st, line) == st);
}

proof fn lemma_no_vendor_scope(st: IdsState, b: Seq<Seq<char>>)
    requires
        st.cur is None,
        forall|i: int| 0 <= i < b.len() ==> !vendor_line(#[trigger] b[i]),
    ensures
        ids_from(st, b) == st,
    decreases b.len(),
{
    if b.len() > 0 {
        assert forall|i: int| 0 <= i < b.drop_last().len() implies !vendor_line(#[trigger] b.drop_last()[i]) by {
            assert(b.drop_last()[i] == b[i]);
        }
        lemma_no_vendor_scope(st, b.drop_last());
        assert(!vendor_line(b[b.len() - 1]));
    }
}

/// In a usb.ids text, putting in or taking out a blank line, a comment or
/// an interface line (two tabs deep), with its line break, at the start of
/// any line changes nothing.
pub proof fn lemma_inert_text_ignored(p: Seq<char>, l: Seq<char>, q: Seq<char>)
    requires
        p.len() == 0 || p.last() == '\n',
        !l.contains('\n'),
        ids_inert(strip_cr(l)),
    ensures
        usb_ids_of(p + l + seq!['\n'] + q) == usb_ids_of(p + q),
{
    lemma_lines_around(p, l, q);
    lemma_inert_lines_ignored(lines(p), strip_cr(l), lines(q));
}

/// A top-level line that names no vendor (a class section such as
/// `C 03  HID`) ends the vendor's scope: the lines after it add no product
/// and no vendor until the next vendor line.
pub proof fn lemma_section_ends_vendor(a: Seq<Seq<char>>, line: Seq<char>, b: Seq<Seq<char>>)
    requires
        section_line(line),
        forall|i: int| 0 <= i < b.len() ==> !vendor_line(#[trigger] b[i]),
    ensures
        ids_fold(a + seq![line] + b).vendors == ids_fold(a).vendors,
        ids_fold(a + seq![line] + b).products == ids_fold(a).products,
{
    lemma_ids_fold_from(a + seq![line] + b);
    lemma_ids_fold_from(a);
    lemma_ids_from_concat(ids_start(), a + seq![line], b);
    lemma_ids_from_concat(ids_start(), a, seq![line]);
    assert(seq![line].drop_last() =~= Seq::<Seq<char>>::empty());
    let s0 = ids_from(ids_start(), a);
    assert(ids_from(s0, seq![line]) == ids_step(ids_from(s0, seq![line].drop_last()), line));
    let st = ids_from(ids_start(), a + seq![line]);
    assert(st == IdsState { cur: None, ..s0 });
    lemma_no_vendor_scope(st, b);
}

pub fn split_id_line(s: &[char]) -> (r: Option<(u16, String)>)
    ensures
        match r {
            Some((v, n)) => id_line_of(s@) == Some((v, n@)),
            None => id_line_of(s@) is None,
        },
{
    let (id, name) = match split_once_gap_chars(s) {
        Some(p) => p,
        None => return None,
    };
    let v = match parse_hex16(id.as_slice()) {
        Some(v) => v,
        None => return None,
    };
    let t = trim_chars(name.as_slice());
    Some((v, string_of(t.as_slice())))
}

/// usb.ids format: `vvvv  Vendor`, then tab-indented `pppp  Product` lines.
/// Class/misc sections at the end ("C 03  HID", "AT ...") fail the hex parse
/// and reset the current vendor, so their sub-lines are ignored.
pub fn parse_usb_ids(s: &str) -> (db: IdsDb)
    ensures
        names_of(db.vendors@) == usb_ids_of(s@).vendors,
        names_of(db.products@) == usb_ids_of(s@).products,
{
    let cs = chars_of(s);
    let ls = split_lines(cs.as_slice());
    let mut vendors: HashMap<u16, String> = HashMap::new();
    let mut products: HashMap<u32, String> = HashMap::new();
    let mut cur: Option<u16> = None;
    let mut i: usize = 0;
    assert(names_of(vendors@) =~= Map::<u16, Seq<char>>::empty());
    assert(names_of(products@) =~= Map::<u32, Seq<char>>::empty());
    assert(views(ls@).take(0) =~= seq![]);
    while i < ls.len()
        invariant
            i <= ls.len(),
            views(ls@) == lines(s@),
            ids_fold(views(ls@).take(i as int)) == (IdsState {
                cur,
                vendors: names_of(vendors@),
                products: names_of(products@),
            }),
        decreases ls.len() - i,
    {
        let line = &ls[i];
        let ghost st = ids_fold(views(ls@).take(i as int));
        assert(views(ls@).take(i + 1).drop_last() =~= views(ls@).take(i as int));
        assert(views(ls@).take(i + 1).last() == line@);
        if line.len() == 0 || line[0] == '#' {
        } else if line[0] == '\t' {
            let rest = crate::text::slice_of(line.as_slice(), 1, line.len());
            assert(rest@ =~= line@.drop_first());
            if rest.len() > 0 && rest[0] == '\t' {
            } else {
                match cur {
                    Some(vid) => match split_id_line(rest.as_slice()) {
                        Some((pid, name)) => {
                            let ghost n = name@;
                            products.insert(product_key(vid, pid), name);
                            assert(names_of(products@) =~= st.products.insert(
                                product_key_of(vid, pid),
                                n,
                            ));
                        },
                        None => {},
                    },
                    None => {},
                }
            }
        } else {
            match split_id_line(line.as_slice()) {
                Some((vid, name)) => {
                    let ghost n = name@;
                    cur = Some(vid);
                    vendors.insert(vid, name);
                    assert(names_of(vendors@) =~= st.vendors.insert(vid, n));
                },
                None => {
                    cur = None;
                },
            }
        }
        i = i + 1;
    }
    assert(views(ls@).take(ls.len() as int) =~= views(ls@));
    IdsDb { vendors, products }
}


// ---------------------------------------------------------------------------
// User overrides

/// One line of the overrides file: `vvvv:pppp Friendly Name`, trimmed;
/// blank lines, comments and malformed lines give nothing.
pub open spec fn override_line_of(line: Seq<char>) -> Option<(u32, Seq<char>)> {
    let t = trim(line);
    if t.len() == 0 || t[0] == '#' {
        None
    } else {
        match split_once_ws(t) {
            None => None,
            Some((ids, name)) => match split_once(ids, ':') {
                None => None,
                Some((v, p)) => match (parse_hex_u16(v), parse_hex_u16(p)) {
                    (Some(vid), Some(pid)) => Some(
                        (product_key_of(vid as u16, pid as u16), trim(name)),
                    ),
                    _ => None,
                },
            },
        }
    }
}

/// The overrides of the lines `ls`; a later line for the same ids wins.
pub open spec fn overrides_fold(ls: Seq<Seq<char>>) -> Map<u32, Seq<char>>
    decreases ls.len(),
{
    if ls.len() == 0 {
        Map::empty()
    } else {
        let m = overrides_fold(ls.drop_last());
        match override_line_of(ls.last()) {
            Some((k, name)) => m.insert(k, name),
            None => m,
        }
    }
}

/// The names that an overrides text holds, keyed by [`product_key`].
pub open spec fn overrides_of(s: Seq<char>) -> Map<u32, Seq<char>> {
    overrides_fold(lines(s))
}

fn override_line(line: &[char]) -> (r: Option<(u32, String)>)
    ensures
        match r {
            Some((k, n)) => override_line_of(line@) == Some((k, n@)),
            None => override_line_of(line@) is None,
        },
{
    let t = trim_chars(line);
    if t.len() == 0 || t[0] == '#' {
        return None;
    }
    let (ids, name) = match split_once_ws_chars(t.as_slice()) {
        Some(p) => p,
        None => return None,
    };
    let (v, p) = match split_once_chars(ids.as_slice(), ':') {
        Some(p) => p,
        None => return None,
    };
    let vid = match parse_hex16(v.as_slice()) {
        Some(x) => x,
        None => return None,
    };
    let pid = match parse_hex16(p.as_slice()) {
        Some(x) => x,
        None => return None,
    };
    let n = trim_chars(name.as_slice());
    Some((product_key(vid, pid), string_of(n.as_slice())))
}

/// User heuristics DB: one entry per line, `vvvv:pppp Friendly Name`.
pub fn parse_overrides(s: &str) -> (m: HashMap<u32, String>)
    ensures
        names_of(m@) == overrides_of(s@),
{
    let cs = chars_of(s);
    let ls = split_lines(cs.as_slice());
    let mut m: HashMap<u32, String> = HashMap::new();
    let mut i: usize = 0;
    assert(names_of(m@) =~= Map::<u32, Seq<char>>::empty());
    assert(views(ls@).take(0) =~= seq![]);
    while i < ls.len()
        invariant
            i <= ls.len(),
            views(ls@) == lines(s@),
            overrides_fold(views(ls@).take(i as int)) == names_of(m@),
        decreases ls.len() - i,
    {
        let ghost before = names_of(m@);
        assert(views(ls@).take(i + 1).drop_last() =~= views(ls@).take(i as int));
        assert(views(ls@).take(i + 1).last() == ls@[i as int]@);
        match override_line(ls[i].as_slice()) {
            Some((k, name)) => {
                let ghost n = name@;
                m.insert(k, name);
                assert(names_of(m@) =~= before.insert(k, n));
            },
            None => {},
        }
        i = i + 1;
    }
    assert(views(ls@).take(ls.len() as int) =~= views(ls@));
    m
}

// ---------------------------------------------------------------------------
// Name lookup

/// The name that the usb-ids crate's built-in database gives a vendor.
pub uninterp spec fn usb_ids_vendor(vid: u16) -> Option<Seq<char>>;

/// The name that the usb-ids crate's built-in database gives a product.
pub uninterp spec fn usb_ids_product(vid: u16, pid: u16) -> Option<Seq<char>>;

/// `usb_ids::Vendor::from_id(vid)` and its name: the contract claims only
/// that the result is a function of `vid` alone (the crate's table is
/// compiled in).
#[verifier::external_body]
fn builtin_vendor_name(vid: u16) -> (r: Option<String>)
    ensures
        r.deep_view() == usb_ids_vendor(vid),
{
    usb_ids::Vendor::from_id(vid).map(|v| v.name().to_string())
}

/// `usb_ids::Device::from_vid_pid(vid, pid)` and its name: the contract
/// claims only that the result is a function of the two ids alone.
#[verifier::external_body]
fn builtin_product_name(vid: u16, pid: u16) -> (r: Option<String>)
    ensures
        r.deep_view() == usb_ids_product(vid, pid),
{
    usb_ids::Device::from_vid_pid(vid, pid).map(|d| d.name().to_string())
}

/// Where names come from besides the device itself: the user's overrides
/// and a downloaded usb.ids, which wins over the built-in snapshot.
pub struct NameDb {
    /// keyed by [`product_key`]
    pub overrides: HashMap<u32, String>,
    pub downloaded: Option<IdsDb>,
}

impl NameDb {
    /// No overrides and no downloaded database.
    pub fn empty() -> (db: NameDb)
        ensures
            db.overrides@ == Map::<u32, String>::empty(),
            db.downloaded is None,
    {
        NameDb { overrides: HashMap::new(), downloaded: None }
    }
}

/// The user's name for a product, if any.
pub open spec fn override_name(db: &NameDb, vid: u16, pid: u16) -> Option<Seq<char>> {
    let k = product_key_of(vid, pid);
    if db.overrides@.contains_key(k) {
        Some(db.overrides@[k]@)
    } else {
        None
    }
}

/// A product's name: the downloaded usb.ids first, then `builtin`.
pub open spec fn product_name_with(
    db: &NameDb,
    vid: u16,
    pid: u16,
    builtin: Option<Seq<char>>,
) -> Option<Seq<char>> {
    let k = product_key_of(vid, pid);
    match db.downloaded {
        Some(ids) if ids.products@.contains_key(k) => Some(ids.products@[k]@),
        _ => builtin,
    }
}

/// A vendor's name: the downloaded usb.ids first, then `builtin`.
pub open spec fn vendor_name_with(db: &NameDb, vid: u16, builtin: Option<Seq<char>>) -> Option<
    Seq<char>,
> {
    match db.downloaded {
        Some(ids) if ids.vendors@.contains_key(vid) => Some(ids.vendors@[vid]@),
        _ => builtin,
    }
}

/// The vendor of a device: its manufacturer string, else the databases.
pub open spec fn vendor_with(d: DeviceView, db: &NameDb, builtin: Option<Seq<char>>) -> Option<
    Seq<char>,
> {
    match d.manufacturer {
        Some(m) => Some(m),
        None => vendor_name_with(db, d.vid, builtin),
    }
}

/// Best human-readable name: user overrides, the product string, usb.ids
/// (downloaded, then the built-in product name `bp`), then vendor (built-in
/// vendor name `bv` last) and class.
pub open spec fn label_with(
    d: DeviceView,
    db: &NameDb,
    bp: Option<Seq<char>>,
    bv: Option<Seq<char>>,
) -> Seq<char> {
    match override_name(db, d.vid, d.pid) {
        Some(n) => n,
        None => match d.product {
            Some(p) => p,
            None => match product_name_with(db, d.vid, d.pid, bp) {
                Some(n) => n,
                None => match vendor_with(d, db, bv) {
                    Some(v) => v + seq![' '] + class_label(
                        effective_class_of(d.class, d.iface_classes),
                    )@,
                    None => "Unknown device "@ + hex4(d.vid) + seq![':'] + hex4(d.pid),
                },
            },
        },
    }
}

/// The label of a device with the usb-ids crate's built-in names.
pub open spec fn label_of(d: DeviceView, db: &NameDb) -> Seq<char> {
    label_with(d, db, usb_ids_product(d.vid, d.pid), usb_ids_vendor(d.vid))
}

/// The name shown for a device's vendor, else its id in hex.
pub open spec fn vendor_label_with(d: DeviceView, db: &NameDb, bv: Option<Seq<char>>) -> Seq<char> {
    match vendor_with(d, db, bv) {
        Some(v) => v,
        None => hex4(d.vid),
    }
}

/// The vendor name of a device with the usb-ids crate's built-in names.
pub open spec fn vendor_label_of(d: DeviceView, db: &NameDb) -> Seq<char> {
    vendor_label_with(d, db, usb_ids_vendor(d.vid))
}

fn downloaded_product(db: &NameDb, vid: u16, pid: u16, builtin: Option<String>) -> (r: Option<String>)
    ensures
        r.deep_view() == product_name_with(db, vid, pid, builtin.deep_view()),
{
    let k = product_key(vid, pid);
    match &db.downloaded {
        Some(ids) => match ids.products.get(&k) {
            Some(n) => {
                return Some(n.clone());
            },
            None => {},
        },
        None => {},
    }
    builtin
}

fn downloaded_vendor(db: &NameDb, vid: u16, builtin: Option<String>) -> (r: Option<String>)
    ensures
        r.deep_view() == vendor_name_with(db, vid, builtin.deep_view()),
{
    match &db.downloaded {
        Some(ids) => match ids.vendors.get(&vid) {
            Some(n) => {
                return Some(n.clone());
            },
            None => {},
        },
        None => {},
    }
    builtin
}

impl Device {
    fn vendor_lookup(&self, names: &NameDb, builtin: Option<String>) -> (r: Option<String>)
        ensures
            r.deep_view() == vendor_with(self@, names, builtin.deep_view()),
    {
        match &self.manufacturer {
            Some(m) => Some(m.clone()),
            None => downloaded_vendor(names, self.vid, builtin),
        }
    }

    /// The label given the built-in database's product name `builtin_product`
    /// and vendor name `builtin_vendor` for this device's ids.
    pub fn label_given(
        &self,
        names: &NameDb,
        builtin_product: Option<String>,
        builtin_vendor: Option<String>,
    ) -> (r: String)
        ensures
            r@ == label_with(self@, names, builtin_product.deep_view(), builtin_vendor.deep_view()),
    {
        let k = product_key(self.vid, self.pid);
        match names.overrides.get(&k) {
            Some(n) => {
                return n.clone();
            },
            None => {},
        }
        match &self.product {
            Some(p) => {
                return p.clone();
            },
            None => {},
        }
        match downloaded_product(names, self.vid, self.pid, builtin_product) {
            Some(n) => {
                return n;
            },
            None => {},
        }
        match self.vendor_lookup(names, builtin_vendor) {
            Some(v) => {
                let mut s = v;
                s.push(' ');
                push_str(&mut s, self.class_name());
                s
            },
            None => {
                let mut s = String::new();
                push_str(&mut s, "Unknown device ");
                push_hex4(&mut s, self.vid);
                s.push(':');
                push_hex4(&mut s, self.pid);
                assert(s@ =~= "Unknown device "@ + hex4(self.vid) + seq![':'] + hex4(self.pid));
                s
            },
        }
    }

    /// Best human-readable name: user overrides, sysfs product string,
    /// usb.ids, then vendor + class heuristics.
    pub fn label(&self, names: &NameDb) -> (r: String)
        ensures
            r@ == label_of(self@, names),
    {
        let bp = builtin_product_name(self.vid, self.pid);
        let bv = builtin_vendor_name(self.vid);
        self.label_given(names, bp, bv)
    }

    /// The vendor name given the built-in database's name `builtin_vendor`.
    pub fn vendor_name_given(&self, names: &NameDb, builtin_vendor: Option<String>) -> (r: String)
        ensures
            r@ == vendor_label_with(self@, names, builtin_vendor.deep_view()),
    {
        match self.vendor_lookup(names, builtin_vendor) {
            Some(v) => v,
            None => {
                let mut s = String::new();
                push_hex4(&mut s, self.vid);
                assert(s@ =~= hex4(self.vid));
                s
            },
        }
    }

    /// The vendor's name, else the vendor id in hex.
    pub fn vendor_name(&self, names: &NameDb) -> (r: String)
        ensures
            r@ == vendor_label_of(self@, names),
    {
        let bv = builtin_vendor_name(self.vid);
        self.vendor_name_given(names, bv)
    }
}


// ---------------------------------------------------------------------------
// Where the name files live

/// The environment variable the configuration directory is found under.
#[derive(Debug, Clone, Copy, PartialEq, Eq)]
pub enum ConfigBase {
    /// `$XDG_CONFIG_HOME`
    XdgConfigHome,
    /// `$HOME`, below which the directory is `.config`
    Home,
    /// `%APPDATA%`
    AppData,
}

/// The first of `$XDG_CONFIG_HOME`, `$HOME`, `%APPDATA%` that is set.
pub open spec fn config_base_of(xdg: bool, home: bool, appdata: bool) -> Option<ConfigBase> {
    if xdg {
        Some(ConfigBase::XdgConfigHome)
    } else if home {
        Some(ConfigBase::Home)
    } else if appdata {
        Some(ConfigBase::AppData)
    } else {
        None
    }
}

/// The path components of `file` in the `usbtree` config directory, below
/// the value of the base variable.
pub open spec fn config_parts_of(base: ConfigBase, file: Seq<char>) -> Seq<Seq<char>> {
    match base {
        ConfigBase::Home => seq![".config"@, "usbtree"@, file],
        _ => seq!["usbtree"@, file],
    }
}

/// Where `file` lives in the config directory, given which of the base
/// variables are set: the variable, and the components to join below its
/// value.
pub fn config_file(xdg: bool, home: bool, appdata: bool, file: &str) -> (r: Option<(ConfigBase, Vec<String>)>)
    ensures
        match r {
            Some((b, parts)) => config_base_of(xdg, home, appdata) == Some(b) && parts@.map_values(
                |p: String| p@,
            ) == config_parts_of(b, file@),
            None => config_base_of(xdg, home, appdata) is None,
        },
{
    let base = if xdg {
        ConfigBase::XdgConfigHome
    } else if home {
        ConfigBase::Home
    } else if appdata {
        ConfigBase::AppData
    } else {
        return None;
    };
    let mut parts: Vec<String> = Vec::new();
    match base {
        ConfigBase::Home => {
            parts.push(crate::text::owned(".config"));
        },
        _ => {},
    }
    parts.push(crate::text::owned("usbtree"));
    parts.push(crate::text::owned(file));
    assert(parts@.map_values(|p: String| p@) =~= config_parts_of(base, file@));
    Some((base, parts))
}

/// Where the downloaded usb.ids is cached: `usb.ids` in the config
/// directory.
pub fn ids_cache_path(xdg: bool, home: bool, appdata: bool) -> (r: Option<(ConfigBase, Vec<String>)>)
    ensures
        match r {
            Some((b, parts)) => config_base_of(xdg, home, appdata) == Some(b) && parts@.map_values(
                |p: String| p@,
            ) == config_parts_of(b, "usb.ids"@),
            None => config_base_of(xdg, home, appdata) is None,
        },
{
    config_file(xdg, home, appdata, "usb.ids")
}

/// Where the user's overrides live: `overrides.ids` in the config
/// directory.
pub fn overrides_path(xdg: bool, home: bool, appdata: bool) -> (r: Option<(ConfigBase, Vec<String>)>)
    ensures
        match r {
            Some((b, parts)) => config_base_of(xdg, home, appdata) == Some(b) && parts@.map_values(
                |p: String| p@,
            ) == config_parts_of(b, "overrides.ids"@),
            None => config_base_of(xdg, home, appdata) is None,
        },
{
    config_file(xdg, home, appdata, "overrides.ids")
}

/// A user override names a product whatever the device reports and
/// whatever either database says.
pub proof fn lemma_override_wins(
    d: DeviceView,
    db: &NameDb,
    bp: Option<Seq<char>>,
    bv: Option<Seq<char>>,
)
    requires
        db.overrides@.contains_key(product_key_of(d.vid, d.pid)),
    ensures
        label_with(d, db, bp, bv) == db.overrides@[product_key_of(d.vid, d.pid)]@,
{
}

/// Without an override or a product string, a product name from the
/// downloaded usb.ids wins over the built-in one; a vendor name from it wins
/// the same way when the device reports no manufacturer.
pub proof fn lemma_downloaded_wins(
    d: DeviceView,
    db: &NameDb,
    bp: Option<Seq<char>>,
    bv: Option<Seq<char>>,
)
    requires
        db.downloaded is Some,
    ensures
        ({
            let ids = db.downloaded->0;
            let k = product_key_of(d.vid, d.pid);
            !db.overrides@.contains_key(k) && d.product is None && ids.products@.contains_key(k)
                ==> label_with(d, db, bp, bv) == ids.products@[k]@
        }),
        ({
            let ids = db.downloaded->0;
            d.manufacturer is None && ids.vendors@.contains_key(d.vid) ==> vendor_label_with(d, db, bv)
                == ids.vendors@[d.vid]@
        }),
{
}

} // verus!
