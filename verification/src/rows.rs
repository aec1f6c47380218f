//! The tree as the terminal shows it: the rail drawn before each row, the
//! rows a filter keeps, and which devices a filter query matches.
use vstd::prelude::*;
use crate::ids::{label_of, vendor_label_of, NameDb};
use crate::text::{chars_of, contains_chars, contains_seq, hex4, push_hex4};
use crate::tree::well_formed_rows;
use crate::usb::{class_label, effective_class_of, Device, DeviceView};

verus! {

// ---------------------------------------------------------------------------
// Rails

/// Scanning from row `j` on, the next row that is not deeper than `d` is
/// shallower than it (or there is none).
pub open spec fn last_from(rows: Seq<(usize, usize)>, d: usize, j: int) -> bool
    decreases rows.len() - j,
{
    if j < 0 || j >= rows.len() {
        true
    } else if rows[j].0 < d {
        true
    } else if rows[j].0 == d {
        false
    } else {
        last_from(rows, d, j + 1)
    }
}

/// Row `i` is the last of its siblings.
pub open spec fn is_last_row(rows: Seq<(usize, usize)>, i: int) -> bool {
    last_from(rows, rows[i].0, i + 1)
}

/// The last-sibling flags of the open ancestors after the first `n` rows:
/// a root row clears them; a row at depth `d` keeps the first `d - 1` and
/// adds its own.
pub open spec fn open_flags(rows: Seq<(usize, usize)>, n: int) -> Seq<bool>
    decreases n,
{
    if n <= 0 {
        seq![]
    } else {
        let st = open_flags(rows, n - 1);
        let d = rows[n - 1].0;
        if d == 0 {
            seq![]
        } else {
            kept_flags(st, d).push(is_last_row(rows, n - 1))
        }
    }
}

/// The flags of the ancestors above depth `d`.
pub open spec fn kept_flags(st: Seq<bool>, d: usize) -> Seq<bool> {
    if st.len() <= d - 1 {
        st
    } else {
        st.take(d - 1)
    }
}

pub open spec fn pipe_seg() -> Seq<char> {
    seq!['\u{2502}', ' ', ' ']
}

pub open spec fn blank_seg() -> Seq<char> {
    seq![' ', ' ', ' ']
}

pub open spec fn last_branch() -> Seq<char> {
    seq!['\u{2514}', '\u{2500}', ' ']
}

pub open spec fn mid_branch() -> Seq<char> {
    seq!['\u{251c}', '\u{2500}', ' ']
}

/// One column per open ancestor: blank below a last sibling, a pipe
/// otherwise.
pub open spec fn segments(flags: Seq<bool>) -> Seq<char>
    decreases flags.len(),
{
    if flags.len() == 0 {
        seq![]
    } else {
        segments(flags.drop_last()) + if flags.last() {
            blank_seg()
        } else {
            pipe_seg()
        }
    }
}

/// The rail drawn before row `i`: nothing for a root, else the ancestor
/// columns and a branch.
pub open spec fn rail_of(rows: Seq<(usize, usize)>, i: int) -> Seq<char> {
    let d = rows[i].0;
    if d == 0 {
        seq![]
    } else {
        segments(kept_flags(open_flags(rows, i), d)) + if is_last_row(rows, i) {
            last_branch()
        } else {
            mid_branch()
        }
    }
}

/// Scanning from row `j`: no row at depth `d` comes before a row shallower
/// than `d`, going only through deeper rows.
proof fn lemma_last_from_iff(rows: Seq<(usize, usize)>, d: usize, j: int)
    requires
        0 <= j,
    ensures
        last_from(rows, d, j) <==> (forall|m: int|
            j <= m < rows.len() && (forall|k: int| j <= k < m ==> (#[trigger] rows[k]).0 > d) ==> (
            #[trigger] rows[m]).0 != d),
    decreases rows.len() - j,
{
    if j < rows.len() {
        if rows[j].0 < d {
            assert forall|m: int|
                j <= m < rows.len() && (forall|k: int| j <= k < m ==> (#[trigger] rows[k]).0 > d) implies (
            #[trigger] rows[m]).0 != d by {
                if m > j {
                    assert(rows[j].0 > d);
                }
            }
        } else if rows[j].0 == d {
            assert(forall|k: int| j <= k < j ==> (#[trigger] rows[k]).0 > d);
        } else {
            lemma_last_from_iff(rows, d, j + 1);
            if last_from(rows, d, j + 1) {
                assert forall|m: int|
                    j <= m < rows.len() && (forall|k: int| j <= k < m ==> (#[trigger] rows[k]).0 > d) implies (
                #[trigger] rows[m]).0 != d by {
                    if m > j {
                        assert(forall|k: int| j + 1 <= k < m ==> (#[trigger] rows[k]).0 > d);
                    }
                }
            } else {
                let m = choose|m: int|
                    !(j + 1 <= m < rows.len() && (forall|k: int| j + 1 <= k < m ==> (#[trigger] rows[k]).0 > d)
                        ==> (#[trigger] rows[m]).0 != d);
                assert(forall|k: int| j <= k < m ==> (#[trigger] rows[k]).0 > d);
            }
        }
    }
}

/// The rail of a root row is empty. The rail of any other row ends in a
/// branch, and the branch is the corner (`└─ `) exactly when no sibling
/// follows the row: every later row at its depth comes after a shallower
/// row ([`no_later_sibling`]). Otherwise it is the tee (`├─ `).
pub proof fn lemma_rail_branch(rows: Seq<(usize, usize)>, i: int)
    requires
        0 <= i < rows.len(),
    ensures
        rows[i].0 == 0 ==> rail_of(rows, i).len() == 0,
        rows[i].0 > 0 ==> {
            let r = rail_of(rows, i);
            &&& r.len() >= 3
            &&& r.skip(r.len() - 3) == if no_later_sibling(rows, i) {
                last_branch()
            } else {
                mid_branch()
            }
        },
{
    lemma_last_from_iff(rows, rows[i].0, i + 1);
    let d = rows[i].0;
    if d > 0 {
        let segs = segments(kept_flags(open_flags(rows, i), d));
        let b = if is_last_row(rows, i) {
            last_branch()
        } else {
            mid_branch()
        };
        let r = rail_of(rows, i);
        assert(r == segs + b);
        assert(r.skip(r.len() - 3) =~= b);
        assert((forall|j: int|
            i < j < rows.len() && (forall|k: int| i < k < j ==> (#[trigger] rows[k]).0 > d) ==> (
            #[trigger] rows[j]).0 != d) == (forall|m: int|
            i + 1 <= m < rows.len() && (forall|k: int| i + 1 <= k < m ==> (#[trigger] rows[k]).0 > d)
                ==> (#[trigger] rows[m]).0 != d));
    }
}

/// The rows of a tree: the first is a root, and each row is at most one
/// level deeper than the row before it.
pub open spec fn depths_step(rows: Seq<(usize, usize)>) -> bool {
    &&& rows.len() > 0 ==> rows[0].0 == 0
    &&& forall|i: int| 0 < i < rows.len() ==> (#[trigger] rows[i]).0 <= rows[i - 1].0 + 1
}

/// Row `a` is the ancestor at depth `t` of the row `i`: the last row at
/// depth `t` before it, every row between them being deeper.
pub open spec fn ancestor_of(rows: Seq<(usize, usize)>, i: int, t: int, a: int) -> bool {
    &&& 0 <= a < i
    &&& rows[a].0 == t
    &&& forall|k: int| a < k < i ==> (#[trigger] rows[k]).0 > t
}

/// Row `i` has an ancestor at depth `t`.
pub open spec fn has_ancestor(rows: Seq<(usize, usize)>, i: int, t: int) -> bool {
    exists|a: int| #[trigger] ancestor_of(rows, i, t, a)
}

/// No sibling follows row `a`: every later row at its depth comes after a
/// shallower row.
pub open spec fn no_later_sibling(rows: Seq<(usize, usize)>, a: int) -> bool {
    forall|j: int|
        a < j < rows.len() && (forall|k: int| a < k < j ==> (#[trigger] rows[k]).0 > rows[a].0) ==> (
        #[trigger] rows[j]).0 != rows[a].0
}

proof fn lemma_segments(flags: Seq<bool>)
    ensures
        segments(flags).len() == 3 * flags.len(),
        forall|c: int|
            0 <= c < flags.len() ==> #[trigger] segments(flags).subrange(3 * c, 3 * c + 3) == if flags[c] {
                blank_seg()
            } else {
                pipe_seg()
            },
    decreases flags.len(),
{
    if flags.len() > 0 {
        let p = flags.drop_last();
        lemma_segments(p);
        let s = segments(flags);
        let last = if flags.last() {
            blank_seg()
        } else {
            pipe_seg()
        };
        assert(s == segments(p) + last);
        assert forall|c: int| 0 <= c < flags.len() implies #[trigger] s.subrange(3 * c, 3 * c + 3) == if flags[c] {
            blank_seg()
        } else {
            pipe_seg()
        } by {
            if c < p.len() {
                assert(s.subrange(3 * c, 3 * c + 3) =~= segments(p).subrange(3 * c, 3 * c + 3));
            } else {
                assert(s.subrange(3 * c, 3 * c + 3) =~= last);
            }
        }
    }
}

/// After the first `n` rows, one flag per open level, each telling whether
/// that level's ancestor has no later sibling.
proof fn lemma_open_flags(rows: Seq<(usize, usize)>, n: int)
    requires
        depths_step(rows),
        1 <= n <= rows.len(),
    ensures
        open_flags(rows, n).len() == rows[n - 1].0,
        forall|t: int, a: int|
            1 <= t <= rows[n - 1].0 && #[trigger] ancestor_of(rows, n, t, a) ==> open_flags(rows, n)[t - 1]
                == is_last_row(rows, a),
    decreases n,
{
    let d = rows[n - 1].0;
    if n == 1 {
        assert(d == 0);
    } else {
        lemma_open_flags(rows, n - 1);
        let st = open_flags(rows, n - 1);
        assert(rows[n - 1].0 <= rows[n - 2].0 + 1);
        if d > 0 {
            let kept = kept_flags(st, d);
            assert(kept.len() == d - 1);
            assert forall|t: int, a: int|
                1 <= t <= d && #[trigger] ancestor_of(rows, n, t, a) implies open_flags(rows, n)[t - 1]
                    == is_last_row(rows, a) by {
                if t < d {
                    if a == n - 1 {
                        assert(false);
                    }
                    assert(ancestor_of(rows, n - 1, t, a));
                    assert(kept[t - 1] == st[t - 1]);
                } else {
                    if a < n - 1 {
                        assert(rows[n - 1].0 > t);
                    }
                }
            }
        }
    }
}

/// Below a row at depth `t` or deeper there is an ancestor at depth `t`.
proof fn lemma_ancestor_exists(rows: Seq<(usize, usize)>, i: int, t: int)
    requires
        depths_step(rows),
        1 <= i <= rows.len(),
        1 <= t <= rows[i - 1].0,
    ensures
        exists|a: int| #[trigger] ancestor_of(rows, i, t, a),
    decreases i,
{
    if rows[i - 1].0 == t {
        assert(ancestor_of(rows, i, t, i - 1));
    } else {
        assert(i > 1);
        assert(rows[i - 1].0 <= rows[i - 2].0 + 1);
        lemma_ancestor_exists(rows, i - 1, t);
        let a = choose|a: int| #[trigger] ancestor_of(rows, i - 1, t, a);
        assert(ancestor_of(rows, i, t, a));
    }
}

/// In the rows of a tree, the rail of a row at depth `d` is `d` columns of
/// three characters. Each column above the branch belongs to one of the
/// row's ancestors, and such an ancestor always exists; the column is blank
/// when that ancestor has no later sibling, and a pipe (`│  `) otherwise.
pub proof fn lemma_rail_columns(rows: Seq<(usize, usize)>, i: int)
    requires
        depths_step(rows),
        0 <= i < rows.len(),
    ensures
        rail_of(rows, i).len() == 3 * rows[i].0,
        forall|t: int| 1 <= t < rows[i].0 ==> #[trigger] has_ancestor(rows, i, t),
        forall|t: int, a: int|
            1 <= t < rows[i].0 && #[trigger] ancestor_of(rows, i, t, a) ==> rail_of(rows, i).subrange(
                3 * t - 3,
                3 * t,
            ) == if no_later_sibling(rows, a) {
                blank_seg()
            } else {
                pipe_seg()
            },
{
    let d = rows[i].0;
    if d > 0 {
        assert(i > 0);
        assert(rows[i].0 <= rows[i - 1].0 + 1);
        lemma_open_flags(rows, i);
        let st = open_flags(rows, i);
        let kept = kept_flags(st, d);
        assert(kept.len() == d - 1);
        lemma_segments(kept);
        let segs = segments(kept);
        let b = if is_last_row(rows, i) {
            last_branch()
        } else {
            mid_branch()
        };
        assert(rail_of(rows, i) == segs + b);
        assert forall|t: int| 1 <= t < d implies #[trigger] has_ancestor(rows, i, t) by {
            lemma_ancestor_exists(rows, i, t);
        }
        assert forall|t: int, a: int|
            1 <= t < d && #[trigger] ancestor_of(rows, i, t, a) implies rail_of(rows, i).subrange(3 * t - 3, 3 * t)
                == if no_later_sibling(rows, a) {
                blank_seg()
            } else {
                pipe_seg()
            } by {
            assert(rail_of(rows, i).subrange(3 * t - 3, 3 * t) =~= segs.subrange(3 * (t - 1), 3 * (t - 1) + 3));
            assert(kept[t - 1] == st[t - 1]);
            lemma_last_from_iff(rows, rows[a].0, a + 1);
            assert(no_later_sibling(rows, a) == (forall|m: int|
                a + 1 <= m < rows.len() && (forall|k: int| a + 1 <= k < m ==> (#[trigger] rows[k]).0 > rows[a].0)
                    ==> (#[trigger] rows[m]).0 != rows[a].0));
        }
    }
}

/// Each human-facing field of a device that holds the query makes the
/// device match: its name, label, vendor, class name or `vvvv:pppp` ids,
/// lower-cased; and a device matches through one of them only.
pub proof fn lemma_match_fields(d: DeviceView, q: Seq<char>, db: &NameDb)
    ensures
        contains_seq(lowercase(d.name), q) ==> matches_query(d, q, db),
        contains_seq(lowercase(label_of(d, db)), q) ==> matches_query(d, q, db),
        contains_seq(lowercase(vendor_label_of(d, db)), q) ==> matches_query(d, q, db),
        contains_seq(lowercase(class_label(effective_class_of(d.class, d.iface_classes))@), q)
            ==> matches_query(d, q, db),
        contains_seq(hex4(d.vid) + seq![':'] + hex4(d.pid), q) ==> matches_query(d, q, db),
        matches_query(d, q, db) ==> contains_seq(lowercase(d.name), q) || contains_seq(
            lowercase(label_of(d, db)),
            q,
        ) || contains_seq(lowercase(vendor_label_of(d, db)), q) || contains_seq(
            lowercase(class_label(effective_class_of(d.class, d.iface_classes))@),
            q,
        ) || contains_seq(hex4(d.vid) + seq![':'] + hex4(d.pid), q),
{
}

fn is_last(rows: &[(usize, usize)], i: usize) -> (b: bool)
    requires
        i < rows.len(),
    ensures
        b == is_last_row(rows@, i as int),
{
    let d = rows[i].0;
    let mut j = i + 1;
    while j < rows.len()
        invariant
            i < j <= rows.len(),
            d == rows@[i as int].0,
            is_last_row(rows@, i as int) == last_from(rows@, d, j as int),
        decreases rows.len() - j,
    {
        if rows[j].0 < d {
            return true;
        }
        if rows[j].0 == d {
            return false;
        }
        j = j + 1;
    }
    true
}

fn push_seg(s: &mut String, a: char, b: char, c: char)
    ensures
        final(s)@ == old(s)@ + seq![a, b, c],
{
    s.push(a);
    s.push(b);
    s.push(c);
    assert(s@ =~= old(s)@ + seq![a, b, c]);
}

/// Tree rail prefix ("│  ├─ └─ ") per row, from the depth sequence.
pub fn rails(rows: &[(usize, usize)]) -> (out: Vec<String>)
    ensures
        out.len() == rows.len(),
        forall|i: int| 0 <= i < rows.len() ==> (#[trigger] out@[i])@ == rail_of(rows@, i),
{
    let mut stack: Vec<bool> = Vec::new();
    let mut out: Vec<String> = Vec::new();
    let mut i: usize = 0;
    while i < rows.len()
        invariant
            i <= rows.len(),
            out.len() == i,
            stack@ == open_flags(rows@, i as int),
            forall|k: int| 0 <= k < i ==> (#[trigger] out@[k])@ == rail_of(rows@, k),
        decreases rows.len() - i,
    {
        let depth = rows[i].0;
        if depth == 0 {
            stack.clear();
            out.push(String::new());
        } else {
            stack.truncate(depth - 1);
            assert(stack@ == kept_flags(open_flags(rows@, i as int), depth));
            let last = is_last(rows, i);
            let mut s = String::new();
            let mut k: usize = 0;
            while k < stack.len()
                invariant
                    k <= stack.len(),
                    s@ == segments(stack@.take(k as int)),
                decreases stack.len() - k,
            {
                assert(stack@.take(k + 1).drop_last() =~= stack@.take(k as int));
                if stack[k] {
                    push_seg(&mut s, ' ', ' ', ' ');
                } else {
                    push_seg(&mut s, '\u{2502}', ' ', ' ');
                }
                k = k + 1;
            }
            assert(stack@.take(stack.len() as int) =~= stack@);
            if last {
                push_seg(&mut s, '\u{2514}', '\u{2500}', ' ');
            } else {
                push_seg(&mut s, '\u{251c}', '\u{2500}', ' ');
            }
            stack.push(last);
            out.push(s);
        }
        i = i + 1;
    }
    out
}

proof fn lemma_segments_len(flags: Seq<bool>)
    ensures
        segments(flags).len() == 3 * flags.len(),
    decreases flags.len(),
{
    if flags.len() > 0 {
        lemma_segments_len(flags.drop_last());
    }
}

proof fn lemma_open_flags_len(rows: Seq<(usize, usize)>, n: int)
    requires
        well_formed_rows(rows),
        0 < n <= rows.len(),
    ensures
        open_flags(rows, n).len() == rows[n - 1].0,
    decreases n,
{
    if n > 1 {
        lemma_open_flags_len(rows, n - 1);
        assert(rows[n - 1].0 <= rows[n - 2].0 + 1);
    }
}

/// On the rows of a tree, the rail before a row at depth `d` is `d` columns
/// of three characters, so rows of one depth line up.
pub proof fn lemma_rail_width(rows: Seq<(usize, usize)>, i: int)
    requires
        well_formed_rows(rows),
        0 <= i < rows.len(),
    ensures
        rail_of(rows, i).len() == 3 * rows[i].0,
{
    let d = rows[i].0;
    if d > 0 {
        assert(i > 0);
        lemma_open_flags_len(rows, i);
        assert(d <= rows[i - 1].0 + 1);
        lemma_segments_len(kept_flags(open_flags(rows, i), d));
    }
}

// ---------------------------------------------------------------------------
// Filtering

/// Row `a` is an ancestor of row `m`: above it and shallower than every row
/// from just below it down to `m`.
pub open spec fn is_ancestor_row(rows: Seq<(usize, usize)>, a: int, m: int) -> bool {
    0 <= a < m && forall|q: int| a < q <= m ==> rows[a].0 < #[trigger] rows[q].0
}

/// Row `s` lies in the subtree of row `m`: below it, with every row from
/// just below `m` down to `s` deeper than `m`.
pub open spec fn is_subtree_row(rows: Seq<(usize, usize)>, m: int, s: int) -> bool {
    m < s < rows.len() && forall|q: int| m < q <= s ==> rows[m].0 < #[trigger] rows[q].0
}

/// Row `r` is kept for the match at row `m`.
pub open spec fn kept_for(rows: Seq<(usize, usize)>, m: int, r: int) -> bool {
    r == m || is_ancestor_row(rows, r, m) || is_subtree_row(rows, m, r)
}

/// Row `r` is kept: a matched row is, with its ancestor chain and its whole
/// subtree.
pub open spec fn row_kept(rows: Seq<(usize, usize)>, matched: Seq<bool>, r: int) -> bool {
    exists|m: int| 0 <= m < rows.len() && #[trigger] matched[m] && kept_for(rows, m, r)
}

/// The rows of `rows`, in order, from `from` on, that `keep` marks.
pub open spec fn rows_kept(rows: Seq<(usize, usize)>, keep: spec_fn(int) -> bool, n: int) -> Seq<
    (usize, usize),
>
    decreases n,
{
    if n <= 0 {
        seq![]
    } else {
        let rest = rows_kept(rows, keep, n - 1);
        if keep(n - 1) {
            rest.push(rows[n - 1])
        } else {
            rest
        }
    }
}

/// The rows that a filter shows, in order.
pub open spec fn visible_of(rows: Seq<(usize, usize)>, matched: Seq<bool>) -> Seq<(usize, usize)> {
    rows_kept(rows, |r: int| row_kept(rows, matched, r), rows.len() as int)
}

/// Keep every matched row plus its ancestor chain and full subtree, so
/// matches stay anchored in the tree instead of floating parentless.
pub fn visible_rows(rows: &[(usize, usize)], matched: &[bool]) -> (v: Vec<(usize, usize)>)
    requires
        matched.len() >= rows.len(),
    ensures
        v@ == visible_of(rows@, matched@),
{
    let n = rows.len();
    let mut keep: Vec<bool> = Vec::new();
    while keep.len() < n
        invariant
            keep.len() <= n,
            forall|x: int| 0 <= x < keep.len() ==> !(#[trigger] keep@[x]),
        decreases n - keep.len(),
    {
        keep.push(false);
    }
    let mut r: usize = 0;
    while r < n
        invariant
            n == rows.len(),
            matched.len() >= n,
            r <= n,
            keep.len() == n,
            forall|x: int|
                0 <= x < n ==> #[trigger] keep@[x] == exists|m: int|
                    0 <= m < r && #[trigger] matched@[m] && kept_for(rows@, m, x),
        decreases n - r,
    {
        if matched[r] {
            let ghost k0 = keep@;
            keep.set(r, true);
            let depth = rows[r].0;
            let mut d = depth;
            let mut pr = r;
            while pr > 0
                invariant
                    n == rows.len(),
                    r < n,
                    keep.len() == n,
                    pr <= r,
                    depth == rows@[r as int].0,
                    forall|q: int| pr <= q <= r ==> d <= #[trigger] rows@[q].0,
                    exists|q: int| pr <= q <= r && rows@[q].0 == d,
                    forall|x: int|
                        0 <= x < n ==> #[trigger] keep@[x] == (k0[x] || x == r || (pr <= x < r
                            && is_ancestor_row(rows@, x, r as int))),
                ensures
                    forall|q: int| pr <= q <= r ==> d <= #[trigger] rows@[q].0,
                    exists|q: int| pr <= q <= r && rows@[q].0 == d,
                    pr == 0 || d == 0,
                    forall|x: int|
                        0 <= x < n ==> #[trigger] keep@[x] == (k0[x] || x == r || (pr <= x < r
                            && is_ancestor_row(rows@, x, r as int))),
                decreases pr,
            {
                let ghost old_pr = pr;
                pr = pr - 1;
                let pd = rows[pr].0;
                proof {
                    let qw = choose|q: int| old_pr <= q <= r && rows@[q].0 == d;
                    if pd < d {
                        assert(is_ancestor_row(rows@, pr as int, r as int));
                    } else {
                        assert(!is_ancestor_row(rows@, pr as int, r as int)) by {
                            assert(rows@[qw].0 == d);
                        }
                    }
                }
                if pd < d {
                    keep.set(pr, true);
                    d = pd;
                    if pd == 0 {
                        break;
                    }
                }
            }
            proof {
                assert forall|x: int| 0 <= x < pr implies !is_ancestor_row(rows@, x, r as int) by {
                    let qw = choose|q: int| pr <= q <= r && rows@[q].0 == d;
                    assert(d == 0);
                    assert(rows@[qw].0 == 0);
                }
            }
            let ghost k1 = keep@;
            let mut sr = r + 1;
            while sr < n && rows[sr].0 > depth
                invariant
                    n == rows.len(),
                    r < sr <= n,
                    keep.len() == n,
                    depth == rows@[r as int].0,
                    forall|q: int| r < q < sr ==> depth < #[trigger] rows@[q].0,
                    forall|x: int|
                        0 <= x < n ==> #[trigger] keep@[x] == (k1[x] || (r < x < sr)),
                decreases n - sr,
            {
                keep.set(sr, true);
                sr = sr + 1;
            }
            proof {
                assert forall|x: int| 0 <= x < n implies #[trigger] keep@[x] == (k0[x] || kept_for(rows@, r as int, x)) by {
                    if sr < x {
                        if is_subtree_row(rows@, r as int, x) {
                            assert(depth < rows@[sr as int].0);
                        }
                    }
                    if x < pr {
                        assert(!is_ancestor_row(rows@, x, r as int));
                    }
                }
                assert forall|x: int|
                    0 <= x < n implies #[trigger] keep@[x] == exists|m: int|
                        0 <= m < r + 1 && #[trigger] matched@[m] && kept_for(rows@, m, x) by {
                    if keep@[x] && !k0[x] {
                        assert(matched@[r as int] && kept_for(rows@, r as int, x));
                    }
                    if exists|m: int| 0 <= m < r + 1 && #[trigger] matched@[m] && kept_for(rows@, m, x) {
                        let m = choose|m: int| 0 <= m < r + 1 && #[trigger] matched@[m] && kept_for(rows@, m, x);
                        if m < r {
                            assert(k0[x]);
                        }
                    }
                }
            }
        } else {
            assert forall|x: int|
                0 <= x < n implies #[trigger] keep@[x] == exists|m: int|
                    0 <= m < r + 1 && #[trigger] matched@[m] && kept_for(rows@, m, x) by {
                if exists|m: int| 0 <= m < r + 1 && #[trigger] matched@[m] && kept_for(rows@, m, x) {
                    let m = choose|m: int| 0 <= m < r + 1 && #[trigger] matched@[m] && kept_for(rows@, m, x);
                    assert(m != r);
                }
            }
        }
        r = r + 1;
    }
    let mut v: Vec<(usize, usize)> = Vec::new();
    let mut i: usize = 0;
    while i < n
        invariant
            n == rows.len(),
            keep.len() == n,
            i <= n,
            v@ == rows_kept(rows@, |x: int| keep@[x], i as int),
        decreases n - i,
    {
        if keep[i] {
            v.push(rows[i]);
        }
        i = i + 1;
    }
    proof {
        lemma_rows_kept_ext(
            rows@,
            |x: int| keep@[x],
            |x: int| row_kept(rows@, matched@, x),
            n as int,
        );
    }
    v
}

proof fn lemma_rows_kept_ext(
    rows: Seq<(usize, usize)>,
    p: spec_fn(int) -> bool,
    q: spec_fn(int) -> bool,
    n: int,
)
    requires
        forall|x: int| 0 <= x < n ==> #[trigger] p(x) == q(x),
    ensures
        rows_kept(rows, p, n) == rows_kept(rows, q, n),
    decreases n,
{
    if n > 0 {
        lemma_rows_kept_ext(rows, p, q, n - 1);
    }
}

proof fn lemma_rows_kept_all(rows: Seq<(usize, usize)>, keep: spec_fn(int) -> bool, n: int)
    requires
        0 <= n <= rows.len(),
        forall|x: int| 0 <= x < n ==> #[trigger] keep(x),
    ensures
        rows_kept(rows, keep, n) == rows.take(n),
    decreases n,
{
    if n > 0 {
        lemma_rows_kept_all(rows, keep, n - 1);
        assert(rows.take(n - 1).push(rows[n - 1]) =~= rows.take(n));
    } else {
        assert(rows.take(0) =~= seq![]);
    }
}

proof fn lemma_rows_kept_none(rows: Seq<(usize, usize)>, keep: spec_fn(int) -> bool, n: int)
    requires
        forall|x: int| 0 <= x < n ==> !#[trigger] keep(x),
    ensures
        rows_kept(rows, keep, n) == Seq::<(usize, usize)>::empty(),
    decreases n,
{
    if n > 0 {
        lemma_rows_kept_none(rows, keep, n - 1);
    }
}

/// A filter that matches nothing shows no rows; one that matches every row
/// shows the whole tree.
pub proof fn lemma_visible_extremes(rows: Seq<(usize, usize)>, matched: Seq<bool>)
    requires
        matched.len() >= rows.len(),
    ensures
        (forall|r: int| 0 <= r < rows.len() ==> !#[trigger] matched[r]) ==> visible_of(rows, matched)
            == Seq::<(usize, usize)>::empty(),
        (forall|r: int| 0 <= r < rows.len() ==> #[trigger] matched[r]) ==> visible_of(rows, matched)
            == rows,
{
    let keep = |r: int| row_kept(rows, matched, r);
    if forall|r: int| 0 <= r < rows.len() ==> !#[trigger] matched[r] {
        lemma_rows_kept_none(rows, keep, rows.len() as int);
    }
    if forall|r: int| 0 <= r < rows.len() ==> #[trigger] matched[r] {
        assert forall|x: int| 0 <= x < rows.len() implies #[trigger] keep(x) by {
            assert(matched[x] && kept_for(rows, x, x));
        }
        lemma_rows_kept_all(rows, keep, rows.len() as int);
        assert(rows.take(rows.len() as int) =~= rows);
    }
}

/// Each row a filter matches is shown, with every ancestor row above it and
/// every row of its subtree.
pub proof fn lemma_visible_keeps_match(rows: Seq<(usize, usize)>, matched: Seq<bool>, m: int, a: int)
    requires
        matched.len() >= rows.len(),
        0 <= m < rows.len(),
        matched[m],
        0 <= a < rows.len(),
        kept_for(rows, m, a),
    ensures
        visible_of(rows, matched).contains(rows[a]),
{
    assert(row_kept(rows, matched, a));
    lemma_rows_kept_contains(rows, |r: int| row_kept(rows, matched, r), rows.len() as int, a);
}

proof fn lemma_rows_kept_contains(rows: Seq<(usize, usize)>, keep: spec_fn(int) -> bool, n: int, a: int)
    requires
        0 <= a < n <= rows.len(),
        keep(a),
    ensures
        rows_kept(rows, keep, n).contains(rows[a]),
    decreases n,
{
    let r = rows_kept(rows, keep, n);
    if a == n - 1 {
        assert(r[r.len() - 1] == rows[a]);
    } else {
        lemma_rows_kept_contains(rows, keep, n - 1, a);
        let p = rows_kept(rows, keep, n - 1);
        let k = choose|k: int| 0 <= k < p.len() && p[k] == rows[a];
        if keep(n - 1) {
            assert(r[k] == p[k]);
        }
    }
}


// ---------------------------------------------------------------------------
// Matching a filter query

/// The lower-case form of a text, as `str::to_lowercase` computes it.
pub uninterp spec fn lowercase(s: Seq<char>) -> Seq<char>;

/// `str::to_lowercase`: the contract only ties the result to the text (it
/// follows Unicode's lower-case mapping, which is not restated here).
#[verifier::external_body]
pub(crate) fn lowercase_of(s: &str) -> (r: String)
    ensures
        r@ == lowercase(s@),
{
    s.to_lowercase()
}

/// A device matches the lower-cased query `q` when one of its human-facing
/// fields, lower-cased, holds it: name, label, vendor, class, or the
/// `vvvv:pppp` ids.
pub open spec fn matches_query(d: DeviceView, q: Seq<char>, db: &NameDb) -> bool {
    ||| contains_seq(lowercase(d.name), q)
    ||| contains_seq(lowercase(label_of(d, db)), q)
    ||| contains_seq(lowercase(vendor_label_of(d, db)), q)
    ||| contains_seq(lowercase(class_label(effective_class_of(d.class, d.iface_classes))@), q)
    ||| contains_seq(hex4(d.vid) + seq![':'] + hex4(d.pid), q)
}

fn lower_contains(s: &str, q: &[char]) -> (b: bool)
    ensures
        b == contains_seq(lowercase(s@), q@),
{
    let l = lowercase_of(s);
    let cs = chars_of(l.as_str());
    contains_chars(cs.as_slice(), q)
}

/// True if `d` matches the lowercased `q` on any human-facing field.
pub fn device_matches(d: &Device, q: &str, names: &NameDb) -> (b: bool)
    ensures
        b == matches_query(d@, q@, names),
{
    let qc = chars_of(q);
    if lower_contains(d.name.as_str(), qc.as_slice()) {
        return true;
    }
    let label = d.label(names);
    if lower_contains(label.as_str(), qc.as_slice()) {
        return true;
    }
    let vendor = d.vendor_name(names);
    if lower_contains(vendor.as_str(), qc.as_slice()) {
        return true;
    }
    if lower_contains(d.class_name(), qc.as_slice()) {
        return true;
    }
    let mut ids = String::new();
    push_hex4(&mut ids, d.vid);
    ids.push(':');
    push_hex4(&mut ids, d.pid);
    assert(ids@ =~= hex4(d.vid) + seq![':'] + hex4(d.pid));
    let ic = chars_of(ids.as_str());
    contains_chars(ic.as_slice(), qc.as_slice())
}

/// The rows of the tree that the filter `query` shows: all of them for an
/// empty query, else the matches with their ancestors and subtrees.
pub open spec fn filtered_of(
    rows: Seq<(usize, usize)>,
    ds: Seq<DeviceView>,
    query: Seq<char>,
    db: &NameDb,
) -> Seq<(usize, usize)> {
    let q = lowercase(query);
    if q.len() == 0 {
        rows
    } else {
        visible_of(rows, Seq::new(rows.len(), |r: int| matches_query(ds[rows[r].1 as int], q, db)))
    }
}

proof fn lemma_rows_kept_bounded(rows: Seq<(usize, usize)>, keep: spec_fn(int) -> bool, n: int, bound: int)
    requires
        n <= rows.len(),
        forall|r: int| 0 <= r < rows.len() ==> (#[trigger] rows[r]).1 < bound,
    ensures
        forall|r: int| 0 <= r < rows_kept(rows, keep, n).len() ==> (#[trigger] rows_kept(rows, keep, n)[r]).1 < bound,
    decreases n,
{
    if n > 0 {
        lemma_rows_kept_bounded(rows, keep, n - 1, bound);
        let prev = rows_kept(rows, keep, n - 1);
        let cur = rows_kept(rows, keep, n);
        assert forall|r: int| 0 <= r < cur.len() implies (#[trigger] cur[r]).1 < bound by {
            if r < prev.len() {
                assert(cur[r] == prev[r]);
            } else {
                assert(cur[r] == rows[n - 1]);
            }
        }
    }
}

/// A filter only drops rows: every row it shows is one of the tree's, so
/// it points where the tree's rows point.
pub proof fn lemma_filtered_bounded(rows: Seq<(usize, usize)>, ds: Seq<DeviceView>, query: Seq<char>, db: &NameDb, bound: int)
    requires
        forall|r: int| 0 <= r < rows.len() ==> (#[trigger] rows[r]).1 < bound,
    ensures
        forall|r: int|
            0 <= r < filtered_of(rows, ds, query, db).len() ==> (#[trigger] filtered_of(rows, ds, query, db)[r]).1
                < bound,
{
    let q = lowercase(query);
    if q.len() != 0 {
        let m = Seq::new(rows.len(), |r: int| matches_query(ds[rows[r].1 as int], q, db));
        lemma_rows_kept_bounded(rows, |r: int| row_kept(rows, m, r), rows.len() as int, bound);
    }
}

/// Applies a filter query to the rows of a tree.
pub fn filter_rows(rows: &[(usize, usize)], devices: &[Device], query: &str, names: &NameDb) -> (v:
    Vec<(usize, usize)>)
    requires
        forall|r: int| 0 <= r < rows.len() ==> (#[trigger] rows@[r]).1 < devices.len(),
    ensures
        v@ == filtered_of(rows@, crate::usb::device_views(devices@), query@, names),
{
    let ghost ds = crate::usb::device_views(devices@);
    let q = lowercase_of(query);
    if q.as_str().is_empty() {
        let mut all: Vec<(usize, usize)> = Vec::new();
        let mut i: usize = 0;
        while i < rows.len()
            invariant
                i <= rows.len(),
                all@ == rows@.take(i as int),
            decreases rows.len() - i,
        {
            all.push(rows[i]);
            i = i + 1;
            assert(all@ =~= rows@.take(i as int));
        }
        assert(rows@.take(rows.len() as int) =~= rows@);
        assert(lowercase(query@).len() == 0);
        return all;
    }
    let mut matched: Vec<bool> = Vec::new();
    let mut i: usize = 0;
    while i < rows.len()
        invariant
            ds == crate::usb::device_views(devices@),
            forall|r: int| 0 <= r < rows.len() ==> (#[trigger] rows@[r]).1 < devices.len(),
            q@ == lowercase(query@),
            i <= rows.len(),
            matched.len() == i,
            forall|r: int|
                0 <= r < i ==> #[trigger] matched@[r] == matches_query(ds[rows@[r].1 as int], q@, names),
        decreases rows.len() - i,
    {
        let m = device_matches(&devices[rows[i].1], q.as_str(), names);
        matched.push(m);
        i = i + 1;
    }
    assert(matched@ =~= Seq::new(rows@.len(), |r: int| matches_query(ds[rows@[r].1 as int], q@, names)));
    visible_rows(rows, matched.as_slice())
}

} // verus!
