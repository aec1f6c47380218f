//! Character-level text handling: the slices of `str` behaviour that the
//! parsers of this crate rely on, each stated as a spec function over
//! `Seq<char>` and implemented over `&[char]`.
use vstd::prelude::*;

verus! {

broadcast use vstd::string::group_string_axioms;

/// `String::push` appends one character at the end of the string.
pub assume_specification[ String::push ](s: &mut String, ch: char)
    ensures
        final(s)@ == old(s)@.push(ch),
;

/// The characters of a string slice, in order.
pub fn chars_of(s: &str) -> (v: Vec<char>)
    ensures
        v@ == s@,
{
    let mut v: Vec<char> = Vec::new();
    for c in it: s.chars()
        invariant
            v@ == it.seq().take(it.index() as int),
    {
        v.push(c);
    }
    v
}

/// A string holding exactly the given characters.
pub fn string_of(cs: &[char]) -> (s: String)
    ensures
        s@ == cs@,
{
    let mut s = String::new();
    let mut i: usize = 0;
    while i < cs.len()
        invariant
            i <= cs.len(),
            s@ == cs@.take(i as int),
        decreases cs.len() - i,
    {
        s.push(cs[i]);
        i = i + 1;
        assert(cs@.take(i as int) == cs@.take((i - 1) as int).push(cs@[i - 1]));
    }
    assert(cs@.take(cs.len() as int) == cs@);
    s
}

/// Appends the characters of `cs` to `s`.
pub fn push_chars(s: &mut String, cs: &[char])
    ensures
        final(s)@ == old(s)@ + cs@,
{
    let mut i: usize = 0;
    while i < cs.len()
        invariant
            i <= cs.len(),
            s@ == old(s)@ + cs@.take(i as int),
        decreases cs.len() - i,
    {
        s.push(cs[i]);
        i = i + 1;
        assert(cs@.take(i as int) == cs@.take((i - 1) as int).push(cs@[i - 1]));
    }
    assert(cs@.take(cs.len() as int) == cs@);
}

/// An owned copy of a text.
pub fn owned(s: &str) -> (r: String)
    ensures
        r@ == s@,
{
    let mut r = String::new();
    push_str(&mut r, s);
    assert(r@ =~= s@);
    r
}

/// Appends a string slice to `s`.
pub fn push_str(s: &mut String, t: &str)
    ensures
        final(s)@ == old(s)@ + t@,
{
    let cs = chars_of(t);
    push_chars(s, cs.as_slice());
}

/// A copy of `s[a..b]`.
pub fn slice_of(s: &[char], a: usize, b: usize) -> (r: Vec<char>)
    requires
        a <= b <= s.len(),
    ensures
        r@ == s@.subrange(a as int, b as int),
{
    let mut r: Vec<char> = Vec::new();
    let mut i = a;
    while i < b
        invariant
            a <= i <= b <= s.len(),
            r@ == s@.subrange(a as int, i as int),
        decreases b - i,
    {
        r.push(s[i]);
        i = i + 1;
        assert(s@.subrange(a as int, i as int) == s@.subrange(a as int, (i - 1) as int).push(
            s@[i - 1],
        ));
    }
    r
}

/// Character-wise equality of two slices.
pub fn chars_eq(a: &[char], b: &[char]) -> (r: bool)
    ensures
        r == (a@ == b@),
{
    if a.len() != b.len() {
        return false;
    }
    let mut i: usize = 0;
    while i < a.len()
        invariant
            i <= a.len() == b.len(),
            forall|k: int| 0 <= k < i ==> a@[k] == b@[k],
        decreases a.len() - i,
    {
        if a[i] != b[i] {
            return false;
        }
        i = i + 1;
    }
    assert(a@ =~= b@);
    true
}

/// The view of each string in a sequence of character vectors.
pub open spec fn views(v: Seq<Vec<char>>) -> Seq<Seq<char>> {
    v.map_values(|x: Vec<char>| x@)
}

pub proof fn lemma_views_push(v: Seq<Vec<char>>, x: Vec<char>)
    ensures
        views(v.push(x)) == views(v).push(x@),
{
    assert(views(v.push(x)) =~= views(v).push(x@));
}

// ---------------------------------------------------------------------------
// Character classes

/// Unicode `White_Space`, the set that `char::is_whitespace` tests for.
pub open spec fn is_white_space(c: char) -> bool {
    let u = c as u32;
    ||| 0x09 <= u <= 0x0d
    ||| u == 0x20
    ||| u == 0x85
    ||| u == 0xa0
    ||| u == 0x1680
    ||| 0x2000 <= u <= 0x200a
    ||| u == 0x2028
    ||| u == 0x2029
    ||| u == 0x202f
    ||| u == 0x205f
    ||| u == 0x3000
}

pub fn is_ws(c: char) -> (b: bool)
    ensures
        b == is_white_space(c),
{
    let u = c as u32;
    (0x09 <= u && u <= 0x0d) || u == 0x20 || u == 0x85 || u == 0xa0 || u == 0x1680 || (0x2000
        <= u && u <= 0x200a) || u == 0x2028 || u == 0x2029 || u == 0x202f || u == 0x205f || u
        == 0x3000
}

/// An ASCII decimal digit.
pub open spec fn is_digit(c: char) -> bool {
    '0' as u32 <= c as u32 <= '9' as u32
}

pub fn is_ascii_digit(c: char) -> (b: bool)
    ensures
        b == is_digit(c),
{
    let u = c as u32;
    48 <= u && u <= 57
}


// ---------------------------------------------------------------------------
// Trimming

/// `s` without its leading whitespace (`str::trim_start`).
pub open spec fn trim_start(s: Seq<char>) -> Seq<char>
    decreases s.len(),
{
    if s.len() > 0 && is_white_space(s[0]) {
        trim_start(s.drop_first())
    } else {
        s
    }
}

/// `s` without its trailing whitespace (`str::trim_end`).
pub open spec fn trim_end(s: Seq<char>) -> Seq<char>
    decreases s.len(),
{
    if s.len() > 0 && is_white_space(s.last()) {
        trim_end(s.drop_last())
    } else {
        s
    }
}

/// `s` without leading and trailing whitespace (`str::trim`).
pub open spec fn trim(s: Seq<char>) -> Seq<char> {
    trim_end(trim_start(s))
}

proof fn lemma_trim_start_at(s: Seq<char>, i: int)
    requires
        0 <= i <= s.len(),
        forall|k: int| 0 <= k < i ==> is_white_space(#[trigger] s[k]),
        i == s.len() || !is_white_space(s[i]),
    ensures
        trim_start(s) == s.skip(i),
    decreases i,
{
    if i == 0 {
        assert(s.skip(0) =~= s);
    } else {
        assert(is_white_space(s[0]));
        let t = s.drop_first();
        assert forall|k: int| 0 <= k < i - 1 implies is_white_space(#[trigger] t[k]) by {
            assert(t[k] == s[k + 1]);
        }
        lemma_trim_start_at(t, i - 1);
        assert(t.skip(i - 1) =~= s.skip(i));
    }
}

proof fn lemma_trim_end_at(s: Seq<char>, j: int)
    requires
        0 <= j <= s.len(),
        forall|k: int| j <= k < s.len() ==> is_white_space(#[trigger] s[k]),
        j == 0 || !is_white_space(s[j - 1]),
    ensures
        trim_end(s) == s.take(j),
    decreases s.len() - j,
{
    if j == s.len() {
        assert(s.take(j) =~= s);
    } else {
        assert(is_white_space(s[s.len() - 1]));
        let t = s.drop_last();
        assert forall|k: int| j <= k < t.len() implies is_white_space(#[trigger] t[k]) by {
            assert(t[k] == s[k]);
        }
        lemma_trim_end_at(t, j);
        assert(t.take(j) =~= s.take(j));
    }
}

/// Index of the first non-whitespace character (or the length).
fn leading_ws(s: &[char]) -> (i: usize)
    ensures
        i <= s.len(),
        trim_start(s@) == s@.skip(i as int),
{
    let mut i: usize = 0;
    while i < s.len() && is_ws(s[i])
        invariant
            i <= s.len(),
            forall|k: int| 0 <= k < i ==> is_white_space(#[trigger] s@[k]),
        decreases s.len() - i,
    {
        i = i + 1;
    }
    proof {
        lemma_trim_start_at(s@, i as int);
    }
    i
}

/// No whitespace at either end.
pub open spec fn is_trimmed(s: Seq<char>) -> bool {
    s.len() == 0 || (!is_white_space(s[0]) && !is_white_space(s.last()))
}

proof fn lemma_trim_start_front(s: Seq<char>)
    ensures
        trim_start(s).len() == 0 || !is_white_space(trim_start(s)[0]),
    decreases s.len(),
{
    if s.len() > 0 && is_white_space(s[0]) {
        lemma_trim_start_front(s.drop_first());
    }
}

proof fn lemma_trim_end_prefix(s: Seq<char>)
    ensures
        trim_end(s).len() <= s.len(),
        trim_end(s) == s.take(trim_end(s).len() as int),
        trim_end(s).len() == 0 || !is_white_space(trim_end(s).last()),
    decreases s.len(),
{
    if s.len() > 0 && is_white_space(s.last()) {
        lemma_trim_end_prefix(s.drop_last());
        let e = trim_end(s.drop_last());
        assert(s.drop_last().take(e.len() as int) =~= s.take(e.len() as int));
    } else {
        assert(s.take(s.len() as int) =~= s);
    }
}

/// What `str::trim` returns has no whitespace at either end.
pub proof fn lemma_trim_trimmed(s: Seq<char>)
    ensures
        is_trimmed(trim(s)),
{
    let t = trim_start(s);
    lemma_trim_start_front(s);
    lemma_trim_end_prefix(t);
    let e = trim_end(t);
    if e.len() > 0 {
        assert(e[0] == t[0]);
    }
}

/// `str::trim` over characters.
pub fn trim_chars(s: &[char]) -> (r: Vec<char>)
    ensures
        r@ == trim(s@),
{
    let i = leading_ws(s);
    let mut j = s.len();
    while j > i && is_ws(s[j - 1])
        invariant
            i <= j <= s.len(),
            forall|k: int| j <= k < s.len() ==> is_white_space(#[trigger] s@[k]),
        decreases j,
    {
        j = j - 1;
    }
    proof {
        let t = s@.skip(i as int);
        assert forall|k: int| j - i <= k < t.len() implies is_white_space(#[trigger] t[k]) by {
            assert(t[k] == s@[k + i]);
        }
        if j > i {
            assert(t[j - i - 1] == s@[j - 1]);
        }
        lemma_trim_end_at(t, j - i);
        assert(t.take(j - i) =~= s@.subrange(i as int, j as int));
    }
    slice_of(s, i, j)
}

/// `str::trim_end_matches` with a string pattern: every repeat of `p` at the
/// end is removed.
pub open spec fn trim_end_matches(s: Seq<char>, p: Seq<char>) -> Seq<char>
    decreases s.len(),
{
    if 0 < p.len() <= s.len() && s.skip(s.len() - p.len()) == p {
        trim_end_matches(s.take(s.len() - p.len()), p)
    } else {
        s
    }
}

pub fn trim_end_matches_chars(s: &[char], p: &[char]) -> (r: Vec<char>)
    ensures
        r@ == trim_end_matches(s@, p@),
{
    let mut j = s.len();
    if p.len() == 0 {
        return slice_of(s, 0, j);
    }
    assert(s@.take(j as int) =~= s@);
    while p.len() <= j && chars_eq(slice_of(s, j - p.len(), j).as_slice(), p)
        invariant
            0 < p.len(),
            j <= s.len(),
            trim_end_matches(s@, p@) == trim_end_matches(s@.take(j as int), p@),
        decreases j,
    {
        let ghost t = s@.take(j as int);
        assert(t.skip(t.len() - p.len()) =~= s@.subrange(j - p.len(), j as int));
        assert(t.take(t.len() - p.len()) =~= s@.take(j - p.len()));
        j = j - p.len();
    }
    proof {
        let t = s@.take(j as int);
        if p.len() <= j {
            assert(t.skip(t.len() - p.len()) =~= s@.subrange(j - p.len(), j as int));
        }
    }
    slice_of(s, 0, j)
}

/// `str::trim_start_matches` with a character pattern.
pub open spec fn trim_start_char(s: Seq<char>, c: char) -> Seq<char>
    decreases s.len(),
{
    if s.len() > 0 && s[0] == c {
        trim_start_char(s.drop_first(), c)
    } else {
        s
    }
}

proof fn lemma_trim_start_char_at(s: Seq<char>, c: char, i: int)
    requires
        0 <= i <= s.len(),
        forall|k: int| 0 <= k < i ==> #[trigger] s[k] == c,
        i == s.len() || s[i] != c,
    ensures
        trim_start_char(s, c) == s.skip(i),
    decreases i,
{
    if i == 0 {
        assert(s.skip(0) =~= s);
    } else {
        assert(s[0] == c);
        let t = s.drop_first();
        assert forall|k: int| 0 <= k < i - 1 implies #[trigger] t[k] == c by {
            assert(t[k] == s[k + 1]);
        }
        lemma_trim_start_char_at(t, c, i - 1);
        assert(t.skip(i - 1) =~= s.skip(i));
    }
}

pub fn trim_start_char_chars(s: &[char], c: char) -> (r: Vec<char>)
    ensures
        r@ == trim_start_char(s@, c),
{
    let mut i: usize = 0;
    while i < s.len() && s[i] == c
        invariant
            i <= s.len(),
            forall|k: int| 0 <= k < i ==> #[trigger] s@[k] == c,
        decreases s.len() - i,
    {
        i = i + 1;
    }
    proof {
        lemma_trim_start_char_at(s@, c, i as int);
    }
    slice_of(s, i, s.len())
}

// ---------------------------------------------------------------------------
// Prefixes, suffixes and searches

pub open spec fn starts_with(s: Seq<char>, p: Seq<char>) -> bool {
    p.len() <= s.len() && s.take(p.len() as int) == p
}

pub open spec fn ends_with(s: Seq<char>, p: Seq<char>) -> bool {
    p.len() <= s.len() && s.skip(s.len() - p.len()) == p
}

pub fn starts_with_chars(s: &[char], p: &[char]) -> (b: bool)
    ensures
        b == starts_with(s@, p@),
{
    if p.len() > s.len() {
        return false;
    }
    let head = slice_of(s, 0, p.len());
    assert(s@.subrange(0, p.len() as int) =~= s@.take(p.len() as int));
    chars_eq(head.as_slice(), p)
}

pub fn ends_with_chars(s: &[char], p: &[char]) -> (b: bool)
    ensures
        b == ends_with(s@, p@),
{
    if p.len() > s.len() {
        return false;
    }
    let tail = slice_of(s, s.len() - p.len(), s.len());
    assert(s@.subrange(s.len() - p.len(), s.len() as int) =~= s@.skip(s.len() - p.len()));
    chars_eq(tail.as_slice(), p)
}

/// `i` is the first position of `c` in `s`.
pub open spec fn is_first_of(s: Seq<char>, c: char, i: int) -> bool {
    0 <= i < s.len() && s[i] == c && forall|k: int| 0 <= k < i ==> s[k] != c
}

/// The first position of `c` in `s`, if any.
pub open spec fn first_of(s: Seq<char>, c: char) -> Option<int> {
    if exists|i: int| is_first_of(s, c, i) {
        Some(choose|i: int| is_first_of(s, c, i))
    } else {
        None
    }
}

/// `i` is the last position of `c` in `s`.
pub open spec fn is_last_of(s: Seq<char>, c: char, i: int) -> bool {
    0 <= i < s.len() && s[i] == c && forall|k: int| i < k < s.len() ==> s[k] != c
}

/// The last position of `c` in `s`, if any.
pub open spec fn last_of(s: Seq<char>, c: char) -> Option<int> {
    if exists|i: int| is_last_of(s, c, i) {
        Some(choose|i: int| is_last_of(s, c, i))
    } else {
        None
    }
}

pub fn find_char(s: &[char], c: char) -> (r: Option<usize>)
    ensures
        match r {
            Some(i) => i < s.len() && first_of(s@, c) == Some(i as int),
            None => first_of(s@, c) is None && forall|k: int| 0 <= k < s.len() ==> s@[k] != c,
        },
{
    let mut i: usize = 0;
    while i < s.len()
        invariant
            i <= s.len(),
            forall|k: int| 0 <= k < i ==> s@[k] != c,
        decreases s.len() - i,
    {
        if s[i] == c {
            assert(is_first_of(s@, c, i as int));
            let ghost j = choose|j: int| is_first_of(s@, c, j);
            assert(j == i);
            return Some(i);
        }
        i = i + 1;
    }
    None
}

pub fn rfind_char(s: &[char], c: char) -> (r: Option<usize>)
    ensures
        match r {
            Some(i) => i < s.len() && last_of(s@, c) == Some(i as int),
            None => last_of(s@, c) is None,
        },
{
    let mut j = s.len();
    while j > 0
        invariant
            j <= s.len(),
            forall|k: int| j <= k < s.len() ==> s@[k] != c,
        decreases j,
    {
        if s[j - 1] == c {
            assert(is_last_of(s@, c, j - 1));
            let ghost i = choose|i: int| is_last_of(s@, c, i);
            assert(i == j - 1);
            return Some(j - 1);
        }
        j = j - 1;
    }
    None
}

/// `str::split_once` with a character pattern.
pub open spec fn split_once(s: Seq<char>, c: char) -> Option<(Seq<char>, Seq<char>)> {
    match first_of(s, c) {
        Some(i) => Some((s.take(i), s.skip(i + 1))),
        None => None,
    }
}

/// `str::rsplit_once` with a character pattern.
pub open spec fn rsplit_once(s: Seq<char>, c: char) -> Option<(Seq<char>, Seq<char>)> {
    match last_of(s, c) {
        Some(i) => Some((s.take(i), s.skip(i + 1))),
        None => None,
    }
}

pub fn split_once_chars(s: &[char], c: char) -> (r: Option<(Vec<char>, Vec<char>)>)
    ensures
        match r {
            Some((a, b)) => split_once(s@, c) == Some((a@, b@)),
            None => split_once(s@, c) is None,
        },
{
    match find_char(s, c) {
        Some(i) => Some((slice_of(s, 0, i), slice_of(s, i + 1, s.len()))),
        None => None,
    }
}

pub fn rsplit_once_chars(s: &[char], c: char) -> (r: Option<(Vec<char>, Vec<char>)>)
    ensures
        match r {
            Some((a, b)) => rsplit_once(s@, c) == Some((a@, b@)),
            None => rsplit_once(s@, c) is None,
        },
{
    match rfind_char(s, c) {
        Some(i) => Some((slice_of(s, 0, i), slice_of(s, i + 1, s.len()))),
        None => None,
    }
}

/// `i` is the first position of a whitespace character in `s`.
pub open spec fn is_first_ws(s: Seq<char>, i: int) -> bool {
    0 <= i < s.len() && is_white_space(s[i]) && forall|k: int|
        0 <= k < i ==> !is_white_space(s[k])
}

/// `str::split_once(char::is_whitespace)`.
pub open spec fn split_once_ws(s: Seq<char>) -> Option<(Seq<char>, Seq<char>)> {
    if exists|i: int| is_first_ws(s, i) {
        let i = choose|i: int| is_first_ws(s, i);
        Some((s.take(i), s.skip(i + 1)))
    } else {
        None
    }
}

pub fn split_once_ws_chars(s: &[char]) -> (r: Option<(Vec<char>, Vec<char>)>)
    ensures
        match r {
            Some((a, b)) => split_once_ws(s@) == Some((a@, b@)),
            None => split_once_ws(s@) is None,
        },
{
    let mut i: usize = 0;
    while i < s.len()
        invariant
            i <= s.len(),
            forall|k: int| 0 <= k < i ==> !is_white_space(#[trigger] s@[k]),
        decreases s.len() - i,
    {
        if is_ws(s[i]) {
            assert(is_first_ws(s@, i as int));
            let ghost j = choose|j: int| is_first_ws(s@, j);
            assert(j == i);
            return Some((slice_of(s, 0, i), slice_of(s, i + 1, s.len())));
        }
        i = i + 1;
    }
    None
}

/// Two spaces start at position `k` of `s`.
pub open spec fn is_gap(s: Seq<char>, k: int) -> bool {
    s[k] == ' ' && s[k + 1] == ' '
}

/// `i` is the first position of two consecutive spaces in `s`.
pub open spec fn is_first_gap(s: Seq<char>, i: int) -> bool {
    0 <= i && i + 1 < s.len() && is_gap(s, i) && forall|k: int|
        0 <= k < i ==> !#[trigger] is_gap(s, k)
}

/// `str::split_once("  ")`: split at the first double space.
pub open spec fn split_once_gap(s: Seq<char>) -> Option<(Seq<char>, Seq<char>)> {
    if exists|i: int| is_first_gap(s, i) {
        let i = choose|i: int| is_first_gap(s, i);
        Some((s.take(i), s.skip(i + 2)))
    } else {
        None
    }
}

pub fn split_once_gap_chars(s: &[char]) -> (r: Option<(Vec<char>, Vec<char>)>)
    ensures
        match r {
            Some((a, b)) => split_once_gap(s@) == Some((a@, b@)),
            None => split_once_gap(s@) is None,
        },
{
    let mut i: usize = 0;
    while i < s.len() && i + 1 < s.len()
        invariant
            forall|k: int| 0 <= k < i ==> !#[trigger] is_gap(s@, k),
        decreases s.len() - i,
    {
        if s[i] == ' ' && s[i + 1] == ' ' {
            assert(is_first_gap(s@, i as int));
            let ghost j = choose|j: int| is_first_gap(s@, j);
            assert(j == i);
            return Some((slice_of(s, 0, i), slice_of(s, i + 2, s.len())));
        }
        i = i + 1;
    }
    None
}

/// `s` holds `needle` somewhere (`str::contains` with a string pattern).
pub open spec fn contains_seq(s: Seq<char>, needle: Seq<char>) -> bool {
    exists|i: int| 0 <= i && i + needle.len() <= s.len() && #[trigger] s.subrange(i, i + needle.len()) == needle
}

pub fn contains_chars(s: &[char], needle: &[char]) -> (b: bool)
    ensures
        b == contains_seq(s@, needle@),
{
    if needle.len() > s.len() {
        return false;
    }
    let last = s.len() - needle.len();
    let mut i: usize = 0;
    loop
        invariant
            needle.len() <= s.len(),
            last == s.len() - needle.len(),
            i <= last,
            forall|k: int| 0 <= k < i ==> #[trigger] s@.subrange(k, k + needle.len()) != needle@,
        decreases last - i,
    {
        if chars_eq(slice_of(s, i, i + needle.len()).as_slice(), needle) {
            return true;
        }
        if i == last {
            return false;
        }
        i = i + 1;
    }
}


// ---------------------------------------------------------------------------
// Splitting

/// Maximal runs of characters outside `sep`, scanning `s` with the run
/// `cur` already started.
pub open spec fn runs_from(s: Seq<char>, cur: Seq<char>, sep: spec_fn(char) -> bool) -> Seq<
    Seq<char>,
>
    decreases s.len(),
{
    if s.len() == 0 {
        if cur.len() > 0 {
            seq![cur]
        } else {
            seq![]
        }
    } else if sep(s[0]) {
        (if cur.len() > 0 {
            seq![cur]
        } else {
            seq![]
        }) + runs_from(s.drop_first(), seq![], sep)
    } else {
        runs_from(s.drop_first(), cur.push(s[0]), sep)
    }
}

pub open spec fn ws_sep() -> spec_fn(char) -> bool {
    |c: char| is_white_space(c)
}

pub open spec fn non_digit_sep() -> spec_fn(char) -> bool {
    |c: char| !is_digit(c)
}

/// `str::split_whitespace`: the maximal runs of non-whitespace characters.
pub open spec fn words(s: Seq<char>) -> Seq<Seq<char>> {
    runs_from(s, seq![], ws_sep())
}

/// The maximal runs of ASCII digits, in order (`split` on every non-digit
/// with the empty pieces dropped).
pub open spec fn digit_runs(s: Seq<char>) -> Seq<Seq<char>> {
    runs_from(s, seq![], non_digit_sep())
}

fn split_runs(s: &[char], digits: bool) -> (r: Vec<Vec<char>>)
    ensures
        views(r@) == runs_from(
            s@,
            seq![],
            if digits {
                non_digit_sep()
            } else {
                ws_sep()
            },
        ),
{
    let ghost sep = if digits {
        non_digit_sep()
    } else {
        ws_sep()
    };
    let mut out: Vec<Vec<char>> = Vec::new();
    let mut cur: Vec<char> = Vec::new();
    let mut i: usize = 0;
    assert(s@.skip(0) =~= s@);
    while i < s.len()
        invariant
            i <= s.len(),
            views(out@) + runs_from(s@.skip(i as int), cur@, sep) == runs_from(s@, seq![], sep),
            sep == (if digits {
                non_digit_sep()
            } else {
                ws_sep()
            }),
        decreases s.len() - i,
    {
        let c = s[i];
        let is_sep = if digits {
            !is_ascii_digit(c)
        } else {
            is_ws(c)
        };
        let ghost rest = s@.skip(i as int);
        assert(rest[0] == c);
        assert(rest.drop_first() =~= s@.skip(i + 1));
        assert(is_sep == sep(c)) by {
            if digits {
                assert(sep == non_digit_sep());
            } else {
                assert(sep == ws_sep());
            }
        }
        if is_sep {
            if cur.len() > 0 {
                proof {
                    lemma_views_push(out@, cur);
                    assert(views(out@.push(cur)) + runs_from(s@.skip(i + 1), seq![], sep) =~= views(
                        out@,
                    ) + (seq![cur@] + runs_from(s@.skip(i + 1), seq![], sep)));
                }
                out.push(cur);
                cur = Vec::new();
            } else {
                assert(seq![] + runs_from(s@.skip(i + 1), seq![], sep) =~= runs_from(
                    s@.skip(i + 1),
                    seq![],
                    sep,
                ));
                assert(cur@ =~= seq![]);
            }
        } else {
            cur.push(c);
        }
        i = i + 1;
    }
    assert(s@.skip(i as int).len() == 0);
    if cur.len() > 0 {
        proof {
            lemma_views_push(out@, cur);
        }
        out.push(cur);
    } else {
        assert(views(out@) + seq![] =~= views(out@));
    }
    out
}

pub fn split_whitespace(s: &[char]) -> (r: Vec<Vec<char>>)
    ensures
        views(r@) == words(s@),
{
    split_runs(s, false)
}

pub fn split_digit_runs(s: &[char]) -> (r: Vec<Vec<char>>)
    ensures
        views(r@) == digit_runs(s@),
{
    split_runs(s, true)
}

/// The pieces between occurrences of `c`, scanning `s` with the piece `cur`
/// already started.
pub open spec fn split_from(s: Seq<char>, c: char, cur: Seq<char>) -> Seq<Seq<char>>
    decreases s.len(),
{
    if s.len() == 0 {
        seq![cur]
    } else if s[0] == c {
        seq![cur] + split_from(s.drop_first(), c, seq![])
    } else {
        split_from(s.drop_first(), c, cur.push(s[0]))
    }
}

/// `str::split` with a character pattern: every piece between separators,
/// empty ones included, so there is always at least one.
pub open spec fn split_on(s: Seq<char>, c: char) -> Seq<Seq<char>> {
    split_from(s, c, seq![])
}

pub fn split_char(s: &[char], c: char) -> (r: Vec<Vec<char>>)
    ensures
        views(r@) == split_on(s@, c),
{
    let mut out: Vec<Vec<char>> = Vec::new();
    let mut cur: Vec<char> = Vec::new();
    let mut i: usize = 0;
    assert(s@.skip(0) =~= s@);
    while i < s.len()
        invariant
            i <= s.len(),
            views(out@) + split_from(s@.skip(i as int), c, cur@) == split_on(s@, c),
        decreases s.len() - i,
    {
        let ghost rest = s@.skip(i as int);
        assert(rest[0] == s@[i as int]);
        assert(rest.drop_first() =~= s@.skip(i + 1));
        if s[i] == c {
            proof {
                lemma_views_push(out@, cur);
                assert(views(out@.push(cur)) + split_from(s@.skip(i + 1), c, seq![]) =~= views(
                    out@,
                ) + (seq![cur@] + split_from(s@.skip(i + 1), c, seq![])));
            }
            out.push(cur);
            cur = Vec::new();
        } else {
            cur.push(s[i]);
        }
        i = i + 1;
    }
    assert(s@.skip(i as int).len() == 0);
    proof {
        lemma_views_push(out@, cur);
    }
    out.push(cur);
    out
}

/// A line with a carriage return that ended it removed.
pub open spec fn strip_cr(x: Seq<char>) -> Seq<char> {
    if x.len() > 0 && x.last() == '\r' {
        x.drop_last()
    } else {
        x
    }
}

/// The lines of `s`, scanning with the line `cur` already started.
pub open spec fn lines_from(s: Seq<char>, cur: Seq<char>) -> Seq<Seq<char>>
    decreases s.len(),
{
    if s.len() == 0 {
        if cur.len() > 0 {
            seq![cur]
        } else {
            seq![]
        }
    } else if s[0] == '\n' {
        seq![strip_cr(cur)] + lines_from(s.drop_first(), seq![])
    } else {
        lines_from(s.drop_first(), cur.push(s[0]))
    }
}

/// `str::lines`: pieces ended by `\n` (or `\r\n`), the final line ending
/// optional.
pub open spec fn lines(s: Seq<char>) -> Seq<Seq<char>> {
    lines_from(s, seq![])
}

/// Characters without a line break only extend the line being scanned.
proof fn lemma_lines_from_within(l: Seq<char>, s: Seq<char>, cur: Seq<char>)
    requires
        !l.contains('\n'),
    ensures
        lines_from(l + s, cur) == lines_from(s, cur + l),
    decreases l.len(),
{
    if l.len() > 0 {
        assert((l + s)[0] == l[0]);
        assert(l[0] != '\n') by {
            assert(l.contains(l[0]));
        }
        assert((l + s).drop_first() =~= l.drop_first() + s);
        assert(!l.drop_first().contains('\n')) by {
            if l.drop_first().contains('\n') {
                let i = choose|i: int| 0 <= i < l.drop_first().len() && l.drop_first()[i] == '\n';
                assert(l[i + 1] == '\n');
            }
        }
        lemma_lines_from_within(l.drop_first(), s, cur.push(l[0]));
        assert(cur.push(l[0]) + l.drop_first() =~= cur + l);
    } else {
        assert(l + s =~= s);
        assert(cur + l =~= cur);
    }
}

/// Scanning a text that ends with a line break, then more text: the lines
/// of the first, then those of the rest.
proof fn lemma_lines_from_split(p: Seq<char>, s: Seq<char>, cur: Seq<char>)
    requires
        p.len() > 0,
        p.last() == '\n',
    ensures
        lines_from(p + s, cur) == lines_from(p, cur) + lines(s),
    decreases p.len(),
{
    assert((p + s)[0] == p[0]);
    assert((p + s).drop_first() =~= p.drop_first() + s);
    if p.len() == 1 {
        assert(p.drop_first() + s =~= s);
        assert(p.drop_first().len() == 0);
        assert(lines_from(p.drop_first(), seq![]) =~= Seq::<Seq<char>>::empty());
        assert(lines_from(p, cur) =~= seq![strip_cr(cur)]);
    } else if p[0] == '\n' {
        lemma_lines_from_split(p.drop_first(), s, seq![]);
        assert(lines_from(p + s, cur) =~= seq![strip_cr(cur)] + (lines_from(p.drop_first(), seq![]) + lines(s)));
    } else {
        lemma_lines_from_split(p.drop_first(), s, cur.push(p[0]));
    }
}

/// The lines of a text made of a first part that ends with a line break
/// (or is empty), a line `l` with its break, and the rest: the lines of the
/// first part, `l` (without a carriage return that ended it), then the
/// lines of the rest. Without the middle line, the lines of the two parts.
pub proof fn lemma_lines_around(p: Seq<char>, l: Seq<char>, q: Seq<char>)
    requires
        p.len() == 0 || p.last() == '\n',
        !l.contains('\n'),
    ensures
        lines(p + l + seq!['\n'] + q) == lines(p) + seq![strip_cr(l)] + lines(q),
        lines(p + q) == lines(p) + lines(q),
{
    let rest = l + seq!['\n'] + q;
    assert(p + l + seq!['\n'] + q =~= p + rest);
    lemma_lines_from_within(l, seq!['\n'] + q, seq![]);
    assert(l + (seq!['\n'] + q) =~= rest);
    assert(Seq::<char>::empty() + l =~= l);
    let nq = seq!['\n'] + q;
    assert(nq[0] == '\n');
    assert(nq.drop_first() =~= q);
    assert(lines(rest) == seq![strip_cr(l)] + lines(q));
    if p.len() == 0 {
        assert(p + rest =~= rest);
        assert(p + q =~= q);
        assert(lines(p) =~= Seq::<Seq<char>>::empty());
        assert(lines(p + q) =~= lines(p) + lines(q));
    } else {
        lemma_lines_from_split(p, rest, seq![]);
        lemma_lines_from_split(p, q, seq![]);
    }
    assert(lines(p) + seq![strip_cr(l)] + lines(q) =~= lines(p) + (seq![strip_cr(l)] + lines(q)));
}

fn strip_cr_chars(x: Vec<char>) -> (r: Vec<char>)
    ensures
        r@ == strip_cr(x@),
{
    let mut x = x;
    if x.len() > 0 && x[x.len() - 1] == '\r' {
        x.pop();
    }
    x
}

pub fn split_lines(s: &[char]) -> (r: Vec<Vec<char>>)
    ensures
        views(r@) == lines(s@),
{
    let mut out: Vec<Vec<char>> = Vec::new();
    let mut cur: Vec<char> = Vec::new();
    let mut i: usize = 0;
    assert(s@.skip(0) =~= s@);
    while i < s.len()
        invariant
            i <= s.len(),
            views(out@) + lines_from(s@.skip(i as int), cur@) == lines(s@),
        decreases s.len() - i,
    {
        let ghost rest = s@.skip(i as int);
        assert(rest[0] == s@[i as int]);
        assert(rest.drop_first() =~= s@.skip(i + 1));
        if s[i] == '\n' {
            let line = strip_cr_chars(cur);
            proof {
                lemma_views_push(out@, line);
                assert(views(out@.push(line)) + lines_from(s@.skip(i + 1), seq![]) =~= views(out@)
                    + (seq![line@] + lines_from(s@.skip(i + 1), seq![])));
            }
            out.push(line);
            cur = Vec::new();
        } else {
            cur.push(s[i]);
        }
        i = i + 1;
    }
    assert(s@.skip(i as int).len() == 0);
    if cur.len() > 0 {
        proof {
            lemma_views_push(out@, cur);
        }
        out.push(cur);
    } else {
        assert(views(out@) + seq![] =~= views(out@));
    }
    out
}

// ---------------------------------------------------------------------------
// Numbers

/// The value of `c` as a digit in bases up to 36 (`char::to_digit`), or 36
/// when it is no digit at all.
pub open spec fn digit_val(c: char) -> int {
    let u = c as u32;
    if 48 <= u <= 57 {
        u - 48
    } else if 97 <= u <= 122 {
        u - 97 + 10
    } else if 65 <= u <= 90 {
        u - 65 + 10
    } else {
        36
    }
}

pub open spec fn digits_valid(d: Seq<char>, radix: int) -> bool {
    forall|i: int| 0 <= i < d.len() ==> #[trigger] digit_val(d[i]) < radix
}

/// The number written by the digits `d` in base `radix`.
pub open spec fn digits_value(d: Seq<char>, radix: int) -> int
    decreases d.len(),
{
    if d.len() == 0 {
        0
    } else {
        digits_value(d.drop_last(), radix) * radix + digit_val(d.last())
    }
}

/// The digits of an unsigned number: one leading `+` is allowed.
pub open spec fn unsigned_digits(s: Seq<char>) -> Seq<char> {
    if s.len() > 0 && s[0] == '+' {
        s.drop_first()
    } else {
        s
    }
}

/// `from_str_radix` (and `str::parse`) for an unsigned type whose largest
/// value is `max`: `None` where the standard library returns an error.
pub open spec fn parse_unsigned(s: Seq<char>, radix: int, max: int) -> Option<int> {
    let d = unsigned_digits(s);
    if d.len() > 0 && digits_valid(d, radix) && digits_value(d, radix) <= max {
        Some(digits_value(d, radix))
    } else {
        None
    }
}

proof fn lemma_digits_value_nonneg(d: Seq<char>, radix: int)
    requires
        radix >= 1,
    ensures
        digits_value(d, radix) >= 0,
    decreases d.len(),
{
    if d.len() > 0 {
        lemma_digits_value_nonneg(d.drop_last(), radix);
        let v = digits_value(d.drop_last(), radix);
        assert(v * radix >= 0) by (nonlinear_arith)
            requires
                v >= 0,
                radix >= 1,
        ;
    }
}

/// A parsed unsigned number lies between 0 and the type's largest value.
pub proof fn lemma_parse_unsigned_range(s: Seq<char>, radix: int, max: int)
    requires
        radix >= 1,
    ensures
        parse_unsigned(s, radix, max) matches Some(v) ==> 0 <= v <= max,
{
    lemma_digits_value_nonneg(unsigned_digits(s), radix);
}

proof fn lemma_digits_value_prefix(d: Seq<char>, k: int, radix: int)
    requires
        radix >= 1,
        0 <= k <= d.len(),
    ensures
        digits_value(d.take(k), radix) <= digits_value(d, radix),
    decreases d.len(),
{
    if k == d.len() {
        assert(d.take(k) =~= d);
    } else {
        let p = d.drop_last();
        lemma_digits_value_prefix(p, k, radix);
        assert(p.take(k) =~= d.take(k));
        lemma_digits_value_nonneg(p, radix);
        let v = digits_value(p, radix);
        assert(v * radix >= v) by (nonlinear_arith)
            requires
                v >= 0,
                radix >= 1,
        ;
    }
}

fn digit_value(c: char) -> (v: u32)
    ensures
        v == digit_val(c),
{
    let u = c as u32;
    if 48 <= u && u <= 57 {
        u - 48
    } else if 97 <= u && u <= 122 {
        u - 97 + 10
    } else if 65 <= u && u <= 90 {
        u - 65 + 10
    } else {
        36
    }
}

/// Parses an unsigned number in base `radix` no larger than `max`.
pub fn parse_uint(s: &[char], radix: u32, max: u64) -> (r: Option<u64>)
    requires
        2 <= radix <= 36,
    ensures
        match r {
            Some(v) => parse_unsigned(s@, radix as int, max as int) == Some(v as int),
            None => parse_unsigned(s@, radix as int, max as int) is None,
        },
{
    let start: usize = if s.len() > 0 && s[0] == '+' {
        1
    } else {
        0
    };
    let ghost d = unsigned_digits(s@);
    assert(d =~= s@.skip(start as int));
    if start == s.len() {
        return None;
    }
    let mut v: u64 = 0;
    let mut i: usize = start;
    assert(d.take(0) =~= seq![]);
    while i < s.len()
        invariant
            start <= i <= s.len(),
            d == s@.skip(start as int),
            d == unsigned_digits(s@),
            2 <= radix <= 36,
            digits_valid(d.take(i - start), radix as int),
            v as int == digits_value(d.take(i - start), radix as int),
            v <= max,
        decreases s.len() - i,
    {
        let dv = digit_value(s[i]);
        let ghost k = i - start;
        assert(d[k] == s@[i as int]);
        if dv >= radix {
            proof {
                assert(digit_val(d[k]) >= radix);
                assert(!digits_valid(d, radix as int));
                assert(parse_unsigned(s@, radix as int, max as int) is None);
            }
            return None;
        }
        let ghost t = d.take(k + 1);
        assert(t.drop_last() =~= d.take(k));
        assert(t.last() == d[k]);
        assert((v as u128) * (radix as u128) <= 0xffff_ffff_ffff_ffffu128 * 36) by (nonlinear_arith)
            requires
                v <= 0xffff_ffff_ffff_ffffu64,
                radix <= 36,
        ;
        let w: u128 = (v as u128) * (radix as u128) + (dv as u128);
        if w > max as u128 {
            proof {
                lemma_digits_value_prefix(d, k + 1, radix as int);
            }
            return None;
        }
        v = w as u64;
        i = i + 1;
        assert forall|j: int| 0 <= j < t.len() implies #[trigger] digit_val(t[j]) < radix by {
            if j < k {
                assert(t[j] == d.take(k)[j]);
            }
        }
    }
    assert(d.take(d.len() as int) =~= d);
    Some(v)
}

pub open spec fn parse_u16(s: Seq<char>) -> Option<int> {
    parse_unsigned(s, 10, 0xffff)
}

pub open spec fn parse_u32(s: Seq<char>) -> Option<int> {
    parse_unsigned(s, 10, 0xffff_ffff)
}

pub open spec fn parse_u64(s: Seq<char>) -> Option<int> {
    parse_unsigned(s, 10, 0xffff_ffff_ffff_ffff)
}

pub open spec fn parse_hex_u16(s: Seq<char>) -> Option<int> {
    parse_unsigned(s, 16, 0xffff)
}

/// `s.parse::<u16>().ok()`.
pub fn parse_dec_u16(s: &[char]) -> (r: Option<u16>)
    ensures
        match r {
            Some(v) => parse_u16(s@) == Some(v as int),
            None => parse_u16(s@) is None,
        },
{
    match parse_uint(s, 10, 0xffff) {
        Some(v) => Some(v as u16),
        None => None,
    }
}

/// `s.parse::<u32>().ok()`.
pub fn parse_dec_u32(s: &[char]) -> (r: Option<u32>)
    ensures
        match r {
            Some(v) => parse_u32(s@) == Some(v as int),
            None => parse_u32(s@) is None,
        },
{
    match parse_uint(s, 10, 0xffff_ffff) {
        Some(v) => Some(v as u32),
        None => None,
    }
}

/// `s.parse::<u64>().ok()`.
pub fn parse_dec_u64(s: &[char]) -> (r: Option<u64>)
    ensures
        match r {
            Some(v) => parse_u64(s@) == Some(v as int),
            None => parse_u64(s@) is None,
        },
{
    parse_uint(s, 10, 0xffff_ffff_ffff_ffff)
}

/// `u16::from_str_radix(s, 16).ok()`.
pub fn parse_hex16(s: &[char]) -> (r: Option<u16>)
    ensures
        match r {
            Some(v) => parse_hex_u16(s@) == Some(v as int),
            None => parse_hex_u16(s@) is None,
        },
{
    match parse_uint(s, 16, 0xffff) {
        Some(v) => Some(v as u16),
        None => None,
    }
}

// ---------------------------------------------------------------------------
// Formatting

/// The lower-case hexadecimal digit for `n` (0..16).
pub open spec fn hex_char(n: int) -> char {
    if n < 10 {
        (48 + n) as char
    } else {
        (87 + n) as char
    }
}

/// `format!("{:04x}", v)`: exactly four lower-case hex digits.
pub open spec fn hex4(v: u16) -> Seq<char> {
    let n = v as int;
    seq![hex_char(n / 4096), hex_char(n / 256 % 16), hex_char(n / 16 % 16), hex_char(n % 16)]
}

fn hex_digit(n: u16) -> (c: char)
    requires
        n < 16,
    ensures
        c == hex_char(n as int),
{
    match n {
        0 => '0',
        1 => '1',
        2 => '2',
        3 => '3',
        4 => '4',
        5 => '5',
        6 => '6',
        7 => '7',
        8 => '8',
        9 => '9',
        10 => 'a',
        11 => 'b',
        12 => 'c',
        13 => 'd',
        14 => 'e',
        _ => 'f',
    }
}

pub fn push_hex4(s: &mut String, v: u16)
    ensures
        final(s)@ == old(s)@ + hex4(v),
{
    s.push(hex_digit(v / 4096));
    s.push(hex_digit(v / 256 % 16));
    s.push(hex_digit(v / 16 % 16));
    s.push(hex_digit(v % 16));
    assert(s@ =~= old(s)@ + hex4(v));
}

/// The decimal digit for `n` (0..10).
pub open spec fn dec_char(n: int) -> char {
    (48 + n) as char
}

/// `n.to_string()` for an unsigned number.
pub open spec fn dec(n: nat) -> Seq<char>
    decreases n,
{
    if n < 10 {
        seq![dec_char(n as int)]
    } else {
        dec(n / 10).push(dec_char((n % 10) as int))
    }
}

pub fn push_dec(s: &mut String, n: u64)
    ensures
        final(s)@ == old(s)@ + dec(n as nat),
    decreases n,
{
    if n >= 10 {
        push_dec(s, n / 10);
    }
    s.push(hex_digit((n % 10) as u16));
    assert(s@ =~= old(s)@ + dec(n as nat));
}


proof fn lemma_hex_char_injective(x: int, y: int)
    requires
        0 <= x < 16,
        0 <= y < 16,
        hex_char(x) == hex_char(y),
    ensures
        x == y,
{
    assert(hex_char(x) as int == if x < 10 { 48 + x } else { 87 + x });
    assert(hex_char(y) as int == if y < 10 { 48 + y } else { 87 + y });
}

proof fn lemma_digits_determine(x: int, y: int)
    requires
        0 <= x < 65536,
        0 <= y < 65536,
        x / 4096 == y / 4096,
        x / 256 % 16 == y / 256 % 16,
        x / 16 % 16 == y / 16 % 16,
        x % 16 == y % 16,
    ensures
        x == y,
{
    assert(x == (x / 4096) * 4096 + (x / 256 % 16) * 256 + (x / 16 % 16) * 16 + x % 16) by (nonlinear_arith)
        requires 0 <= x < 65536;
    assert(y == (y / 4096) * 4096 + (y / 256 % 16) * 256 + (y / 16 % 16) * 16 + y % 16) by (nonlinear_arith)
        requires 0 <= y < 65536;
}

/// Four-digit hex is one-to-one: equal text, equal numbers.
pub proof fn lemma_hex4_injective(a: u16, b: u16)
    ensures
        hex4(a) == hex4(b) ==> a == b,
{
    if hex4(a) == hex4(b) {
        let (x, y) = (a as int, b as int);
        assert(hex4(a)[0] == hex4(b)[0]);
        assert(hex4(a)[1] == hex4(b)[1]);
        assert(hex4(a)[2] == hex4(b)[2]);
        assert(hex4(a)[3] == hex4(b)[3]);
        lemma_hex_char_injective(x / 4096, y / 4096);
        lemma_hex_char_injective(x / 256 % 16, y / 256 % 16);
        lemma_hex_char_injective(x / 16 % 16, y / 16 % 16);
        lemma_hex_char_injective(x % 16, y % 16);
        lemma_digits_determine(x, y);
    }
}

} // verus!
