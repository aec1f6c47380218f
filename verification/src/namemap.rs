//! Values keyed by device name, each name once: the rates of a sample, the
//! activity history of each device, when each device was last plugged in.
use vstd::prelude::*;
use crate::text::{chars_eq, chars_of};

verus! {

/// Values keyed by device name; each name occurs once.
pub struct NameMap<V> {
    entries: Vec<(String, V)>,
}

/// Position `i` of `es` holds the entry for `k`.
pub open spec fn entry_at<V>(es: Seq<(String, V)>, i: int, k: Seq<char>) -> bool {
    0 <= i < es.len() && es[i].0@ == k
}

/// No two entries have the same name.
pub open spec fn unique_names<V>(es: Seq<(String, V)>) -> bool {
    forall|i: int, j: int| 0 <= i < es.len() && 0 <= j < es.len() && i != j ==> (#[trigger] es[i]).0@ != (#[trigger] es[j]).0@
}

/// The map that a list of uniquely named entries stands for.
pub open spec fn entries_map<V>(es: Seq<(String, V)>) -> Map<Seq<char>, V> {
    Map::new(
        |k: Seq<char>| exists|i: int| entry_at(es, i, k),
        |k: Seq<char>| es[choose|i: int| entry_at(es, i, k)].1,
    )
}

impl<V> View for NameMap<V> {
    type V = Map<Seq<char>, V>;

    closed spec fn view(&self) -> Map<Seq<char>, V> {
        entries_map(self.entries@)
    }
}

impl<V> NameMap<V> {
    #[verifier::type_invariant]
    spec fn inv(self) -> bool {
        unique_names(self.entries@)
    }

    pub fn new() -> (m: NameMap<V>)
        ensures
            m@ == Map::<Seq<char>, V>::empty(),
    {
        let m = NameMap { entries: Vec::new() };
        assert(m@ =~= Map::<Seq<char>, V>::empty());
        m
    }

    /// The number of names.
    pub fn len(&self) -> (n: usize)
        ensures
            n == self@.dom().len(),
    {
        proof {
            use_type_invariant(self);
            lemma_entries_len(self.entries@);
        }
        self.entries.len()
    }

    fn find(&self, name: &[char]) -> (r: Option<usize>)
        ensures
            match r {
                Some(i) => entry_at(self.entries@, i as int, name@),
                None => !self@.contains_key(name@),
            },
    {
        let mut i: usize = 0;
        while i < self.entries.len()
            invariant
                i <= self.entries.len(),
                forall|j: int| 0 <= j < i ==> self.entries@[j].0@ != name@,
            decreases self.entries.len() - i,
        {
            let k = chars_of(self.entries[i].0.as_str());
            if chars_eq(k.as_slice(), name) {
                return Some(i);
            }
            i = i + 1;
        }
        None
    }

    /// The value recorded for `name`.
    pub fn get(&self, name: &str) -> (r: Option<&V>)
        ensures
            r == (if self@.contains_key(name@) {
                Some(&self@[name@])
            } else {
                None
            }),
    {
        proof {
            use_type_invariant(self);
        }
        let n = chars_of(name);
        match self.find(n.as_slice()) {
            Some(i) => {
                proof {
                    let j = choose|j: int| entry_at(self.entries@, j, name@);
                    assert(j == i);
                }
                Some(&self.entries[i].1)
            },
            None => None,
        }
    }

    /// Records `value` for `name`, replacing what was there.
    pub fn insert(&mut self, name: String, value: V)
        ensures
            final(self)@ == old(self)@.insert(name@, value),
    {
        proof {
            use_type_invariant(&*self);
        }
        let ghost old_es = self.entries@;
        let n = chars_of(name.as_str());
        let found = self.find(n.as_slice());
        let mut es: Vec<(String, V)> = Vec::new();
        std::mem::swap(&mut es, &mut self.entries);
        match found {
            Some(i) => {
                es.set(i, (name, value));
                proof {
                    let es = es@;
                    assert(unique_names(es)) by {
                        assert forall|a: int, b: int|
                            0 <= a < es.len() && 0 <= b < es.len() && a != b implies (#[trigger] es[a]).0@
                            != (#[trigger] es[b]).0@ by {
                            if a != i as int && b != i as int {
                                assert(es[a] == old_es[a] && es[b] == old_es[b]);
                            } else if a == i as int {
                                assert(es[b] == old_es[b]);
                            } else {
                                assert(es[a] == old_es[a]);
                            }
                        }
                    }
                    lemma_map_update(old_es, i as int, name@, value);
                }
            },
            None => {
                es.push((name, value));
                proof {
                    let es = es@;
                    assert(unique_names(es)) by {
                        assert forall|a: int, b: int|
                            0 <= a < es.len() && 0 <= b < es.len() && a != b implies (#[trigger] es[a]).0@
                            != (#[trigger] es[b]).0@ by {
                            if a < old_es.len() && b < old_es.len() {
                                assert(es[a] == old_es[a] && es[b] == old_es[b]);
                            } else if a < old_es.len() {
                                assert(es[a] == old_es[a]);
                                assert(!entries_map(old_es).contains_key(name@));
                                assert(!entry_at(old_es, a, name@));
                            } else {
                                assert(es[b] == old_es[b]);
                                assert(!entry_at(old_es, b, name@));
                            }
                        }
                    }
                    lemma_map_push(old_es, name@, value, es);
                }
            },
        }
        self.entries = es;
    }

    /// Forgets `name`.
    pub fn remove(&mut self, name: &str)
        ensures
            final(self)@ == old(self)@.remove(name@),
    {
        proof {
            use_type_invariant(&*self);
        }
        let ghost old_es = self.entries@;
        let n = chars_of(name);
        match self.find(n.as_slice()) {
            Some(i) => {
                let mut es: Vec<(String, V)> = Vec::new();
                std::mem::swap(&mut es, &mut self.entries);
                es.remove(i);
                proof {
                    lemma_map_remove(old_es, i as int);
                }
                self.entries = es;
            },
            None => {
                assert(old_es == self.entries@);
                assert(entries_map(old_es).remove(name@) =~= entries_map(old_es));
            },
        }
    }

    /// Forgets `name`, handing back its value.
    pub fn take(&mut self, name: &str) -> (r: Option<V>)
        ensures
            final(self)@ == old(self)@.remove(name@),
            r == (if old(self)@.contains_key(name@) {
                Some(old(self)@[name@])
            } else {
                None
            }),
    {
        proof {
            use_type_invariant(&*self);
        }
        let ghost old_es = self.entries@;
        let n = chars_of(name);
        match self.find(n.as_slice()) {
            Some(i) => {
                let mut es: Vec<(String, V)> = Vec::new();
                std::mem::swap(&mut es, &mut self.entries);
                let e = es.remove(i);
                proof {
                    lemma_map_remove(old_es, i as int);
                    let j = choose|j: int| entry_at(old_es, j, name@);
                    assert(j == i);
                }
                self.entries = es;
                Some(e.1)
            },
            None => {
                assert(entries_map(old_es).remove(name@) =~= entries_map(old_es));
                None
            },
        }
    }

    /// The (name, value) pairs, each name once.
    pub fn entries(&self) -> (es: &Vec<(String, V)>)
        ensures
            entries_map(es@) == self@,
            unique_names(es@),
    {
        proof {
            use_type_invariant(self);
        }
        &self.entries
    }
}

proof fn lemma_map_update<V>(es: Seq<(String, V)>, i: int, k: Seq<char>, v: V)
    requires
        unique_names(es),
        entry_at(es, i, k),
    ensures
        forall|n: String| n@ == k ==> entries_map(es.update(i, (n, v))) == entries_map(es).insert(
            k,
            v,
        ),
{
    assert forall|n: String| n@ == k implies entries_map(es.update(i, (n, v))) == entries_map(
        es,
    ).insert(k, v) by {
        let es2 = es.update(i, (n, v));
        assert forall|key: Seq<char>| #[trigger]
            entries_map(es2).contains_key(key) == entries_map(es).insert(k, v).contains_key(key) by {
            if exists|j: int| entry_at(es2, j, key) {
                let j = choose|j: int| entry_at(es2, j, key);
                if j != i {
                    assert(entry_at(es, j, key));
                }
            }
            if exists|j: int| entry_at(es, j, key) {
                let j = choose|j: int| entry_at(es, j, key);
                if j != i {
                    assert(entry_at(es2, j, key));
                } else {
                    assert(entry_at(es2, i, key));
                }
            }
        }
        assert forall|key: Seq<char>| #[trigger] entries_map(es2).contains_key(key) implies entries_map(
            es2,
        )[key] == entries_map(es).insert(k, v)[key] by {
            let j2 = choose|j: int| entry_at(es2, j, key);
            if key == k {
                assert(entry_at(es2, i, key));
                if j2 != i {
                    assert(es2[j2] == es[j2]);
                    assert(es[j2].0@ == es[i].0@);
                }
            } else {
                assert(j2 != i);
                assert(entry_at(es, j2, key));
                let j1 = choose|j: int| entry_at(es, j, key);
                if j1 != j2 {
                    assert(es[j1].0@ == es[j2].0@);
                }
            }
        }
        assert(entries_map(es2) =~= entries_map(es).insert(k, v));
    }
}

proof fn lemma_map_push<V>(es: Seq<(String, V)>, k: Seq<char>, v: V, es2: Seq<(String, V)>)
    requires
        unique_names(es),
        !entries_map(es).contains_key(k),
        es2.len() == es.len() + 1,
        es2.last().0@ == k,
        es2.last().1 == v,
        forall|j: int| 0 <= j < es.len() ==> es2[j] == es[j],
    ensures
        entries_map(es2) == entries_map(es).insert(k, v),
{
    assert forall|key: Seq<char>| #[trigger]
        entries_map(es2).contains_key(key) == entries_map(es).insert(k, v).contains_key(key) by {
        if exists|j: int| entry_at(es2, j, key) {
            let j = choose|j: int| entry_at(es2, j, key);
            if j < es.len() {
                assert(entry_at(es, j, key));
            }
        }
        if exists|j: int| entry_at(es, j, key) {
            let j = choose|j: int| entry_at(es, j, key);
            assert(entry_at(es2, j, key));
        }
        if key == k {
            assert(entry_at(es2, es.len() as int, key));
        }
    }
    assert forall|key: Seq<char>| #[trigger] entries_map(es2).contains_key(key) implies entries_map(
        es2,
    )[key] == entries_map(es).insert(k, v)[key] by {
        let j2 = choose|j: int| entry_at(es2, j, key);
        if key == k {
            if j2 < es.len() {
                assert(entry_at(es, j2, k));
            }
        } else {
            assert(j2 < es.len());
            assert(entry_at(es, j2, key));
            let j1 = choose|j: int| entry_at(es, j, key);
            if j1 != j2 {
                assert(es[j1].0@ == es[j2].0@);
            }
        }
    }
    assert(entries_map(es2) =~= entries_map(es).insert(k, v));
}

/// The value `v` is recent at `now`: less than `ttl` before it (a time after
/// `now` counts as now).
pub open spec fn is_recent(now: u64, ttl: u64, v: u64) -> bool {
    now.saturating_sub(v) < ttl
}

/// The entries of `m` whose value is recent at `now`.
pub open spec fn recent_part(m: Map<Seq<char>, u64>, now: u64, ttl: u64) -> Map<Seq<char>, u64> {
    Map::new(|k: Seq<char>| m.contains_key(k) && is_recent(now, ttl, m[k]), |k: Seq<char>| m[k])
}

impl NameMap<u64> {
    /// Forgets every name whose value is not recent at `now`.
    pub fn keep_recent(&mut self, now: u64, ttl: u64)
        ensures
            final(self)@ == recent_part(old(self)@, now, ttl),
    {
        proof {
            use_type_invariant(&*self);
        }
        let mut es: Vec<(String, u64)> = Vec::new();
        std::mem::swap(&mut es, &mut self.entries);
        let ghost orig = es@;
        let ghost p = |e: (String, u64)| is_recent(now, ttl, e.1);
        let mut kept: Vec<(String, u64)> = Vec::new();
        let mut i: usize = 0;
        while i < es.len()
            invariant
                es@ == orig,
                i <= es.len(),
                kept@ == orig.take(i as int).filter(p),
                p == (|e: (String, u64)| is_recent(now, ttl, e.1)),
            decreases es.len() - i,
        {
            proof {
                reveal(Seq::filter);
            }
            assert(orig.take(i + 1).drop_last() =~= orig.take(i as int));
            if now.saturating_sub(es[i].1) < ttl {
                kept.push((es[i].0.clone(), es[i].1));
            }
            i = i + 1;
        }
        assert(orig.take(orig.len() as int) =~= orig);
        proof {
            lemma_filter_recent(orig, now, ttl);
        }
        self.entries = kept;
    }
}

proof fn lemma_filter_recent(es: Seq<(String, u64)>, now: u64, ttl: u64)
    requires
        unique_names(es),
    ensures
        unique_names(es.filter(|e: (String, u64)| is_recent(now, ttl, e.1))),
        entries_map(es.filter(|e: (String, u64)| is_recent(now, ttl, e.1))) == recent_part(
            entries_map(es),
            now,
            ttl,
        ),
    decreases es.len(),
{
    reveal(Seq::filter);
    let p = |e: (String, u64)| is_recent(now, ttl, e.1);
    if es.len() == 0 {
        assert(entries_map(es) =~= Map::<Seq<char>, u64>::empty());
        assert(es.filter(p) =~= es);
        assert(recent_part(entries_map(es), now, ttl) =~= Map::<Seq<char>, u64>::empty());
    } else {
        let t = es.drop_last();
        let e = es.last();
        assert(unique_names(t)) by {
            assert forall|a: int, b: int|
                0 <= a < t.len() && 0 <= b < t.len() && a != b implies (#[trigger] t[a]).0@
                != (#[trigger] t[b]).0@ by {
                assert(t[a] == es[a] && t[b] == es[b]);
            }
        }
        lemma_filter_recent(t, now, ttl);
        let k = e.0@;
        assert(!entries_map(t).contains_key(k)) by {
            if exists|j: int| entry_at(t, j, k) {
                let j = choose|j: int| entry_at(t, j, k);
                assert(es[j].0@ == es[es.len() - 1].0@);
            }
        }
        lemma_map_push(t, k, e.1, es);
        let ft = t.filter(p);
        assert(es.filter(p) == if p(e) {
            ft.push(e)
        } else {
            ft
        });
        if p(e) {
            assert(!entries_map(ft).contains_key(k));
            let fe = ft.push(e);
            assert(unique_names(fe)) by {
                assert forall|a: int, b: int|
                    0 <= a < fe.len() && 0 <= b < fe.len() && a != b implies (#[trigger] fe[a]).0@
                    != (#[trigger] fe[b]).0@ by {
                    if a < ft.len() && b < ft.len() {
                        assert(fe[a] == ft[a] && fe[b] == ft[b]);
                    } else if a < ft.len() {
                        assert(fe[a] == ft[a]);
                        assert(!entry_at(ft, a, k));
                    } else {
                        assert(fe[b] == ft[b]);
                        assert(!entry_at(ft, b, k));
                    }
                }
            }
            lemma_map_push(ft, k, e.1, fe);
        }
        assert(entries_map(es.filter(p)) =~= recent_part(entries_map(es), now, ttl));
    }
}

proof fn lemma_map_remove<V>(es: Seq<(String, V)>, i: int)
    requires
        unique_names(es),
        0 <= i < es.len(),
    ensures
        unique_names(es.remove(i)),
        entries_map(es.remove(i)) == entries_map(es).remove(es[i].0@),
{
    let es2 = es.remove(i);
    let k = es[i].0@;
    assert(unique_names(es2)) by {
        assert forall|a: int, b: int|
            0 <= a < es2.len() && 0 <= b < es2.len() && a != b implies (#[trigger] es2[a]).0@
            != (#[trigger] es2[b]).0@ by {
            let a1 = if a < i { a } else { a + 1 };
            let b1 = if b < i { b } else { b + 1 };
            assert(es2[a] == es[a1] && es2[b] == es[b1]);
        }
    }
    assert forall|key: Seq<char>| #[trigger]
        entries_map(es2).contains_key(key) == entries_map(es).remove(k).contains_key(key) by {
        if exists|j: int| entry_at(es2, j, key) {
            let j = choose|j: int| entry_at(es2, j, key);
            let j1 = if j < i { j } else { j + 1 };
            assert(es2[j] == es[j1]);
            assert(entry_at(es, j1, key));
            assert(j1 != i);
        }
        if key != k && exists|j: int| entry_at(es, j, key) {
            let j = choose|j: int| entry_at(es, j, key);
            assert(j != i);
            let j2 = if j < i { j } else { j - 1 };
            assert(es2[j2] == es[j]);
            assert(entry_at(es2, j2, key));
        }
    }
    assert forall|key: Seq<char>| #[trigger] entries_map(es2).contains_key(key) implies entries_map(
        es2,
    )[key] == entries_map(es).remove(k)[key] by {
        let j2 = choose|j: int| entry_at(es2, j, key);
        let j1 = if j2 < i { j2 } else { j2 + 1 };
        assert(es2[j2] == es[j1]);
        assert(entry_at(es, j1, key));
        let j0 = choose|j: int| entry_at(es, j, key);
        if j0 != j1 {
            assert(es[j0].0@ == es[j1].0@);
        }
    }
    assert(entries_map(es2) =~= entries_map(es).remove(k));
}

proof fn lemma_entries_len<V>(es: Seq<(String, V)>)
    requires
        unique_names(es),
    ensures
        entries_map(es).dom().len() == es.len(),
        entries_map(es).dom().finite(),
    decreases es.len(),
{
    if es.len() == 0 {
        assert(entries_map(es).dom() =~= Set::<Seq<char>>::empty());
    } else {
        let t = es.drop_last();
        assert(unique_names(t)) by {
            assert forall|a: int, b: int|
                0 <= a < t.len() && 0 <= b < t.len() && a != b implies (#[trigger] t[a]).0@
                != (#[trigger] t[b]).0@ by {
                assert(t[a] == es[a] && t[b] == es[b]);
            }
        }
        lemma_entries_len(t);
        let k = es.last().0@;
        assert(!entries_map(t).contains_key(k)) by {
            if exists|j: int| entry_at(t, j, k) {
                let j = choose|j: int| entry_at(t, j, k);
                assert(es[j].0@ == es[es.len() - 1].0@);
            }
        }
        lemma_map_push(t, k, es.last().1, es);
        assert(entries_map(es).dom() =~= entries_map(t).dom().insert(k));
    }
}


} // verus!
