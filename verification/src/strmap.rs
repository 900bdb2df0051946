//! Insertion-ordered association list keyed by strings, with unique keys.
//! It stands in for an ordered map: lookups scan, inserts update in place
//! or append.

use vstd::prelude::*;

verus! {

/// True when `s` holds an entry under key `k`.
pub open spec fn map_has<V>(s: Seq<(Seq<char>, V)>, k: Seq<char>) -> bool {
    exists|i: int| 0 <= i < s.len() && (#[trigger] s[i]).0 == k
}

/// The position of key `k` in `s`.
pub open spec fn map_idx<V>(s: Seq<(Seq<char>, V)>, k: Seq<char>) -> int {
    choose|i: int| 0 <= i < s.len() && (#[trigger] s[i]).0 == k
}

/// The value under key `k`.
pub open spec fn map_get<V>(s: Seq<(Seq<char>, V)>, k: Seq<char>) -> V {
    s[map_idx(s, k)].1
}

/// Entries updated under `k`: in place when present, appended otherwise.
pub open spec fn spec_upsert<V>(s: Seq<(Seq<char>, V)>, k: Seq<char>, v: V) -> Seq<
    (Seq<char>, V),
> {
    if map_has(s, k) {
        s.update(map_idx(s, k), (k, v))
    } else {
        s.push((k, v))
    }
}

/// No two entries share a key.
pub open spec fn keys_unique<V>(s: Seq<(Seq<char>, V)>) -> bool {
    forall|i: int, j: int|
        0 <= i < j < s.len() ==> (#[trigger] s[i]).0 != (#[trigger] s[j]).0
}

/// Two positions holding the same key are one position.
pub proof fn lemma_unique_same_key<V>(s: Seq<(Seq<char>, V)>, a: int, b: int)
    requires
        keys_unique(s),
        0 <= a < s.len(),
        0 <= b < s.len(),
        s[a].0 == s[b].0,
    ensures
        a == b,
{
    if a < b {
        assert(s[a].0 != s[b].0);
        assert(false);
    } else if b < a {
        assert(s[b].0 != s[a].0);
        assert(false);
    }
}

/// Association list keyed by strings with unique keys, in insertion order.
#[derive(Clone)]
pub struct StrMap<V> {
    entries: Vec<(String, V)>,
}

impl<V> StrMap<V> {
    /// The entries with their keys as character sequences.
    pub closed spec fn view(&self) -> Seq<(Seq<char>, V)> {
        Seq::new(self.entries@.len(), |i: int| (self.entries@[i].0@, self.entries@[i].1))
    }

    /// Keys are unique.
    pub open spec fn wf(&self) -> bool {
        keys_unique(self.view())
    }

    /// An empty map.
    pub fn new() -> (r: Self)
        ensures
            r.wf(),
            r.view() == Seq::<(Seq<char>, V)>::empty(),
    {
        let r = StrMap { entries: Vec::new() };
        proof {
            assert(r.view() =~= Seq::<(Seq<char>, V)>::empty());
        }
        r
    }

    /// Number of entries.
    pub fn len(&self) -> (r: usize)
        ensures
            r == self.view().len(),
    {
        self.entries.len()
    }

    /// Key of the entry at position `i`.
    pub fn key_at(&self, i: usize) -> (r: &String)
        requires
            i < self.view().len(),
        ensures
            r@ == self.view()[i as int].0,
    {
        &self.entries[i].0
    }

    /// Value of the entry at position `i`.
    pub fn val_at(&self, i: usize) -> (r: &V)
        requires
            i < self.view().len(),
        ensures
            *r == self.view()[i as int].1,
    {
        &self.entries[i].1
    }

    /// Find the position of a key.
    #[verifier::loop_isolation(false)]
    fn position(&self, k: &String) -> (r: Option<usize>)
        requires
            self.wf(),
        ensures
            r is Some <==> map_has(self.view(), k@),
            r matches Some(i) ==> i < self.view().len() && self.view()[i as int].0 == k@ && i
                == map_idx(self.view(), k@),
    {
        let mut i: usize = 0;
        while i < self.entries.len()
            invariant
                i <= self.view().len(),
                self.view().len() == self.entries@.len(),
                forall|t: int| 0 <= t < i ==> (#[trigger] self.view()[t]).0 != k@,
            decreases self.entries@.len() - i,
        {
            if self.entries[i].0 == *k {
                proof {
                    assert(self.view()[i as int].0 == k@);
                    assert(map_has(self.view(), k@));
                    let j = map_idx(self.view(), k@);
                    assert(0 <= j < self.view().len() && self.view()[j].0 == k@);
                    lemma_unique_same_key(self.view(), j, i as int);
                }
                return Some(i);
            }
            proof {
                assert(self.view()[i as int].0 != k@);
            }
            i += 1;
        }
        proof {
            if map_has(self.view(), k@) {
                let j = map_idx(self.view(), k@);
                assert(0 <= j < self.view().len() && self.view()[j].0 == k@);
                assert(false);
            }
        }
        None
    }

    /// Look a key up.
    pub fn get(&self, k: &String) -> (r: Option<&V>)
        requires
            self.wf(),
        ensures
            r is Some <==> map_has(self.view(), k@),
            r matches Some(v) ==> *v == map_get(self.view(), k@),
    {
        match self.position(k) {
            Some(i) => Some(&self.entries[i].1),
            None => None,
        }
    }

    /// Whether the key is present.
    pub fn contains_key(&self, k: &String) -> (r: bool)
        requires
            self.wf(),
        ensures
            r == map_has(self.view(), k@),
    {
        match self.position(k) {
            Some(_) => true,
            None => false,
        }
    }

    /// Insert or replace the value under `k`.
    pub fn insert(&mut self, k: String, v: V)
        requires
            old(self).wf(),
        ensures
            final(self).wf(),
            final(self).view() == spec_upsert(old(self).view(), k@, v),
            map_has(final(self).view(), k@),
    {
        let pos = self.position(&k);
        match pos {
            Some(i) => {
                self.entries.set(i, (k, v));
                proof {
                    let oldv = old(self).view();
                    assert(self.view() =~= oldv.update(i as int, (k@, v)));
                    assert(map_has(oldv, k@));
                    assert(i == map_idx(oldv, k@));
                    assert forall|a: int, b: int|
                        0 <= a < b < self.view().len() implies (#[trigger] self.view()[a]).0 != (
                    #[trigger] self.view()[b]).0 by {
                        assert(oldv[a].0 != oldv[b].0);
                        if a != i && b != i {
                            assert(self.view()[a] == oldv[a]);
                            assert(self.view()[b] == oldv[b]);
                        }
                    }
                    assert(self.view()[i as int].0 == k@);
                    assert(map_has(self.view(), k@));
                }
            },
            None => {
                self.entries.push((k, v));
                proof {
                    let oldv = old(self).view();
                    assert(self.view() =~= oldv.push((k@, v)));
                    assert(!map_has(oldv, k@));
                    assert forall|a: int, b: int|
                        0 <= a < b < self.view().len() implies (#[trigger] self.view()[a]).0 != (
                    #[trigger] self.view()[b]).0 by {
                        if b < oldv.len() {
                            assert(oldv[a].0 != oldv[b].0);
                        } else {
                            assert(self.view()[b] == (k@, v));
                            if self.view()[a].0 == k@ {
                                assert(oldv[a].0 == k@);
                                assert(map_has(oldv, k@));
                                assert(false);
                            }
                        }
                    }
                    assert(self.view()[oldv.len() as int].0 == k@);
                    assert(map_has(self.view(), k@));
                }
            },
        }
    }
}

/// Looking up an untouched key after an upsert gives the old answer.
pub proof fn lemma_upsert_frame<V>(s: Seq<(Seq<char>, V)>, k: Seq<char>, v: V, k2: Seq<char>)
    requires
        keys_unique(s),
        k2 != k,
    ensures
        map_has(spec_upsert(s, k, v), k2) == map_has(s, k2),
        map_has(s, k2) ==> map_get(spec_upsert(s, k, v), k2) == map_get(s, k2),
{
    let t = spec_upsert(s, k, v);
    if map_has(s, k) {
        let i = map_idx(s, k);
        assert(0 <= i < s.len() && s[i].0 == k);
        assert forall|w: int| 0 <= w < t.len() && w != i implies t[w] == s[w] by {}
        if map_has(s, k2) {
            let j = map_idx(s, k2);
            assert(0 <= j < s.len() && s[j].0 == k2);
            assert(j != i);
            assert(t[j].0 == k2);
            assert(map_has(t, k2));
            let j2 = map_idx(t, k2);
            assert(0 <= j2 < t.len() && t[j2].0 == k2);
            assert(j2 != i);
            assert(s[j2].0 == k2);
            if j2 != j {
                assert(false);
            }
        }
        if map_has(t, k2) {
            let j2 = map_idx(t, k2);
            assert(j2 != i);
            assert(s[j2].0 == k2);
            assert(map_has(s, k2));
        }
    } else {
        assert(t == s.push((k, v)));
        if map_has(s, k2) {
            let j = map_idx(s, k2);
            assert(t[j].0 == k2);
            assert(map_has(t, k2));
            let j2 = map_idx(t, k2);
            assert(0 <= j2 < t.len() && t[j2].0 == k2);
            assert(j2 != s.len());
            assert(s[j2].0 == k2);
            let j3 = map_idx(s, k2);
            if j2 != j3 {
                assert(false);
            }
            assert(keys_unique(s));
            if j != j2 {
                assert(s[j].0 == s[j2].0);
                assert(false);
            }
        }
        if map_has(t, k2) {
            let j2 = map_idx(t, k2);
            assert(j2 != s.len());
            assert(s[j2].0 == k2);
            assert(map_has(s, k2));
        }
    }
}

/// The upserted key reads back the new value, and uniqueness is kept.
pub proof fn lemma_upsert_get<V>(s: Seq<(Seq<char>, V)>, k: Seq<char>, v: V)
    requires
        keys_unique(s),
    ensures
        map_has(spec_upsert(s, k, v), k),
        map_get(spec_upsert(s, k, v), k) == v,
        keys_unique(spec_upsert(s, k, v)),
{
    let t = spec_upsert(s, k, v);
    if map_has(s, k) {
        let i = map_idx(s, k);
        assert(0 <= i < s.len() && s[i].0 == k);
        assert(t[i] == (k, v));
        assert(map_has(t, k));
        let j = map_idx(t, k);
        assert(0 <= j < t.len() && t[j].0 == k);
        if j != i {
            assert(t[j] == s[j]);
            assert(s[j].0 == s[i].0);
            assert(false);
        }
        assert forall|a: int, b: int|
            0 <= a < b < t.len() implies (#[trigger] t[a]).0 != (#[trigger] t[b]).0 by {
            assert(s[a].0 != s[b].0);
            if a != i && b != i {
                assert(t[a] == s[a]);
                assert(t[b] == s[b]);
            }
        }
    } else {
        assert(t == s.push((k, v)));
        assert(t[s.len() as int] == (k, v));
        assert(map_has(t, k));
        let j = map_idx(t, k);
        assert(0 <= j < t.len() && t[j].0 == k);
        if j != s.len() {
            assert(s[j].0 == k);
            assert(map_has(s, k));
            assert(false);
        }
        assert forall|a: int, b: int|
            0 <= a < b < t.len() implies (#[trigger] t[a]).0 != (#[trigger] t[b]).0 by {
            if b < s.len() {
                assert(s[a].0 != s[b].0);
            } else {
                assert(t[b] == (k, v));
                if t[a].0 == k {
                    assert(s[a].0 == k);
                    assert(map_has(s, k));
                    assert(false);
                }
            }
        }
    }
}

} // verus!
