//! A small string-keyed map kept in insertion order.

use vstd::prelude::*;

verus! {

/// Association list from string keys to values. Each key occurs at most once;
/// entries stay in the order in which their keys were first inserted.
#[derive(Debug, Clone)]
pub struct StrMap<V> {
    pub entries: Vec<(String, V)>,
}

/// Index of the entry whose key has view `k`, if any.
pub open spec fn key_index<V>(entries: Seq<(String, V)>, k: Seq<char>) -> int
    decreases entries.len(),
{
    if entries.len() == 0 {
        -1
    } else if entries.last().0@ == k {
        entries.len() - 1
    } else {
        key_index(entries.drop_last(), k)
    }
}

/// Entries after storing `v` under `k`: replaced in place, or appended when new.
pub open spec fn entries_after_insert<V>(entries: Seq<(String, V)>, k: String, v: V) -> Seq<(String, V)> {
    let i = key_index(entries, k@);
    if i >= 0 {
        entries.update(i, (k, v))
    } else {
        entries.push((k, v))
    }
}

/// No key occurs twice.
pub open spec fn keys_unique<V>(entries: Seq<(String, V)>) -> bool {
    forall|i: int, j: int|
        0 <= i < entries.len() && 0 <= j < entries.len() && i != j ==> #[trigger] entries[i].0@
            != #[trigger] entries[j].0@
}

pub proof fn lemma_key_index<V>(entries: Seq<(String, V)>, k: Seq<char>)
    ensures
        -1 <= key_index(entries, k) < entries.len(),
        key_index(entries, k) >= 0 ==> entries[key_index(entries, k)].0@ == k,
        key_index(entries, k) == -1 ==> forall|i: int| 0 <= i < entries.len() ==> entries[i].0@ != k,
        keys_unique(entries) ==> forall|i: int|
            0 <= i < entries.len() && entries[i].0@ == k ==> key_index(entries, k) == i,
    decreases entries.len(),
{
    if entries.len() > 0 {
        lemma_key_index(entries.drop_last(), k);
        assert forall|i: int| 0 <= i < entries.len() - 1 implies entries.drop_last()[i] == entries[i] by {}
    }
}

impl<V> StrMap<V> {
    /// The map as a function from key views to values.
    pub open spec fn lookup(&self, k: Seq<char>) -> Option<V> {
        let i = key_index(self.entries@, k);
        if i >= 0 {
            Some(self.entries@[i].1)
        } else {
            None
        }
    }

    pub open spec fn wf(&self) -> bool {
        keys_unique(self.entries@)
    }

    pub fn new() -> (m: StrMap<V>)
        ensures
            m.entries@.len() == 0,
            m.wf(),
    {
        StrMap { entries: Vec::new() }
    }

    pub fn len(&self) -> (n: usize)
        ensures
            n == self.entries@.len(),
    {
        self.entries.len()
    }

    /// Position of key `k`, if present.
    pub fn find(&self, k: &String) -> (r: Option<usize>)
        ensures
            r is Some <==> key_index(self.entries@, k@) >= 0,
            r is Some ==> r->0 == key_index(self.entries@, k@) && r->0 < self.entries@.len(),
    {
        proof {
            lemma_key_index(self.entries@, k@);
        }
        let mut i = self.entries.len();
        assert(self.entries@.take(i as int) == self.entries@);
        while i > 0
            invariant
                i <= self.entries@.len(),
                key_index(self.entries@.take(i as int), k@) == key_index(self.entries@, k@),
            decreases i,
        {
            assert(self.entries@.take(i as int).drop_last() == self.entries@.take(i - 1));
            if self.entries[i - 1].0 == *k {
                return Some(i - 1);
            }
            i = i - 1;
        }
        None
    }

    /// The value stored under `k`, if any.
    pub fn get(&self, k: &String) -> (r: Option<&V>)
        ensures
            r matches Some(v) ==> self.lookup(k@) == Some(*v),
            r is None ==> self.lookup(k@) is None,
    {
        match self.find(k) {
            Some(i) => Some(&self.entries[i].1),
            None => None,
        }
    }

    /// Whether a value is stored under the key spelled `k`.
    pub fn contains_key(&self, k: &str) -> (r: bool)
        ensures
            r == (self.lookup(k@) is Some),
    {
        let key = k.to_owned();
        self.find(&key).is_some()
    }

    /// Stores `v` under `k`, replacing any earlier value in place.
    pub fn insert(&mut self, k: String, v: V)
        requires
            old(self).wf(),
        ensures
            final(self).wf(),
            final(self).lookup(k@) == Some(v),
            forall|q: Seq<char>| q != k@ ==> final(self).lookup(q) == old(self).lookup(q),
            key_index(old(self).entries@, k@) >= 0 ==> final(self).entries@ == old(self).entries@.update(
                key_index(old(self).entries@, k@),
                (k, v),
            ),
            key_index(old(self).entries@, k@) < 0 ==> final(self).entries@ == old(self).entries@.push((k, v)),
    {
        proof {
            lemma_key_index(self.entries@, k@);
        }
        match self.find(&k) {
            Some(i) => {
                self.entries.set(i, (k, v));
                proof {
                    lemma_key_index_same_keys(old(self).entries@, self.entries@, k@);
                    assert forall|a: int, b: int|
                        0 <= a < self.entries@.len() && 0 <= b < self.entries@.len() && a != b
                        implies #[trigger] self.entries@[a].0@ != #[trigger] self.entries@[b].0@ by {
                        assert(self.entries@[a].0@ == old(self).entries@[a].0@);
                        assert(self.entries@[b].0@ == old(self).entries@[b].0@);
                    }
                    lemma_key_index(self.entries@, k@);
                    assert forall|q: Seq<char>| q != k@ implies self.lookup(q) == old(self).lookup(q) by {
                        lemma_key_index(self.entries@, q);
                        lemma_key_index(old(self).entries@, q);
                        lemma_key_index_same_keys(old(self).entries@, self.entries@, q);
                    }
                }
            },
            None => {
                let ghost k_view = k@;
                self.entries.push((k, v));
                proof {
                    assert(self.entries@.drop_last() == old(self).entries@);
                    lemma_key_index(self.entries@, k_view);
                    assert forall|q: Seq<char>| q != k_view implies self.lookup(q) == old(self).lookup(q) by {
                        lemma_key_index(self.entries@, q);
                        lemma_key_index(old(self).entries@, q);
                    }
                }
            },
        }
    }

    /// Removes and returns the value stored under `k`; later entries move up one place.
    pub fn remove(&mut self, k: &String) -> (r: Option<V>)
        requires
            old(self).wf(),
        ensures
            final(self).wf(),
            r == old(self).lookup(k@),
            final(self).lookup(k@) is None,
            forall|q: Seq<char>| q != k@ ==> final(self).lookup(q) == old(self).lookup(q),
            key_index(old(self).entries@, k@) >= 0 ==> final(self).entries@ == old(self).entries@.remove(
                key_index(old(self).entries@, k@),
            ),
            key_index(old(self).entries@, k@) < 0 ==> *final(self) == *old(self),
    {
        proof {
            lemma_key_index(self.entries@, k@);
        }
        match self.find(k) {
            Some(i) => {
                let (_, v) = self.entries.remove(i);
                proof {
                    let oe = old(self).entries@;
                    let ne = self.entries@;
                    assert forall|a: int, b: int|
                        0 <= a < ne.len() && 0 <= b < ne.len() && a != b implies #[trigger] ne[a].0@
                        != #[trigger] ne[b].0@ by {
                        let oa = if a < i { a } else { a + 1 };
                        let ob = if b < i { b } else { b + 1 };
                        assert(ne[a] == oe[oa]);
                        assert(ne[b] == oe[ob]);
                    }
                    lemma_key_index(ne, k@);
                    assert forall|j: int| 0 <= j < ne.len() implies ne[j].0@ != k@ by {
                        let oj = if j < i { j } else { j + 1 };
                        assert(ne[j] == oe[oj]);
                    }
                    assert forall|q: Seq<char>| q != k@ implies self.lookup(q) == old(self).lookup(q) by {
                        lemma_key_index(ne, q);
                        lemma_key_index(oe, q);
                        let oi = key_index(oe, q);
                        if oi >= 0 {
                            let ni = if oi < i { oi } else { oi - 1 };
                            assert(ne[ni] == oe[oi]);
                        } else {
                            assert forall|j: int| 0 <= j < ne.len() implies ne[j].0@ != q by {
                                let oj = if j < i { j } else { j + 1 };
                                assert(ne[j] == oe[oj]);
                            }
                        }
                    }
                }
                Some(v)
            },
            None => None,
        }
    }
}

/// The value stored under `q` in `entries`, if any.
pub open spec fn lookup_in<V>(entries: Seq<(String, V)>, q: Seq<char>) -> Option<V> {
    let i = key_index(entries, q);
    if i >= 0 {
        Some(entries[i].1)
    } else {
        None
    }
}

/// Removing the entry of key `k` forgets `k` and keeps every other key's value.
pub proof fn lemma_lookup_remove<V>(entries: Seq<(String, V)>, k: Seq<char>)
    requires
        keys_unique(entries),
        key_index(entries, k) >= 0,
    ensures
        keys_unique(entries.remove(key_index(entries, k))),
        forall|q: Seq<char>|
            #[trigger] lookup_in(entries.remove(key_index(entries, k)), q) == if q == k {
                None
            } else {
                lookup_in(entries, q)
            },
{
    let idx = key_index(entries, k);
    let r = entries.remove(idx);
    lemma_key_index(entries, k);
    assert forall|i: int| 0 <= i < r.len() implies #[trigger] r[i] == if i < idx { entries[i] } else { entries[i + 1] } by {}
    assert(keys_unique(r)) by {
        assert forall|i: int, j: int| 0 <= i < r.len() && 0 <= j < r.len() && i != j implies #[trigger] r[i].0@
            != #[trigger] r[j].0@ by {
            let a = if i < idx { i } else { i + 1 };
            let b = if j < idx { j } else { j + 1 };
            assert(r[i] == entries[a]);
            assert(r[j] == entries[b]);
        }
    }
    assert forall|q: Seq<char>| #[trigger] lookup_in(r, q) == if q == k { None } else { lookup_in(entries, q) } by {
        lemma_key_index(entries, q);
        lemma_key_index(r, q);
        if q == k {
            if key_index(r, q) >= 0 {
                let j = key_index(r, q);
                let b = if j < idx { j } else { j + 1 };
                assert(r[j] == entries[b]);
            }
        } else {
            if key_index(entries, q) >= 0 {
                let i = key_index(entries, q);
                assert(i != idx);
                let j = if i < idx { i } else { i - 1 };
                assert(r[j] == entries[i]);
                assert(key_index(r, q) == j);
            } else if key_index(r, q) >= 0 {
                let j = key_index(r, q);
                let b = if j < idx { j } else { j + 1 };
                assert(r[j] == entries[b]);
            }
        }
    }
}

/// Storing `v` under `k` makes `k` give `v` and keeps every other key's value.
pub proof fn lemma_lookup_insert<V>(entries: Seq<(String, V)>, k: String, v: V)
    requires
        keys_unique(entries),
    ensures
        keys_unique(entries_after_insert(entries, k, v)),
        forall|q: Seq<char>|
            #[trigger] lookup_in(entries_after_insert(entries, k, v), q) == if q == k@ {
                Some(v)
            } else {
                lookup_in(entries, q)
            },
{
    let r = entries_after_insert(entries, k, v);
    lemma_key_index(entries, k@);
    let idx = key_index(entries, k@);
    assert forall|i: int| 0 <= i < r.len() && i != idx && i < entries.len() implies #[trigger] r[i] == entries[i] by {}
    assert(keys_unique(r)) by {
        assert forall|i: int, j: int| 0 <= i < r.len() && 0 <= j < r.len() && i != j implies #[trigger] r[i].0@
            != #[trigger] r[j].0@ by {
            if idx >= 0 {
                assert(r[idx].0@ == k@);
            } else {
                assert(r[entries.len() as int].0@ == k@);
            }
        }
    }
    assert forall|q: Seq<char>| #[trigger] lookup_in(r, q) == if q == k@ { Some(v) } else { lookup_in(entries, q) } by {
        lemma_key_index(entries, q);
        lemma_key_index(r, q);
        if q == k@ {
            let at = if idx >= 0 { idx } else { entries.len() as int };
            assert(r[at] == (k, v));
            assert(key_index(r, q) == at);
        } else {
            if key_index(entries, q) >= 0 {
                let i = key_index(entries, q);
                assert(r[i] == entries[i]);
                assert(key_index(r, q) == i);
            } else if key_index(r, q) >= 0 {
                let j = key_index(r, q);
                assert(j != idx);
                if j < entries.len() {
                    assert(r[j] == entries[j]);
                }
            }
        }
    }
}

proof fn lemma_key_index_same_keys<V>(a: Seq<(String, V)>, b: Seq<(String, V)>, q: Seq<char>)
    requires
        a.len() == b.len(),
        forall|i: int| 0 <= i < a.len() ==> a[i].0@ == b[i].0@,
    ensures
        key_index(a, q) == key_index(b, q),
    decreases a.len(),
{
    if a.len() > 0 {
        lemma_key_index_same_keys(a.drop_last(), b.drop_last(), q);
    }
}

} // verus!
