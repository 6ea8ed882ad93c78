//! Stable sorting by a ranked key, and the byte order on strings.

use vstd::prelude::*;

verus! {

/// Keys that can be compared. `rank_le(a, b)` means `a` may stand before `b`.
pub trait Ranked: Sized {
    spec fn rank_le(&self, other: &Self) -> bool;

    fn le(&self, other: &Self) -> (r: bool)
        ensures
            r == self.rank_le(other),
    ;
}

/// Stable insertion of `x` into `s`: after every trailing element that may stand before it.
pub open spec fn insert_ranked<K: Ranked, T>(s: Seq<(K, T)>, x: (K, T)) -> Seq<(K, T)>
    decreases s.len(),
{
    if s.len() == 0 {
        seq![x]
    } else if s.last().0.rank_le(&x.0) {
        s.push(x)
    } else {
        insert_ranked(s.drop_last(), x).push(s.last())
    }
}

/// Stable insertion sort of `s` by key.
pub open spec fn sort_ranked<K: Ranked, T>(s: Seq<(K, T)>) -> Seq<(K, T)>
    decreases s.len(),
{
    if s.len() == 0 {
        s
    } else {
        insert_ranked(sort_ranked(s.drop_last()), s.last())
    }
}

proof fn lemma_insert_at<K: Ranked, T>(s: Seq<(K, T)>, x: (K, T), k: int)
    requires
        0 <= k <= s.len(),
        forall|j: int| k <= j < s.len() ==> !s[j].0.rank_le(&x.0),
        k > 0 ==> s[k - 1].0.rank_le(&x.0),
    ensures
        insert_ranked(s, x) == s.take(k) + seq![x] + s.skip(k),
    decreases s.len(),
{
    if s.len() == 0 {
        assert(s.take(k) + seq![x] + s.skip(k) == seq![x]);
    } else if k == s.len() {
        assert(s.take(k) == s);
        assert(s.take(k) + seq![x] + s.skip(k) == s.push(x));
    } else {
        lemma_insert_at(s.drop_last(), x, k);
        assert(s.drop_last().take(k) == s.take(k));
        assert(s.take(k) + seq![x] + s.skip(k) == (s.drop_last().take(k) + seq![x] + s.drop_last().skip(
            k,
        )).push(s.last()));
    }
}

pub proof fn lemma_insert_len<K: Ranked, T>(s: Seq<(K, T)>, x: (K, T))
    ensures
        insert_ranked(s, x).len() == s.len() + 1,
    decreases s.len(),
{
    if s.len() > 0 {
        lemma_insert_len(s.drop_last(), x);
    }
}

pub proof fn lemma_sort_len<K: Ranked, T>(s: Seq<(K, T)>)
    ensures
        sort_ranked(s).len() == s.len(),
    decreases s.len(),
{
    if s.len() > 0 {
        lemma_sort_len(s.drop_last());
        lemma_insert_len(sort_ranked(s.drop_last()), s.last());
    }
}

/// Sorts `v` stably by the first component.
pub fn sort_by_rank<K: Ranked, T>(v: Vec<(K, T)>) -> (r: Vec<(K, T)>)
    ensures
        r@ == sort_ranked(v@),
{
    let mut out: Vec<(K, T)> = Vec::new();
    let mut rest = v;
    let ghost input = rest@;
    while rest.len() > 0
        invariant
            rest@.len() <= input.len(),
            rest@ == input.skip(input.len() - rest@.len()),
            out@ == sort_ranked(input.take(input.len() - rest@.len())),
        decreases rest.len(),
    {
        let ghost done = input.len() - rest@.len();
        let x = rest.remove(0);
        proof {
            assert(x == input[done]);
            assert(input.take(done + 1).drop_last() == input.take(done));
            assert(rest@ == input.skip(done + 1));
        }
        let mut k = out.len();
        while k > 0 && !out[k - 1].0.le(&x.0)
            invariant
                k <= out@.len(),
                forall|j: int| k <= j < out@.len() ==> !out@[j].0.rank_le(&x.0),
            decreases k,
        {
            k = k - 1;
        }
        proof {
            lemma_insert_at(out@, x, k as int);
        }
        out.insert(k, x);
        proof {
            assert(out@ == sort_ranked(input.take(done + 1)));
        }
    }
    let ghost n = input.len();
    assert(input.take(n as int) == input);
    out
}

proof fn lemma_insert_forall<K: Ranked, T>(s: Seq<(K, T)>, x: (K, T), p: spec_fn((K, T)) -> bool)
    requires
        forall|i: int| 0 <= i < s.len() ==> p(#[trigger] s[i]),
        p(x),
    ensures
        forall|i: int| 0 <= i < insert_ranked(s, x).len() ==> p(#[trigger] insert_ranked(s, x)[i]),
    decreases s.len(),
{
    lemma_insert_len(s, x);
    if s.len() > 0 {
        lemma_insert_forall(s.drop_last(), x, p);
        lemma_insert_len(s.drop_last(), x);
    }
}

/// Sorting keeps every element, so a property of all elements survives it.
pub proof fn lemma_sort_forall<K: Ranked, T>(s: Seq<(K, T)>, p: spec_fn((K, T)) -> bool)
    requires
        forall|i: int| 0 <= i < s.len() ==> p(#[trigger] s[i]),
    ensures
        forall|i: int| 0 <= i < sort_ranked(s).len() ==> p(#[trigger] sort_ranked(s)[i]),
    decreases s.len(),
{
    if s.len() > 0 {
        lemma_sort_forall(s.drop_last(), p);
        lemma_insert_forall(sort_ranked(s.drop_last()), s.last(), p);
    }
}

/// `rank_le` relates every two keys one way or the other.
pub open spec fn rank_total<K: Ranked>() -> bool {
    forall|a: K, b: K| #[trigger] a.rank_le(&b) || #[trigger] b.rank_le(&a)
}

/// `rank_le` is transitive.
pub open spec fn rank_transitive<K: Ranked>() -> bool {
    forall|a: K, b: K, c: K| #[trigger] a.rank_le(&b) && #[trigger] b.rank_le(&c) ==> a.rank_le(&c)
}

/// Every element may stand before every later one.
pub open spec fn ranked_sorted<K: Ranked, T>(s: Seq<(K, T)>) -> bool {
    forall|i: int, j: int| 0 <= i < j < s.len() ==> #[trigger] s[i].0.rank_le(&#[trigger] s[j].0)
}

proof fn lemma_insert_sorted<K: Ranked, T>(s: Seq<(K, T)>, x: (K, T))
    requires
        rank_total::<K>(),
        rank_transitive::<K>(),
        ranked_sorted(s),
    ensures
        ranked_sorted(insert_ranked(s, x)),
    decreases s.len(),
{
    lemma_insert_len(s, x);
    if s.len() == 0 {
    } else if s.last().0.rank_le(&x.0) {
        let r = s.push(x);
        assert forall|i: int, j: int| 0 <= i < j < r.len() implies #[trigger] r[i].0.rank_le(
            &#[trigger] r[j].0,
        ) by {
            if j == s.len() {
                if i < s.len() - 1 {
                    assert(s[i].0.rank_le(&s[s.len() - 1].0));
                }
            }
        }
    } else {
        let last = s.last();
        let t = insert_ranked(s.drop_last(), x);
        lemma_insert_sorted(s.drop_last(), x);
        lemma_insert_len(s.drop_last(), x);
        assert(x.0.rank_le(&last.0));
        let p = |e: (K, T)| e.0.rank_le(&last.0);
        assert forall|i: int| 0 <= i < s.drop_last().len() implies p(#[trigger] s.drop_last()[i]) by {
            assert(s[i].0.rank_le(&s[s.len() - 1].0));
        }
        lemma_insert_forall(s.drop_last(), x, p);
        let r = t.push(last);
        assert forall|i: int, j: int| 0 <= i < j < r.len() implies #[trigger] r[i].0.rank_le(
            &#[trigger] r[j].0,
        ) by {
            if j == t.len() {
                assert(p(t[i]));
            } else {
                assert(t[i].0.rank_le(&t[j].0));
            }
        }
    }
}

/// With a total, transitive order, sorting gives a sorted sequence.
pub proof fn lemma_sort_sorted<K: Ranked, T>(s: Seq<(K, T)>)
    requires
        rank_total::<K>(),
        rank_transitive::<K>(),
    ensures
        ranked_sorted(sort_ranked(s)),
    decreases s.len(),
{
    if s.len() > 0 {
        lemma_sort_sorted(s.drop_last());
        lemma_insert_sorted(sort_ranked(s.drop_last()), s.last());
    }
}

proof fn lemma_insert_multiset<K: Ranked, T, U>(s: Seq<(K, T)>, x: (K, T), f: spec_fn((K, T)) -> U)
    ensures
        insert_ranked(s, x).map_values(f).to_multiset() =~= s.map_values(f).to_multiset().insert(f(x)),
    decreases s.len(),
{
    broadcast use vstd::seq_lib::group_to_multiset_ensures;
    broadcast use vstd::multiset::group_multiset_axioms;

    if s.len() == 0 {
        assert(seq![x].map_values(f) =~= Seq::<U>::empty().push(f(x)));
        assert(s.map_values(f) =~= Seq::<U>::empty());
    } else if s.last().0.rank_le(&x.0) {
        assert(s.push(x).map_values(f) =~= s.map_values(f).push(f(x)));
    } else {
        let last = s.last();
        let t = insert_ranked(s.drop_last(), x);
        lemma_insert_multiset(s.drop_last(), x, f);
        assert(t.push(last).map_values(f) =~= t.map_values(f).push(f(last)));
        assert(s.map_values(f) =~= s.drop_last().map_values(f).push(f(last)));
    }
}

/// Sorting only reorders: what the elements map to is the same multiset before and after.
pub proof fn lemma_sort_multiset<K: Ranked, T, U>(s: Seq<(K, T)>, f: spec_fn((K, T)) -> U)
    ensures
        sort_ranked(s).map_values(f).to_multiset() =~= s.map_values(f).to_multiset(),
    decreases s.len(),
{
    broadcast use vstd::seq_lib::group_to_multiset_ensures;

    if s.len() > 0 {
        lemma_sort_multiset(s.drop_last(), f);
        lemma_insert_multiset(sort_ranked(s.drop_last()), s.last(), f);
        assert(s.map_values(f) =~= s.drop_last().map_values(f).push(f(s.last())));
    } else {
        assert(sort_ranked(s) == s);
    }
}

/// Sum of `w` over the elements of `s`.
pub open spec fn total<K: Ranked, T>(s: Seq<(K, T)>, w: spec_fn((K, T)) -> nat) -> nat
    decreases s.len(),
{
    if s.len() == 0 {
        0
    } else {
        total(s.drop_last(), w) + w(s.last())
    }
}

proof fn lemma_insert_total<K: Ranked, T>(s: Seq<(K, T)>, x: (K, T), w: spec_fn((K, T)) -> nat)
    ensures
        total(insert_ranked(s, x), w) == total(s, w) + w(x),
    decreases s.len(),
{
    if s.len() == 0 {
        assert(seq![x].drop_last() == Seq::<(K, T)>::empty());
        assert(seq![x].last() == x);
        assert(total(seq![x], w) == total(Seq::<(K, T)>::empty(), w) + w(x));
    } else if s.last().0.rank_le(&x.0) {
        assert(s.push(x).drop_last() == s);
        assert(insert_ranked(s, x) == s.push(x));
        assert(total(s.push(x), w) == total(s, w) + w(x));
    } else {
        lemma_insert_total(s.drop_last(), x, w);
        let t = insert_ranked(s.drop_last(), x);
        assert(insert_ranked(s, x) == t.push(s.last()));
        assert(t.push(s.last()).drop_last() == t);
        assert(total(t.push(s.last()), w) == total(t, w) + w(s.last()));
        assert(total(s, w) == total(s.drop_last(), w) + w(s.last()));
    }
}

/// Sorting keeps every element, so any sum over the elements is unchanged.
pub proof fn lemma_sort_total<K: Ranked, T>(s: Seq<(K, T)>, w: spec_fn((K, T)) -> nat)
    ensures
        total(sort_ranked(s), w) == total(s, w),
    decreases s.len(),
{
    if s.len() > 0 {
        lemma_sort_total(s.drop_last(), w);
        lemma_insert_total(sort_ranked(s.drop_last()), s.last(), w);
    }
}

/// `s` with `f` applied to every payload.
pub open spec fn map_payload<K, T, U>(s: Seq<(K, T)>, f: spec_fn(T) -> U) -> Seq<(K, U)> {
    s.map_values(|p: (K, T)| (p.0, f(p.1)))
}

proof fn lemma_insert_map_payload<K: Ranked, T, U>(s: Seq<(K, T)>, x: (K, T), f: spec_fn(T) -> U)
    ensures
        insert_ranked(map_payload(s, f), (x.0, f(x.1))) == map_payload(insert_ranked(s, x), f),
    decreases s.len(),
{
    if s.len() > 0 {
        lemma_insert_map_payload(s.drop_last(), x, f);
        assert(map_payload(s, f).drop_last() == map_payload(s.drop_last(), f));
        assert(map_payload(s, f).last() == (s.last().0, f(s.last().1)));
        assert(map_payload(s.push(x), f) == map_payload(s, f).push((x.0, f(x.1))));
        assert(map_payload(insert_ranked(s.drop_last(), x).push(s.last()), f) == map_payload(
            insert_ranked(s.drop_last(), x),
            f,
        ).push((s.last().0, f(s.last().1))));
    } else {
        assert(map_payload(seq![x], f) == seq![(x.0, f(x.1))]);
    }
}

/// Sorting by key commutes with changing payloads.
pub proof fn lemma_sort_map_payload<K: Ranked, T, U>(s: Seq<(K, T)>, f: spec_fn(T) -> U)
    ensures
        sort_ranked(map_payload(s, f)) == map_payload(sort_ranked(s), f),
    decreases s.len(),
{
    if s.len() == 0 {
        assert(map_payload(s, f).len() == 0);
    } else {
        lemma_sort_map_payload(s.drop_last(), f);
        assert(map_payload(s, f).drop_last() == map_payload(s.drop_last(), f));
        assert(map_payload(s, f).last() == (s.last().0, f(s.last().1)));
        lemma_insert_map_payload(sort_ranked(s.drop_last()), s.last(), f);
    }
}

/// Lexicographic order on byte strings.
pub open spec fn bytes_le(a: Seq<u8>, b: Seq<u8>) -> bool
    decreases a.len(),
{
    if a.len() == 0 {
        true
    } else if b.len() == 0 {
        false
    } else if a[0] != b[0] {
        a[0] < b[0]
    } else {
        bytes_le(a.drop_first(), b.drop_first())
    }
}

/// `a` orders before or equal to `b` in `String`'s byte order.
pub open spec fn str_le(a: Seq<char>, b: Seq<char>) -> bool {
    bytes_le(vstd::utf8::encode_utf8(a), vstd::utf8::encode_utf8(b))
}

/// The byte order is total.
pub proof fn lemma_bytes_le_total(a: Seq<u8>, b: Seq<u8>)
    ensures
        bytes_le(a, b) || bytes_le(b, a),
    decreases a.len(),
{
    if a.len() > 0 && b.len() > 0 && a[0] == b[0] {
        lemma_bytes_le_total(a.drop_first(), b.drop_first());
    }
}

/// The byte order is transitive.
pub proof fn lemma_bytes_le_trans(a: Seq<u8>, b: Seq<u8>, c: Seq<u8>)
    requires
        bytes_le(a, b),
        bytes_le(b, c),
    ensures
        bytes_le(a, c),
    decreases a.len(),
{
    if a.len() > 0 && a[0] == b[0] && b[0] == c[0] {
        lemma_bytes_le_trans(a.drop_first(), b.drop_first(), c.drop_first());
    }
}

pub proof fn lemma_str_le_total(a: Seq<char>, b: Seq<char>)
    ensures
        str_le(a, b) || str_le(b, a),
{
    lemma_bytes_le_total(vstd::utf8::encode_utf8(a), vstd::utf8::encode_utf8(b));
}

pub proof fn lemma_str_le_trans(a: Seq<char>, b: Seq<char>, c: Seq<char>)
    requires
        str_le(a, b),
        str_le(b, c),
    ensures
        str_le(a, c),
{
    lemma_bytes_le_trans(vstd::utf8::encode_utf8(a), vstd::utf8::encode_utf8(b), vstd::utf8::encode_utf8(c));
}

proof fn lemma_bytes_le_skip(a: Seq<u8>, b: Seq<u8>, i: int)
    requires
        0 <= i <= a.len(),
        i <= b.len(),
        forall|j: int| 0 <= j < i ==> a[j] == b[j],
    ensures
        bytes_le(a, b) == bytes_le(a.skip(i), b.skip(i)),
    decreases i,
{
    if i > 0 {
        assert(a.skip(1).skip(i - 1) == a.skip(i));
        assert(b.skip(1).skip(i - 1) == b.skip(i));
        assert(a.drop_first() == a.skip(1));
        assert(b.drop_first() == b.skip(1));
        assert(a[0] == b[0]);
        assert(bytes_le(a, b) == bytes_le(a.drop_first(), b.drop_first()));
        assert forall|j: int| 0 <= j < i - 1 implies a.skip(1)[j] == b.skip(1)[j] by {
            assert(a.skip(1)[j] == a[j + 1]);
            assert(b.skip(1)[j] == b[j + 1]);
        }
        lemma_bytes_le_skip(a.skip(1), b.skip(1), i - 1);
    } else {
        assert(a.skip(0) == a);
        assert(b.skip(0) == b);
    }
}

/// Byte-order comparison of two strings.
pub fn string_le(a: &String, b: &String) -> (r: bool)
    ensures
        r == str_le(a@, b@),
{
    let x = a.as_str().as_bytes();
    let y = b.as_str().as_bytes();
    let mut i: usize = 0;
    while i < x.len() && i < y.len()
        invariant
            x@ == vstd::utf8::encode_utf8(a@),
            y@ == vstd::utf8::encode_utf8(b@),
            i <= x@.len(),
            i <= y@.len(),
            forall|j: int| 0 <= j < i ==> x@[j] == y@[j],
        decreases x.len() - i,
    {
        if x[i] != y[i] {
            proof {
                lemma_bytes_le_skip(x@, y@, i as int);
                assert(x@.skip(i as int)[0] == x@[i as int]);
                assert(y@.skip(i as int)[0] == y@[i as int]);
            }
            return x[i] < y[i];
        }
        i = i + 1;
    }
    proof {
        lemma_bytes_le_skip(x@, y@, i as int);
    }
    i == x.len()
}

} // verus!
