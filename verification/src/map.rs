//! A map keyed by text, iterated in key order.
//!
//! Entries are held in a vector sorted by key, so walking it visits keys in the
//! order of `String`'s `Ord`; a key occurs at most once.

use vstd::prelude::*;

use crate::text::{chars_lt, chars_of, lemma_text_lt_asymmetric, lemma_text_lt_irreflexive, lemma_text_lt_total, lemma_text_lt_transitive, text_lt};

verus! {

/// Index of the first entry with key `k`, or -1.
pub open spec fn find<X>(s: Seq<(Seq<char>, X)>, k: Seq<char>) -> int
    decreases s.len(),
{
    if s.len() == 0 {
        -1
    } else if s[0].0 == k {
        0
    } else {
        let r = find(s.drop_first(), k);
        if r < 0 {
            -1
        } else {
            r + 1
        }
    }
}

/// The value under `k`, if any.
pub open spec fn lookup<X>(s: Seq<(Seq<char>, X)>, k: Seq<char>) -> Option<X> {
    let i = find(s, k);
    if i >= 0 {
        Some(s[i].1)
    } else {
        None
    }
}

/// Keys strictly increasing: each occurs once, in `String` order.
pub open spec fn sorted_keys<X>(s: Seq<(Seq<char>, X)>) -> bool {
    forall|i: int, j: int| 0 <= i < j < s.len() ==> text_lt(#[trigger] s[i].0, #[trigger] s[j].0)
}

/// Index of the first entry whose key is not below `k`.
pub open spec fn lower_bound<X>(s: Seq<(Seq<char>, X)>, k: Seq<char>) -> int
    decreases s.len(),
{
    if s.len() == 0 {
        0
    } else if text_lt(s[0].0, k) {
        lower_bound(s.drop_first(), k) + 1
    } else {
        0
    }
}

/// The entries with `k` present: unchanged if it was there, else `k` with
/// `dflt` inserted where the order puts it.
pub open spec fn upsert<X>(s: Seq<(Seq<char>, X)>, k: Seq<char>, dflt: X) -> Seq<(Seq<char>, X)> {
    let p = lower_bound(s, k);
    if p < s.len() && s[p].0 == k {
        s
    } else {
        s.insert(p, (k, dflt))
    }
}

/// The value `upsert` leaves under `k`.
pub open spec fn value_or<X>(s: Seq<(Seq<char>, X)>, k: Seq<char>, dflt: X) -> X {
    match lookup(s, k) {
        Some(v) => v,
        None => dflt,
    }
}

/// The entries with `k` mapped to `v`, wherever it stands.
pub open spec fn put<X>(s: Seq<(Seq<char>, X)>, k: Seq<char>, v: X) -> Seq<(Seq<char>, X)> {
    upsert(s, k, v).update(lower_bound(s, k), (k, v))
}

pub proof fn lemma_find<X>(s: Seq<(Seq<char>, X)>, k: Seq<char>)
    ensures
        -1 <= find(s, k) < s.len(),
        find(s, k) >= 0 ==> s[find(s, k)].0 == k,
        forall|j: int| 0 <= j < s.len() && (find(s, k) < 0 || j < find(s, k)) ==> #[trigger] s[j].0 != k,
    decreases s.len(),
{
    if s.len() > 0 {
        let t = s.drop_first();
        lemma_find(t, k);
        assert forall|j: int| 0 <= j < s.len() && (find(s, k) < 0 || j < find(s, k)) implies #[trigger] s[j].0 != k by {
            if j > 0 {
                assert(s[j] == t[j - 1]);
            }
        }
    }
}

/// In a sorted sequence every key other than `k` found before `lower_bound`
/// is below `k`, and every key after it is above.
pub proof fn lemma_lower_bound<X>(s: Seq<(Seq<char>, X)>, k: Seq<char>)
    requires
        sorted_keys(s),
    ensures
        0 <= lower_bound(s, k) <= s.len(),
        forall|j: int| 0 <= j < lower_bound(s, k) ==> text_lt(#[trigger] s[j].0, k),
        forall|j: int|
            lower_bound(s, k) <= j < s.len() ==> !text_lt(#[trigger] s[j].0, k),
        forall|j: int|
            lower_bound(s, k) < j < s.len() ==> text_lt(k, #[trigger] s[j].0),
        find(s, k) == (if lower_bound(s, k) < s.len() && s[lower_bound(s, k)].0 == k {
            lower_bound(s, k)
        } else {
            -1
        }),
    decreases s.len(),
{
    let p = lower_bound(s, k);
    if s.len() > 0 {
        let t = s.drop_first();
        assert(sorted_keys(t)) by {
            assert forall|i: int, j: int| 0 <= i < j < t.len() implies text_lt(#[trigger] t[i].0, #[trigger] t[j].0) by {
                assert(t[i] == s[i + 1]);
                assert(t[j] == s[j + 1]);
            }
        }
        lemma_lower_bound(t, k);
        let q = lower_bound(t, k);
        if text_lt(s[0].0, k) {
            assert(p == q + 1);
            lemma_text_lt_asymmetric(s[0].0, k);
            assert forall|j: int| 0 <= j < p implies text_lt(#[trigger] s[j].0, k) by {
                if j > 0 {
                    assert(s[j] == t[j - 1]);
                }
            }
            assert forall|j: int| p <= j < s.len() implies !text_lt(#[trigger] s[j].0, k) by {
                assert(s[j] == t[j - 1]);
            }
            assert forall|j: int| p < j < s.len() implies text_lt(k, #[trigger] s[j].0) by {
                assert(s[j] == t[j - 1]);
            }
            if p < s.len() {
                assert(s[p] == t[q]);
            }
        } else {
            assert(p == 0);
            lemma_text_lt_total(s[0].0, k);
            assert forall|j: int| 0 <= j < s.len() implies !text_lt(#[trigger] s[j].0, k) by {
                if j > 0 && text_lt(s[j].0, k) {
                    assert(text_lt(s[0].0, s[j].0));
                    if s[0].0 == k {
                        lemma_text_lt_asymmetric(s[j].0, k);
                    } else {
                        lemma_text_lt_transitive(k, s[0].0, s[j].0);
                        lemma_text_lt_asymmetric(s[j].0, k);
                    }
                }
            }
            assert forall|j: int| 0 < j < s.len() implies text_lt(k, #[trigger] s[j].0) by {
                assert(text_lt(s[0].0, s[j].0));
                if s[0].0 != k {
                    lemma_text_lt_transitive(k, s[0].0, s[j].0);
                }
            }
            if s[0].0 != k {
                lemma_find(s, k);
                assert forall|j: int| 0 <= j < s.len() implies #[trigger] s[j].0 != k by {
                    if j > 0 {
                        assert(text_lt(k, s[j].0));
                        lemma_text_lt_asymmetric(k, s[j].0);
                    }
                }
                if find(s, k) >= 0 {
                    assert(s[find(s, k)].0 == k);
                }
            }
        }
    }
}

/// `upsert` keeps the keys sorted and puts `k` at `lower_bound`; other keys
/// keep their values.
pub proof fn lemma_upsert<X>(s: Seq<(Seq<char>, X)>, k: Seq<char>, dflt: X)
    requires
        sorted_keys(s),
    ensures
        sorted_keys(upsert(s, k, dflt)),
        lower_bound(s, k) < upsert(s, k, dflt).len(),
        upsert(s, k, dflt)[lower_bound(s, k)] == (k, value_or(s, k, dflt)),
        find(upsert(s, k, dflt), k) == lower_bound(s, k),
        forall|k2: Seq<char>| k2 != k ==> lookup(#[trigger] upsert(s, k, dflt), k2) == lookup(s, k2),
{
    let p = lower_bound(s, k);
    lemma_lower_bound(s, k);
    let u = upsert(s, k, dflt);
    let present = p < s.len() && s[p].0 == k;
    if !present {
        assert forall|i: int, j: int| 0 <= i < j < u.len() implies text_lt(#[trigger] u[i].0, #[trigger] u[j].0) by {
            if j < p {
                assert(u[i] == s[i]);
                assert(u[j] == s[j]);
            } else if j == p {
                assert(u[i] == s[i]);
            } else if i < p {
                assert(u[i] == s[i]);
                assert(u[j] == s[j - 1]);
                if j - 1 > p {
                    lemma_text_lt_transitive(s[i].0, k, s[j - 1].0);
                } else {
                    lemma_text_lt_total(s[p].0, k);
                    lemma_text_lt_transitive(s[i].0, k, s[j - 1].0);
                }
            } else if i == p {
                assert(u[j] == s[j - 1]);
                if j - 1 == p {
                    lemma_text_lt_total(s[p].0, k);
                }
            } else {
                assert(u[i] == s[i - 1]);
                assert(u[j] == s[j - 1]);
            }
        }
    }
    assert(u[p].0 == k);
    lemma_lower_bound(u, k);
    let lb = lower_bound(u, k);
    assert forall|j: int| 0 <= j < p implies #[trigger] u[j] == s[j] by {}
    lemma_text_lt_irreflexive(k);
    if lb > p {
        assert(text_lt(u[p].0, k));
    }
    if lb < p {
        assert(u[lb] == s[lb]);
        assert(text_lt(s[lb].0, k));
    }
    assert(lb == p);
    lemma_find(s, k);
    assert forall|k2: Seq<char>| k2 != k implies lookup(#[trigger] upsert(s, k, dflt), k2) == lookup(s, k2) by {
        lemma_find(u, k2);
        lemma_find(s, k2);
        if !present {
            let fu = find(u, k2);
            let fs = find(s, k2);
            if fs >= 0 {
                if fs < p {
                    assert(u[fs] == s[fs]);
                    assert(fu <= fs);
                } else {
                    assert(u[fs + 1] == s[fs]);
                    assert(fu <= fs + 1);
                }
            }
            if fu >= 0 {
                if fu < p {
                    assert(u[fu] == s[fu]);
                    assert(fs <= fu);
                } else if fu > p {
                    assert(u[fu] == s[fu - 1]);
                    assert(fs <= fu - 1);
                }
            }
            if fs >= 0 && fu >= 0 {
                if fs < p {
                    if fu < fs {
                        assert(u[fu] == s[fu]);
                    }
                } else {
                    if fu < fs + 1 && fu != p {
                        if fu < p {
                            assert(u[fu] == s[fu]);
                        } else {
                            assert(u[fu] == s[fu - 1]);
                        }
                    }
                }
            }
        }
    }
}

/// `put` keeps the keys sorted, maps `k` to `v`, and leaves other keys alone.
pub proof fn lemma_put<X>(s: Seq<(Seq<char>, X)>, k: Seq<char>, v: X)
    requires
        sorted_keys(s),
    ensures
        sorted_keys(put(s, k, v)),
        lookup(put(s, k, v), k) == Some(v),
        forall|k2: Seq<char>| k2 != k ==> lookup(#[trigger] put(s, k, v), k2) == lookup(s, k2),
{
    lemma_upsert(s, k, v);
    lemma_lower_bound(s, k);
    let u = upsert(s, k, v);
    let p = lower_bound(s, k);
    let w = put(s, k, v);
    assert(w.len() == u.len());
    assert forall|j: int| 0 <= j < w.len() implies #[trigger] w[j].0 == u[j].0 by {
        if j == p {
            assert(w[j] == (k, v));
        } else {
            assert(w[j] == u[j]);
        }
    }
    assert forall|i: int, j: int| 0 <= i < j < w.len() implies text_lt(#[trigger] w[i].0, #[trigger] w[j].0) by {
        assert(w[i].0 == u[i].0);
        assert(w[j].0 == u[j].0);
    }
    lemma_find(w, k);
    lemma_find(u, k);
    assert forall|k2: Seq<char>| k2 != k implies lookup(#[trigger] put(s, k, v), k2) == lookup(s, k2) by {
        lemma_find(w, k2);
        lemma_find(u, k2);
        assert(lookup(u, k2) == lookup(s, k2));
        let fw = find(w, k2);
        let fu = find(u, k2);
        if fu >= 0 {
            assert(w[fu].0 == u[fu].0);
            if fw >= 0 && fw < fu {
                assert(w[fw].0 == u[fw].0);
            }
            assert(fw == fu);
            assert(fu != p);
            assert(w[fu] == u[fu]);
        } else {
            if fw >= 0 {
                assert(w[fw].0 == u[fw].0);
            }
        }
    }
    let fw = find(w, k);
    assert(w[p] == (k, v));
    assert(w[p].0 == k);
    assert(0 <= p < w.len());
    if fw >= 0 && fw < p {
        assert(w[fw].0 == u[fw].0);
        assert(u[fw].0 != k);
    }
    assert(fw == p);
}

/// Every entry of `put(s, k, v)` is `(k, v)` or an entry of `s`.
pub proof fn lemma_put_entries<X>(s: Seq<(Seq<char>, X)>, k: Seq<char>, v: X)
    requires
        sorted_keys(s),
    ensures
        forall|i: int|
            0 <= i < put(s, k, v).len() ==> #[trigger] put(s, k, v)[i] == (k, v) || s.contains(put(s, k, v)[i]),
{
    lemma_lower_bound(s, k);
    let p = lower_bound(s, k);
    let u = upsert(s, k, v);
    let w = put(s, k, v);
    assert forall|i: int| 0 <= i < w.len() implies #[trigger] w[i] == (k, v) || s.contains(w[i]) by {
        if i != p {
            assert(w[i] == u[i]);
            if p < s.len() && s[p].0 == k {
                assert(s[i] == w[i]);
            } else if i < p {
                assert(s[i] == w[i]);
            } else {
                assert(s[i - 1] == w[i]);
            }
        }
    }
}

/// Setting the value at the slot `upsert` made is `put`.
pub proof fn lemma_upsert_then_set<X>(s: Seq<(Seq<char>, X)>, k: Seq<char>, dflt: X, v: X)
    requires
        sorted_keys(s),
    ensures
        upsert(s, k, dflt).update(lower_bound(s, k), (k, v)) == put(s, k, v),
{
    lemma_lower_bound(s, k);
    assert(upsert(s, k, dflt).update(lower_bound(s, k), (k, v)) =~= put(s, k, v));
}

/// A map from text keys, walked in key order.
#[derive(Debug)]
pub struct StrMap<V> {
    entries: Vec<(String, V)>,
}

impl<V: DeepView> DeepView for StrMap<V> {
    type V = Seq<(Seq<char>, V::V)>;

    closed spec fn deep_view(&self) -> Seq<(Seq<char>, V::V)> {
        self.entries.deep_view()
    }
}

impl<V: DeepView> StrMap<V> {
    /// Keys are in order and unique; every map this crate builds is.
    pub closed spec fn wf(&self) -> bool {
        sorted_keys(self.deep_view())
    }

    pub proof fn lemma_wf(&self)
        ensures
            self.wf() == sorted_keys(self.deep_view()),
    {
    }

    /// An empty map.
    pub fn new() -> (m: Self)
        ensures
            m.deep_view() == Seq::<(Seq<char>, V::V)>::empty(),
            m.wf(),
    {
        let m = StrMap { entries: Vec::new() };
        assert(m.deep_view() =~= Seq::<(Seq<char>, V::V)>::empty());
        m
    }

    /// Number of keys.
    pub fn len(&self) -> (n: usize)
        ensures
            n == self.deep_view().len(),
    {
        self.entries.len()
    }

    /// Whether there are no keys.
    pub fn is_empty(&self) -> (b: bool)
        ensures
            b == (self.deep_view().len() == 0),
    {
        self.entries.len() == 0
    }

    /// The key at position `i` in key order.
    pub fn key_at(&self, i: usize) -> (k: &String)
        requires
            i < self.deep_view().len(),
        ensures
            k@ == self.deep_view()[i as int].0,
    {
        &self.entries[i].0
    }

    /// The value at position `i` in key order.
    pub fn value_at(&self, i: usize) -> (v: &V)
        requires
            i < self.deep_view().len(),
        ensures
            v.deep_view() == self.deep_view()[i as int].1,
    {
        &self.entries[i].1
    }

    /// Position of `key`, if present.
    pub fn position(&self, key: &str) -> (r: Option<usize>)
        ensures
            match r {
                Some(i) => i == find(self.deep_view(), key@) && i < self.deep_view().len(),
                None => find(self.deep_view(), key@) < 0,
            },
    {
        let k = String::from_str(key);
        let mut i: usize = 0;
        proof {
            lemma_find(self.deep_view(), key@);
        }
        while i < self.entries.len()
            invariant
                i <= self.deep_view().len(),
                self.deep_view().len() == self.entries@.len(),
                k@ == key@,
                forall|j: int| 0 <= j < i ==> #[trigger] self.deep_view()[j].0 != key@,
                -1 <= find(self.deep_view(), key@) < self.deep_view().len(),
                find(self.deep_view(), key@) >= 0 ==> self.deep_view()[find(self.deep_view(), key@)].0 == key@,
                forall|j: int| 0 <= j < self.deep_view().len() && (find(self.deep_view(), key@) < 0 || j < find(self.deep_view(), key@)) ==> #[trigger] self.deep_view()[j].0 != key@,
            decreases self.entries@.len() - i,
        {
            assert(self.deep_view()[i as int].0 == self.entries@[i as int].0@);
            if self.entries[i].0 == k {
                return Some(i);
            }
            i = i + 1;
        }
        None
    }

    /// The value under `key`, if present.
    pub fn get(&self, key: &str) -> (r: Option<&V>)
        ensures
            match r {
                Some(v) => lookup(self.deep_view(), key@) == Some(v.deep_view()),
                None => lookup(self.deep_view(), key@) is None,
            },
    {
        match self.position(key) {
            Some(i) => {
                assert(self.deep_view()[i as int].1 == self.entries@[i as int].1.deep_view());
                Some(&self.entries[i].1)
            },
            None => None,
        }
    }

    /// Where `key` stands or would stand: `lower_bound`.
    fn bound(&self, key: &String) -> (i: usize)
        requires
            self.wf(),
        ensures
            i == lower_bound(self.deep_view(), key@),
            i <= self.deep_view().len(),
            i < self.deep_view().len() ==> self.deep_view()[i as int].0 == self.entries@[i as int].0@,
    {
        let ghost s = self.deep_view();
        proof {
            lemma_lower_bound(s, key@);
        }
        let kc = chars_of(key.as_str());
        let mut i: usize = 0;
        while i < self.entries.len()
            invariant
                s == self.deep_view(),
                s.len() == self.entries@.len(),
                kc@ == key@,
                i <= lower_bound(s, key@),
                0 <= lower_bound(s, key@) <= s.len(),
                forall|j: int| lower_bound(s, key@) <= j < s.len() ==> !text_lt(#[trigger] s[j].0, key@),
                forall|j: int| 0 <= j < lower_bound(s, key@) ==> text_lt(#[trigger] s[j].0, key@),
            ensures
                i == lower_bound(s, key@),
            decreases self.entries@.len() - i,
        {
            assert(s[i as int].0 == self.entries@[i as int].0@);
            let ec = chars_of(self.entries[i].0.as_str());
            if !chars_lt(ec.as_slice(), kc.as_slice()) {
                break;
            }
            i = i + 1;
        }
        i
    }

    /// Makes sure `key` is present, inserting it with `dflt` where the key
    /// order puts it, and returns its position.
    pub fn slot(&mut self, key: String, dflt: V) -> (i: usize)
        requires
            old(self).wf(),
        ensures
            final(self).wf(),
            final(self).deep_view() == upsert(old(self).deep_view(), key@, dflt.deep_view()),
            i == lower_bound(old(self).deep_view(), key@),
            i < final(self).deep_view().len(),
    {
        let ghost s = self.deep_view();
        proof {
            lemma_lower_bound(s, key@);
            lemma_upsert(s, key@, dflt.deep_view());
        }
        let i = self.bound(&key);
        if i < self.entries.len() {
            if self.entries[i].0 == key {
                return i;
            }
        }
        let ghost k = key@;
        let ghost d = dflt.deep_view();
        self.entries.insert(i, (key, dflt));
        assert(self.deep_view() =~= s.insert(i as int, (k, d)));
        i
    }

    /// Maps `key` to `value`, replacing any value it had.
    pub fn insert(&mut self, key: String, value: V)
        requires
            old(self).wf(),
        ensures
            final(self).wf(),
            final(self).deep_view() == put(old(self).deep_view(), key@, value.deep_view()),
    {
        let ghost s = self.deep_view();
        let ghost k = key@;
        let ghost v = value.deep_view();
        proof {
            lemma_lower_bound(s, k);
            lemma_put(s, k, v);
        }
        let i = self.bound(&key);
        if i < self.entries.len() && self.entries[i].0 == key {
            self.entries.set(i, (key, value));
            assert(self.deep_view() =~= s.update(i as int, (k, v)));
            assert(put(s, k, v) =~= s.update(i as int, (k, v)));
        } else {
            self.entries.insert(i, (key, value));
            assert(self.deep_view() =~= s.insert(i as int, (k, v)));
            assert(put(s, k, v) =~= s.insert(i as int, (k, v)));
        }
    }

    /// The value at position `i`, to be changed in place.
    pub fn value_mut(&mut self, i: usize) -> (v: &mut V)
        requires
            i < old(self).deep_view().len(),
        ensures
            v.deep_view() == old(self).deep_view()[i as int].1,
            final(self).deep_view() == old(self).deep_view().update(
                i as int,
                (old(self).deep_view()[i as int].0, final(v).deep_view()),
            ),
    {
        &mut self.entries[i].1
    }

    /// Whether `key` is present.
    pub fn contains_key(&self, key: &str) -> (b: bool)
        ensures
            b == (lookup(self.deep_view(), key@) is Some),
    {
        self.position(key).is_some()
    }
}

} // verus!
