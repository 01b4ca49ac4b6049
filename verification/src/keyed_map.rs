//! An ordered map from string keys to values: entries are kept sorted by
//! key in the lexicographic order of strings, so that iteration visits the
//! keys in ascending order and every key occurs once.

use vstd::prelude::*;
use crate::text::{seq_lt, str_eq, str_lt, lemma_seq_lt_irreflexive, lemma_seq_lt_trichotomy, lemma_seq_lt_transitive};

verus! {

pub open spec fn keys_sorted(ks: Seq<Seq<char>>) -> bool {
    forall|i: int, j: int| 0 <= i < j < ks.len() ==> seq_lt(#[trigger] ks[i], #[trigger] ks[j])
}

#[derive(Debug, PartialEq)]
pub struct KeyedMap<V> {
    entries: Vec<(String, V)>,
}

impl<V> KeyedMap<V> {
    /// The entries in iteration (ascending key) order.
    pub closed spec fn entry_seq(&self) -> Seq<(String, V)> {
        self.entries@
    }

    /// The keys in iteration order.
    pub open spec fn key_seq(&self) -> Seq<Seq<char>> {
        self.entry_seq().map_values(|e: (String, V)| e.0@)
    }

    pub open spec fn has(&self, k: Seq<char>) -> bool {
        self.key_seq().contains(k)
    }

    /// The value stored under `k` (meaningful when `self.has(k)`).
    pub open spec fn at(&self, k: Seq<char>) -> V {
        self.entry_seq()[self.key_seq().index_of(k)].1
    }

    #[verifier::type_invariant]
    closed spec fn inv(&self) -> bool {
        keys_sorted(self.key_seq())
    }

    pub fn new() -> (res: Self)
        ensures
            res.entry_seq() == Seq::<(String, V)>::empty(),
    {
        KeyedMap { entries: Vec::new() }
    }

    pub fn len(&self) -> (res: usize)
        ensures
            res == self.entry_seq().len(),
    {
        self.entries.len()
    }

    /// Keys are strictly ascending, hence pairwise distinct.
    pub fn lemma_sorted(&self)
        ensures
            keys_sorted(self.key_seq()),
    {
        proof {
            use_type_invariant(self);
        }
    }

    /// The number of entries is the number of distinct keys.
    pub fn lemma_len(&self)
        ensures
            self.key_seq().to_set() == Set::new(|k: Seq<char>| self.has(k)),
            self.key_seq().to_set().finite(),
            self.key_seq().to_set().len() == self.key_seq().len(),
    {
        proof {
            use_type_invariant(self);
            let ks = self.key_seq();
            assert forall|i: int, j: int| 0 <= i < ks.len() && 0 <= j < ks.len() && i != j implies ks[i] != ks[j] by {
                lemma_seq_lt_irreflexive(ks[i]);
                if i < j {
                    assert(seq_lt(ks[i], ks[j]));
                } else {
                    assert(seq_lt(ks[j], ks[i]));
                }
            }
            assert(ks.no_duplicates());
            ks.unique_seq_to_set();
            assert(ks.to_set() =~= Set::new(|k: Seq<char>| self.has(k)));
            vstd::seq_lib::seq_to_set_is_finite(ks);
        }
    }

    pub fn key_at(&self, i: usize) -> (res: &String)
        requires
            i < self.entry_seq().len(),
        ensures
            *res == self.entry_seq()[i as int].0,
    {
        &self.entries[i].0
    }

    pub fn value_at(&self, i: usize) -> (res: &V)
        requires
            i < self.entry_seq().len(),
        ensures
            *res == self.entry_seq()[i as int].1,
    {
        &self.entries[i].1
    }

    /// The keys in ascending order.
    pub fn keys(&self) -> (res: Vec<String>)
        ensures
            crate::text::string_views(res@) == self.key_seq(),
    {
        let mut res: Vec<String> = Vec::new();
        for i in 0..self.entries.len()
            invariant
                res.len() == i,
                self.entries@ == self.entry_seq(),
                forall|j: int| 0 <= j < i ==> #[trigger] res@[j]@ == self.key_seq()[j],
        {
            res.push(self.entries[i].0.clone());
        }
        assert(crate::text::string_views(res@) =~= self.key_seq());
        res
    }

    /// Position of `k`, if present.
    pub fn find(&self, k: &str) -> (res: Option<usize>)
        ensures
            match res {
                Some(i) => i < self.entry_seq().len() && self.key_seq()[i as int] == k@
                    && self.key_seq().index_of(k@) == i,
                None => !self.has(k@),
            },
    {
        proof {
            use_type_invariant(self);
        }
        let mut i: usize = 0;
        while i < self.entries.len()
            invariant
                i <= self.entries@.len(),
                self.entries@ == self.entry_seq(),
                keys_sorted(self.key_seq()),
                forall|j: int| 0 <= j < i ==> self.key_seq()[j] != k@,
            decreases self.entries.len() - i,
        {
            if str_eq(self.entries[i].0.as_str(), k) {
                proof {
                    assert(self.key_seq()[i as int] == k@);
                    assert(self.key_seq().contains(k@));
                    let ix = self.key_seq().index_of(k@);
                    assert(keys_sorted(self.key_seq()));
                    assert(0 <= ix < self.key_seq().len());
                    lemma_seq_lt_irreflexive(k@);
                    if ix < i {
                        assert(seq_lt(self.key_seq()[ix], self.key_seq()[i as int]));
                    } else if ix > i {
                        assert(seq_lt(self.key_seq()[i as int], self.key_seq()[ix]));
                    }
                }
                return Some(i);
            }
            i += 1;
        }
        proof {
            if self.key_seq().contains(k@) {
                let ix = self.key_seq().index_of(k@);
                assert(self.key_seq()[ix] == k@);
            }
        }
        None
    }

    pub fn contains_key(&self, k: &str) -> (res: bool)
        ensures
            res == self.has(k@),
    {
        self.find(k).is_some()
    }

    pub fn get(&self, k: &str) -> (res: Option<&V>)
        ensures
            match res {
                Some(v) => self.has(k@) && *v == self.at(k@),
                None => !self.has(k@),
            },
    {
        match self.find(k) {
            Some(i) => Some(&self.entries[i].1),
            None => None,
        }
    }

    /// Stores `v` under `k`, replacing a value stored there before. A new
    /// key is placed at its position in the key order.
    pub fn insert(&mut self, k: String, v: V)
        ensures
            final(self).has(k@),
            final(self).at(k@) == v,
            forall|q: Seq<char>| q != k@ ==> (final(self).has(q) == old(self).has(q)),
            forall|q: Seq<char>| q != k@ && #[trigger] old(self).has(q) ==> final(self).at(q) == old(self).at(q),
            old(self).has(k@) ==> final(self).entry_seq().len() == old(self).entry_seq().len(),
            !old(self).has(k@) ==> final(self).entry_seq().len() == old(self).entry_seq().len() + 1,
    {
        proof {
            use_type_invariant(&*self);
        }
        let ghost ks = self.key_seq();
        // find the first position whose key is not below `k`
        let mut i: usize = 0;
        while i < self.entries.len() && str_lt(self.entries[i].0.as_str(), k.as_str())
            invariant
                i <= self.entries@.len(),
                self.entries@ == old(self).entries@,
                ks == self.key_seq(),
                keys_sorted(ks),
                forall|j: int| 0 <= j < i ==> seq_lt(#[trigger] ks[j], k@),
            decreases self.entries.len() - i,
        {
            i += 1;
        }
        let found = i < self.entries.len() && str_eq(self.entries[i].0.as_str(), k.as_str());
        let mut entries: Vec<(String, V)> = Vec::new();
        std::mem::swap(&mut entries, &mut self.entries);
        if found {
            entries.set(i, (k, v));
            proof {
                let nks = entries@.map_values(|e: (String, V)| e.0@);
                assert(ks[i as int] == k@);
                assert(nks =~= ks.update(i as int, k@));
                assert(ks.update(i as int, k@) =~= ks);
                assert(keys_sorted(nks));
                assert(ks.contains(k@));
            }
            self.entries = entries;
            proof {
                let nks = self.key_seq();
                assert(nks[i as int] == k@);
                lemma_seq_lt_irreflexive(k@);
                assert forall|j: int| 0 <= j < nks.len() && j != i implies nks[j] != k@ by {
                    if j < i {
                        assert(seq_lt(nks[j], nks[i as int]));
                    } else {
                        assert(seq_lt(nks[i as int], nks[j]));
                    }
                }
                assert(nks.index_of(k@) == i);
                assert forall|q: Seq<char>| q != k@ implies (self.has(q) == old(self).has(q)) by {
                    if self.has(q) {
                        let a = nks.index_of(q);
                        assert(ks[a] == q);
                    }
                    if old(self).has(q) {
                        let a = ks.index_of(q);
                        assert(a != i);
                        assert(nks[a] == q);
                    }
                }
                assert forall|q: Seq<char>| q != k@ && #[trigger] old(self).has(q) implies self.at(q)
                    == old(self).at(q) by {
                    let a = ks.index_of(q);
                    assert(nks[a] == q);
                    lemma_index_of_unique(nks, q, a);
                }
            }
        } else {
            entries.insert(i, (k, v));
            proof {
                let nks = entries@.map_values(|e: (String, V)| e.0@);
                assert(nks =~= ks.insert(i as int, k@));
                if i < ks.len() {
                    lemma_seq_lt_trichotomy(ks[i as int], k@);
                    assert(seq_lt(k@, ks[i as int]));
                }
                assert forall|a: int, b: int| 0 <= a < b < nks.len() implies seq_lt(
                    #[trigger] nks[a],
                    #[trigger] nks[b],
                ) by {
                    if b < i {
                    } else if b == i {
                    } else if a == i {
                        if b > i + 1 {
                            lemma_seq_lt_transitive(k@, ks[i as int], ks[b - 1]);
                        }
                    } else if a < i {
                        if b - 1 > i {
                            lemma_seq_lt_transitive(k@, ks[i as int], ks[b - 1]);
                        }
                        lemma_seq_lt_transitive(ks[a], k@, ks[b - 1]);
                    } else {
                    }
                }
                assert(keys_sorted(nks));
            }
            self.entries = entries;
            proof {
                let nks = self.key_seq();
                assert(!ks.contains(k@)) by {
                    if ks.contains(k@) {
                        let a = ks.index_of(k@);
                        lemma_seq_lt_irreflexive(k@);
                        if a < i {
                            assert(seq_lt(ks[a], k@));
                        } else {
                            assert(seq_lt(k@, ks[i as int]));
                            if a > i {
                                lemma_seq_lt_transitive(k@, ks[i as int], ks[a]);
                            }
                        }
                    }
                }
                assert(nks[i as int] == k@);
                lemma_index_of_unique(nks, k@, i as int);
                assert forall|q: Seq<char>| q != k@ implies (self.has(q) == old(self).has(q)) by {
                    if self.has(q) {
                        let a = nks.index_of(q);
                        if a < i {
                            assert(ks[a] == q);
                        } else {
                            assert(ks[a - 1] == q);
                        }
                    }
                    if old(self).has(q) {
                        let a = ks.index_of(q);
                        if a < i {
                            assert(nks[a] == q);
                        } else {
                            assert(nks[a + 1] == q);
                        }
                    }
                }
                assert forall|q: Seq<char>| q != k@ && #[trigger] old(self).has(q) implies self.at(q)
                    == old(self).at(q) by {
                    let a = ks.index_of(q);
                    lemma_index_of_unique(ks, q, a);
                    if a < i {
                        lemma_index_of_unique(nks, q, a);
                    } else {
                        lemma_index_of_unique(nks, q, a + 1);
                    }
                }
            }
        }
    }
}

/// In a strictly sorted key sequence the position of a key is unique.
pub proof fn lemma_index_of_unique(ks: Seq<Seq<char>>, k: Seq<char>, i: int)
    requires
        keys_sorted(ks),
        0 <= i < ks.len(),
        ks[i] == k,
    ensures
        ks.contains(k),
        ks.index_of(k) == i,
{
    assert(ks.contains(k));
    let a = ks.index_of(k);
    lemma_seq_lt_irreflexive(k);
    if a < i {
        assert(seq_lt(ks[a], ks[i]));
    } else if a > i {
        assert(seq_lt(ks[i], ks[a]));
    }
}

impl<V: View> KeyedMap<V> {
    /// The map from keys to the views of the values.
    pub open spec fn deep(&self) -> Map<Seq<char>, V::V> {
        Map::new(|k: Seq<char>| self.has(k), |k: Seq<char>| self.at(k)@)
    }
}

/// What `insert` states, read on the maps of views.
pub proof fn lemma_deep_insert<V: View>(before: KeyedMap<V>, after: KeyedMap<V>, k: Seq<char>, v: V)
    requires
        after.has(k),
        after.at(k) == v,
        forall|q: Seq<char>| q != k ==> (after.has(q) == before.has(q)),
        forall|q: Seq<char>| q != k && #[trigger] before.has(q) ==> after.at(q) == before.at(q),
    ensures
        after.deep() == before.deep().insert(k, v@),
{
    assert(after.deep() =~= before.deep().insert(k, v@));
}

/// Two strictly ascending key sequences with the same elements are equal.
pub proof fn lemma_sorted_unique(a: Seq<Seq<char>>, b: Seq<Seq<char>>)
    requires
        keys_sorted(a),
        keys_sorted(b),
        forall|x: Seq<char>| a.contains(x) <==> b.contains(x),
    ensures
        a == b,
    decreases a.len(),
{
    if a.len() == 0 {
        if b.len() > 0 {
            assert(b.contains(b[0]));
        }
        assert(b =~= a);
    } else if b.len() == 0 {
        assert(a.contains(a[0]));
    } else {
        assert(a.contains(a[0]));
        assert(b.contains(b[0]));
        let j = b.index_of(a[0]);
        let k = a.index_of(b[0]);
        lemma_seq_lt_irreflexive(a[0]);
        lemma_seq_lt_irreflexive(b[0]);
        if j > 0 {
            assert(seq_lt(b[0], b[j]));
            if k > 0 {
                assert(seq_lt(a[0], a[k]));
                lemma_seq_lt_trichotomy(a[0], b[0]);
            }
        }
        assert(a[0] == b[0]);
        let a1 = a.drop_first();
        let b1 = b.drop_first();
        assert forall|x: Seq<char>| a1.contains(x) <==> b1.contains(x) by {
            if a1.contains(x) {
                let i = a1.index_of(x);
                assert(a[i + 1] == x);
                assert(seq_lt(a[0], x));
                assert(x != a[0]);
                assert(b.contains(x));
                let m = b.index_of(x);
                assert(m != 0);
                assert(b1[m - 1] == x);
            }
            if b1.contains(x) {
                let i = b1.index_of(x);
                assert(b[i + 1] == x);
                assert(seq_lt(b[0], x));
                assert(x != b[0]);
                assert(a.contains(x));
                let m = a.index_of(x);
                assert(m != 0);
                assert(a1[m - 1] == x);
            }
        }
        assert(keys_sorted(a1));
        assert(keys_sorted(b1));
        lemma_sorted_unique(a1, b1);
        assert(a =~= seq![a[0]] + a1);
        assert(b =~= seq![b[0]] + b1);
    }
}

/// The elements of `s` in ascending order, each once.
pub open spec fn sorted_elements(s: Set<Seq<char>>) -> Seq<Seq<char>> {
    choose|q: Seq<Seq<char>>| keys_sorted(q) && forall|x: Seq<char>| q.contains(x) <==> s.contains(x)
}

/// A strictly ascending sequence is the ascending sequence of its elements.
pub proof fn lemma_sorted_elements(q: Seq<Seq<char>>, s: Set<Seq<char>>)
    requires
        keys_sorted(q),
        forall|x: Seq<char>| q.contains(x) <==> s.contains(x),
    ensures
        sorted_elements(s) == q,
{
    let r = sorted_elements(s);
    assert(keys_sorted(r) && forall|x: Seq<char>| r.contains(x) <==> s.contains(x));
    lemma_sorted_unique(r, q);
}

/// `x` put into the strictly ascending `q` before the first element above it.
pub open spec fn sorted_insert(q: Seq<Seq<char>>, x: Seq<char>) -> Seq<Seq<char>>
    decreases q.len(),
{
    if q.len() == 0 {
        seq![x]
    } else if seq_lt(x, q[0]) {
        seq![x] + q
    } else {
        seq![q[0]] + sorted_insert(q.drop_first(), x)
    }
}

pub proof fn lemma_sorted_insert(q: Seq<Seq<char>>, x: Seq<char>)
    requires
        keys_sorted(q),
        !q.contains(x),
    ensures
        keys_sorted(sorted_insert(q, x)),
        forall|y: Seq<char>| #[trigger] sorted_insert(q, x).contains(y) <==> q.contains(y) || y == x,
    decreases q.len(),
{
    let r = sorted_insert(q, x);
    if q.len() == 0 {
        assert forall|y: Seq<char>| #[trigger] r.contains(y) <==> q.contains(y) || y == x by {
            if y == x {
                assert(r[0] == x);
            }
        }
    } else if seq_lt(x, q[0]) {
        assert forall|i: int, j: int| 0 <= i < j < r.len() implies seq_lt(#[trigger] r[i], #[trigger] r[j]) by {
            if i == 0 {
                if j > 1 {
                    assert(seq_lt(q[0], q[j - 1]));
                    lemma_seq_lt_transitive(x, q[0], q[j - 1]);
                }
            } else {
                assert(r[i] == q[i - 1] && r[j] == q[j - 1]);
            }
        }
        assert forall|y: Seq<char>| #[trigger] r.contains(y) <==> q.contains(y) || y == x by {
            if r.contains(y) {
                let k = r.index_of(y);
                if k > 0 {
                    assert(q[k - 1] == y);
                }
            }
            if q.contains(y) {
                let k = q.index_of(y);
                assert(r[k + 1] == y);
            }
            if y == x {
                assert(r[0] == x);
            }
        }
    } else {
        let t = q.drop_first();
        assert(!t.contains(x)) by {
            if t.contains(x) {
                let k = t.index_of(x);
                assert(q[k + 1] == x);
            }
        }
        assert(keys_sorted(t)) by {
            assert forall|i: int, j: int| 0 <= i < j < t.len() implies seq_lt(#[trigger] t[i], #[trigger] t[j]) by {
                assert(t[i] == q[i + 1] && t[j] == q[j + 1]);
            }
        }
        lemma_sorted_insert(t, x);
        let rr = sorted_insert(t, x);
        assert(r == seq![q[0]] + rr);
        assert(q[0] != x) by {
            if q[0] == x {
                assert(q.contains(x));
            }
        }
        lemma_seq_lt_trichotomy(x, q[0]);
        assert forall|i: int, j: int| 0 <= i < j < r.len() implies seq_lt(#[trigger] r[i], #[trigger] r[j]) by {
            if i == 0 {
                let y = rr[j - 1];
                assert(r[j] == y);
                assert(rr.contains(y));
                if y != x {
                    assert(t.contains(y));
                    let k = t.index_of(y);
                    assert(q[k + 1] == y);
                }
            } else {
                assert(r[i] == rr[i - 1] && r[j] == rr[j - 1]);
            }
        }
        assert forall|y: Seq<char>| #[trigger] r.contains(y) <==> q.contains(y) || y == x by {
            if r.contains(y) {
                let k = r.index_of(y);
                if k > 0 {
                    assert(rr[k - 1] == y);
                    assert(rr.contains(y));
                    if y != x {
                        let m = t.index_of(y);
                        assert(q[m + 1] == y);
                    }
                }
            }
            if q.contains(y) {
                let k = q.index_of(y);
                if k == 0 {
                    assert(r[0] == y);
                } else {
                    assert(t[k - 1] == y);
                    assert(rr.contains(y));
                    let m = rr.index_of(y);
                    assert(r[m + 1] == y);
                }
            }
            if y == x {
                assert(rr.contains(x));
                let m = rr.index_of(x);
                assert(r[m + 1] == x);
            }
        }
    }
}

/// A finite set of strings has an ascending sequence of its elements.
pub proof fn lemma_sorted_elements_exist(s: Set<Seq<char>>)
    requires
        s.finite(),
    ensures
        keys_sorted(sorted_elements(s)),
        forall|x: Seq<char>| #[trigger] sorted_elements(s).contains(x) <==> s.contains(x),
    decreases s.len(),
{
    if s.len() == 0 {
        vstd::set_lib::lemma_set_empty_equivalency_len(s);
        let q = Seq::<Seq<char>>::empty();
        assert(keys_sorted(q));
        assert forall|x: Seq<char>| q.contains(x) <==> s.contains(x) by {}
    } else {
        let x = s.choose();
        assert(s.contains(x));
        let r = s.remove(x);
        lemma_sorted_elements_exist(r);
        let q = sorted_elements(r);
        assert(!q.contains(x));
        lemma_sorted_insert(q, x);
        let q2 = sorted_insert(q, x);
        assert forall|y: Seq<char>| q2.contains(y) <==> s.contains(y) by {}
    }
}


} // verus!
