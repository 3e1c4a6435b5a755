//! An ordered map keyed by strings: entries are kept in strictly increasing
//! key order, which is the iteration order of a `BTreeMap<String, V>`.

use vstd::prelude::*;
use crate::strings::{lemma_seq_lt_irreflexive, lemma_seq_lt_total, lemma_seq_lt_transitive, seq_lt, str_eq, str_lt};

verus! {

/// A map from strings to values whose entries are sorted by key.
#[derive(Clone, Debug, PartialEq, Eq)]
pub struct StrMap<V> {
    pub entries: Vec<(String, V)>,
}

impl<V> StrMap<V> {
    /// The keys, in iteration order.
    pub open spec fn keys(self) -> Seq<Seq<char>> {
        Seq::new(self.entries@.len(), |i: int| self.entries@[i].0@)
    }

    /// Keys strictly increase along the entries.
    pub open spec fn wf(self) -> bool {
        forall|i: int, j: int|
            0 <= i < j < self.entries@.len() ==> seq_lt(
                #[trigger] self.entries@[i].0@,
                #[trigger] self.entries@[j].0@,
            )
    }

    /// Whether `k` is a key.
    pub open spec fn has(self, k: Seq<char>) -> bool {
        exists|i: int| 0 <= i < self.entries@.len() && #[trigger] self.entries@[i].0@ == k
    }

    /// The position of key `k`.
    pub open spec fn pos(self, k: Seq<char>) -> int {
        choose|i: int| 0 <= i < self.entries@.len() && #[trigger] self.entries@[i].0@ == k
    }

    /// The value stored under `k`, when `k` is a key.
    pub open spec fn get_spec(self, k: Seq<char>) -> Option<V> {
        if self.has(k) {
            Some(self.entries@[self.pos(k)].1)
        } else {
            None
        }
    }

    /// The map as a mathematical map.
    pub open spec fn as_map(self) -> Map<Seq<char>, V> {
        Map::new(|k: Seq<char>| self.has(k), |k: Seq<char>| self.entries@[self.pos(k)].1)
    }

    /// In a well-formed map a key occurs at one position only.
    pub proof fn lemma_unique(self, i: int, j: int)
        requires
            self.wf(),
            0 <= i < self.entries@.len(),
            0 <= j < self.entries@.len(),
            self.entries@[i].0@ == self.entries@[j].0@,
        ensures
            i == j,
    {
        if i < j {
            lemma_seq_lt_irreflexive(self.entries@[i].0@);
        } else if j < i {
            lemma_seq_lt_irreflexive(self.entries@[i].0@);
        }
    }

    /// The entry at position `i` is what the map gives for its key.
    pub proof fn lemma_at(self, i: int)
        requires
            self.wf(),
            0 <= i < self.entries@.len(),
        ensures
            self.has(self.entries@[i].0@),
            self.pos(self.entries@[i].0@) == i,
            self.get_spec(self.entries@[i].0@) == Some(self.entries@[i].1),
            self.as_map().contains_key(self.entries@[i].0@),
            self.as_map()[self.entries@[i].0@] == self.entries@[i].1,
    {
        let k = self.entries@[i].0@;
        assert(self.has(k));
        let p = self.pos(k);
        self.lemma_unique(i, p);
    }

    /// A property holds of every entry's value exactly when it holds of
    /// every value of the map.
    pub proof fn lemma_all_values(self, p: spec_fn(V) -> bool)
        requires
            self.wf(),
        ensures
            (forall|i: int| 0 <= i < self.entries@.len() ==> #[trigger] p(self.entries@[i].1)) <==> (forall|k: Seq<char>|
                #[trigger] self.as_map().contains_key(k) ==> p(self.as_map()[k])),
    {
        if forall|i: int| 0 <= i < self.entries@.len() ==> #[trigger] p(self.entries@[i].1) {
            assert forall|k: Seq<char>| #[trigger] self.as_map().contains_key(k) implies p(self.as_map()[k]) by {
                let i = self.pos(k);
                self.lemma_at(i);
                assert(p(self.entries@[i].1));
            }
        }
        if forall|k: Seq<char>| #[trigger] self.as_map().contains_key(k) ==> p(self.as_map()[k]) {
            assert forall|i: int| 0 <= i < self.entries@.len() implies #[trigger] p(self.entries@[i].1) by {
                self.lemma_at(i);
                assert(p(self.as_map()[self.entries@[i].0@]));
            }
        }
    }

    /// A well-formed map has one key per entry.
    pub proof fn lemma_len(self)
        requires
            self.wf(),
        ensures
            self.as_map().dom().finite(),
            self.as_map().dom().len() == self.entries@.len(),
    {
        let ks = self.keys();
        assert forall|i: int, j: int| 0 <= i < ks.len() && 0 <= j < ks.len() && i != j implies ks[i] != ks[j] by {
            if ks[i] == ks[j] {
                self.lemma_unique(i, j);
            }
        }
        assert(ks.no_duplicates());
        ks.unique_seq_to_set();
        assert forall|k: Seq<char>| self.as_map().dom().contains(k) == ks.to_set().contains(k) by {
            if self.has(k) {
                let i = choose|i: int| 0 <= i < self.entries@.len() && #[trigger] self.entries@[i].0@ == k;
                assert(ks[i] == k);
            }
            if ks.contains(k) {
                let i = choose|i: int| 0 <= i < ks.len() && ks[i] == k;
                assert(self.entries@[i].0@ == k);
            }
        }
        assert(self.as_map().dom() =~= ks.to_set());
        vstd::seq_lib::seq_to_set_is_finite(ks);
    }

    /// An empty map.
    pub fn new() -> (r: Self)
        ensures
            r.wf(),
            r.entries@.len() == 0,
            r.as_map() == Map::<Seq<char>, V>::empty(),
    {
        let r = StrMap { entries: Vec::new() };
        assert(r.as_map() =~= Map::<Seq<char>, V>::empty());
        r
    }

    /// Number of entries.
    pub fn len(&self) -> (r: usize)
        ensures
            r == self.entries@.len(),
    {
        self.entries.len()
    }

    /// The position of `k`, if it is a key.
    pub fn find(&self, k: &str) -> (r: Option<usize>)
        requires
            self.wf(),
        ensures
            r is Some <==> self.has(k@),
            r matches Some(i) ==> i < self.entries@.len() && self.entries@[i as int].0@ == k@
                && self.pos(k@) == i,
    {
        let n = self.entries.len();
        let mut i: usize = 0;
        while i < n
            invariant
                self.wf(),
                n == self.entries@.len(),
                i <= n,
                forall|j: int| 0 <= j < i ==> self.entries@[j].0@ != k@,
            decreases n - i,
        {
            if str_eq(self.entries[i].0.as_str(), k) {
                proof {
                    self.lemma_at(i as int);
                }
                return Some(i);
            }
            i = i + 1;
        }
        None
    }

    /// Whether `k` is a key.
    pub fn contains_key(&self, k: &str) -> (r: bool)
        requires
            self.wf(),
        ensures
            r == self.has(k@),
            r == self.as_map().contains_key(k@),
    {
        self.find(k).is_some()
    }

    /// The value stored under `k`.
    pub fn get(&self, k: &str) -> (r: Option<&V>)
        requires
            self.wf(),
        ensures
            r is Some <==> self.has(k@),
            r matches Some(v) ==> self.get_spec(k@) == Some(*v) && self.as_map()[k@] == *v,
    {
        match self.find(k) {
            Some(i) => Some(&self.entries[i].1),
            None => None,
        }
    }

    /// The first position whose key is not below `k`.
    fn lower_bound(&self, k: &str) -> (r: usize)
        requires
            self.wf(),
        ensures
            r <= self.entries@.len(),
            forall|j: int| 0 <= j < r ==> seq_lt(#[trigger] self.entries@[j].0@, k@),
            r < self.entries@.len() ==> !seq_lt(self.entries@[r as int].0@, k@),
    {
        let n = self.entries.len();
        let mut i: usize = 0;
        while i < n
            invariant
                n == self.entries@.len(),
                i <= n,
                forall|j: int| 0 <= j < i ==> seq_lt(#[trigger] self.entries@[j].0@, k@),
            decreases n - i,
        {
            if !str_lt(self.entries[i].0.as_str(), k) {
                return i;
            }
            i = i + 1;
        }
        n
    }

    /// Stores `v` under `k`, replacing the value an existing key holds.
    pub fn insert(&mut self, k: String, v: V)
        requires
            old(self).wf(),
        ensures
            final(self).wf(),
            final(self).as_map() == old(self).as_map().insert(k@, v),
    {
        let p = self.lower_bound(k.as_str());
        let ghost old_entries = self.entries@;
        let ghost kk = k@;
        if p < self.entries.len() && str_eq(self.entries[p].0.as_str(), k.as_str()) {
            self.entries.set(p, (k, v));
            assert(self.entries@ == old_entries.update(p as int, (self.entries@[p as int].0, v)));
            assert(self.wf()) by {
                assert forall|i: int, j: int| 0 <= i < j < self.entries@.len() implies seq_lt(
                    #[trigger] self.entries@[i].0@,
                    #[trigger] self.entries@[j].0@,
                ) by {
                    assert(old_entries[i].0@ == self.entries@[i].0@);
                    assert(old_entries[j].0@ == self.entries@[j].0@);
                }
            }
        } else {
            proof {
                if p < old_entries.len() {
                    lemma_seq_lt_total(kk, old_entries[p as int].0@);
                }
            }
            self.entries.insert(p, (k, v));
            assert(self.wf()) by {
                assert forall|i: int, j: int| 0 <= i < j < self.entries@.len() implies seq_lt(
                    #[trigger] self.entries@[i].0@,
                    #[trigger] self.entries@[j].0@,
                ) by {
                    if j < p {
                        assert(self.entries@[i] == old_entries[i]);
                        assert(self.entries@[j] == old_entries[j]);
                        assert(seq_lt(old_entries[i].0@, old_entries[j].0@));
                    } else if j == p {
                        assert(self.entries@[i] == old_entries[i]);
                        assert(seq_lt(old_entries[i].0@, kk));
                    } else if i == p {
                        assert(self.entries@[j] == old_entries[j - 1]);
                        assert(seq_lt(kk, old_entries[p as int].0@));
                        if j - 1 > p {
                            assert(seq_lt(old_entries[p as int].0@, old_entries[j - 1].0@));
                            lemma_seq_lt_transitive(kk, old_entries[p as int].0@, old_entries[j - 1].0@);
                        }
                    } else if i < p {
                        assert(self.entries@[i] == old_entries[i]);
                        assert(self.entries@[j] == old_entries[j - 1]);
                    } else {
                        assert(self.entries@[i] == old_entries[i - 1]);
                        assert(self.entries@[j] == old_entries[j - 1]);
                    }
                }
            }
        }
        proof {
            let target = old(self).as_map().insert(kk, v);
            let oldm = *old(self);
            assert forall|q: Seq<char>| #[trigger] self.as_map().contains_key(q) <==> target.contains_key(q) by {
                if self.has(q) {
                    let i = choose|i: int| 0 <= i < self.entries@.len() && #[trigger] self.entries@[i].0@ == q;
                    if q != kk {
                        let oi = if self.entries@.len() == old_entries.len() { i } else if i < p { i } else { i - 1 };
                        assert(old_entries[oi].0@ == q);
                        assert(oldm.has(q));
                    }
                }
                if oldm.has(q) {
                    let oi = choose|i: int| 0 <= i < old_entries.len() && #[trigger] old_entries[i].0@ == q;
                    if self.entries@.len() == old_entries.len() {
                        assert(self.entries@[oi].0@ == q);
                    } else if oi < p {
                        assert(self.entries@[oi].0@ == q);
                    } else {
                        assert(self.entries@[oi + 1].0@ == q);
                    }
                }
                if q == kk {
                    assert(self.entries@[p as int].0@ == kk);
                }
            }
            assert forall|q: Seq<char>| #[trigger] self.as_map().contains_key(q) implies self.as_map()[q] == target[q] by {
                let i = self.pos(q);
                self.lemma_at(i);
                if q == kk {
                    assert(self.entries@[p as int].0@ == kk);
                    self.lemma_unique(i, p as int);
                } else {
                    let oi = if self.entries@.len() == old_entries.len() { i } else if i < p { i } else { i - 1 };
                    assert(old_entries[oi] == self.entries@[i]);
                    oldm.lemma_at(oi);
                }
            }
            assert(self.as_map() =~= target);
        }
    }

    /// Removes the entry of `k`, handing back its value.
    pub fn remove(&mut self, k: &str) -> (r: Option<V>)
        requires
            old(self).wf(),
        ensures
            final(self).wf(),
            final(self).as_map() == old(self).as_map().remove(k@),
            r == old(self).get_spec(k@),
    {
        match self.find(k) {
            None => {
                proof {
                    assert(self.as_map() =~= self.as_map().remove(k@));
                }
                None
            },
            Some(p) => {
                let ghost old_entries = self.entries@;
                let ghost oldm = *old(self);
                let e = self.entries.remove(p);
                proof {
                    assert(self.wf()) by {
                        assert forall|i: int, j: int| 0 <= i < j < self.entries@.len() implies seq_lt(
                            #[trigger] self.entries@[i].0@,
                            #[trigger] self.entries@[j].0@,
                        ) by {
                            let oi = if i < p { i } else { i + 1 };
                            let oj = if j < p { j } else { j + 1 };
                            assert(self.entries@[i] == old_entries[oi]);
                            assert(self.entries@[j] == old_entries[oj]);
                        }
                    }
                    let target = oldm.as_map().remove(k@);
                    assert forall|q: Seq<char>| #[trigger] self.as_map().contains_key(q) <==> target.contains_key(q) by {
                        if self.has(q) {
                            let i = choose|i: int| 0 <= i < self.entries@.len() && #[trigger] self.entries@[i].0@ == q;
                            let oi = if i < p { i } else { i + 1 };
                            assert(old_entries[oi].0@ == q);
                            if q == k@ {
                                oldm.lemma_unique(oi, p as int);
                            }
                        }
                        if oldm.has(q) && q != k@ {
                            let oi = choose|i: int| 0 <= i < old_entries.len() && #[trigger] old_entries[i].0@ == q;
                            if oi < p {
                                assert(self.entries@[oi].0@ == q);
                            } else {
                                assert(oi != p);
                                assert(self.entries@[oi - 1].0@ == q);
                            }
                        }
                    }
                    assert forall|q: Seq<char>| #[trigger] self.as_map().contains_key(q) implies self.as_map()[q] == target[q] by {
                        let i = self.pos(q);
                        self.lemma_at(i);
                        let oi = if i < p { i } else { i + 1 };
                        assert(old_entries[oi] == self.entries@[i]);
                        oldm.lemma_at(oi);
                    }
                    assert(self.as_map() =~= target);
                }
                Some(e.1)
            },
        }
    }
}

} // verus!
