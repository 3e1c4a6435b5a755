//! An ordered set of strings: items are kept in strictly increasing order,
//! which is the iteration order of a `BTreeSet<String>`.

use vstd::prelude::*;
use crate::strings::{lemma_seq_lt_asymmetric, lemma_seq_lt_irreflexive, lemma_seq_lt_total, lemma_seq_lt_transitive, seq_lt, str_eq, str_lt};

verus! {

/// A set of strings whose items are sorted.
#[derive(Clone, Debug, PartialEq, Eq)]
pub struct StrSet {
    pub items: Vec<String>,
}

impl StrSet {
    /// The items' characters, in iteration order.
    pub open spec fn seq(self) -> Seq<Seq<char>> {
        Seq::new(self.items@.len(), |i: int| self.items@[i]@)
    }

    /// Items strictly increase.
    pub open spec fn wf(self) -> bool {
        forall|i: int, j: int|
            0 <= i < j < self.items@.len() ==> seq_lt(
                #[trigger] self.items@[i]@,
                #[trigger] self.items@[j]@,
            )
    }

    /// The items as a mathematical set.
    pub open spec fn as_set(self) -> Set<Seq<char>> {
        Set::new(|k: Seq<char>| exists|i: int| 0 <= i < self.items@.len() && #[trigger] self.items@[i]@ == k)
    }

    /// An empty set.
    pub fn new() -> (r: Self)
        ensures
            r.wf(),
            r.items@.len() == 0,
            r.as_set() == Set::<Seq<char>>::empty(),
    {
        let r = StrSet { items: Vec::new() };
        assert(r.as_set() =~= Set::<Seq<char>>::empty());
        r
    }

    /// Number of items.
    pub fn len(&self) -> (r: usize)
        ensures
            r == self.items@.len(),
    {
        self.items.len()
    }

    /// Whether `k` is in the set.
    pub fn contains(&self, k: &str) -> (r: bool)
        ensures
            r == self.as_set().contains(k@),
    {
        let n = self.items.len();
        let mut i: usize = 0;
        while i < n
            invariant
                n == self.items@.len(),
                i <= n,
                forall|j: int| 0 <= j < i ==> self.items@[j]@ != k@,
            decreases n - i,
        {
            if str_eq(self.items[i].as_str(), k) {
                return true;
            }
            i = i + 1;
        }
        false
    }

    /// The first position whose item is not below `k`.
    fn lower_bound(&self, k: &str) -> (r: usize)
        ensures
            r <= self.items@.len(),
            forall|j: int| 0 <= j < r ==> seq_lt(#[trigger] self.items@[j]@, k@),
            r < self.items@.len() ==> !seq_lt(self.items@[r as int]@, k@),
    {
        let n = self.items.len();
        let mut i: usize = 0;
        while i < n
            invariant
                n == self.items@.len(),
                i <= n,
                forall|j: int| 0 <= j < i ==> seq_lt(#[trigger] self.items@[j]@, k@),
            decreases n - i,
        {
            if !str_lt(self.items[i].as_str(), k) {
                return i;
            }
            i = i + 1;
        }
        n
    }

    /// The position of `k`, or the length when `k` is absent.
    fn position(&self, k: &str) -> (r: usize)
        ensures
            r <= self.items@.len(),
            forall|j: int| 0 <= j < r ==> self.items@[j]@ != k@,
            r < self.items@.len() ==> self.items@[r as int]@ == k@,
    {
        let n = self.items.len();
        let mut i: usize = 0;
        while i < n
            invariant
                n == self.items@.len(),
                i <= n,
                forall|j: int| 0 <= j < i ==> self.items@[j]@ != k@,
            decreases n - i,
        {
            if str_eq(self.items[i].as_str(), k) {
                return i;
            }
            i = i + 1;
        }
        n
    }

    /// Adds `k` to the set.
    pub fn insert(&mut self, k: String)
        requires
            old(self).wf(),
        ensures
            final(self).wf(),
            final(self).as_set() == old(self).as_set().insert(k@),
    {
        let n = self.items.len();
        let p = self.lower_bound(k.as_str());
        let ghost old_items = self.items@;
        let ghost kk = k@;
        if p < n && str_eq(self.items[p].as_str(), k.as_str()) {
            assert(self.as_set() =~= self.as_set().insert(kk)) by {
                assert(self.items@[p as int]@ == kk);
            }
            return;
        }
        proof {
            if p < n {
                lemma_seq_lt_total(kk, old_items[p as int]@);
            }
        }
        self.items.insert(p, k);
        assert(self.wf()) by {
            assert forall|i: int, j: int| 0 <= i < j < self.items@.len() implies seq_lt(
                #[trigger] self.items@[i]@,
                #[trigger] self.items@[j]@,
            ) by {
                if j < p {
                    assert(self.items@[i] == old_items[i]);
                    assert(self.items@[j] == old_items[j]);
                    assert(seq_lt(old_items[i]@, old_items[j]@));
                } else if j == p {
                    assert(self.items@[i] == old_items[i]);
                    assert(seq_lt(old_items[i]@, kk));
                } else if i == p {
                    assert(self.items@[j] == old_items[j - 1]);
                    assert(seq_lt(kk, old_items[p as int]@));
                    if j - 1 > p {
                        assert(seq_lt(old_items[p as int]@, old_items[j - 1]@));
                        lemma_seq_lt_transitive(kk, old_items[p as int]@, old_items[j - 1]@);
                    }
                } else if i < p {
                    assert(self.items@[i] == old_items[i]);
                    assert(self.items@[j] == old_items[j - 1]);
                    assert(seq_lt(old_items[i]@, old_items[j - 1]@));
                } else {
                    assert(self.items@[i] == old_items[i - 1]);
                    assert(self.items@[j] == old_items[j - 1]);
                    assert(seq_lt(old_items[i - 1]@, old_items[j - 1]@));
                }
            }
        }
        assert forall|q: Seq<char>| #[trigger] self.as_set().contains(q) <==> old(self).as_set().insert(kk).contains(q) by {
            if self.as_set().contains(q) {
                let i = choose|i: int| 0 <= i < self.items@.len() && #[trigger] self.items@[i]@ == q;
                if i < p {
                    assert(old_items[i]@ == q);
                } else if i > p {
                    assert(old_items[i - 1]@ == q);
                }
            }
            if old(self).as_set().contains(q) {
                let i = choose|i: int| 0 <= i < old_items.len() && #[trigger] old_items[i]@ == q;
                if i < p {
                    assert(self.items@[i]@ == q);
                } else {
                    assert(self.items@[i + 1]@ == q);
                }
            }
            if q == kk {
                assert(self.items@[p as int]@ == kk);
            }
        }
        assert(self.as_set() =~= old(self).as_set().insert(kk));
    }

    /// Removes `k` from the set.
    pub fn remove(&mut self, k: &str)
        requires
            old(self).wf(),
        ensures
            final(self).wf(),
            final(self).as_set() == old(self).as_set().remove(k@),
    {
        let n = self.items.len();
        let p = self.position(k);
        if p == n {
            assert(self.as_set() =~= self.as_set().remove(k@));
            return;
        }
        let ghost old_items = self.items@;
        self.items.remove(p);
        assert(self.wf()) by {
            assert forall|i: int, j: int| 0 <= i < j < self.items@.len() implies seq_lt(
                #[trigger] self.items@[i]@,
                #[trigger] self.items@[j]@,
            ) by {
                let oi = if i < p { i } else { i + 1 };
                let oj = if j < p { j } else { j + 1 };
                assert(self.items@[i] == old_items[oi]);
                assert(self.items@[j] == old_items[oj]);
                assert(seq_lt(old_items[oi]@, old_items[oj]@));
            }
        }
        assert forall|q: Seq<char>| #[trigger] self.as_set().contains(q) <==> old(self).as_set().remove(k@).contains(q) by {
            if self.as_set().contains(q) {
                let i = choose|i: int| 0 <= i < self.items@.len() && #[trigger] self.items@[i]@ == q;
                let oi = if i < p { i } else { i + 1 };
                assert(old_items[oi]@ == q);
                if q == k@ {
                    if oi < p {
                        assert(seq_lt(old_items[oi]@, old_items[p as int]@));
                    } else {
                        assert(seq_lt(old_items[p as int]@, old_items[oi]@));
                    }
                    lemma_seq_lt_irreflexive(q);
                }
            }
            if old(self).as_set().contains(q) && q != k@ {
                let i = choose|i: int| 0 <= i < old_items.len() && #[trigger] old_items[i]@ == q;
                if i < p {
                    assert(self.items@[i]@ == q);
                } else {
                    assert(self.items@[i - 1]@ == q);
                }
            }
        }
        assert(self.as_set() =~= old(self).as_set().remove(k@));
    }

    /// Adds every item of `other`.
    pub fn extend(&mut self, other: &StrSet)
        requires
            old(self).wf(),
        ensures
            final(self).wf(),
            final(self).as_set() == old(self).as_set().union(other.as_set()),
    {
        let n = other.items.len();
        let mut i: usize = 0;
        while i < n
            invariant
                n == other.items@.len(),
                i <= n,
                self.wf(),
                self.as_set() == old(self).as_set().union(
                    Set::new(|k: Seq<char>| exists|j: int| 0 <= j < i && #[trigger] other.items@[j]@ == k),
                ),
            decreases n - i,
        {
            let ghost before = self.as_set();
            self.insert(crate::strings::copy_str(other.items[i].as_str()));
            proof {
                let s1 = Set::new(|k: Seq<char>| exists|j: int| 0 <= j < i && #[trigger] other.items@[j]@ == k);
                let s2 = Set::new(|k: Seq<char>| exists|j: int| 0 <= j < i + 1 && #[trigger] other.items@[j]@ == k);
                assert(s2 =~= s1.insert(other.items@[i as int]@)) by {
                    assert forall|k: Seq<char>| s2.contains(k) implies #[trigger] s1.insert(other.items@[i as int]@).contains(k) by {
                        let j = choose|j: int| 0 <= j < i + 1 && #[trigger] other.items@[j]@ == k;
                        if j < i {
                            assert(s1.contains(k));
                        }
                    }
                    assert forall|k: Seq<char>| #[trigger] s1.insert(other.items@[i as int]@).contains(k) implies s2.contains(k) by {
                        if s1.contains(k) {
                            let j = choose|j: int| 0 <= j < i && #[trigger] other.items@[j]@ == k;
                            assert(other.items@[j]@ == k);
                        } else {
                            assert(other.items@[i as int]@ == k);
                        }
                    }
                }
                assert(self.as_set() =~= old(self).as_set().union(s2));
            }
            i = i + 1;
        }
        assert(Set::new(|k: Seq<char>| exists|j: int| 0 <= j < n && #[trigger] other.items@[j]@ == k) =~= other.as_set());
    }

    /// A copy of the set.
    pub fn copy(&self) -> (r: StrSet)
        ensures
            r.seq() == self.seq(),
            r.as_set() == self.as_set(),
            self.wf() ==> r.wf(),
    {
        let mut items: Vec<String> = Vec::new();
        let n = self.items.len();
        let mut i: usize = 0;
        while i < n
            invariant
                n == self.items@.len(),
                i <= n,
                items@.len() == i,
                forall|j: int| 0 <= j < i ==> #[trigger] items@[j]@ == self.items@[j]@,
            decreases n - i,
        {
            items.push(crate::strings::copy_str(self.items[i].as_str()));
            i = i + 1;
        }
        let r = StrSet { items };
        assert(r.seq() =~= self.seq());
        assert(r.as_set() =~= self.as_set()) by {
            assert forall|k: Seq<char>| r.as_set().contains(k) == self.as_set().contains(k) by {
                if r.as_set().contains(k) {
                    let j = choose|j: int| 0 <= j < r.items@.len() && #[trigger] r.items@[j]@ == k;
                    assert(self.items@[j]@ == k);
                }
                if self.as_set().contains(k) {
                    let j = choose|j: int| 0 <= j < self.items@.len() && #[trigger] self.items@[j]@ == k;
                    assert(r.items@[j]@ == k);
                }
            }
        }
        r
    }
}


/// Names in strictly increasing order.
pub open spec fn sorted_names(q: Seq<Seq<char>>) -> bool {
    forall|i: int, j: int| 0 <= i < j < q.len() ==> seq_lt(#[trigger] q[i], #[trigger] q[j])
}

/// Positions before `i` hold the same name in two sorted lists with the same
/// names.
proof fn lemma_same_names_prefix(a: Seq<Seq<char>>, b: Seq<Seq<char>>, i: int)
    requires
        sorted_names(a),
        sorted_names(b),
        a.to_set() == b.to_set(),
        0 <= i <= a.len(),
        i <= b.len(),
    ensures
        forall|j: int| 0 <= j < i ==> #[trigger] a[j] == b[j],
    decreases i,
{
    if i > 0 {
        lemma_same_names_prefix(a, b, i - 1);
        let k = i - 1;
        let x = a[k];
        let y = b[k];
        assert(a.to_set().contains(x));
        assert(b.contains(x));
        let m = choose|m: int| 0 <= m < b.len() && b[m] == x;
        assert(b.to_set().contains(y));
        assert(a.contains(y));
        let n = choose|n: int| 0 <= n < a.len() && a[n] == y;
        if m < k {
            assert(a[m] == b[m]);
            lemma_seq_lt_irreflexive(x);
        } else if n < k {
            assert(a[n] == b[n]);
            lemma_seq_lt_irreflexive(y);
        } else if m > k {
            assert(seq_lt(y, x));
            if n > k {
                assert(seq_lt(x, y));
                lemma_seq_lt_asymmetric(x, y);
            } else {
                lemma_seq_lt_irreflexive(x);
            }
        }
    }
}

/// Two sorted lists of the same names are equal.
pub proof fn lemma_same_names_same_seq(a: Seq<Seq<char>>, b: Seq<Seq<char>>)
    requires
        sorted_names(a),
        sorted_names(b),
        a.to_set() == b.to_set(),
    ensures
        a == b,
{
    let l = if a.len() < b.len() { a.len() } else { b.len() };
    lemma_same_names_prefix(a, b, l as int);
    if a.len() > b.len() {
        let x = a[b.len() as int];
        assert(a.to_set().contains(x));
        assert(b.contains(x));
        let m = choose|m: int| 0 <= m < b.len() && b[m] == x;
        assert(a[m] == b[m]);
        lemma_seq_lt_irreflexive(x);
    } else if b.len() > a.len() {
        let y = b[a.len() as int];
        assert(b.to_set().contains(y));
        assert(a.contains(y));
        let n = choose|n: int| 0 <= n < a.len() && a[n] == y;
        assert(a[n] == b[n]);
        lemma_seq_lt_irreflexive(y);
    }
    assert(a =~= b);
}

impl StrSet {
    /// A well-formed set lists its items sorted, and its items are those of
    /// the list.
    pub proof fn lemma_sorted(self)
        requires
            self.wf(),
        ensures
            sorted_names(self.seq()),
            self.seq().to_set() == self.as_set(),
    {
        assert forall|i: int, j: int| 0 <= i < j < self.seq().len() implies seq_lt(#[trigger] self.seq()[i], #[trigger] self.seq()[j]) by {
            assert(self.seq()[i] == self.items@[i]@);
            assert(self.seq()[j] == self.items@[j]@);
        }
        assert forall|k: Seq<char>| self.seq().to_set().contains(k) <==> self.as_set().contains(k) by {
            if self.seq().contains(k) {
                let i = choose|i: int| 0 <= i < self.seq().len() && self.seq()[i] == k;
                assert(self.items@[i]@ == k);
            }
            if self.as_set().contains(k) {
                let i = choose|i: int| 0 <= i < self.items@.len() && #[trigger] self.items@[i]@ == k;
                assert(self.seq()[i] == k);
            }
        }
        assert(self.seq().to_set() =~= self.as_set());
    }
}

} // verus!
