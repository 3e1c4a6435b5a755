//! A set of pairs of names, in which a pair is found in either order.

use vstd::prelude::*;
use crate::strings::str_eq;

verus! {

/// A set of pairs of names, in which a pair is found in either order.
#[derive(Clone, Debug, Default)]
pub struct PairSet {
    visited: Vec<(String, String)>,
}

impl PairSet {
    /// The pairs stored, as characters.
    pub closed spec fn pairs(self) -> Set<(Seq<char>, Seq<char>)> {
        Set::new(|p: (Seq<char>, Seq<char>)| exists|i: int| 0 <= i < self.visited@.len()
            && (#[trigger] self.visited@[i]).0@ == p.0 && self.visited@[i].1@ == p.1)
    }

    /// Whether the pair is stored, in either order.
    pub open spec fn holds(self, a1: Seq<char>, a2: Seq<char>) -> bool {
        self.pairs().contains((a1, a2)) || self.pairs().contains((a2, a1))
    }

    /// An empty set.
    pub fn new() -> (r: PairSet)
        ensures
            r.pairs() == Set::<(Seq<char>, Seq<char>)>::empty(),
    {
        let r = PairSet { visited: Vec::new() };
        assert(r.pairs() =~= Set::<(Seq<char>, Seq<char>)>::empty());
        r
    }

    /// Stores the pair `(a1, a2)`.
    pub fn insert(&mut self, a1: String, a2: String)
        ensures
            final(self).pairs() == old(self).pairs().insert((a1@, a2@)),
    {
        let ghost p = (a1@, a2@);
        self.visited.push((a1, a2));
        proof {
            let n = old(self).visited@.len();
            assert forall|q: (Seq<char>, Seq<char>)| self.pairs().contains(q) == old(self).pairs().insert(p).contains(q) by {
                if self.pairs().contains(q) {
                    let i = choose|i: int| 0 <= i < self.visited@.len() && (#[trigger] self.visited@[i]).0@ == q.0 && self.visited@[i].1@ == q.1;
                    if i < n {
                        assert(self.visited@[i] == old(self).visited@[i]);
                    }
                }
                if old(self).pairs().contains(q) {
                    let i = choose|i: int| 0 <= i < old(self).visited@.len() && (#[trigger] old(self).visited@[i]).0@ == q.0 && old(self).visited@[i].1@ == q.1;
                    assert(self.visited@[i] == old(self).visited@[i]);
                }
                if q == p {
                    assert(self.visited@[n as int].0@ == q.0);
                }
            }
            assert(self.pairs() =~= old(self).pairs().insert(p));
        }
    }

    fn stored(&self, a1: &str, a2: &str) -> (r: bool)
        ensures
            r == self.pairs().contains((a1@, a2@)),
    {
        let n = self.visited.len();
        let mut i: usize = 0;
        while i < n
            invariant
                n == self.visited@.len(),
                i <= n,
                forall|j: int| 0 <= j < i ==> !((#[trigger] self.visited@[j]).0@ == a1@ && self.visited@[j].1@ == a2@),
            decreases n - i,
        {
            if str_eq(self.visited[i].0.as_str(), a1) && str_eq(self.visited[i].1.as_str(), a2) {
                return true;
            }
            i = i + 1;
        }
        false
    }

    /// Whether `(a1, a2)` or `(a2, a1)` is stored.
    pub fn contains(&self, a1: &str, a2: &str) -> (r: bool)
        ensures
            r == self.holds(a1@, a2@),
    {
        self.stored(a1, a2) || self.stored(a2, a1)
    }
}

/// A pair is found in either order: asking for `(a, b)` and for `(b, a)`
/// gives the same answer.
pub proof fn law_pair_set_symmetric(s: PairSet, a: Seq<char>, b: Seq<char>)
    ensures
        s.holds(a, b) == s.holds(b, a),
{
}

/// After a pair is stored it is found, in either order, and every pair found
/// before is still found.
pub proof fn law_pair_set_insert(s: PairSet, a1: Seq<char>, a2: Seq<char>, b1: Seq<char>, b2: Seq<char>)
    ensures
        ({
            let t = s.pairs().insert((a1, a2));
            &&& t.contains((a1, a2)) || t.contains((a2, a1))
            &&& (s.holds(b1, b2) ==> (t.contains((b1, b2)) || t.contains((b2, b1))))
        }),
{
}

} // verus!
