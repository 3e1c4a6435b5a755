//! The query paths through a map from each type to the fields that lead on
//! from it.

use vstd::prelude::*;
use crate::config::npo::identifier::{FieldName, TypeName};
use crate::strings::str_eq;

verus! {

broadcast use vstd::seq_lib::seq_to_set_is_finite;

/// A step of a walk: the type it leaves, the field taken, the type reached.
pub open spec fn step_view(e: (&str, &str, &str)) -> (Seq<char>, Seq<char>, Seq<char>) {
    (e.0@, e.1@, e.2@)
}

/// The steps of a walk, as characters.
pub open spec fn walk_view(w: Seq<(&str, &str, &str)>) -> Seq<(Seq<char>, Seq<char>, Seq<char>)> {
    w.map_values(|e: (&str, &str, &str)| step_view(e))
}

/// The type-field pairs a walk has taken.
pub open spec fn taken(p: Seq<(Seq<char>, Seq<char>, Seq<char>)>) -> Set<(Seq<char>, Seq<char>)> {
    Set::new(|x: (Seq<char>, Seq<char>)| exists|k: int| 0 <= k < p.len() && (#[trigger] p[k]).0 == x.0 && p[k].1 == x.1)
}

/// A walk `q` from type `t` through `graph` that takes no type-field pair
/// twice nor any pair in `avoid`, and stops at a type the graph does not
/// hold.
pub open spec fn walk_ok(
    graph: Map<Seq<char>, Set<(Seq<char>, Seq<char>)>>,
    t: Seq<char>,
    q: Seq<(Seq<char>, Seq<char>, Seq<char>)>,
    avoid: Set<(Seq<char>, Seq<char>)>,
) -> bool
    decreases q.len(),
{
    if q.len() == 0 {
        !graph.contains_key(t)
    } else {
        &&& graph.contains_key(t)
        &&& q[0].0 == t
        &&& graph[t].contains((q[0].1, q[0].2))
        &&& !avoid.contains((t, q[0].1))
        &&& walk_ok(graph, q[0].2, q.drop_first(), avoid.insert((t, q[0].1)))
    }
}

/// The query paths of a map from each type to the fields, with the types
/// they return, that lead on from it.
pub struct Output<'a> {
    map: Vec<(TypeName<'a>, Vec<(FieldName<'a>, TypeName<'a>)>)>,
    root: &'a str,
}

impl<'a> Output<'a> {
    /// The fields leading on from entry `i`, as characters.
    pub open spec fn edges_at(self, i: int) -> Set<(Seq<char>, Seq<char>)> {
        self.map_spec()[i].1@.map_values(|p: (FieldName, TypeName)| (p.0.0@, p.1.0@)).to_set()
    }

    /// The entries of the map.
    pub closed spec fn map_spec(self) -> Seq<(TypeName<'a>, Vec<(FieldName<'a>, TypeName<'a>)>)> {
        self.map@
    }

    /// The type the query paths start from.
    pub closed spec fn root_spec(self) -> &'a str {
        self.root
    }

    /// No type occurs twice, and no field occurs twice under a type.
    pub open spec fn wf(self) -> bool {
        &&& forall|i: int, j: int|
            0 <= i < j < self.map_spec().len() ==> (#[trigger] self.map_spec()[i]).0.0@ != (
            #[trigger] self.map_spec()[j]).0.0@
        &&& forall|i: int, a: int, b: int|
            0 <= i < self.map_spec().len() && 0 <= a < b < self.map_spec()[i].1@.len() ==> (
            #[trigger] self.map_spec()[i].1@[a].0.0@, self.map_spec()[i].1@[a].1.0@) != (
            #[trigger] self.map_spec()[i].1@[b].0.0@, self.map_spec()[i].1@[b].1.0@)
    }

    /// The map, with names as characters.
    pub open spec fn graph(self) -> Map<Seq<char>, Set<(Seq<char>, Seq<char>)>> {
        Map::new(
            |t: Seq<char>| exists|i: int| 0 <= i < self.map_spec().len() && #[trigger] self.map_spec()[i].0.0@ == t,
            |t: Seq<char>| self.edges_at(choose|i: int| 0 <= i < self.map_spec().len() && #[trigger] self.map_spec()[i].0.0@ == t),
        )
    }

    /// Every type-field pair of the map.
    pub open spec fn all_pairs(self) -> Set<(Seq<char>, Seq<char>)> {
        flat_pairs(self.map_spec()).to_set()
    }

    pub fn new(map: Vec<(TypeName<'a>, Vec<(FieldName<'a>, TypeName<'a>)>)>, root: &'a str) -> (r: Output<'a>)
        ensures
            r.map_spec() == map@,
            r.root_spec() == root,
    {
        Output { map, root }
    }

    /// The entries of the map.
    pub fn map(&self) -> (r: &Vec<(TypeName<'a>, Vec<(FieldName<'a>, TypeName<'a>)>)>)
        ensures
            r@ == self.map_spec(),
    {
        &self.map
    }

    /// The type the query paths start from.
    pub fn root(&self) -> (r: &'a str)
        ensures
            r == self.root_spec(),
    {
        self.root
    }
}

/// The type-field pairs of the entries, entry by entry.
pub open spec fn flat_pairs(m: Seq<(TypeName, Vec<(FieldName, TypeName)>)>) -> Seq<(Seq<char>, Seq<char>)>
    decreases m.len(),
{
    if m.len() == 0 {
        Seq::empty()
    } else {
        flat_pairs(m.drop_last()) + m.last().1@.map_values(|p: (FieldName, TypeName)| (m.last().0.0@, p.0.0@))
    }
}

proof fn lemma_flat_pairs(m: Seq<(TypeName, Vec<(FieldName, TypeName)>)>, i: int, j: int)
    requires
        0 <= i < m.len(),
        0 <= j < m[i].1@.len(),
    ensures
        flat_pairs(m).contains((m[i].0.0@, m[i].1@[j].0.0@)),
    decreases m.len(),
{
    let prefix = flat_pairs(m.drop_last());
    let last = m.last().1@.map_values(|p: (FieldName, TypeName)| (m.last().0.0@, p.0.0@));
    if i == m.len() - 1 {
        assert((prefix + last)[prefix.len() + j] == last[j]);
    } else {
        lemma_flat_pairs(m.drop_last(), i, j);
        let k = choose|k: int| 0 <= k < prefix.len() && prefix[k] == (m[i].0.0@, m[i].1@[j].0.0@);
        assert((prefix + last)[k] == prefix[k]);
    }
}

fn on_walk(w: &Vec<(&str, &str, &str)>, t: &str, f: &str) -> (r: bool)
    ensures
        r == taken(walk_view(w@)).contains((t@, f@)),
{
    let ghost p = walk_view(w@);
    let n = w.len();
    let mut i: usize = 0;
    while i < n
        invariant
            n == w@.len(),
            p == walk_view(w@),
            i <= n,
            forall|k: int| 0 <= k < i ==> !((#[trigger] p[k]).0 == t@ && p[k].1 == f@),
        decreases n - i,
    {
        if str_eq(w[i].0, t) && str_eq(w[i].1, f) {
            assert(p[i as int].0 == t@ && p[i as int].1 == f@);
            return true;
        }
        assert(p[i as int] == step_view(w@[i as int]));
        i = i + 1;
    }
    false
}

proof fn lemma_taken_push(p: Seq<(Seq<char>, Seq<char>, Seq<char>)>, e: (Seq<char>, Seq<char>, Seq<char>))
    ensures
        taken(p.push(e)) == taken(p).insert((e.0, e.1)),
{
    let v = p.push(e);
    assert forall|x: (Seq<char>, Seq<char>)| taken(v).contains(x) <==> taken(p).insert((e.0, e.1)).contains(x) by {
        if taken(v).contains(x) {
            let k = choose|k: int| 0 <= k < v.len() && (#[trigger] v[k]).0 == x.0 && v[k].1 == x.1;
            if k < p.len() {
                assert(v[k] == p[k]);
            }
        }
        if taken(p).contains(x) {
            let k = choose|k: int| 0 <= k < p.len() && (#[trigger] p[k]).0 == x.0 && p[k].1 == x.1;
            assert(v[k] == p[k]);
        }
        if x == (e.0, e.1) {
            assert(v[p.len() as int] == e);
        }
    }
    assert(taken(v) =~= taken(p).insert((e.0, e.1)));
}

fn copy_walk<'a>(w: &Vec<(&'a str, &'a str, &'a str)>) -> (r: Vec<(&'a str, &'a str, &'a str)>)
    ensures
        r@ == w@,
{
    let mut r: Vec<(&'a str, &'a str, &'a str)> = Vec::new();
    let n = w.len();
    let mut i: usize = 0;
    while i < n
        invariant
            n == w@.len(),
            i <= n,
            r@ == w@.take(i as int),
        decreases n - i,
    {
        r.push(w[i]);
        assert(r@ =~= w@.take(i + 1));
        i = i + 1;
    }
    assert(w@.take(n as int) =~= w@);
    r
}

impl<'a> Output<'a> {
    /// Walk `w` starts with `p` and goes on from type `ty` by a walk that
    /// takes none of the pairs `p` took.
    pub open spec fn produced(
        self,
        ty: Seq<char>,
        p: Seq<(Seq<char>, Seq<char>, Seq<char>)>,
        w: Seq<(Seq<char>, Seq<char>, Seq<char>)>,
    ) -> bool {
        &&& w.len() >= p.len()
        &&& w.take(p.len() as int) == p
        &&& walk_ok(self.graph(), ty, w.skip(p.len() as int), taken(p))
    }

    /// Field `j` of entry `i`, with the type it returns.
    pub open spec fn field_view(self, i: int, j: int) -> (Seq<char>, Seq<char>) {
        (self.map_spec()[i].1@[j].0.0@, self.map_spec()[i].1@[j].1.0@)
    }

    proof fn lemma_graph_at(self, i: int)
        requires
            self.wf(),
            0 <= i < self.map_spec().len(),
        ensures
            self.graph().contains_key(self.map_spec()[i].0.0@),
            self.graph()[self.map_spec()[i].0.0@] == self.edges_at(i),
            forall|x: (Seq<char>, Seq<char>)| #[trigger] self.edges_at(i).contains(x) ==> exists|j: int|
                0 <= j < self.map_spec()[i].1@.len() && self.field_view(i, j) == x,
            forall|j: int| 0 <= j < self.map_spec()[i].1@.len() ==> #[trigger] self.edges_at(i).contains(self.field_view(i, j)),
    {
        let t = self.map_spec()[i].0.0@;
        assert(self.map_spec()[i].0.0@ == t);
        let i2 = choose|i2: int| 0 <= i2 < self.map_spec().len() && #[trigger] self.map_spec()[i2].0.0@ == t;
        if i2 != i {
            if i2 < i {
                assert(self.map_spec()[i2].0.0@ != self.map_spec()[i].0.0@);
            } else {
                assert(self.map_spec()[i].0.0@ != self.map_spec()[i2].0.0@);
            }
        }
        let fs = self.map_spec()[i].1@.map_values(|p: (FieldName, TypeName)| (p.0.0@, p.1.0@));
        assert forall|x: (Seq<char>, Seq<char>)| #[trigger] self.edges_at(i).contains(x) implies exists|j: int|
            0 <= j < self.map_spec()[i].1@.len() && self.field_view(i, j) == x by {
            let j = choose|j: int| 0 <= j < fs.len() && fs[j] == x;
            assert(self.field_view(i, j) == fs[j]);
        }
        assert forall|j: int| 0 <= j < self.map_spec()[i].1@.len() implies #[trigger] self.edges_at(i).contains(self.field_view(i, j)) by {
            assert(fs[j] == self.field_view(i, j));
        }
    }

    fn find_entry(&self, ty: &str) -> (r: Option<usize>)
        requires
            self.wf(),
        ensures
            r is None ==> !self.graph().contains_key(ty@),
            r matches Some(i) ==> i < self.map_spec().len() && self.map_spec()[i as int].0.0@ == ty@,
    {
        let n = self.map.len();
        let mut i: usize = 0;
        while i < n
            invariant
                n == self.map_spec().len(),
                self.map_spec() == self.map@,
                i <= n,
                forall|k: int| 0 <= k < i ==> #[trigger] self.map_spec()[k].0.0@ != ty@,
            decreases n - i,
        {
            if str_eq(self.map[i].0.0, ty) {
                return Some(i);
            }
            i = i + 1;
        }
        None
    }

    /// Every walk of `rs` from index `lo` on is produced from `ty` after `p`.
    pub open spec fn all_produced(
        self,
        ty: Seq<char>,
        p: Seq<(Seq<char>, Seq<char>, Seq<char>)>,
        rs: Seq<Seq<(Seq<char>, Seq<char>, Seq<char>)>>,
        lo: int,
    ) -> bool {
        forall|k: int| lo <= k < rs.len() ==> self.produced(ty, p, #[trigger] rs[k])
    }

    /// Every walk from `ty` that avoids the pairs `p` took is in `rs` after `p`,
    /// from index `lo` on.
    pub open spec fn all_found(
        self,
        ty: Seq<char>,
        p: Seq<(Seq<char>, Seq<char>, Seq<char>)>,
        rs: Seq<Seq<(Seq<char>, Seq<char>, Seq<char>)>>,
        lo: int,
    ) -> bool {
        forall|q: Seq<(Seq<char>, Seq<char>, Seq<char>)>| #[trigger] walk_ok(self.graph(), ty, q, taken(p))
            ==> exists|k: int| lo <= k < rs.len() && #[trigger] rs[k] == p + q
    }

    spec fn found_upto(
        self,
        i: int,
        ty: Seq<char>,
        p: Seq<(Seq<char>, Seq<char>, Seq<char>)>,
        rs: Seq<Seq<(Seq<char>, Seq<char>, Seq<char>)>>,
        lo: int,
        j: int,
    ) -> bool {
        forall|q: Seq<(Seq<char>, Seq<char>, Seq<char>)>, jj: int|
            0 <= jj < j && #[trigger] walk_ok(self.graph(), ty, q, taken(p)) && q.len() > 0 && (q[0].1, q[0].2)
                == #[trigger] self.field_view(i, jj) ==> exists|k: int| lo <= k < rs.len() && #[trigger] rs[k] == p + q
    }

    spec fn sourced(
        self,
        i: int,
        p: Seq<(Seq<char>, Seq<char>, Seq<char>)>,
        rs: Seq<Seq<(Seq<char>, Seq<char>, Seq<char>)>>,
        lo: int,
        src: Seq<int>,
        j: int,
    ) -> bool {
        &&& src.len() == rs.len() - lo
        &&& forall|k: int| #![trigger rs[k]] lo <= k < rs.len() ==> src_ok(self.field_view(i, src[k - lo]), src[k - lo], j, rs[k], p.len() as int)
    }

    proof fn lemma_step(
        self,
        i: int,
        j: int,
        ty: Seq<char>,
        p: Seq<(Seq<char>, Seq<char>, Seq<char>)>,
        e: (Seq<char>, Seq<char>, Seq<char>),
        rb: Seq<Seq<(Seq<char>, Seq<char>, Seq<char>)>>,
        rf: Seq<Seq<(Seq<char>, Seq<char>, Seq<char>)>>,
        lo: int,
        src: Seq<int>,
    )
        requires
            self.wf(),
            0 <= i < self.map_spec().len(),
            0 <= j < self.map_spec()[i].1@.len(),
            self.map_spec()[i].0.0@ == ty,
            e == (ty, self.field_view(i, j).0, self.field_view(i, j).1),
            !taken(p).contains((ty, e.1)),
            0 <= lo <= rb.len() <= rf.len(),
            forall|k: int| 0 <= k < rb.len() ==> #[trigger] rf[k] == rb[k],
            self.all_produced(ty, p, rb, lo),
            self.sourced(i, p, rb, lo, src, j),
            self.found_upto(i, ty, p, rb, lo, j),
            no_repeats(rb, lo),
            self.all_produced(e.2, p.push(e), rf, rb.len() as int),
            self.all_found(e.2, p.push(e), rf, rb.len() as int),
            no_repeats(rf, rb.len() as int),
        ensures
            self.all_produced(ty, p, rf, lo),
            self.sourced(i, p, rf, lo, src + Seq::new((rf.len() - rb.len()) as nat, |x: int| j), j + 1),
            self.found_upto(i, ty, p, rf, lo, j + 1),
            no_repeats(rf, lo),
    {
        let g = self.graph();
        let p2 = p.push(e);
        let src2 = src + Seq::new((rf.len() - rb.len()) as nat, |x: int| j);
        self.lemma_graph_at(i);
        lemma_taken_push(p, e);
        assert(self.edges_at(i).contains(self.field_view(i, j)));
        assert(src2.len() == rf.len() - lo);
        assert forall|k: int| #![trigger rf[k]] lo <= k < rf.len() implies self.produced(ty, p, rf[k])
            && src_ok(self.field_view(i, src2[k - lo]), src2[k - lo], j + 1, rf[k], p.len() as int) by {
            if k < rb.len() {
                assert(rf[k] == rb[k]);
                assert(self.produced(ty, p, rb[k]));
                assert(src2[k - lo] == src[k - lo]);
                assert(src_ok(self.field_view(i, src[k - lo]), src[k - lo], j, rb[k], p.len() as int));
            } else {
                let w = rf[k];
                assert(self.produced(e.2, p2, w));
                assert(w.take(p.len() as int) =~= p2.take(p.len() as int));
                assert(p2.take(p.len() as int) =~= p);
                let q = w.skip(p.len() as int);
                assert(q.drop_first() =~= w.skip(p2.len() as int));
                assert(w[p.len() as int] == p2[p.len() as int]);
                assert(q[0] == e);
                assert(walk_ok(g, ty, q, taken(p)));
                assert(src2[k - lo] == j);
            }
        }
        assert forall|q: Seq<(Seq<char>, Seq<char>, Seq<char>)>, jj: int|
            0 <= jj < j + 1 && #[trigger] walk_ok(g, ty, q, taken(p)) && q.len() > 0 && (q[0].1, q[0].2)
                == #[trigger] self.field_view(i, jj) implies exists|k: int| lo <= k < rf.len() && #[trigger] rf[k] == p + q by {
            if jj < j {
                let k = choose|k: int| lo <= k < rb.len() && #[trigger] rb[k] == p + q;
                assert(rf[k] == rb[k]);
            } else {
                assert(q[0] == e);
                assert(walk_ok(g, e.2, q.drop_first(), taken(p2)));
                let k = choose|k: int| rb.len() <= k < rf.len() && #[trigger] rf[k] == p2 + q.drop_first();
                assert(p2 + q.drop_first() =~= p + q);
            }
        }
        assert forall|k1: int, k2: int| lo <= k1 < k2 < rf.len() implies #[trigger] rf[k1] != #[trigger] rf[k2] by {
            if k2 < rb.len() {
                assert(rf[k1] == rb[k1]);
                assert(rf[k2] == rb[k2]);
                assert(rb[k1] != rb[k2]);
            } else if k1 < rb.len() {
                assert(rf[k1] == rb[k1]);
                let a = src[k1 - lo];
                assert(src_ok(self.field_view(i, a), a, j, rb[k1], p.len() as int));
                assert(self.map_spec()[i].1@[a] == self.map_spec()[i].1@[a]);
                assert((self.map_spec()[i].1@[a].0.0@, self.map_spec()[i].1@[a].1.0@) != (
                    self.map_spec()[i].1@[j].0.0@, self.map_spec()[i].1@[j].1.0@));
                assert(rf[k2][p.len() as int] == e) by {
                    let w = rf[k2];
                    assert(self.produced(e.2, p2, w));
                    assert(w.take(p2.len() as int)[p.len() as int] == p2[p.len() as int]);
                }
            }
        }
    }

    proof fn lemma_skip(
        self,
        i: int,
        j: int,
        ty: Seq<char>,
        p: Seq<(Seq<char>, Seq<char>, Seq<char>)>,
        rs: Seq<Seq<(Seq<char>, Seq<char>, Seq<char>)>>,
        lo: int,
        src: Seq<int>,
    )
        requires
            0 <= i < self.map_spec().len(),
            0 <= j < self.map_spec()[i].1@.len(),
            taken(p).contains((ty, self.field_view(i, j).0)),
            self.sourced(i, p, rs, lo, src, j),
            self.found_upto(i, ty, p, rs, lo, j),
        ensures
            self.sourced(i, p, rs, lo, src, j + 1),
            self.found_upto(i, ty, p, rs, lo, j + 1),
    {
        let g = self.graph();
        assert forall|k: int| #![trigger rs[k]] lo <= k < rs.len() implies src_ok(self.field_view(i, src[k - lo]), src[k - lo], j + 1, rs[k], p.len() as int) by {
            assert(src_ok(self.field_view(i, src[k - lo]), src[k - lo], j, rs[k], p.len() as int));
        }
        assert forall|q: Seq<(Seq<char>, Seq<char>, Seq<char>)>, jj: int|
            0 <= jj < j + 1 && #[trigger] walk_ok(g, ty, q, taken(p)) && q.len() > 0 && (q[0].1, q[0].2)
                == #[trigger] self.field_view(i, jj) implies exists|k: int| lo <= k < rs.len() && #[trigger] rs[k] == p + q by {
            if jj == j {
                assert(q[0].0 == ty);
                assert(taken(p).contains((ty, q[0].1)));
            }
        }
    }

    proof fn lemma_all_found(
        self,
        i: int,
        ty: Seq<char>,
        p: Seq<(Seq<char>, Seq<char>, Seq<char>)>,
        rs: Seq<Seq<(Seq<char>, Seq<char>, Seq<char>)>>,
        lo: int,
    )
        requires
            self.wf(),
            0 <= i < self.map_spec().len(),
            self.map_spec()[i].0.0@ == ty,
            self.found_upto(i, ty, p, rs, lo, self.map_spec()[i].1@.len() as int),
        ensures
            self.all_found(ty, p, rs, lo),
    {
        let g = self.graph();
        self.lemma_graph_at(i);
        assert forall|q: Seq<(Seq<char>, Seq<char>, Seq<char>)>| #[trigger] walk_ok(g, ty, q, taken(p))
            implies exists|k: int| lo <= k < rs.len() && #[trigger] rs[k] == p + q by {
            assert(q.len() > 0);
            assert(self.edges_at(i).contains((q[0].1, q[0].2)));
            let jj = choose|jj: int| 0 <= jj < self.map_spec()[i].1@.len() && self.field_view(i, jj) == (q[0].1, q[0].2);
            assert(walk_ok(g, ty, q, taken(p)) && self.field_view(i, jj) == (q[0].1, q[0].2));
        }
    }

    fn dfs(
        &self,
        ty: &'a str,
        path: Vec<(&'a str, &'a str, &'a str)>,
        result: &mut Vec<Vec<(&'a str, &'a str, &'a str)>>,
    )
        requires
            self.wf(),
        ensures
            final(result)@.len() >= old(result)@.len(),
            forall|k: int| 0 <= k < old(result)@.len() ==> #[trigger] final(result)@[k] == old(result)@[k],
            self.all_produced(ty@, walk_view(path@), walks_view(final(result)@), old(result)@.len() as int),
            self.all_found(ty@, walk_view(path@), walks_view(final(result)@), old(result)@.len() as int),
            no_repeats(walks_view(final(result)@), old(result)@.len() as int),
        decreases self.all_pairs().difference(taken(walk_view(path@))).len(),
    {
        let ghost p = walk_view(path@);
        let ghost g = self.graph();
        let ghost r0 = result@;
        match self.find_entry(ty) {
            None => {
                result.push(path);
                proof {
                    let rs = walks_view(result@);
                    assert(rs[r0.len() as int] == p);
                    assert(p.take(p.len() as int) =~= p);
                    assert(p.skip(p.len() as int) =~= Seq::<(Seq<char>, Seq<char>, Seq<char>)>::empty());
                    assert forall|q: Seq<(Seq<char>, Seq<char>, Seq<char>)>| #[trigger] walk_ok(g, ty@, q, taken(p))
                        implies exists|k: int| r0.len() <= k < rs.len() && #[trigger] rs[k] == p + q by {
                        assert(q.len() == 0);
                        assert(p + q =~= p);
                        assert(rs[r0.len() as int] == p + q);
                    }
                }
            },
            Some(i) => {
                let fields = &self.map[i].1;
                let n = fields.len();
                let ghost mut src: Seq<int> = Seq::empty();
                let mut j: usize = 0;
                while j < n
                    invariant
                        self.wf(),
                        i < self.map_spec().len(),
                        *fields == self.map_spec()[i as int].1,
                        self.map_spec()[i as int].0.0@ == ty@,
                        n == fields@.len(),
                        j <= n,
                        p == walk_view(path@),
                        result@.len() >= r0.len(),
                        forall|k: int| 0 <= k < r0.len() ==> #[trigger] result@[k] == r0[k],
                        self.all_produced(ty@, p, walks_view(result@), r0.len() as int),
                        self.sourced(i as int, p, walks_view(result@), r0.len() as int, src, j as int),
                        self.found_upto(i as int, ty@, p, walks_view(result@), r0.len() as int, j as int),
                        no_repeats(walks_view(result@), r0.len() as int),
                    decreases n - j,
                {
                    let fname: &'a str = fields[j].0.0;
                    let tyof: &'a str = fields[j].1.0;
                    if !on_walk(&path, ty, fname) {
                        let mut new_path = copy_walk(&path);
                        new_path.push((ty, fname, tyof));
                        let ghost e = (ty@, fname@, tyof@);
                        let ghost rb = result@;
                        proof {
                            assert(walk_view(new_path@) =~= p.push(e));
                            lemma_taken_push(p, e);
                            lemma_flat_pairs(self.map_spec(), i as int, j as int);
                            self.all_pairs().lemma_set_insert_diff_decreases(taken(p), (ty@, fname@));
                        }
                        self.dfs(tyof, new_path, result);
                        proof {
                            assert forall|k: int| 0 <= k < rb.len() implies #[trigger] walks_view(result@)[k] == walks_view(rb)[k] by {
                                assert(result@[k] == rb[k]);
                            }
                            self.lemma_step(i as int, j as int, ty@, p, e, walks_view(rb), walks_view(result@), r0.len() as int, src);
                            src = src + Seq::new((result@.len() - rb.len()) as nat, |x: int| j as int);
                            assert forall|k: int| 0 <= k < r0.len() implies #[trigger] result@[k] == r0[k] by {
                                assert(result@[k] == rb[k]);
                            }
                        }
                    } else {
                        proof {
                            self.lemma_skip(i as int, j as int, ty@, p, walks_view(result@), r0.len() as int, src);
                        }
                    }
                    j = j + 1;
                }
                proof {
                    self.lemma_all_found(i as int, ty@, p, walks_view(result@), r0.len() as int);
                }
            },
        }
    }
}

impl<'a> Output<'a> {
    /// `ws` lists, once each, every walk from the root type that takes no
    /// type-field pair twice and stops at a type the map does not hold.
    pub open spec fn all_query_walks(self, ws: Seq<Seq<(Seq<char>, Seq<char>, Seq<char>)>>) -> bool {
        &&& forall|k: int| 0 <= k < ws.len() ==> walk_ok(self.graph(), self.root_spec()@, #[trigger] ws[k], Set::empty())
        &&& forall|q: Seq<(Seq<char>, Seq<char>, Seq<char>)>| #[trigger] walk_ok(self.graph(), self.root_spec()@, q, Set::empty())
            ==> ws.contains(q)
        &&& no_repeats(ws, 0)
    }

    /// The query paths from the root type: for each walk that takes no
    /// type-field pair twice and stops at a type the map does not hold, the
    /// fields it takes.
    pub fn query_paths(&self) -> (r: Vec<Vec<FieldName<'a>>>)
        requires
            self.wf(),
        ensures
            exists|ws: Seq<Seq<(Seq<char>, Seq<char>, Seq<char>)>>| #[trigger] self.all_query_walks(ws)
                && r@.len() == ws.len()
                && forall|k: int| 0 <= k < ws.len() ==> #[trigger] field_names(r@[k]@) == ws[k].map_values(
                |e: (Seq<char>, Seq<char>, Seq<char>)| e.1),
    {
        let mut walks: Vec<Vec<(&'a str, &'a str, &'a str)>> = Vec::new();
        let start: Vec<(&'a str, &'a str, &'a str)> = Vec::new();
        self.dfs(self.root, start, &mut walks);
        let ghost ws = walks_view(walks@);
        proof {
            let e = Seq::<(Seq<char>, Seq<char>, Seq<char>)>::empty();
            assert(walk_view(start@) =~= e);
            assert(taken(e) =~= Set::empty());
            assert forall|k: int| 0 <= k < ws.len() implies walk_ok(self.graph(), self.root_spec()@, #[trigger] ws[k], Set::empty()) by {
                assert(self.produced(self.root@, e, ws[k]));
                assert(ws[k].skip(0) =~= ws[k]);
            }
            assert forall|q: Seq<(Seq<char>, Seq<char>, Seq<char>)>| #[trigger] walk_ok(self.graph(), self.root_spec()@, q, Set::empty())
                implies ws.contains(q) by {
                let k = choose|k: int| 0 <= k < ws.len() && #[trigger] ws[k] == e + q;
                assert(e + q =~= q);
            }
            assert(self.all_query_walks(ws));
        }
        let mut r: Vec<Vec<FieldName<'a>>> = Vec::new();
        let n = walks.len();
        let mut i: usize = 0;
        while i < n
            invariant
                n == walks@.len(),
                ws == walks_view(walks@),
                i <= n,
                r@.len() == i,
                forall|k: int| 0 <= k < i ==> #[trigger] field_names(r@[k]@) == ws[k].map_values(
                    |e: (Seq<char>, Seq<char>, Seq<char>)| e.1),
            decreases n - i,
        {
            let w = &walks[i];
            let mut names: Vec<FieldName<'a>> = Vec::new();
            let m = w.len();
            let mut j: usize = 0;
            while j < m
                invariant
                    m == w@.len(),
                    *w == walks@[i as int],
                    j <= m,
                    names@.len() == j,
                    forall|x: int| 0 <= x < j ==> #[trigger] names@[x].0@ == w@[x].1@,
                decreases m - j,
            {
                names.push(FieldName::new(w[j].1));
                j = j + 1;
            }
            proof {
                assert(field_names(names@) =~= ws[i as int].map_values(|e: (Seq<char>, Seq<char>, Seq<char>)| e.1));
            }
            r.push(names);
            i = i + 1;
        }
        assert(self.all_query_walks(ws) && r@.len() == ws.len());
        r
    }
}

/// The characters of field names.
pub open spec fn field_names(v: Seq<FieldName>) -> Seq<Seq<char>> {
    v.map_values(|f: FieldName| f.0@)
}

/// Walk `w` goes on past `plen` steps by field `f`, the field with index
/// `a`, which is below `j`.
pub open spec fn src_ok(
    f: (Seq<char>, Seq<char>),
    a: int,
    j: int,
    w: Seq<(Seq<char>, Seq<char>, Seq<char>)>,
    plen: int,
) -> bool {
    &&& 0 <= a < j
    &&& w.len() > plen
    &&& w[plen].1 == f.0
    &&& w[plen].2 == f.1
}

/// The walks, as characters.
pub open spec fn walks_view(r: Seq<Vec<(&str, &str, &str)>>) -> Seq<Seq<(Seq<char>, Seq<char>, Seq<char>)>> {
    r.map_values(|w: Vec<(&str, &str, &str)>| walk_view(w@))
}

/// No two walks from index `lo` on are the same.
pub open spec fn no_repeats(rs: Seq<Seq<(Seq<char>, Seq<char>, Seq<char>)>>, lo: int) -> bool {
    forall|k1: int, k2: int| lo <= k1 < k2 < rs.len() ==> #[trigger] rs[k1] != #[trigger] rs[k2]
}

} // verus!
