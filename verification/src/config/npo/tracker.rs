//! Tracks the query paths that can issue N + 1 upstream calls, from the
//! query type and from every entity type, caching the paths found below
//! each type.

use vstd::prelude::*;
use tailcall_chunk::Chunk as SharedChunk;
use crate::config::Config;
use crate::config::resolver::all_batched;
use crate::config::npo::paths::{field_path_ok, path_end, path_has_list};
use crate::config::npo::queries::{join_lines, join_strings, nest_names, query_text, str_names};
use crate::config::npo::shared_chunk::{
    chunk_names, chunk_prepend, chunk_single, item_view, names_of, paths_append, paths_collect,
    paths_concat, paths_copy, paths_empty, paths_list, paths_of,
};
use crate::config::npo::type_names;
use crate::strings::{concat_str, str_eq};

verus! {

broadcast use vstd::seq_lib::seq_to_set_is_finite;

/// A path of field names from `root` whose last field has a resolver that
/// is not batched, reached through a list: one returned by an earlier field,
/// or, when `start_list` holds, the list the path starts from.
pub open spec fn npo_path_from(config: Config, root: Seq<char>, path: Seq<Seq<char>>, start_list: bool) -> bool {
    &&& path.len() > 0
    &&& field_path_ok(config, root, path)
    &&& (start_list || path_has_list(config, root, path.drop_last()))
    &&& config.field_spec(path_end(config, root, path.drop_last()), path.last()).spec_has_resolver()
    &&& !config.field_spec(path_end(config, root, path.drop_last()), path.last()).spec_has_batched_resolver()
}

/// The names of path items.
pub open spec fn item_names(p: Seq<(bool, Seq<char>)>) -> Seq<Seq<char>> {
    p.map_values(|x: (bool, Seq<char>)| x.1)
}

/// A path of fields from type `t` that can issue N + 1 calls, `b` telling
/// whether `t` itself is reached through a list.
pub open spec fn rel_ok(config: Config, t: Seq<char>, b: bool, p: Seq<(bool, Seq<char>)>) -> bool {
    &&& forall|i: int| 0 <= i < p.len() ==> !(#[trigger] p[i]).0
    &&& npo_path_from(config, t, item_names(p), b)
}

/// Every path of `ps` satisfies `rel_ok`.
pub open spec fn all_rel_ok(config: Config, t: Seq<char>, b: bool, ps: Seq<Seq<(bool, Seq<char>)>>) -> bool {
    forall|i: int| 0 <= i < ps.len() ==> rel_ok(config, t, b, #[trigger] ps[i])
}

/// Every path of `ps` starts with `first` and goes on by a path `rel_ok`
/// accepts.
pub open spec fn all_after(
    config: Config,
    first: (bool, Seq<char>),
    t: Seq<char>,
    b: bool,
    ps: Seq<Seq<(bool, Seq<char>)>>,
) -> bool {
    forall|i: int| 0 <= i < ps.len() ==> (#[trigger] ps[i]).len() > 0 && ps[i][0] == first && rel_ok(config, t, b, ps[i].drop_first())
}

/// A path the tracker reports: from the query type, or from an entity type
/// that has a resolver: the entity alone when its resolver is not batched,
/// else followed by a path from the entity reached as a list.
pub open spec fn tracked_path(config: Config, q: Seq<(bool, Seq<char>)>) -> bool {
    &&& q.len() > 0
    &&& if !q[0].0 {
        config.schema.query matches Some(qn) && rel_ok(config, qn@, false, q)
    } else {
        let ty = config.types.get_spec(q[0].1);
        &&& ty matches Some(t) && t.resolvers@.len() > 0
        &&& if all_batched(ty.unwrap().resolvers@) {
            rel_ok(config, q[0].1, true, q.drop_first())
        } else {
            q.len() == 1
        }
    }
}

/// The field `n` of `t` put in front of a path from the type it returns.
pub proof fn lemma_prepend_field(config: Config, t: Seq<char>, n: Seq<char>, q: Seq<Seq<char>>, b: bool)
    requires
        config.has_field(t, n),
        npo_path_from(config, config.field_spec(t, n).type_of@, q, b || config.field_spec(t, n).list),
    ensures
        npo_path_from(config, t, seq![n] + q, b),
{
    let p = seq![n] + q;
    let ft = config.field_spec(t, n).type_of@;
    assert(p.drop_first() =~= q);
    assert(p[0] == n);
    assert(p.drop_last().drop_first() =~= q.drop_last());
    assert(p.drop_last()[0] == n);
    assert(p.last() == q.last());
    assert(p.drop_last().len() > 0);
}

/// A single field with an unbatched resolver, reached through a list.
pub proof fn lemma_single_field(config: Config, t: Seq<char>, n: Seq<char>)
    requires
        config.has_field(t, n),
        config.field_spec(t, n).spec_has_resolver(),
        !config.field_spec(t, n).spec_has_batched_resolver(),
    ensures
        npo_path_from(config, t, seq![n], true),
{
    let p = seq![n];
    assert(p.drop_first() =~= Seq::<Seq<char>>::empty());
    assert(p.drop_last() =~= Seq::<Seq<char>>::empty());
    assert(field_path_ok(config, config.field_spec(t, n).type_of@, Seq::<Seq<char>>::empty()));
}

/// The keys cached with flag `b`.
pub open spec fn flagged(keys: Set<(Seq<char>, bool)>, b: bool) -> Set<Seq<char>> {
    Set::new(|t: Seq<char>| keys.contains((t, b)))
}

/// How many (type, flag) keys of the configuration's types are not cached.
pub open spec fn uncached(config: Config, keys: Set<(Seq<char>, bool)>) -> nat {
    type_names(config).difference(flagged(keys, true)).len() + type_names(config).difference(flagged(keys, false)).len()
}

proof fn lemma_uncached_mono(config: Config, k1: Set<(Seq<char>, bool)>, k2: Set<(Seq<char>, bool)>)
    requires
        k1.subset_of(k2),
    ensures
        uncached(config, k2) <= uncached(config, k1),
{
    let ts = type_names(config);
    assert(ts.finite());
    vstd::set_lib::lemma_len_subset(ts.difference(flagged(k2, true)), ts.difference(flagged(k1, true)));
    vstd::set_lib::lemma_len_subset(ts.difference(flagged(k2, false)), ts.difference(flagged(k1, false)));
}

proof fn lemma_uncached_strict(config: Config, k1: Set<(Seq<char>, bool)>, k2: Set<(Seq<char>, bool)>, t: Seq<char>, b: bool)
    requires
        k1.subset_of(k2),
        type_names(config).contains(t),
        !k1.contains((t, b)),
        k2.contains((t, b)),
    ensures
        uncached(config, k2) < uncached(config, k1),
{
    let ts = type_names(config);
    assert(ts.finite());
    let d1 = ts.difference(flagged(k1, b));
    let d2 = ts.difference(flagged(k2, b));
    assert(d1.contains(t));
    assert(d2.subset_of(d1.remove(t)));
    vstd::set_lib::lemma_len_subset(d2, d1.remove(t));
    vstd::set_lib::lemma_len_subset(ts.difference(flagged(k2, !b)), ts.difference(flagged(k1, !b)));
}

/// Each path of `ps` with `item` put in front.
pub open spec fn prefix_all(ps: Seq<Seq<(bool, Seq<char>)>>, item: (bool, Seq<char>)) -> Seq<Seq<(bool, Seq<char>)>> {
    ps.map_values(|q: Seq<(bool, Seq<char>)>| seq![item] + q)
}

/// The paths found below type `t` (reached through a list when `is_list`),
/// each from a field of `t`, with the cache of paths by type and list flag:
/// a cached result is given back; else an empty result is cached while the
/// fields are walked, and then the result.
pub open spec fn pt_walk(
    c: Config,
    t: Seq<char>,
    is_list: bool,
    cache: Map<(Seq<char>, bool), Seq<Seq<(bool, Seq<char>)>>>,
    n: nat,
) -> (Seq<Seq<(bool, Seq<char>)>>, Map<(Seq<char>, bool), Seq<Seq<(bool, Seq<char>)>>>)
    decreases n, if c.types.as_map().contains_key(t) { c.types.as_map()[t].fields.entries@.len() + 1 } else { 0 },
{
    if cache.contains_key((t, is_list)) {
        (cache[(t, is_list)], cache)
    } else {
        let c1 = cache.insert((t, is_list), Seq::empty());
        let r = if c.types.as_map().contains_key(t) {
            pt_fields(c, t, c.types.as_map()[t].fields.entries@, 0, is_list, Seq::empty(), c1, n)
        } else {
            (Seq::empty(), c1)
        };
        (r.0, r.1.insert((t, is_list), r.0))
    }
}

/// Walking the fields of `fs` from position `k` on with the paths found so
/// far `acc`: a field with a resolver that is not batched, reached through
/// a list, adds its own path; any other field adds the paths below it,
/// each with the field in front.
pub open spec fn pt_fields(
    c: Config,
    t: Seq<char>,
    fs: Seq<(String, crate::config::Field)>,
    k: int,
    is_list: bool,
    acc: Seq<Seq<(bool, Seq<char>)>>,
    cache: Map<(Seq<char>, bool), Seq<Seq<(bool, Seq<char>)>>>,
    n: nat,
) -> (Seq<Seq<(bool, Seq<char>)>>, Map<(Seq<char>, bool), Seq<Seq<(bool, Seq<char>)>>>)
    decreases n, fs.len() - k,
{
    if k < 0 || k >= fs.len() {
        (acc, cache)
    } else {
        let (name, f) = fs[k];
        let item = (false, name@);
        if is_list && f.spec_has_resolver() && !f.spec_has_batched_resolver() {
            pt_fields(c, t, fs, k + 1, is_list, acc.push(seq![item]), cache, n)
        } else {
            let sub = if n == 0 {
                (Seq::empty(), cache)
            } else {
                pt_walk(c, f.type_of@, is_list || f.list, cache, (n - 1) as nat)
            };
            pt_fields(c, t, fs, k + 1, is_list, acc + prefix_all(sub.0, item), sub.1, n)
        }
    }
}

/// The paths from the entity types of `ts`, from position `k` on, after the
/// paths `acc`: an entity whose resolvers are batched adds the paths below
/// it, with the entity in front; another entity with a resolver adds itself.
pub open spec fn pt_entities(
    c: Config,
    ts: Seq<(String, crate::config::Type)>,
    k: int,
    acc: Seq<Seq<(bool, Seq<char>)>>,
    cache: Map<(Seq<char>, bool), Seq<Seq<(bool, Seq<char>)>>>,
    n: nat,
) -> Seq<Seq<(bool, Seq<char>)>>
    decreases ts.len() - k,
{
    if k < 0 || k >= ts.len() {
        acc
    } else {
        let (name, t) = ts[k];
        let item = (true, name@);
        if t.resolvers@.len() > 0 {
            if all_batched(t.resolvers@) {
                let w = pt_walk(c, name@, true, cache, n);
                pt_entities(c, ts, k + 1, acc + prefix_all(w.0, item), w.1, n)
            } else {
                pt_entities(c, ts, k + 1, acc.push(seq![item]), cache, n)
            }
        } else {
            pt_entities(c, ts, k + 1, acc, cache, n)
        }
    }
}

/// The depth that bounds every walk: the (type, flag) keys of the
/// configuration.
pub open spec fn walk_bound(c: Config) -> nat {
    uncached(c, Set::empty())
}

/// The paths the tracker finds: from the query type, then from the
/// entities.
pub open spec fn tracked_paths(c: Config) -> Seq<Seq<(bool, Seq<char>)>> {
    let q = match c.schema.query {
        Some(qn) => pt_walk(c, qn@, false, Map::empty(), walk_bound(c)),
        None => (Seq::empty(), Map::empty()),
    };
    pt_entities(c, c.types.entries@, 0, q.0, q.1, walk_bound(c))
}

/// The cache, by type name and list flag.
pub open spec fn tracker_cache(v: Seq<((&str, bool), SharedChunk<SharedChunk<(bool, String)>>)>) -> Map<(Seq<char>, bool), Seq<Seq<(bool, Seq<char>)>>> {
    Map::new(
        |key: (Seq<char>, bool)| exists|i: int| 0 <= i < v.len() && (#[trigger] v[i].0.0@, v[i].0.1) == key,
        |key: (Seq<char>, bool)| paths_of(v[choose|i: int| 0 <= i < v.len() && (#[trigger] v[i].0.0@, v[i].0.1) == key].1),
    )
}

/// No key occurs twice in the cache.
pub open spec fn tracker_keys_unique(v: Seq<((&str, bool), SharedChunk<SharedChunk<(bool, String)>>)>) -> bool {
    forall|i: int, j: int| 0 <= i < j < v.len() ==> (#[trigger] v[i].0.0@, v[i].0.1) != (#[trigger] v[j].0.0@, v[j].0.1)
}

proof fn lemma_tracker_at(v: Seq<((&str, bool), SharedChunk<SharedChunk<(bool, String)>>)>, i: int)
    requires
        tracker_keys_unique(v),
        0 <= i < v.len(),
    ensures
        tracker_cache(v).contains_key((v[i].0.0@, v[i].0.1)),
        tracker_cache(v)[(v[i].0.0@, v[i].0.1)] == paths_of(v[i].1),
{
    let key = (v[i].0.0@, v[i].0.1);
    assert(tracker_cache(v).contains_key(key));
    let j = choose|j: int| 0 <= j < v.len() && (#[trigger] v[j].0.0@, v[j].0.1) == key;
    if j != i {
        if j < i {
            assert((v[j].0.0@, v[j].0.1) != (v[i].0.0@, v[i].0.1));
        } else {
            assert((v[i].0.0@, v[i].0.1) != (v[j].0.0@, v[j].0.1));
        }
    }
}

/// Finds the query paths that can issue N + 1 upstream calls, caching the
/// paths found below each type and list flag.
pub struct PathTracker<'a> {
    config: &'a Config,
    cache: Vec<((&'a str, bool), SharedChunk<SharedChunk<(bool, String)>>)>,
}

impl<'a> PathTracker<'a> {
    /// The configuration tracked.
    pub closed spec fn config_spec(self) -> Config {
        *self.config
    }

    /// The cached (type, flag) keys.
    pub closed spec fn keys(self) -> Set<(Seq<char>, bool)> {
        Set::new(|k: (Seq<char>, bool)| exists|i: int| 0 <= i < self.cache@.len() && (#[trigger] self.cache@[i]).0.0@ == k.0
            && self.cache@[i].0.1 == k.1)
    }

    /// Every cached chunk holds paths from its type that can issue N + 1
    /// calls.
    pub closed spec fn inv(self) -> bool {
        &&& self.config.wf()
        &&& forall|i: int| 0 <= i < self.cache@.len() ==> all_rel_ok(
            *self.config,
            (#[trigger] self.cache@[i]).0.0@,
            self.cache@[i].0.1,
            paths_of(self.cache@[i].1),
        )
        &&& tracker_keys_unique(self.cache@)
    }

    /// The cache, by type name and list flag.
    pub closed spec fn cache_spec(self) -> Map<(Seq<char>, bool), Seq<Seq<(bool, Seq<char>)>>> {
        tracker_cache(self.cache@)
    }

    proof fn lemma_keys(self)
        ensures
            self.keys() == self.cache_spec().dom(),
    {
        assert forall|k: (Seq<char>, bool)| #[trigger] self.keys().contains(k) == self.cache_spec().dom().contains(k) by {
            if self.keys().contains(k) {
                let i = choose|i: int| 0 <= i < self.cache@.len() && (#[trigger] self.cache@[i]).0.0@ == k.0 && self.cache@[i].0.1 == k.1;
                assert((self.cache@[i].0.0@, self.cache@[i].0.1) == k);
            }
            if self.cache_spec().dom().contains(k) {
                let i = choose|i: int| 0 <= i < self.cache@.len() && (#[trigger] self.cache@[i].0.0@, self.cache@[i].0.1) == k;
                assert(self.cache@[i].0.0@ == k.0);
            }
        }
        assert(self.keys() =~= self.cache_spec().dom());
    }

    /// Nothing is cached yet.
    pub closed spec fn fresh(self) -> bool {
        self.cache@.len() == 0
    }

    pub fn new(config: &'a Config) -> (r: PathTracker<'a>)
        ensures
            r.config_spec() == *config,
            r.fresh(),
    {
        PathTracker { config, cache: Vec::new() }
    }

    fn cached(&self, t: &str, is_list: bool) -> (r: Option<usize>)
        ensures
            r is None ==> !self.keys().contains((t@, is_list)),
            r matches Some(i) ==> i < self.cache@.len() && self.cache@[i as int].0.0@ == t@ && self.cache@[i as int].0.1 == is_list,
    {
        let n = self.cache.len();
        let mut i: usize = 0;
        while i < n
            invariant
                n == self.cache@.len(),
                i <= n,
                forall|j: int| 0 <= j < i ==> !((#[trigger] self.cache@[j]).0.0@ == t@ && self.cache@[j].0.1 == is_list),
            decreases n - i,
        {
            if str_eq(self.cache[i].0.0, t) && self.cache[i].0.1 == is_list {
                return Some(i);
            }
            i = i + 1;
        }
        None
    }

    fn store(&mut self, t: &'a str, is_list: bool, c: SharedChunk<SharedChunk<(bool, String)>>)
        requires
            old(self).inv(),
            all_rel_ok(*old(self).config, t@, is_list, paths_of(c)),
        ensures
            final(self).inv(),
            final(self).config == old(self).config,
            final(self).keys() == old(self).keys().insert((t@, is_list)),
            final(self).cache_spec() == old(self).cache_spec().insert((t@, is_list), paths_of(c)),
    {
        let ghost c0 = self.cache@;
        match self.cached(t, is_list) {
            Some(i) => {
                self.cache.set(i, ((t, is_list), c));
                proof {
                    assert forall|k: (Seq<char>, bool)| self.keys().contains(k) == old(self).keys().insert((t@, is_list)).contains(k) by {
                        if self.keys().contains(k) {
                            let j = choose|j: int| 0 <= j < self.cache@.len() && (#[trigger] self.cache@[j]).0.0@ == k.0 && self.cache@[j].0.1 == k.1;
                            if j != i {
                                assert(c0[j] == self.cache@[j]);
                            }
                        }
                        if old(self).keys().contains(k) {
                            let j = choose|j: int| 0 <= j < c0.len() && (#[trigger] c0[j]).0.0@ == k.0 && c0[j].0.1 == k.1;
                            if j != i {
                                assert(c0[j] == self.cache@[j]);
                            } else {
                                assert(self.cache@[j].0.0@ == k.0);
                            }
                        }
                        if k == (t@, is_list) {
                            assert(self.cache@[i as int].0.0@ == k.0);
                        }
                    }
                    assert(self.keys() =~= old(self).keys().insert((t@, is_list)));
                    assert forall|j: int| 0 <= j < self.cache@.len() implies all_rel_ok(
                        *self.config,
                        (#[trigger] self.cache@[j]).0.0@,
                        self.cache@[j].0.1,
                        paths_of(self.cache@[j].1),
                    ) by {
                        if j != i {
                            assert(c0[j] == self.cache@[j]);
                        }
                    }
                }
            },
            None => {
                self.cache.push(((t, is_list), c));
                proof {
                    let n = c0.len();
                    assert forall|k: (Seq<char>, bool)| self.keys().contains(k) == old(self).keys().insert((t@, is_list)).contains(k) by {
                        if self.keys().contains(k) {
                            let j = choose|j: int| 0 <= j < self.cache@.len() && (#[trigger] self.cache@[j]).0.0@ == k.0 && self.cache@[j].0.1 == k.1;
                            if j < n {
                                assert(c0[j] == self.cache@[j]);
                            }
                        }
                        if old(self).keys().contains(k) {
                            let j = choose|j: int| 0 <= j < c0.len() && (#[trigger] c0[j]).0.0@ == k.0 && c0[j].0.1 == k.1;
                            assert(c0[j] == self.cache@[j]);
                        }
                        if k == (t@, is_list) {
                            assert(self.cache@[n as int].0.0@ == k.0);
                        }
                    }
                    assert(self.keys() =~= old(self).keys().insert((t@, is_list)));
                    assert forall|j: int| 0 <= j < self.cache@.len() implies all_rel_ok(
                        *self.config,
                        (#[trigger] self.cache@[j]).0.0@,
                        self.cache@[j].0.1,
                        paths_of(self.cache@[j].1),
                    ) by {
                        if j < n {
                            assert(c0[j] == self.cache@[j]);
                        }
                    }
                }
            },
        }
        proof {
            let v = self.cache@;
            let key = (t, is_list);
            assert forall|a: int, b: int| 0 <= a < b < v.len() implies (#[trigger] v[a].0.0@, v[a].0.1) != (#[trigger] v[b].0.0@, v[b].0.1) by {
                if a < c0.len() && b < c0.len() && v[a] == c0[a] && v[b] == c0[b] {
                    assert((c0[a].0.0@, c0[a].0.1) != (c0[b].0.0@, c0[b].0.1));
                }
            }
            let target = tracker_cache(c0).insert((t@, is_list), paths_of(c));
            assert forall|k: (Seq<char>, bool)| #[trigger] tracker_cache(v).contains_key(k) <==> target.contains_key(k) by {
                if tracker_cache(v).contains_key(k) {
                    let j = choose|j: int| 0 <= j < v.len() && (#[trigger] v[j].0.0@, v[j].0.1) == k;
                    if k != (t@, is_list) {
                        assert(v[j] == c0[j]);
                    }
                }
                if tracker_cache(c0).contains_key(k) {
                    let j = choose|j: int| 0 <= j < c0.len() && (#[trigger] c0[j].0.0@, c0[j].0.1) == k;
                    if k != (t@, is_list) {
                        assert(v[j] == c0[j]);
                    }
                }
                if k == (t@, is_list) {
                    let j = if v.len() > c0.len() { c0.len() as int } else { choose|j: int| 0 <= j < c0.len() && (#[trigger] c0[j].0.0@, c0[j].0.1) == k };
                    assert((v[j].0.0@, v[j].0.1) == k);
                }
            }
            assert forall|k: (Seq<char>, bool)| #[trigger] tracker_cache(v).contains_key(k) implies tracker_cache(v)[k] == target[k] by {
                let j = choose|j: int| 0 <= j < v.len() && (#[trigger] v[j].0.0@, v[j].0.1) == k;
                lemma_tracker_at(v, j);
                if k != (t@, is_list) {
                    assert(v[j] == c0[j]);
                    lemma_tracker_at(c0, j);
                }
            }
            assert(tracker_cache(v) =~= target);
        }
    }

    fn prepend_all(chunks: &SharedChunk<SharedChunk<(bool, String)>>, first: &(bool, String)) -> (r: SharedChunk<SharedChunk<(bool, String)>>)
        ensures
            paths_of(r).len() == paths_of(*chunks).len(),
            forall|i: int| 0 <= i < paths_of(r).len() ==> #[trigger] paths_of(r)[i] == seq![item_view(*first)] + paths_of(*chunks)[i],
    {
        let mut v = paths_list(chunks);
        let ghost all = paths_of(*chunks);
        let mut w: Vec<SharedChunk<(bool, String)>> = Vec::new();
        let n = v.len();
        let mut i: usize = 0;
        while i < n
            invariant
                n == all.len(),
                all == paths_of(*chunks),
                v@.len() == n - i,
                forall|j: int| 0 <= j < v@.len() ==> #[trigger] names_of(v@[j]) == all[j + i],
                i <= n,
                w@.len() == i,
                forall|j: int| 0 <= j < i ==> #[trigger] names_of(w@[j]) == seq![item_view(*first)] + all[j],
            decreases n - i,
        {
            let item = (first.0, first.1.clone());
            let ghost v0 = v@;
            let c = v.remove(0);
            proof {
                assert(names_of(v0[0]) == all[i as int]);
                assert forall|j: int| 0 <= j < v@.len() implies #[trigger] names_of(v@[j]) == all[j + i + 1] by {
                    assert(v@[j] == v0[j + 1]);
                }
            }
            w.push(chunk_prepend(c, item));
            i = i + 1;
        }
        paths_collect(w)
    }

    fn iter(
        &mut self,
        parent: Option<(bool, String)>,
        ty: &'a str,
        is_list: bool,
        Ghost(fuel): Ghost<nat>,
    ) -> (r: SharedChunk<SharedChunk<(bool, String)>>)
        requires
            old(self).inv(),
            fuel >= uncached(*old(self).config, old(self).keys()),
        ensures
            final(self).inv(),
            final(self).config == old(self).config,
            old(self).keys().subset_of(final(self).keys()),
            parent is None ==> all_rel_ok(*old(self).config, ty@, is_list, paths_of(r)),
            parent matches Some(p) ==> all_after(*old(self).config, item_view(p), ty@, is_list, paths_of(r)),
            ({
                let w = pt_walk(*old(self).config, ty@, is_list, old(self).cache_spec(), fuel);
                &&& final(self).cache_spec() == w.1
                &&& parent is None ==> paths_of(r) == w.0
                &&& parent matches Some(p) ==> paths_of(r) == prefix_all(w.0, item_view(p))
            }),
        decreases fuel,
    {
        let ghost cache0 = self.cache_spec();
        let ghost w = pt_walk(*self.config, ty@, is_list, cache0, fuel);
        let config: &'a Config = self.config;
        let chunks = match self.cached(ty, is_list) {
            Some(i) => {
                let c = paths_copy(&self.cache[i].1);
                proof {
                    assert(all_rel_ok(*config, self.cache@[i as int].0.0@, self.cache@[i as int].0.1, paths_of(self.cache@[i as int].1)));
                    lemma_tracker_at(self.cache@, i as int);
                }
                c
            },
            None => {
                let ghost k0 = self.keys();
                proof {
                    self.lemma_keys();
                }
                self.store(ty, is_list, paths_empty());
                let ghost c1 = self.cache_spec();
                let mut chunks = paths_empty();
                let ghost mut whole: (Seq<Seq<(bool, Seq<char>)>>, Map<(Seq<char>, bool), Seq<Seq<(bool, Seq<char>)>>>) = (Seq::empty(), c1);
                match config.find_type(ty) {
                    None => {},
                    Some(type_of) => {
                        let ghost tn = ty@;
                        proof {
                            let i = config.types.pos(tn);
                            config.types.lemma_at(i);
                            assert(config.types.keys()[i] == tn);
                            assert(type_names(*config).contains(tn));
                            lemma_uncached_strict(*config, k0, self.keys(), tn, is_list);
                            assert(config.types.as_map()[tn] == *type_of);
                        }
                        let ghost fs = type_of.fields.entries@;
                        proof {
                            whole = pt_fields(*config, tn, fs, 0, is_list, Seq::empty(), c1, fuel);
                        }
                        let n = type_of.fields.entries.len();
                        let mut k: usize = 0;
                        while k < n
                            invariant
                                self.inv(),
                                self.config == config,
                                old(self).config == config,
                                config.wf(),
                                config.types.has(tn),
                                *type_of == config.types.get_spec(tn).unwrap(),
                                type_of.wf(),
                                n == type_of.fields.entries@.len(),
                                k <= n,
                                tn == ty@,
                                k0.subset_of(self.keys()),
                                self.keys().contains((tn, is_list)),
                                type_names(*config).contains(tn),
                                !k0.contains((tn, is_list)),
                                old(self).keys() == k0,
                                all_rel_ok(*config, tn, is_list, paths_of(chunks)),
                                fuel >= uncached(*config, k0),
                                fs == type_of.fields.entries@,
                                whole == pt_fields(*config, tn, fs, 0, is_list, Seq::empty(), c1, fuel),
                                whole == pt_fields(*config, tn, fs, k as int, is_list, paths_of(chunks), self.cache_spec(), fuel),
                            decreases n - k,
                        {
                            let name: &'a str = type_of.fields.entries[k].0.as_str();
                            let field = &type_of.fields.entries[k].1;
                            proof {
                                type_of.fields.lemma_at(k as int);
                                assert(config.has_field(tn, name@));
                                assert(config.field_spec(tn, name@) == *field);
                            }
                            let field_name: (bool, String) = (false, type_of.fields.entries[k].0.clone());
                            if is_list && field.has_resolver() && !field.has_batched_resolver() {
                                let ghost before = paths_of(chunks);
                                chunks = paths_append(chunks, chunk_single(field_name));
                                proof {
                                    lemma_single_field(*config, tn, name@);
                                    let p = seq![(false, name@)];
                                    assert(item_names(p) =~= seq![name@]);
                                    assert forall|i: int| 0 <= i < paths_of(chunks).len() implies rel_ok(*config, tn, is_list, #[trigger] paths_of(chunks)[i]) by {
                                        if i < before.len() {
                                            assert(paths_of(chunks)[i] == before[i]);
                                        } else {
                                            assert(paths_of(chunks)[i] =~= p);
                                        }
                                    }
                                }
                            } else {
                                let next_list = is_list || field.list;
                                let ghost fv = item_view(field_name);
                                proof {
                                    lemma_uncached_strict(*config, k0, self.keys(), tn, is_list);
                                    lemma_uncached_mono(*config, k0, self.keys());
                                }
                                proof {
                                    lemma_uncached_mono(*config, k0, self.keys());
                                }
                                let sub = self.iter(Some(field_name), field.type_of.as_str(), next_list, Ghost((fuel - 1) as nat));
                                let ghost before = paths_of(chunks);
                                chunks = paths_concat(chunks, sub);
                                proof {
                                    assert forall|i: int| 0 <= i < paths_of(chunks).len() implies rel_ok(*config, tn, is_list, #[trigger] paths_of(chunks)[i]) by {
                                        if i < before.len() {
                                            assert(paths_of(chunks)[i] == before[i]);
                                        } else {
                                            let q = paths_of(sub)[i - before.len()];
                                            assert(paths_of(chunks)[i] == q);
                                            assert(q.len() > 0 && q[0] == fv && rel_ok(*config, field.type_of@, next_list, q.drop_first()));
                                            assert(item_names(q) =~= seq![name@] + item_names(q.drop_first()));
                                            lemma_prepend_field(*config, tn, name@, item_names(q.drop_first()), is_list);
                                            assert forall|j: int| 0 <= j < q.len() implies !(#[trigger] q[j]).0 by {
                                                if j > 0 {
                                                    assert(q[j] == q.drop_first()[j - 1]);
                                                }
                                            }
                                        }
                                    }
                                }
                            }
                            k = k + 1;
                        }
                    },
                }
                let stored = paths_copy(&chunks);
                self.store(ty, is_list, stored);
                proof {
                    assert(w.0 == whole.0);
                    assert(w.1 == whole.1.insert((ty@, is_list), whole.0));
                }
                chunks
            },
        };
        match parent {
            Some(p) => {
                let r = Self::prepend_all(&chunks, &p);
                proof {
                    assert forall|i: int| 0 <= i < paths_of(r).len() implies (#[trigger] paths_of(r)[i]).len() > 0
                        && paths_of(r)[i][0] == item_view(p) && rel_ok(*config, ty@, is_list, paths_of(r)[i].drop_first()) by {
                        assert(paths_of(r)[i].drop_first() =~= paths_of(chunks)[i]);
                    }
                }
                r
            },
            None => chunks,
        }
    }

    fn find_chunks(&mut self) -> (r: SharedChunk<SharedChunk<(bool, String)>>)
        requires
            old(self).inv(),
            old(self).cache@.len() == 0,
        ensures
            forall|i: int| 0 <= i < paths_of(r).len() ==> tracked_path(*old(self).config, #[trigger] paths_of(r)[i]),
            paths_of(r) == tracked_paths(*old(self).config),
    {
        let config: &'a Config = self.config;
        let ghost bound = walk_bound(*config);
        proof {
            assert(self.cache_spec() =~= Map::<(Seq<char>, bool), Seq<Seq<(bool, Seq<char>)>>>::empty());
            self.lemma_keys();
            lemma_uncached_mono(*config, Set::empty(), self.keys());
        }
        let mut chunks = match &config.schema.query {
            None => paths_empty(),
            Some(q) => {
                let c = self.iter(None, q.as_str(), false, Ghost(bound));
                proof {
                    assert forall|i: int| 0 <= i < paths_of(c).len() implies tracked_path(*config, #[trigger] paths_of(c)[i]) by {
                        let p = paths_of(c)[i];
                        assert(rel_ok(*config, q@, false, p));
                        assert(!p[0].0);
                    }
                }
                c
            },
        };
        let n = config.types.entries.len();
        let mut k: usize = 0;
        while k < n
            invariant
                self.inv(),
                self.config == config,
                config.wf(),
                n == config.types.entries@.len(),
                k <= n,
                forall|i: int| 0 <= i < paths_of(chunks).len() ==> tracked_path(*config, #[trigger] paths_of(chunks)[i]),
                bound == walk_bound(*config),
                tracked_paths(*config) == pt_entities(*config, config.types.entries@, k as int, paths_of(chunks), self.cache_spec(), bound),
            decreases n - k,
        {
            let entity_name: &'a str = config.types.entries[k].0.as_str();
            let type_of = &config.types.entries[k].1;
            proof {
                config.types.lemma_at(k as int);
            }
            if type_of.has_resolver() {
                let parent: (bool, String) = (true, config.types.entries[k].0.clone());
                let ghost pv = item_view(parent);
                let ghost before = paths_of(chunks);
                if type_of.has_batched_resolver() {
                    proof {
                        self.lemma_keys();
                        lemma_uncached_mono(*config, Set::empty(), self.keys());
                    }
                    let sub = self.iter(Some(parent), entity_name, true, Ghost(bound));
                    chunks = paths_concat(chunks, sub);
                    proof {
                        assert forall|i: int| 0 <= i < paths_of(chunks).len() implies tracked_path(*config, #[trigger] paths_of(chunks)[i]) by {
                            if i < before.len() {
                                assert(paths_of(chunks)[i] == before[i]);
                            } else {
                                let q = paths_of(sub)[i - before.len()];
                                assert(paths_of(chunks)[i] == q);
                                assert(q.len() > 0 && q[0] == pv);
                            }
                        }
                    }
                } else {
                    chunks = paths_append(chunks, chunk_single(parent));
                    proof {
                        assert forall|i: int| 0 <= i < paths_of(chunks).len() implies tracked_path(*config, #[trigger] paths_of(chunks)[i]) by {
                            if i < before.len() {
                                assert(paths_of(chunks)[i] == before[i]);
                            } else {
                                assert(paths_of(chunks)[i] == seq![pv]);
                            }
                        }
                    }
                }
            }
            k = k + 1;
        }
        chunks
    }

    /// The query paths that can issue N + 1 upstream calls: from the query
    /// type, and from each entity type that has a resolver.
    pub fn find(self) -> (r: QueryPath)
        requires
            self.config_spec().wf(),
            self.fresh(),
        ensures
            exists|ps: Seq<Seq<(bool, Seq<char>)>>| #![trigger ps.len()]
                ps.len() == r.0@.len() && forall|i: int| 0 <= i < ps.len() ==> tracked_path(self.config_spec(), #[trigger] ps[i])
                    && path_texts(r.0@[i]@) == ps[i].map_values(|x: (bool, Seq<char>)| item_text(x)),
            r.0@.len() == tracked_paths(self.config_spec()).len(),
            forall|i: int| 0 <= i < r.0@.len() ==> #[trigger] path_texts(r.0@[i]@)
                == tracked_paths(self.config_spec())[i].map_values(|x: (bool, Seq<char>)| item_text(x)),
    {
        let mut me = self;
        let chunks = me.find_chunks();
        let r = QueryPath::from_chunk(chunks);
        assert(paths_of(chunks).len() == r.0@.len());
        r
    }
}

/// The text of a path item: a field's name, or the entities query of a
/// type.
pub open spec fn item_text(x: (bool, Seq<char>)) -> Seq<char> {
    if x.0 {
        "__entities(representations: [{ __typename: \""@ + x.1 + "\"}])"@
    } else {
        x.1
    }
}

/// The characters of a list of strings.
pub open spec fn path_texts(v: Seq<String>) -> Seq<Seq<char>> {
    v.map_values(|s: String| s@)
}

fn item_string(x: &(bool, String)) -> (r: String)
    ensures
        r@ == item_text(item_view(*x)),
{
    if x.0 {
        let s = concat_str("__entities(representations: [{ __typename: \"", x.1.as_str());
        concat_str(s.as_str(), "\"}])")
    } else {
        x.1.clone()
    }
}

/// The query paths that can issue N + 1 upstream calls, each as the texts
/// of its names from the root down.
#[derive(Clone, Debug, Default, PartialEq, Eq)]
pub struct QueryPath(pub Vec<Vec<String>>);

impl QueryPath {
    /// The number of paths.
    pub fn size(&self) -> (r: usize)
        ensures
            r == self.0@.len(),
    {
        self.0.len()
    }

    /// The texts of the paths of a chunk of paths.
    pub fn from_chunk(chunk: SharedChunk<SharedChunk<(bool, String)>>) -> (r: QueryPath)
        ensures
            r.0@.len() == paths_of(chunk).len(),
            forall|i: int| 0 <= i < r.0@.len() ==> #[trigger] path_texts(r.0@[i]@) == paths_of(chunk)[i].map_values(
                |x: (bool, Seq<char>)| item_text(x),
            ),
    {
        let outer = paths_list(&chunk);
        let mut paths: Vec<Vec<String>> = Vec::new();
        let n = outer.len();
        let mut i: usize = 0;
        while i < n
            invariant
                n == outer@.len(),
                n == paths_of(chunk).len(),
                forall|j: int| 0 <= j < n ==> #[trigger] names_of(outer@[j]) == paths_of(chunk)[j],
                i <= n,
                paths@.len() == i,
                forall|j: int| 0 <= j < i ==> #[trigger] path_texts(paths@[j]@) == paths_of(chunk)[j].map_values(
                    |x: (bool, Seq<char>)| item_text(x),
                ),
            decreases n - i,
        {
            let items = chunk_names(&outer[i]);
            let ghost iv = items@.map_values(|a: (bool, String)| item_view(a));
            let mut texts: Vec<String> = Vec::new();
            let m = items.len();
            let mut j: usize = 0;
            while j < m
                invariant
                    m == items@.len(),
                    iv == items@.map_values(|a: (bool, String)| item_view(a)),
                    j <= m,
                    texts@.len() == j,
                    forall|x: int| 0 <= x < j ==> #[trigger] texts@[x]@ == item_text(iv[x]),
                decreases m - j,
            {
                texts.push(item_string(&items[j]));
                j = j + 1;
            }
            proof {
                assert(iv == paths_of(chunk)[i as int]);
                assert(path_texts(texts@) =~= paths_of(chunk)[i as int].map_values(|x: (bool, Seq<char>)| item_text(x)));
            }
            paths.push(texts);
            i = i + 1;
        }
        QueryPath(paths)
    }

    /// The paths as GraphQL queries, one per line: each path, folded from
    /// its last name to its first, nests every name around the text built
    /// so far.
    pub fn to_query_string(&self) -> (r: String)
        ensures
            r@ == join_lines(Seq::new(self.0@.len(), |i: int| query_text(path_texts(self.0@[i]@)))),
    {
        let n = self.0.len();
        let mut lines: Vec<String> = Vec::new();
        let mut i: usize = 0;
        while i < n
            invariant
                n == self.0@.len(),
                i <= n,
                lines@.len() == i,
                forall|j: int| 0 <= j < i ==> #[trigger] lines@[j]@ == query_text(path_texts(self.0@[j]@)),
            decreases n - i,
        {
            let path = &self.0[i];
            let mut names: Vec<&str> = Vec::new();
            let m = path.len();
            let mut j: usize = 0;
            while j < m
                invariant
                    m == path@.len(),
                    j <= m,
                    names@.len() == j,
                    forall|x: int| 0 <= x < j ==> #[trigger] names@[x]@ == path@[x]@,
                decreases m - j,
            {
                names.push(path[j].as_str());
                j = j + 1;
            }
            assert(str_names(names@) =~= path_texts(path@));
            let body = nest_names(&names);
            let mut s = concat_str("query { ", body.as_str());
            s = concat_str(s.as_str(), " }");
            lines.push(s);
            i = i + 1;
        }
        let r = join_strings(&lines);
        assert(Seq::new(lines@.len(), |j: int| lines@[j]@) =~= Seq::new(self.0@.len(), |j: int| query_text(path_texts(self.0@[j]@))));
        r
    }
}

} // verus!
