//! Finds the query paths that can issue N + 1 upstream calls, caching the
//! paths found below each type.

use vstd::prelude::*;
use crate::config::{lemma_has_field_in_pairs, Config};
use crate::config::n_plus_one::config_pairs;
use crate::config::npo::chunk::{same_items, Chunk};
use crate::config::npo::paths::{field_path_ok, lemma_path_push, npo_path, path_end, path_has_list};
use crate::config::npo::queries::Queries;
use crate::strings::str_eq;

verus! {

broadcast use vstd::seq_lib::seq_to_set_is_finite;

/// The name of a type.
#[derive(Clone, Copy, Debug, Hash, PartialEq, Eq)]
pub struct TypeName<'a>(pub &'a str);

impl<'a> TypeName<'a> {
    pub fn new(name: &'a str) -> (r: Self)
        ensures
            r.0 == name,
    {
        Self(name)
    }

    pub fn as_str(self) -> (r: &'a str)
        ensures
            r == self.0,
    {
        self.0
    }
}

/// The name of a field.
#[derive(Clone, Copy, Debug, Hash, PartialEq, Eq)]
pub struct FieldName<'a>(pub &'a str);

impl<'a> FieldName<'a> {
    pub fn new(name: &'a str) -> (r: Self)
        ensures
            r.0 == name,
    {
        Self(name)
    }

    pub fn as_str(self) -> (r: &'a str)
        ensures
            r == self.0,
    {
        self.0
    }
}

/// The characters of field names.
pub open spec fn names(s: Seq<FieldName>) -> Seq<Seq<char>> {
    s.map_values(|f: FieldName| f.0@)
}

/// A path chunk holds the newest field first; this is its order from the
/// root.
pub open spec fn root_order(c: Chunk<FieldName>) -> Seq<Seq<char>> {
    names(c.items()).reverse()
}

/// Every path in the chunk is an N + 1 path from `root`.
pub open spec fn all_npo(config: Config, root: Seq<char>, c: Chunk<Chunk<FieldName>>) -> bool {
    forall|i: int| 0 <= i < c.items().len() ==> npo_path(config, root, #[trigger] root_order(c.items()[i]))
}

pub proof fn lemma_root_order_append(c: Chunk<FieldName>, f: FieldName)
    ensures
        root_order(Chunk::Cons(f, std::rc::Rc::new(c))) == root_order(c).push(f.0@),
{
    let s = c.items();
    assert(Chunk::Cons(f, std::rc::Rc::new(c)).items() == seq![f] + s);
    assert(names(seq![f] + s) =~= seq![f.0@] + names(s));
    assert((seq![f.0@] + names(s)).reverse() =~= names(s).reverse().push(f.0@));
}

pub proof fn lemma_all_npo_same(config: Config, root: Seq<char>, a: Chunk<Chunk<FieldName>>, b: Chunk<Chunk<FieldName>>)
    requires
        same_items(a, b),
        all_npo(config, root, b),
    ensures
        all_npo(config, root, a),
{
    assert forall|i: int| 0 <= i < a.items().len() implies npo_path(config, root, #[trigger] root_order(a.items()[i])) by {
        assert(a.items()[i].items() == b.items()[i].items());
        assert(root_order(a.items()[i]) == root_order(b.items()[i]));
    }
}

pub proof fn lemma_all_npo_concat(config: Config, root: Seq<char>, a: Chunk<Chunk<FieldName>>, b: Chunk<Chunk<FieldName>>)
    requires
        all_npo(config, root, a),
        all_npo(config, root, b),
    ensures
        all_npo(config, root, a.concat_spec(b)),
{
    let s = a.concat_spec(b).items();
    assert forall|i: int| 0 <= i < s.len() implies npo_path(config, root, #[trigger] root_order(s[i])) by {
        if i < a.items().len() {
            assert(s[i] == a.items()[i]);
        } else {
            assert(s[i] == b.items()[i - a.items().len()]);
        }
    }
}

pub proof fn lemma_all_npo_append(config: Config, root: Seq<char>, a: Chunk<Chunk<FieldName>>, p: Chunk<FieldName>)
    requires
        all_npo(config, root, a),
        npo_path(config, root, root_order(p)),
    ensures
        all_npo(config, root, Chunk::Cons(p, std::rc::Rc::new(a))),
{
    let s = Chunk::Cons(p, std::rc::Rc::new(a)).items();
    assert forall|i: int| 0 <= i < s.len() implies npo_path(config, root, #[trigger] root_order(s[i])) by {
        if i > 0 {
            assert(s[i] == a.items()[i - 1]);
        }
    }
}

impl<A> Chunk<A> {
    /// The chunk `concat` builds.
    pub open spec fn concat_spec(self, other: Chunk<A>) -> Chunk<A> {
        Chunk::Concat(std::rc::Rc::new(self), std::rc::Rc::new(other))
    }
}

/// Walks the configuration from its query type and finds the paths that can
/// issue N + 1 upstream calls.
pub struct Identifier<'a> {
    config: &'a Config,
    cache: Vec<((&'a str, bool), Chunk<Chunk<FieldName<'a>>>)>,
}

/// The pairs of a list of pairs of names.
pub open spec fn name_pairs(v: Seq<(&str, &str)>) -> Set<(Seq<char>, Seq<char>)> {
    Set::new(|p: (Seq<char>, Seq<char>)| exists|i: int| 0 <= i < v.len() && (#[trigger] v[i].0@, v[i].1@) == p)
}

fn listed(v: &Vec<(&str, &str)>, t: &str, f: &str) -> (r: bool)
    ensures
        r == name_pairs(v@).contains((t@, f@)),
{
    let n = v.len();
    let mut i: usize = 0;
    while i < n
        invariant
            n == v@.len(),
            i <= n,
            forall|j: int| 0 <= j < i ==> (#[trigger] v@[j].0@, v@[j].1@) != (t@, f@),
        decreases n - i,
    {
        if str_eq(v[i].0, t) && str_eq(v[i].1, f) {
            assert((v@[i as int].0@, v@[i as int].1@) == (t@, f@));
            return true;
        }
        i = i + 1;
    }
    false
}

fn with_pair<'a>(v: &Vec<(&'a str, &'a str)>, t: &'a str, f: &'a str) -> (r: Vec<(&'a str, &'a str)>)
    ensures
        name_pairs(r@) == name_pairs(v@).insert((t@, f@)),
{
    let mut r: Vec<(&'a str, &'a str)> = Vec::new();
    let n = v.len();
    let mut i: usize = 0;
    while i < n
        invariant
            n == v@.len(),
            i <= n,
            r@ == v@.take(i as int),
        decreases n - i,
    {
        r.push(v[i]);
        assert(r@ =~= v@.take(i + 1));
        i = i + 1;
    }
    r.push((t, f));
    assert(v@.take(n as int) =~= v@);
    assert(name_pairs(r@) =~= name_pairs(v@).insert((t@, f@))) by {
        assert forall|p: (Seq<char>, Seq<char>)| name_pairs(r@).contains(p) implies #[trigger] name_pairs(v@).insert((t@, f@)).contains(p) by {
            let i = choose|i: int| 0 <= i < r@.len() && (#[trigger] r@[i].0@, r@[i].1@) == p;
            if i < n {
                assert(r@[i] == v@[i]);
            }
        }
        assert forall|p: (Seq<char>, Seq<char>)| #[trigger] name_pairs(v@).insert((t@, f@)).contains(p) implies name_pairs(r@).contains(p) by {
            if p == (t@, f@) {
                assert((r@[n as int].0@, r@[n as int].1@) == p);
            } else {
                let i = choose|i: int| 0 <= i < v@.len() && (#[trigger] v@[i].0@, v@[i].1@) == p;
                assert(r@[i] == v@[i]);
            }
        }
    }
    r
}

/// The paths found walking type `t`, reached by path `p` (through a list
/// when `is_list`), with the type-field pairs `vis` walked on the way there,
/// and the cache of paths found by type and list flag: a cached result is
/// given back as it is, else the result is computed and cached.
pub open spec fn id_walk(
    c: Config,
    p: Seq<Seq<char>>,
    t: Seq<char>,
    is_list: bool,
    vis: Set<(Seq<char>, Seq<char>)>,
    cache: Map<(Seq<char>, bool), Seq<Seq<Seq<char>>>>,
    n: nat,
) -> (Seq<Seq<Seq<char>>>, Map<(Seq<char>, bool), Seq<Seq<Seq<char>>>>)
    decreases n, if c.types.as_map().contains_key(t) { c.types.as_map()[t].fields.entries@.len() + 1 } else { 0 },
{
    if cache.contains_key((t, is_list)) {
        (cache[(t, is_list)], cache)
    } else {
        let r = if c.types.as_map().contains_key(t) {
            id_fields(c, p, t, c.types.as_map()[t].fields.entries@, 0, is_list, vis, Seq::empty(), cache, n)
        } else {
            (Seq::empty(), cache)
        };
        (r.0, r.1.insert((t, is_list), r.0))
    }
}

/// Walking the fields of `fs` from position `k` on with the paths found so
/// far `acc`: a pair walked before is skipped; a field with a resolver that
/// is not batched, reached through a list, puts its path in front of those
/// found; any other field is walked, and the paths found below it follow.
pub open spec fn id_fields(
    c: Config,
    p: Seq<Seq<char>>,
    t: Seq<char>,
    fs: Seq<(String, crate::config::Field)>,
    k: int,
    is_list: bool,
    vis: Set<(Seq<char>, Seq<char>)>,
    acc: Seq<Seq<Seq<char>>>,
    cache: Map<(Seq<char>, bool), Seq<Seq<Seq<char>>>>,
    n: nat,
) -> (Seq<Seq<Seq<char>>>, Map<(Seq<char>, bool), Seq<Seq<Seq<char>>>>)
    decreases n, fs.len() - k,
{
    if k < 0 || k >= fs.len() {
        (acc, cache)
    } else {
        let (name, f) = fs[k];
        let np = p.push(name@);
        let pr = (t, name@);
        if vis.contains(pr) {
            id_fields(c, p, t, fs, k + 1, is_list, vis, acc, cache, n)
        } else if f.spec_has_resolver() && !f.spec_has_batched_resolver() && is_list {
            id_fields(c, p, t, fs, k + 1, is_list, vis, seq![np] + acc, cache, n)
        } else {
            let sub = if n == 0 {
                (Seq::empty(), cache)
            } else {
                id_walk(c, np, f.type_of@, is_list || f.list, vis.insert(pr), cache, (n - 1) as nat)
            };
            id_fields(c, p, t, fs, k + 1, is_list, vis, acc + sub.0, sub.1, n)
        }
    }
}

/// The paths of a chunk of paths, each from the root.
pub open spec fn chunk_paths(c: Chunk<Chunk<FieldName>>) -> Seq<Seq<Seq<char>>> {
    c.items().map_values(|x: Chunk<FieldName>| root_order(x))
}

/// The cache, by type name and list flag.
pub open spec fn cache_map(v: Seq<((&str, bool), Chunk<Chunk<FieldName>>)>) -> Map<(Seq<char>, bool), Seq<Seq<Seq<char>>>> {
    Map::new(
        |key: (Seq<char>, bool)| exists|i: int| 0 <= i < v.len() && (#[trigger] v[i].0.0@, v[i].0.1) == key,
        |key: (Seq<char>, bool)| chunk_paths(v[choose|i: int| 0 <= i < v.len() && (#[trigger] v[i].0.0@, v[i].0.1) == key].1),
    )
}

/// No key occurs twice in the cache.
pub open spec fn cache_keys_unique(v: Seq<((&str, bool), Chunk<Chunk<FieldName>>)>) -> bool {
    forall|i: int, j: int| 0 <= i < j < v.len() ==> (#[trigger] v[i].0.0@, v[i].0.1) != (#[trigger] v[j].0.0@, v[j].0.1)
}

proof fn lemma_same_paths(a: Chunk<Chunk<FieldName>>, b: Chunk<Chunk<FieldName>>)
    requires
        same_items(a, b),
    ensures
        chunk_paths(a) == chunk_paths(b),
{
    assert forall|i: int| 0 <= i < a.items().len() implies #[trigger] chunk_paths(a)[i] == chunk_paths(b)[i] by {
        assert(a.items()[i].items() == b.items()[i].items());
    }
    assert(chunk_paths(a) =~= chunk_paths(b));
}

proof fn lemma_cache_at(v: Seq<((&str, bool), Chunk<Chunk<FieldName>>)>, i: int)
    requires
        cache_keys_unique(v),
        0 <= i < v.len(),
    ensures
        cache_map(v).contains_key((v[i].0.0@, v[i].0.1)),
        cache_map(v)[(v[i].0.0@, v[i].0.1)] == chunk_paths(v[i].1),
{
    let key = (v[i].0.0@, v[i].0.1);
    assert(cache_map(v).contains_key(key));
    let j = choose|j: int| 0 <= j < v.len() && (#[trigger] v[j].0.0@, v[j].0.1) == key;
    if j != i {
        if j < i {
            assert((v[j].0.0@, v[j].0.1) != (v[i].0.0@, v[i].0.1));
        } else {
            assert((v[i].0.0@, v[i].0.1) != (v[j].0.0@, v[j].0.1));
        }
    }
}

impl<'a> Identifier<'a> {
    /// Every cached chunk holds N + 1 paths only, and the cache holds each
    /// key once.
    pub closed spec fn inv(self, root: Seq<char>) -> bool {
        &&& self.config.wf()
        &&& forall|i: int| 0 <= i < self.cache@.len() ==> all_npo(*self.config, root, #[trigger] self.cache@[i].1)
        &&& cache_keys_unique(self.cache@)
    }

    /// The configuration walked.
    pub closed spec fn config_spec(self) -> Config {
        *self.config
    }

    /// Nothing is cached yet.
    pub closed spec fn fresh(self) -> bool {
        self.cache@.len() == 0
    }

    pub fn new(config: &'a Config) -> (r: Identifier<'a>)
        ensures
            r.config_spec() == *config,
            r.fresh(),
    {
        Identifier { config, cache: Vec::new() }
    }

    fn position(&self, t: &str, is_list: bool) -> (r: Option<usize>)
        ensures
            r is Some <==> cache_map(self.cache@).contains_key((t@, is_list)),
            r matches Some(i) ==> i < self.cache@.len() && (self.cache@[i as int].0.0@, self.cache@[i as int].0.1) == (t@, is_list),
    {
        let n = self.cache.len();
        let mut i: usize = 0;
        while i < n
            invariant
                n == self.cache@.len(),
                i <= n,
                forall|j: int| 0 <= j < i ==> (#[trigger] self.cache@[j].0.0@, self.cache@[j].0.1) != (t@, is_list),
            decreases n - i,
        {
            if str_eq(self.cache[i].0.0, t) && self.cache[i].0.1 == is_list {
                return Some(i);
            }
            i = i + 1;
        }
        None
    }

    fn cached(&self, t: &str, is_list: bool) -> (r: Option<Chunk<Chunk<FieldName<'a>>>>)
        requires
            cache_keys_unique(self.cache@),
        ensures
            r is Some <==> cache_map(self.cache@).contains_key((t@, is_list)),
            r matches Some(c) ==> chunk_paths(c) == cache_map(self.cache@)[(t@, is_list)]
                && exists|i: int| 0 <= i < self.cache@.len() && same_items(c, #[trigger] self.cache@[i].1),
    {
        match self.position(t, is_list) {
            Some(i) => {
                let c = self.cache[i].1.duplicate_nested();
                proof {
                    lemma_cache_at(self.cache@, i as int);
                    lemma_same_paths(c, self.cache@[i as int].1);
                }
                Some(c)
            },
            None => None,
        }
    }

    fn store(&mut self, t: &'a str, is_list: bool, c: Chunk<Chunk<FieldName<'a>>>, Ghost(root): Ghost<Seq<char>>)
        requires
            old(self).inv(root),
            all_npo(*old(self).config, root, c),
        ensures
            final(self).inv(root),
            final(self).config == old(self).config,
            cache_map(final(self).cache@) == cache_map(old(self).cache@).insert((t@, is_list), chunk_paths(c)),
    {
        let ghost v0 = self.cache@;
        let key = (t, is_list);
        match self.position(t, is_list) {
            Some(i) => {
                self.cache.set(i, (key, c));
            },
            None => {
                self.cache.push((key, c));
            },
        }
        proof {
            let v = self.cache@;
            assert forall|a: int, b: int| 0 <= a < b < v.len() implies (#[trigger] v[a].0.0@, v[a].0.1) != (#[trigger] v[b].0.0@, v[b].0.1) by {
                if a < v0.len() && b < v0.len() && v[a] == v0[a] && v[b] == v0[b] {
                    assert((v0[a].0.0@, v0[a].0.1) != (v0[b].0.0@, v0[b].0.1));
                }
            }
            assert forall|i: int| 0 <= i < v.len() implies all_npo(*self.config, root, #[trigger] v[i].1) by {
                if v[i] != (key, c) {
                    assert(v[i] == v0[i]);
                }
            }
            let target = cache_map(v0).insert((t@, is_list), chunk_paths(c));
            assert forall|k: (Seq<char>, bool)| #[trigger] cache_map(v).contains_key(k) <==> target.contains_key(k) by {
                if cache_map(v).contains_key(k) {
                    let j = choose|j: int| 0 <= j < v.len() && (#[trigger] v[j].0.0@, v[j].0.1) == k;
                    if k != (t@, is_list) {
                        assert(v[j] == v0[j]);
                    }
                }
                if cache_map(v0).contains_key(k) {
                    let j = choose|j: int| 0 <= j < v0.len() && (#[trigger] v0[j].0.0@, v0[j].0.1) == k;
                    if k != (t@, is_list) {
                        assert(v[j] == v0[j]);
                    }
                }
                if k == (t@, is_list) {
                    let j = if v.len() > v0.len() { v0.len() as int } else { choose|j: int| 0 <= j < v0.len() && (#[trigger] v0[j].0.0@, v0[j].0.1) == k };
                    assert((v[j].0.0@, v[j].0.1) == k);
                }
            }
            assert forall|k: (Seq<char>, bool)| #[trigger] cache_map(v).contains_key(k) implies cache_map(v)[k] == target[k] by {
                let j = choose|j: int| 0 <= j < v.len() && (#[trigger] v[j].0.0@, v[j].0.1) == k;
                lemma_cache_at(v, j);
                if k != (t@, is_list) {
                    assert(v[j] == v0[j]);
                    lemma_cache_at(v0, j);
                }
            }
            assert(cache_map(v) =~= target);
        }
    }

    #[verifier::rlimit(60)]
    fn iter(
        &mut self,
        path: Chunk<FieldName<'a>>,
        ty_name: TypeName<'a>,
        is_list: bool,
        visited: Vec<(&'a str, &'a str)>,
        Ghost(root): Ghost<Seq<char>>,
        Ghost(fuel): Ghost<nat>,
    ) -> (r: Chunk<Chunk<FieldName<'a>>>)
        requires
            old(self).inv(root),
            field_path_ok(*old(self).config, root, root_order(path)),
            path_end(*old(self).config, root, root_order(path)) == ty_name.0@,
            is_list == path_has_list(*old(self).config, root, root_order(path)),
            name_pairs(visited@).subset_of(config_pairs(*old(self).config)),
            fuel >= config_pairs(*old(self).config).difference(name_pairs(visited@)).len(),
        ensures
            final(self).inv(root),
            final(self).config == old(self).config,
            all_npo(*old(self).config, root, r),
            chunk_paths(r) == id_walk(*old(self).config, root_order(path), ty_name.0@, is_list, name_pairs(visited@),
                cache_map(old(self).cache@), fuel).0,
            cache_map(final(self).cache@) == id_walk(*old(self).config, root_order(path), ty_name.0@, is_list,
                name_pairs(visited@), cache_map(old(self).cache@), fuel).1,
        decreases fuel,
    {
        if let Some(chunks) = self.cached(ty_name.as_str(), is_list) {
            proof {
                let i = choose|i: int| 0 <= i < self.cache@.len() && same_items(chunks, #[trigger] self.cache@[i].1);
                lemma_all_npo_same(*self.config, root, chunks, self.cache@[i].1);
            }
            return chunks;
        }
        let config: &'a Config = self.config;
        let ghost rp = root_order(path);
        let ghost vis = name_pairs(visited@);
        let ghost cache0 = cache_map(self.cache@);
        let mut chunks: Chunk<Chunk<FieldName<'a>>> = Chunk::new();
        assert(chunk_paths(chunks) =~= Seq::<Seq<Seq<char>>>::empty());
        match config.find_type(ty_name.as_str()) {
            None => {},
            Some(type_of) => {
                let ghost tn = ty_name.0@;
                proof {
                    let i = config.types.pos(tn);
                    config.types.lemma_at(i);
                    assert(config.types.as_map()[tn] == *type_of);
                }
                let ghost fs = type_of.fields.entries@;
                let ghost whole = id_fields(*config, rp, tn, fs, 0, is_list, vis, Seq::empty(), cache0, fuel);
                let n = type_of.fields.entries.len();
                let mut k: usize = 0;
                while k < n
                    invariant
                        self.inv(root),
                        self.config == config,
                        config == old(self).config,
                        config.types.has(tn),
                        *type_of == config.types.get_spec(tn).unwrap(),
                        type_of.wf(),
                        n == type_of.fields.entries@.len(),
                        k <= n,
                        field_path_ok(*config, root, root_order(path)),
                        path_end(*config, root, root_order(path)) == tn,
                        tn == ty_name.0@,
                        is_list == path_has_list(*config, root, root_order(path)),
                        name_pairs(visited@).subset_of(config_pairs(*config)),
                        all_npo(*config, root, chunks),
                        rp == root_order(path),
                        vis == name_pairs(visited@),
                        fs == type_of.fields.entries@,
                        fuel >= config_pairs(*config).difference(vis).len(),
                        whole == id_fields(*config, rp, tn, fs, 0, is_list, vis, Seq::empty(), cache0, fuel),
                        whole == id_fields(*config, rp, tn, fs, k as int, is_list, vis, chunk_paths(chunks), cache_map(self.cache@), fuel),
                    decreases n - k,
                {
                    let name: &'a str = type_of.fields.entries[k].0.as_str();
                    let field = &type_of.fields.entries[k].1;
                    let field_name = FieldName::new(name);
                    let new_path = path.duplicate().append(field_name);
                    proof {
                        type_of.fields.lemma_at(k as int);
                        assert(config.has_field(tn, name@));
                        assert(config.field_spec(tn, name@) == *field);
                        lemma_root_order_append(path, field_name);
                        lemma_path_push(*config, root, root_order(path), name@);
                    }
                    let ghost np = rp.push(name@);
                    let ghost acc0 = chunk_paths(chunks);
                    assert(root_order(new_path) == np);
                    if !listed(&visited, ty_name.as_str(), name) {
                        let is_batch = field.has_batched_resolver();
                        if field.has_resolver() && !is_batch && is_list {
                            proof {
                                lemma_all_npo_append(*config, root, chunks, new_path);
                            }
                            chunks = chunks.append(new_path);
                            assert(chunk_paths(chunks) =~= seq![np] + acc0);
                        } else {
                            let next_visited = with_pair(&visited, ty_name.as_str(), name);
                            proof {
                                lemma_has_field_in_pairs(*config, tn, name@);
                                assert(config_pairs(*config).finite());
                                config_pairs(*config).lemma_set_insert_diff_decreases(name_pairs(visited@), (tn, name@));
                            }
                            let next_is_list = is_list || field.list;
                            let sub = self.iter(new_path, TypeName::new(field.type_of.as_str()), next_is_list, next_visited, Ghost(root), Ghost((fuel - 1) as nat));
                            proof {
                                lemma_all_npo_concat(*config, root, chunks, sub);
                            }
                            chunks = chunks.concat(sub);
                            assert(chunk_paths(chunks) =~= acc0 + chunk_paths(sub));
                        }
                    }
                    k = k + 1;
                }
            },
        }
        let stored = chunks.duplicate_nested();
        proof {
            lemma_all_npo_same(*self.config, root, stored, chunks);
            lemma_same_paths(stored, chunks);
        }
        self.store(ty_name.as_str(), is_list, stored, Ghost(root));
        chunks
    }

    fn find_chunks(&mut self) -> (r: Chunk<Chunk<FieldName<'a>>>)
        requires
            old(self).config.wf(),
            old(self).cache@.len() == 0,
        ensures
            final(self).config == old(self).config,
            old(self).config.schema.query matches Some(q) ==> all_npo(*old(self).config, q@, r),
            old(self).config.schema.query matches Some(q) ==> chunk_paths(r) == id_walk(*old(self).config, Seq::empty(), q@,
                false, Set::empty(), Map::empty(), config_pairs(*old(self).config).len()).0,
            old(self).config.schema.query is None ==> r.items().len() == 0,
    {
        let config: &'a Config = self.config;
        proof {
            assert(cache_map(self.cache@) =~= Map::<(Seq<char>, bool), Seq<Seq<Seq<char>>>>::empty());
            assert(cache_keys_unique(self.cache@));
        }
        match &config.schema.query {
            None => Chunk::new(),
            Some(query) => {
                let path: Chunk<FieldName<'a>> = Chunk::new();
                proof {
                    assert(root_order(path) =~= Seq::empty());
                }
                let visited: Vec<(&'a str, &'a str)> = Vec::new();
                assert(name_pairs(visited@) =~= Set::empty());
                assert(config_pairs(*config).difference(Set::empty()) =~= config_pairs(*config));
                self.iter(path, TypeName::new(query.as_str()), false, visited, Ghost(query@), Ghost(config_pairs(*config).len()))
            },
        }
    }

    /// The query paths that can issue N + 1 upstream calls. Each path lists
    /// its fields from the resolver field back to the query type's field.
    pub fn identify(self) -> (r: Queries<'a>)
        requires
            self.config_spec().wf(),
            self.fresh(),
        ensures
            self.config_spec().schema.query matches Some(q) ==> forall|i: int|
                0 <= i < r.0@.len() ==> npo_path(self.config_spec(), q@, #[trigger] r.path_spec(i).reverse()),
            self.config_spec().schema.query matches Some(q) ==> ({
                let w = id_walk(self.config_spec(), Seq::empty(), q@, false, Set::empty(), Map::empty(),
                    config_pairs(self.config_spec()).len()).0;
                &&& r.0@.len() == w.len()
                &&& forall|i: int| 0 <= i < r.0@.len() ==> #[trigger] r.path_spec(i).reverse() == w[i]
            }),
            self.config_spec().schema.query is None ==> r.0@.len() == 0,
    {
        let ghost cfg = self.config_spec();
        let mut me = self;
        let chunks = me.find_chunks();
        let r = Queries::from_chunk(chunks);
        proof {
            if let Some(q) = cfg.schema.query {
                assert forall|i: int| 0 <= i < r.0@.len() implies npo_path(cfg, q@, #[trigger] r.path_spec(i).reverse())
                    && r.path_spec(i).reverse() == chunk_paths(chunks)[i] by {
                    assert(r.path_spec(i) =~= names(chunks.items()[i].items()));
                    assert(npo_path(cfg, q@, root_order(chunks.items()[i])));
                }
            }
        }
        r
    }
}

} // verus!
