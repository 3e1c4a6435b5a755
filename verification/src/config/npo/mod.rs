//! Detection of query paths that can issue N + 1 upstream calls.

pub mod chunk;
pub mod identifier;
pub mod output;
pub mod paths;
pub mod queries;
pub mod shared_chunk;
pub mod tracker;
pub mod yield_map;

use vstd::prelude::*;
use crate::config::Config;
use crate::config::npo::chunk::Chunk;
use crate::config::npo::identifier::{
    all_npo, lemma_all_npo_append, lemma_all_npo_concat, lemma_root_order_append, root_order,
    FieldName, TypeName,
};
use crate::config::npo::paths::{field_path_ok, lemma_path_push, path_end, path_has_list};
use crate::config::npo::queries::{str_names, Queries};
use crate::strings::str_eq;
use crate::config::n_plus_one::{chain_alone, lemma_list_before_next, list_before};

verus! {

broadcast use vstd::seq_lib::seq_to_set_is_finite;

/// The names in a list of names, as a set.
pub open spec fn name_set(v: Seq<&str>) -> Set<Seq<char>> {
    str_names(v).to_set()
}

/// The names of the types a configuration defines.
pub open spec fn type_names(config: Config) -> Set<Seq<char>> {
    config.types.keys().to_set()
}

proof fn lemma_push_to_set(s: Seq<Seq<char>>, x: Seq<char>)
    ensures
        s.push(x).to_set() == s.to_set().insert(x),
{
    let t = s.push(x);
    assert forall|y: Seq<char>| t.to_set().contains(y) <==> s.to_set().insert(x).contains(y) by {
        if t.contains(y) {
            let i = choose|i: int| 0 <= i < t.len() && t[i] == y;
            if i < s.len() {
                assert(s[i] == y);
            }
        }
        if s.contains(y) {
            let i = choose|i: int| 0 <= i < s.len() && s[i] == y;
            assert(t[i] == y);
        }
        if y == x {
            assert(t[s.len() as int] == x);
        }
    }
    assert(t.to_set() =~= s.to_set().insert(x));
}

fn contains_name(v: &Vec<&str>, t: &str) -> (r: bool)
    ensures
        r == name_set(v@).contains(t@),
{
    let n = v.len();
    let mut i: usize = 0;
    while i < n
        invariant
            n == v@.len(),
            i <= n,
            forall|j: int| 0 <= j < i ==> v@[j]@ != t@,
        decreases n - i,
    {
        if str_eq(v[i], t) {
            assert(str_names(v@)[i as int] == t@);
            return true;
        }
        i = i + 1;
    }
    assert forall|j: int| 0 <= j < str_names(v@).len() implies str_names(v@)[j] != t@ by {
        assert(str_names(v@)[j] == v@[j]@);
    }
    false
}

/// The paths of a chunk of paths, each from the root.
pub open spec fn root_paths(c: Chunk<Chunk<FieldName>>) -> Seq<Seq<Seq<char>>> {
    c.items().map_values(|x: Chunk<FieldName>| root_order(x))
}

/// Walking type `t`, reached by path `p` (through a list when `is_list`),
/// unless it was entered before: the N + 1 paths found, and the types
/// entered, from `vis`. `n` bounds the depth.
pub open spec fn npo_walk(
    c: Config,
    p: Seq<Seq<char>>,
    t: Seq<char>,
    is_list: bool,
    vis: Set<Seq<char>>,
    n: nat,
) -> (Seq<Seq<Seq<char>>>, Set<Seq<char>>)
    decreases n, if c.types.as_map().contains_key(t) { c.types.as_map()[t].fields.entries@.len() + 1 } else { 0 },
{
    if vis.contains(t) {
        (Seq::empty(), vis)
    } else if c.types.as_map().contains_key(t) {
        npo_fields(c, p, t, c.types.as_map()[t].fields.entries@, 0, is_list, vis.insert(t), Seq::empty(), n)
    } else {
        (Seq::empty(), vis.insert(t))
    }
}

/// Walking the fields of `fs` from position `k` on, with the paths found
/// so far `acc`: a field with a resolver that is not batched, reached
/// through a list, puts its path in front of those found; then the paths
/// found below the field follow them.
pub open spec fn npo_fields(
    c: Config,
    p: Seq<Seq<char>>,
    t: Seq<char>,
    fs: Seq<(String, crate::config::Field)>,
    k: int,
    is_list: bool,
    vis: Set<Seq<char>>,
    acc: Seq<Seq<Seq<char>>>,
    n: nat,
) -> (Seq<Seq<Seq<char>>>, Set<Seq<char>>)
    decreases n, fs.len() - k,
{
    if k < 0 || k >= fs.len() {
        (acc, vis)
    } else {
        let (name, f) = fs[k];
        let np = p.push(name@);
        let acc1 = if f.spec_has_resolver() && !f.spec_has_batched_resolver() && is_list { seq![np] + acc } else { acc };
        let sub = if n == 0 { (Seq::empty(), vis) } else { npo_walk(c, np, f.type_of@, is_list || f.list, vis, (n - 1) as nat) };
        npo_fields(c, p, t, fs, k + 1, is_list, sub.1, acc1 + sub.0, n)
    }
}

/// Walks the configuration from its query type, entering each type at most
/// once, and finds the paths that can issue N + 1 upstream calls.
pub struct NPOIdentifier<'a> {
    pub config: &'a Config,
}

impl<'a> NPOIdentifier<'a> {
    pub fn new(config: &'a Config) -> (r: NPOIdentifier<'a>)
        ensures
            r.config == config,
    {
        NPOIdentifier { config }
    }

    fn iter(
        &self,
        path: Chunk<FieldName<'a>>,
        ty_name: TypeName<'a>,
        is_list: bool,
        visited: &mut Vec<&'a str>,
        Ghost(root): Ghost<Seq<char>>,
        Ghost(fuel): Ghost<nat>,
    ) -> (r: Chunk<Chunk<FieldName<'a>>>)
        requires
            self.config.wf(),
            field_path_ok(*self.config, root, root_order(path)),
            path_end(*self.config, root, root_order(path)) == ty_name.0@,
            is_list == path_has_list(*self.config, root, root_order(path)),
            fuel >= type_names(*self.config).difference(name_set(old(visited)@)).len(),
        ensures
            name_set(old(visited)@).subset_of(name_set(final(visited)@)),
            all_npo(*self.config, root, r),
            root_paths(r) == npo_walk(*self.config, root_order(path), ty_name.0@, is_list, name_set(old(visited)@), fuel).0,
            name_set(final(visited)@) == npo_walk(*self.config, root_order(path), ty_name.0@, is_list, name_set(old(visited)@), fuel).1,
        decreases type_names(*self.config).difference(name_set(old(visited)@)).len(),
    {
        if contains_name(visited, ty_name.as_str()) {
            let empty: Chunk<Chunk<FieldName<'a>>> = Chunk::new();
            assert(root_paths(empty) =~= Seq::<Seq<Seq<char>>>::empty());
            return empty;
        }
        let ghost v0 = name_set(visited@);
        visited.push(ty_name.as_str());
        proof {
            assert(str_names(visited@) =~= str_names(old(visited)@).push(ty_name.0@));
            lemma_push_to_set(str_names(old(visited)@), ty_name.0@);
        }
        let config: &'a Config = self.config;
        let mut chunks: Chunk<Chunk<FieldName<'a>>> = Chunk::new();
        assert(root_paths(chunks) =~= Seq::<Seq<Seq<char>>>::empty());
        let ghost rp = root_order(path);
        match config.find_type(ty_name.as_str()) {
            None => {},
            Some(type_of) => {
                let ghost tn = ty_name.0@;
                proof {
                    let i = config.types.pos(tn);
                    config.types.lemma_at(i);
                    assert(config.types.keys()[i] == tn);
                    assert(type_names(*config).contains(tn));
                    assert(type_names(*config).finite());
                    type_names(*config).lemma_set_insert_diff_decreases(v0, tn);
                    assert(config.types.as_map()[tn] == *type_of);
                }
                let ghost fs = type_of.fields.entries@;
                let ghost whole = npo_fields(*config, rp, tn, fs, 0, is_list, v0.insert(tn), Seq::empty(), fuel);
                let n = type_of.fields.entries.len();
                let mut k: usize = 0;
                while k < n
                    invariant
                        self.config == config,
                        config.wf(),
                        config.types.has(tn),
                        *type_of == config.types.get_spec(tn).unwrap(),
                        type_of.wf(),
                        n == type_of.fields.entries@.len(),
                        k <= n,
                        field_path_ok(*config, root, root_order(path)),
                        path_end(*config, root, root_order(path)) == tn,
                        tn == ty_name.0@,
                        is_list == path_has_list(*config, root, root_order(path)),
                        v0.insert(tn).subset_of(name_set(visited@)),
                        name_set(old(visited)@) == v0,
                        !v0.contains(tn),
                        type_names(*config).difference(v0.insert(tn)).len()
                            < type_names(*config).difference(v0).len(),
                        all_npo(*config, root, chunks),
                        fuel >= type_names(*config).difference(v0).len(),
                        rp == root_order(path),
                        fs == type_of.fields.entries@,
                        whole == npo_fields(*config, rp, tn, fs, 0, is_list, v0.insert(tn), Seq::empty(), fuel),
                        whole == npo_fields(*config, rp, tn, fs, k as int, is_list, name_set(visited@), root_paths(chunks), fuel),
                    decreases n - k,
                {
                    let name: &'a str = type_of.fields.entries[k].0.as_str();
                    let field = &type_of.fields.entries[k].1;
                    let field_name = FieldName::new(name);
                    let new_path = path.duplicate().append(field_name);
                    proof {
                        type_of.fields.lemma_at(k as int);
                        assert(config.has_field(tn, name@));
                        assert(config.field_spec(tn, name@) == *field);
                        lemma_root_order_append(path, field_name);
                        lemma_path_push(*config, root, root_order(path), name@);
                    }
                    let is_batch = field.has_batched_resolver();
                    let ghost np = rp.push(name@);
                    let ghost acc0 = root_paths(chunks);
                    assert(root_order(new_path) == np);
                    if field.has_resolver() && !is_batch && is_list {
                        proof {
                            lemma_all_npo_append(*config, root, chunks, new_path);
                        }
                        let dup = new_path.duplicate();
                        assert(root_order(dup) == np);
                        chunks = chunks.append(dup);
                        assert(root_paths(chunks) =~= seq![np] + acc0);
                    }
                    let ghost acc1 = root_paths(chunks);
                    let ghost vk = name_set(visited@);
                    let next_is_list = is_list || field.list;
                    proof {
                        let d1 = type_names(*config).difference(name_set(visited@));
                        let d2 = type_names(*config).difference(v0.insert(tn));
                        assert(d1.subset_of(d2));
                        vstd::set_lib::lemma_len_subset(d1, d2);
                    }
                    let sub = self.iter(new_path, TypeName::new(field.type_of.as_str()), next_is_list, visited, Ghost(root), Ghost((fuel - 1) as nat));
                    proof {
                        lemma_all_npo_concat(*config, root, chunks, sub);
                    }
                    chunks = chunks.concat(sub);
                    assert(root_paths(chunks) =~= acc1 + root_paths(sub));
                    k = k + 1;
                }
            },
        }
        chunks
    }

    fn find_chunks(&self) -> (r: Chunk<Chunk<FieldName<'a>>>)
        requires
            self.config.wf(),
        ensures
            self.config.schema.query matches Some(q) ==> all_npo(*self.config, q@, r),
            self.config.schema.query matches Some(q) ==> root_paths(r) == npo_walk(
                *self.config,
                Seq::empty(),
                q@,
                false,
                Set::empty(),
                type_names(*self.config).len(),
            ).0,
            self.config.schema.query is None ==> r.items().len() == 0,
    {
        let config: &'a Config = self.config;
        match &config.schema.query {
            None => Chunk::new(),
            Some(query) => {
                let path: Chunk<FieldName<'a>> = Chunk::new();
                proof {
                    assert(root_order(path) =~= Seq::empty());
                }
                let mut visited: Vec<&'a str> = Vec::new();
                proof {
                    assert(name_set(visited@) =~= Set::<Seq<char>>::empty());
                    assert(type_names(*config).difference(Set::empty()) =~= type_names(*config));
                }
                self.iter(path, TypeName::new(query.as_str()), false, &mut visited, Ghost(query@), Ghost(type_names(*config).len()))
            },
        }
    }

    /// The query paths that can issue N + 1 upstream calls, each listing its
    /// fields from the resolver field back to the query type's field.
    pub fn find(&self) -> (r: Vec<Vec<&'a str>>)
        requires
            self.config.wf(),
        ensures
            self.config.schema.query matches Some(q) ==> forall|i: int|
                0 <= i < r@.len() ==> crate::config::npo::paths::npo_path(
                    *self.config,
                    q@,
                    #[trigger] str_names(r@[i]@).reverse(),
                ),
            self.config.schema.query matches Some(q) ==> ({
                let w = npo_walk(*self.config, Seq::empty(), q@, false, Set::empty(), type_names(*self.config).len()).0;
                &&& r@.len() == w.len()
                &&& forall|i: int| 0 <= i < r@.len() ==> #[trigger] str_names(r@[i]@).reverse() == w[i]
            }),
            self.config.schema.query is None ==> r@.len() == 0,
            self.config.schema.query matches Some(q) ==> forall|ts: Seq<Seq<char>>, fs: Seq<Seq<char>>|
                #[trigger] npo_chain(*self.config, ts, fs) && chain_alone(*self.config, ts, fs) && ts[0] == q@
                    ==> exists|i: int| 0 <= i < r@.len() && #[trigger] str_names(r@[i]@).reverse() == fs,
    {
        let chunks = self.find_chunks();
        let q = Queries::from_chunk(chunks);
        let ghost cfg = *self.config;
        proof {
            if let Some(qn) = cfg.schema.query {
                assert forall|i: int| 0 <= i < q.0@.len() implies crate::config::npo::paths::npo_path(
                    *self.config,
                    qn@,
                    #[trigger] str_names(q.0@[i]@).reverse(),
                ) && str_names(q.0@[i]@).reverse() == root_paths(chunks)[i] by {
                    assert(q.path_spec(i) == str_names(q.0@[i]@));
                    assert(npo_path_of(chunks, i) == str_names(q.0@[i]@).reverse());
                    assert(crate::config::npo::paths::npo_path(*self.config, qn@, root_order(chunks.items()[i])));
                }
                let w = npo_walk(cfg, Seq::empty(), qn@, false, Set::empty(), type_names(cfg).len()).0;
                assert forall|ts: Seq<Seq<char>>, fs: Seq<Seq<char>>|
                    #[trigger] npo_chain(cfg, ts, fs) && chain_alone(cfg, ts, fs) && ts[0] == qn@
                        implies exists|i: int| 0 <= i < q.0@.len() && #[trigger] str_names(q.0@[i]@).reverse() == fs by {
                    law_npo_complete(cfg, ts, fs);
                    let x = choose|x: int| 0 <= x < w.len() && w[x] == fs;
                    assert(root_paths(chunks)[x] == w[x]);
                    assert(str_names(q.0@[x]@).reverse() == root_paths(chunks)[x]);
                }
            }
        }
        q.0
    }
}

spec fn npo_path_of(c: Chunk<Chunk<FieldName>>, i: int) -> Seq<Seq<char>> {
    root_order(c.items()[i])
}

} // verus!
verus! {

/// Types in `b` that are not in `a`.
pub open spec fn entered(a: Set<Seq<char>>, b: Set<Seq<char>>, x: Seq<char>) -> bool {
    b.contains(x) && !a.contains(x)
}

/// A walk from type `t` only enters `t` and types named by fields of types
/// it entered.
proof fn lemma_npo_walk_entered(c: Config, p: Seq<Seq<char>>, t: Seq<char>, is_list: bool, vis: Set<Seq<char>>, n: nat)
    requires
        c.wf(),
    ensures
        vis.subset_of(npo_walk(c, p, t, is_list, vis, n).1),
        forall|x: Seq<char>| #[trigger] entered(vis, npo_walk(c, p, t, is_list, vis, n).1, x) ==> x == t || exists|y: Seq<char>, g: Seq<char>|
            entered(vis, npo_walk(c, p, t, is_list, vis, n).1, y) && #[trigger] c.has_field(y, g) && c.field_spec(y, g).type_of@ == x,
    decreases n, if c.types.as_map().contains_key(t) { c.types.as_map()[t].fields.entries@.len() + 1 } else { 0 },
{
    if !vis.contains(t) && c.types.as_map().contains_key(t) {
        let fs = c.types.as_map()[t].fields.entries@;
        lemma_npo_fields_entered(c, p, t, fs, 0, is_list, vis.insert(t), Seq::empty(), n);
        let out = npo_walk(c, p, t, is_list, vis, n).1;
        assert forall|x: Seq<char>| #[trigger] entered(vis, out, x) implies x == t || exists|y: Seq<char>, g: Seq<char>|
            entered(vis, out, y) && #[trigger] c.has_field(y, g) && c.field_spec(y, g).type_of@ == x by {
            if x != t {
                assert(entered(vis.insert(t), out, x));
                if exists|g: Seq<char>| #[trigger] c.has_field(t, g) && c.field_spec(t, g).type_of@ == x {
                    let g = choose|g: Seq<char>| #[trigger] c.has_field(t, g) && c.field_spec(t, g).type_of@ == x;
                    assert(entered(vis, out, t));
                } else {
                    let (y, g) = choose|y: Seq<char>, g: Seq<char>|
                        entered(vis.insert(t), out, y) && #[trigger] c.has_field(y, g) && c.field_spec(y, g).type_of@ == x;
                    assert(entered(vis, out, y));
                }
            }
        }
    }
}

proof fn lemma_npo_fields_entered(
    c: Config,
    p: Seq<Seq<char>>,
    t: Seq<char>,
    fs: Seq<(String, crate::config::Field)>,
    k: int,
    is_list: bool,
    vis: Set<Seq<char>>,
    acc: Seq<Seq<Seq<char>>>,
    n: nat,
)
    requires
        c.wf(),
        c.types.as_map().contains_key(t),
        fs == c.types.as_map()[t].fields.entries@,
        0 <= k,
    ensures
        vis.subset_of(npo_fields(c, p, t, fs, k, is_list, vis, acc, n).1),
        forall|x: Seq<char>| #[trigger] entered(vis, npo_fields(c, p, t, fs, k, is_list, vis, acc, n).1, x) ==> (exists|g: Seq<char>|
            #[trigger] c.has_field(t, g) && c.field_spec(t, g).type_of@ == x) || exists|y: Seq<char>, g: Seq<char>|
            entered(vis, npo_fields(c, p, t, fs, k, is_list, vis, acc, n).1, y) && #[trigger] c.has_field(y, g)
                && c.field_spec(y, g).type_of@ == x,
    decreases n, fs.len() - k,
{
    if k < fs.len() {
        let (name, f) = fs[k];
        let np = p.push(name@);
        let acc1 = if f.spec_has_resolver() && !f.spec_has_batched_resolver() && is_list { seq![np] + acc } else { acc };
        let sub = if n == 0 { (Seq::empty(), vis) } else { npo_walk(c, np, f.type_of@, is_list || f.list, vis, (n - 1) as nat) };
        crate::config::n_plus_one::lemma_type_fields(c, t, k);
        if n > 0 {
            lemma_npo_walk_entered(c, np, f.type_of@, is_list || f.list, vis, (n - 1) as nat);
        }
        lemma_npo_fields_entered(c, p, t, fs, k + 1, is_list, sub.1, acc1 + sub.0, n);
        let out = npo_fields(c, p, t, fs, k, is_list, vis, acc, n).1;
        assert(out == npo_fields(c, p, t, fs, k + 1, is_list, sub.1, acc1 + sub.0, n).1);
        assert forall|x: Seq<char>| #[trigger] entered(vis, out, x) implies (exists|g: Seq<char>|
            #[trigger] c.has_field(t, g) && c.field_spec(t, g).type_of@ == x) || exists|y: Seq<char>, g: Seq<char>|
            entered(vis, out, y) && #[trigger] c.has_field(y, g) && c.field_spec(y, g).type_of@ == x by {
            if entered(sub.1, out, x) {
                if !(exists|g: Seq<char>| #[trigger] c.has_field(t, g) && c.field_spec(t, g).type_of@ == x) {
                    let (y, g) = choose|y: Seq<char>, g: Seq<char>|
                        entered(sub.1, out, y) && #[trigger] c.has_field(y, g) && c.field_spec(y, g).type_of@ == x;
                    assert(entered(vis, out, y));
                }
            } else {
                assert(entered(vis, sub.1, x));
                if x == f.type_of@ {
                    assert(c.has_field(t, name@) && c.field_spec(t, name@).type_of@ == x);
                } else {
                    let (y, g) = choose|y: Seq<char>, g: Seq<char>|
                        entered(vis, sub.1, y) && #[trigger] c.has_field(y, g) && c.field_spec(y, g).type_of@ == x;
                    assert(entered(vis, out, y));
                }
            }
        }
    }
}

/// A path of fields from type `ts[0]`: field `fs[k]` of type `ts[k]`
/// names type `ts[k + 1]`, and the last field has a resolver that is not
/// batched and is reached through a list.
pub open spec fn npo_chain(c: Config, ts: Seq<Seq<char>>, fs: Seq<Seq<char>>) -> bool {
    let m = ts.len() - 1;
    &&& ts.len() > 0
    &&& fs.len() == ts.len()
    &&& forall|k: int| 0 <= k < ts.len() ==> #[trigger] c.has_field(ts[k], fs[k])
    &&& forall|k: int| 0 <= k < m ==> #[trigger] c.field_spec(ts[k], fs[k]).type_of@ == ts[k + 1]
    &&& c.field_spec(ts[m], fs[m]).spec_has_resolver()
    &&& !c.field_spec(ts[m], fs[m]).spec_has_batched_resolver()
    &&& list_before(c, ts, fs, m)
}

/// A walk from a type that is not one of the chain's enters none of the
/// chain's types.
proof fn lemma_npo_walk_misses_chain(
    c: Config,
    ts: Seq<Seq<char>>,
    fs: Seq<Seq<char>>,
    p: Seq<Seq<char>>,
    u: Seq<char>,
    is_list: bool,
    vis: Set<Seq<char>>,
    n: nat,
    k: int,
)
    requires
        c.wf(),
        fs.len() == ts.len(),
        chain_alone(c, ts, fs),
        forall|i: int| 0 <= i < ts.len() ==> ts[i] != u,
        0 <= k < ts.len(),
    ensures
        !entered(vis, npo_walk(c, p, u, is_list, vis, n).1, ts[k]),
    decreases k,
{
    lemma_npo_walk_entered(c, p, u, is_list, vis, n);
    let out = npo_walk(c, p, u, is_list, vis, n).1;
    if k > 0 {
        lemma_npo_walk_misses_chain(c, ts, fs, p, u, is_list, vis, n, k - 1);
    }
    if entered(vis, out, ts[k]) {
        assert(ts[k] != u);
        let (y, g) = choose|y: Seq<char>, g: Seq<char>|
            entered(vis, out, y) && #[trigger] c.has_field(y, g) && c.field_spec(y, g).type_of@ == ts[k];
        if k == 0 {
            assert(c.field_spec(y, g).type_of@ != ts[0]);
        } else {
            assert(y == ts[k - 1]);
        }
    }
}

/// The paths found by walking fields keep those found before.
proof fn lemma_npo_fields_keeps(
    c: Config,
    p: Seq<Seq<char>>,
    t: Seq<char>,
    fs: Seq<(String, crate::config::Field)>,
    k: int,
    is_list: bool,
    vis: Set<Seq<char>>,
    acc: Seq<Seq<Seq<char>>>,
    n: nat,
    x: Seq<Seq<char>>,
)
    requires
        acc.contains(x),
    ensures
        npo_fields(c, p, t, fs, k, is_list, vis, acc, n).0.contains(x),
    decreases fs.len() - k,
{
    if 0 <= k < fs.len() {
        let (name, f) = fs[k];
        let np = p.push(name@);
        let acc1 = if f.spec_has_resolver() && !f.spec_has_batched_resolver() && is_list { seq![np] + acc } else { acc };
        let sub = if n == 0 { (Seq::empty(), vis) } else { npo_walk(c, np, f.type_of@, is_list || f.list, vis, (n - 1) as nat) };
        let i = choose|i: int| 0 <= i < acc.len() && acc[i] == x;
        if f.spec_has_resolver() && !f.spec_has_batched_resolver() && is_list {
            assert(acc1[i + 1] == x);
        }
        let a2 = acc1 + sub.0;
        let i1 = choose|i1: int| 0 <= i1 < acc1.len() && acc1[i1] == x;
        assert(a2[i1] == x);
        lemma_npo_fields_keeps(c, p, t, fs, k + 1, is_list, sub.1, a2, n, x);
    }
}

/// Walking the chain's type `ts[i]`, reached by the chain's first `i`
/// fields, with none of the chain's types from `i` on entered yet and
/// depth enough, finds the chain's path.
proof fn lemma_npo_chain(
    c: Config,
    ts: Seq<Seq<char>>,
    fs: Seq<Seq<char>>,
    i: int,
    vis: Set<Seq<char>>,
    n: nat,
)
    requires
        c.wf(),
        npo_chain(c, ts, fs),
        chain_alone(c, ts, fs),
        0 <= i < ts.len(),
        forall|k: int| i <= k < ts.len() ==> !vis.contains(#[trigger] ts[k]),
        n >= ts.len() - 1 - i,
    ensures
        npo_walk(c, fs.take(i), ts[i], list_before(c, ts, fs, i), vis, n).0.contains(fs),
    decreases ts.len() - i, c.types.as_map()[ts[i]].fields.entries@.len() + 1,
{
    assert(c.has_field(ts[i], fs[i]));
    assert(c.types.as_map().contains_key(ts[i]));
    let fsq = c.types.as_map()[ts[i]].fields.entries@;
    let l = list_before(c, ts, fs, i);
    assert(npo_walk(c, fs.take(i), ts[i], l, vis, n) == npo_fields(c, fs.take(i), ts[i], fsq, 0, l, vis.insert(ts[i]), Seq::empty(), n));
    lemma_npo_fields_chain(c, ts, fs, i, 0, vis.insert(ts[i]), Seq::empty(), n);
}

proof fn lemma_npo_fields_chain(
    c: Config,
    ts: Seq<Seq<char>>,
    fs: Seq<Seq<char>>,
    i: int,
    j: int,
    vis: Set<Seq<char>>,
    acc: Seq<Seq<Seq<char>>>,
    n: nat,
)
    requires
        c.wf(),
        npo_chain(c, ts, fs),
        chain_alone(c, ts, fs),
        0 <= i < ts.len(),
        c.types.as_map().contains_key(ts[i]),
        0 <= j <= c.types.as_map()[ts[i]].fields.pos(fs[i]),
        forall|k: int| i < k < ts.len() ==> !vis.contains(#[trigger] ts[k]),
        n >= ts.len() - 1 - i,
    ensures
        npo_fields(c, fs.take(i), ts[i], c.types.as_map()[ts[i]].fields.entries@, j, list_before(c, ts, fs, i), vis, acc, n).0.contains(fs),
    decreases ts.len() - i, c.types.as_map()[ts[i]].fields.entries@.len() - j,
{
    let t = ts[i];
    let p = fs.take(i);
    let fields = c.types.as_map()[t].fields;
    let fsq = fields.entries@;
    let l = list_before(c, ts, fs, i);
    assert(c.has_field(ts[i], fs[i]));
    let ti = c.types.pos(t);
    c.types.lemma_at(ti);
    assert(c.types.get_spec(t).unwrap() == c.types.as_map()[t]);
    assert(fields.has(fs[i]));
    let jc = fields.pos(fs[i]);
    assert(fsq[jc].0@ == fs[i]);
    crate::config::n_plus_one::lemma_type_fields(c, t, j);
    let (name, f) = fsq[j];
    let np = p.push(name@);
    let acc1 = if f.spec_has_resolver() && !f.spec_has_batched_resolver() && l { seq![np] + acc } else { acc };
    let sub = if n == 0 { (Seq::empty(), vis) } else { npo_walk(c, np, f.type_of@, l || f.list, vis, (n - 1) as nat) };
    let out = npo_fields(c, p, t, fsq, j, l, vis, acc, n);
    assert(out == npo_fields(c, p, t, fsq, j + 1, l, sub.1, acc1 + sub.0, n));
    if j < jc {
        fields.lemma_at(j);
        assert(name@ != fs[i]);
        if n > 0 {
            let u = f.type_of@;
            assert(c.has_field(t, name@));
            assert(c.field_spec(t, name@).type_of@ == u);
            assert forall|k: int| 0 <= k < ts.len() implies ts[k] != u by {
                if ts[k] == u {
                    if k == 0 {
                        assert(c.field_spec(t, name@).type_of@ != ts[0]);
                    } else {
                        assert(t == ts[k - 1] && name@ == fs[k - 1]);
                        if k - 1 != i {
                            assert(ts[i] != ts[k - 1] || ts[k - 1] != ts[i]);
                        }
                    }
                }
            }
            assert forall|k: int| i < k < ts.len() implies !sub.1.contains(#[trigger] ts[k]) by {
                lemma_npo_walk_misses_chain(c, ts, fs, np, u, l || f.list, vis, (n - 1) as nat, k);
            }
        }
        lemma_npo_fields_chain(c, ts, fs, i, j + 1, sub.1, acc1 + sub.0, n);
    } else {
        assert(j == jc);
        assert(name@ == fs[i]);
        assert(f == c.field_spec(ts[i], fs[i]));
        let m = ts.len() - 1;
        assert(np == fs.take(i + 1));
        if i == m {
            assert(fs.take(i + 1) =~= fs);
            assert(f.spec_has_resolver() && !f.spec_has_batched_resolver() && l);
            assert(acc1 == seq![np] + acc);
            assert(acc1[0] == fs);
            assert((acc1 + sub.0)[0] == fs);
        } else {
            assert(n > 0);
            lemma_list_before_next(c, ts, fs, i);
            assert(f.type_of@ == ts[i + 1]);
            lemma_npo_chain(c, ts, fs, i + 1, vis, (n - 1) as nat);
            assert(sub.0.contains(fs));
            let x = choose|x: int| 0 <= x < sub.0.len() && sub.0[x] == fs;
            assert((acc1 + sub.0)[acc1.len() + x] == fs);
        }
        lemma_npo_fields_keeps(c, p, t, fsq, j + 1, l, sub.1, acc1 + sub.0, n, fs);
    }
}

/// Every path of fields from a type to a resolver that is not batched and
/// is reached through a list, where no other field leads to the path's
/// types, is found by the walk from that type.
pub proof fn law_npo_complete(c: Config, ts: Seq<Seq<char>>, fs: Seq<Seq<char>>)
    requires
        c.wf(),
        npo_chain(c, ts, fs),
        chain_alone(c, ts, fs),
    ensures
        npo_walk(c, Seq::empty(), ts[0], false, Set::empty(), type_names(c).len()).0.contains(fs),
{
    assert(ts.no_duplicates()) by {
        assert forall|a: int, b: int| 0 <= a < ts.len() && 0 <= b < ts.len() && a != b implies ts[a] != ts[b] by {
            if a < b {
                assert(ts[a] != ts[b]);
            } else {
                assert(ts[b] != ts[a]);
            }
        }
    }
    ts.unique_seq_to_set();
    assert forall|x: Seq<char>| ts.to_set().contains(x) implies type_names(c).contains(x) by {
        let k = choose|k: int| 0 <= k < ts.len() && ts[k] == x;
        assert(c.has_field(ts[k], fs[k]));
        let i = c.types.pos(x);
        c.types.lemma_at(i);
        assert(c.types.keys()[i] == x);
    }
    vstd::set_lib::lemma_len_subset(ts.to_set(), type_names(c));
    assert(!list_before(c, ts, fs, 0));
    assert(fs.take(0) =~= Seq::<Seq<char>>::empty());
    lemma_npo_chain(c, ts, fs, 0, Set::empty(), type_names(c).len());
}

} // verus!
