//! What merging alike types is made of: a count of how alike two types'
//! fields are, and the merge of one type into another.

use vstd::prelude::*;
use crate::config::{AddField, Arg, Config, Field, Type, Union};
use crate::strset::StrSet;
use crate::config::transformer::rename_types::lemma_same_keys;
use crate::config::copies::{copy_field, same_field};
use crate::config::static_config::merge::copy_strings;
use crate::strmap::StrMap;
use crate::strings::{concat_str, str_eq};
use crate::config::transformer::pair_set::PairSet;

verus! {

/// `b` is a copy of `a`.
pub open spec fn same_add_field(a: AddField, b: AddField) -> bool {
    b.name == a.name && b.path@ == a.path@
}

/// `r` is `into` with the fields, added fields and interfaces of `t`
/// merged in: a field of `t` replaces one of the same name.
pub open spec fn merged_type(t: Type, into: Type, r: Type) -> bool {
    &&& r.fields.wf()
    &&& forall|k: Seq<char>| #[trigger] r.fields.as_map().contains_key(k)
        <==> (into.fields.as_map().contains_key(k) || t.fields.as_map().contains_key(k))
    &&& forall|k: Seq<char>| #[trigger] t.fields.as_map().contains_key(k)
        ==> same_field(t.fields.as_map()[k], r.fields.as_map()[k])
    &&& forall|k: Seq<char>| #[trigger] into.fields.as_map().contains_key(k) && !t.fields.as_map().contains_key(k)
        ==> r.fields.as_map()[k] == into.fields.as_map()[k]
    &&& r.added_fields@.len() == into.added_fields@.len() + t.added_fields@.len()
    &&& forall|i: int| 0 <= i < into.added_fields@.len() ==> #[trigger] r.added_fields@[i] == into.added_fields@[i]
    &&& forall|i: int| 0 <= i < t.added_fields@.len()
        ==> same_add_field(#[trigger] t.added_fields@[i], r.added_fields@[into.added_fields@.len() + i])
    &&& r.implements.wf()
    &&& r.implements.as_set() == into.implements.as_set().union(t.implements.as_set())
    &&& r.tag == into.tag
    &&& r.resolvers == into.resolvers
    &&& r.doc == into.doc
}

/// Merges `type_` into `merge_into`.
pub fn merge_type(type_: &Type, merge_into: Type) -> (r: Type)
    requires
        type_.fields.wf(),
        merge_into.fields.wf(),
        merge_into.implements.wf(),
    ensures
        merged_type(*type_, merge_into, r),
{
    let ghost into = merge_into;
    let mut r = merge_into;
    let n = type_.fields.entries.len();
    let mut i: usize = 0;
    while i < n
        invariant
            type_.fields.wf(),
            n == type_.fields.entries@.len(),
            i <= n,
            r.fields.wf(),
            r.added_fields == into.added_fields,
            r.implements == into.implements,
            r.tag == into.tag,
            r.resolvers == into.resolvers,
            r.doc == into.doc,
            forall|k: Seq<char>| #[trigger] r.fields.as_map().contains_key(k)
                <==> (into.fields.as_map().contains_key(k) || exists|j: int| 0 <= j < i && #[trigger] type_.fields.entries@[j].0@ == k),
            forall|j: int| 0 <= j < i ==> same_field(
                (#[trigger] type_.fields.entries@[j]).1,
                r.fields.as_map()[type_.fields.entries@[j].0@],
            ),
            forall|k: Seq<char>| #[trigger] into.fields.as_map().contains_key(k)
                && !(exists|j: int| 0 <= j < i && #[trigger] type_.fields.entries@[j].0@ == k)
                ==> r.fields.as_map()[k] == into.fields.as_map()[k],
        decreases n - i,
    {
        let ghost before = r.fields.as_map();
        let f = copy_field(&type_.fields.entries[i].1);
        r.fields.insert(type_.fields.entries[i].0.clone(), f);
        proof {
            let ki = type_.fields.entries@[i as int].0@;
            assert forall|k: Seq<char>| #[trigger] r.fields.as_map().contains_key(k)
                <==> (into.fields.as_map().contains_key(k) || exists|j: int| 0 <= j < i + 1 && #[trigger] type_.fields.entries@[j].0@ == k) by {
                if k == ki {
                    assert(type_.fields.entries@[i as int].0@ == k);
                } else if exists|j: int| 0 <= j < i + 1 && #[trigger] type_.fields.entries@[j].0@ == k {
                    let j = choose|j: int| 0 <= j < i + 1 && #[trigger] type_.fields.entries@[j].0@ == k;
                    assert(j != i);
                }
            }
            assert forall|j: int| 0 <= j < i + 1 implies same_field(
                (#[trigger] type_.fields.entries@[j]).1,
                r.fields.as_map()[type_.fields.entries@[j].0@],
            ) by {
                if j < i {
                    if type_.fields.entries@[j].0@ == ki {
                        type_.fields.lemma_unique(j, i as int);
                    }
                }
            }
            assert forall|k: Seq<char>| #[trigger] into.fields.as_map().contains_key(k)
                && !(exists|j: int| 0 <= j < i + 1 && #[trigger] type_.fields.entries@[j].0@ == k)
                implies r.fields.as_map()[k] == into.fields.as_map()[k] by {
                assert(k != ki) by {
                    if k == ki {
                        assert(type_.fields.entries@[i as int].0@ == k);
                    }
                }
                assert(!(exists|j: int| 0 <= j < i && #[trigger] type_.fields.entries@[j].0@ == k)) by {
                    if exists|j: int| 0 <= j < i && #[trigger] type_.fields.entries@[j].0@ == k {
                        let j = choose|j: int| 0 <= j < i && #[trigger] type_.fields.entries@[j].0@ == k;
                        assert(0 <= j < i + 1 && type_.fields.entries@[j].0@ == k);
                    }
                }
            }
        }
        i = i + 1;
    }
    let ghost rf = r.fields;
    let m = type_.added_fields.len();
    let mut j: usize = 0;
    while j < m
        invariant
            r.fields == rf,
            r.implements == into.implements,
            r.tag == into.tag,
            r.resolvers == into.resolvers,
            r.doc == into.doc,
            m == type_.added_fields@.len(),
            j <= m,
            r.added_fields@.len() == into.added_fields@.len() + j,
            forall|x: int| 0 <= x < into.added_fields@.len() ==> #[trigger] r.added_fields@[x] == into.added_fields@[x],
            forall|x: int| 0 <= x < j ==> same_add_field(
                #[trigger] type_.added_fields@[x],
                r.added_fields@[into.added_fields@.len() + x],
            ),
        decreases m - j,
    {
        let a = &type_.added_fields[j];
        r.added_fields.push(AddField { name: a.name.clone(), path: copy_strings(&a.path) });
        j = j + 1;
    }
    r.implements.extend(&type_.implements);
    proof {
        assert forall|k: Seq<char>| #[trigger] type_.fields.as_map().contains_key(k)
            implies same_field(type_.fields.as_map()[k], r.fields.as_map()[k]) by {
            let p = type_.fields.pos(k);
            type_.fields.lemma_at(p);
            assert(same_field(type_.fields.entries@[p].1, r.fields.as_map()[type_.fields.entries@[p].0@]));
        }
        assert forall|k: Seq<char>| #[trigger] r.fields.as_map().contains_key(k)
            <==> (into.fields.as_map().contains_key(k) || type_.fields.as_map().contains_key(k)) by {
            if exists|j: int| 0 <= j < n && #[trigger] type_.fields.entries@[j].0@ == k {
                let j = choose|j: int| 0 <= j < n && #[trigger] type_.fields.entries@[j].0@ == k;
                type_.fields.lemma_at(j);
            }
            if type_.fields.as_map().contains_key(k) {
                let p = type_.fields.pos(k);
                type_.fields.lemma_at(p);
            }
        }
        assert forall|k: Seq<char>| #[trigger] into.fields.as_map().contains_key(k) && !type_.fields.as_map().contains_key(k)
            implies r.fields.as_map()[k] == into.fields.as_map()[k] by {
            if exists|j: int| 0 <= j < n && #[trigger] type_.fields.entries@[j].0@ == k {
                let j = choose|j: int| 0 <= j < n && #[trigger] type_.fields.entries@[j].0@ == k;
                type_.fields.lemma_at(j);
            }
        }
    }
    r
}

/// A count taken modulo 2^32, as a `u32` that wraps holds it.
pub open spec fn wrap(x: int) -> u32 {
    (x % 0x1_0000_0000) as u32
}

/// How many pairs `(ks[a], ks[b])` with `b < m` are not in `vis`.
pub open spec fn row_unvisited(ks: Seq<Seq<char>>, vis: Set<(Seq<char>, Seq<char>)>, a: int, m: nat) -> nat
    decreases m,
{
    if m == 0 {
        0
    } else {
        row_unvisited(ks, vis, a, (m - 1) as nat) + if vis.contains((ks[a], ks[m - 1])) { 0nat } else { 1nat }
    }
}

/// How many pairs `(ks[a], ks[b])` with `a < m` are not in `vis`.
pub open spec fn unvisited(ks: Seq<Seq<char>>, vis: Set<(Seq<char>, Seq<char>)>, m: nat) -> nat
    decreases m,
{
    if m == 0 {
        0
    } else {
        unvisited(ks, vis, (m - 1) as nat) + row_unvisited(ks, vis, m - 1, ks.len())
    }
}

proof fn lemma_row_mono(ks: Seq<Seq<char>>, v1: Set<(Seq<char>, Seq<char>)>, v2: Set<(Seq<char>, Seq<char>)>, a: int, m: nat)
    requires
        v1.subset_of(v2),
    ensures
        row_unvisited(ks, v2, a, m) <= row_unvisited(ks, v1, a, m),
    decreases m,
{
    if m > 0 {
        lemma_row_mono(ks, v1, v2, a, (m - 1) as nat);
    }
}

proof fn lemma_unvisited_mono(ks: Seq<Seq<char>>, v1: Set<(Seq<char>, Seq<char>)>, v2: Set<(Seq<char>, Seq<char>)>, m: nat)
    requires
        v1.subset_of(v2),
    ensures
        unvisited(ks, v2, m) <= unvisited(ks, v1, m),
    decreases m,
{
    if m > 0 {
        lemma_unvisited_mono(ks, v1, v2, (m - 1) as nat);
        lemma_row_mono(ks, v1, v2, m - 1, ks.len());
    }
}

proof fn lemma_row_strict(ks: Seq<Seq<char>>, v: Set<(Seq<char>, Seq<char>)>, a: int, b: int, m: nat)
    requires
        0 <= b < m,
        !v.contains((ks[a], ks[b])),
    ensures
        row_unvisited(ks, v.insert((ks[a], ks[b])), a, m) < row_unvisited(ks, v, a, m),
    decreases m,
{
    let w = v.insert((ks[a], ks[b]));
    if b < m - 1 {
        lemma_row_strict(ks, v, a, b, (m - 1) as nat);
    } else {
        lemma_row_mono(ks, v, w, a, (m - 1) as nat);
    }
}

proof fn lemma_unvisited_strict(ks: Seq<Seq<char>>, v: Set<(Seq<char>, Seq<char>)>, a: int, b: int, m: nat)
    requires
        0 <= a < m,
        0 <= b < ks.len(),
        !v.contains((ks[a], ks[b])),
    ensures
        unvisited(ks, v.insert((ks[a], ks[b])), m) < unvisited(ks, v, m),
    decreases m,
{
    let w = v.insert((ks[a], ks[b]));
    if a < m - 1 {
        lemma_unvisited_strict(ks, v, a, b, (m - 1) as nat);
        lemma_row_mono(ks, v, w, m - 1, ks.len());
    } else {
        lemma_unvisited_mono(ks, v, w, (m - 1) as nat);
        lemma_row_strict(ks, v, a, b, ks.len());
    }
}

/// How alike the fields of `t1` from position `j` on are to those of `t2`:
/// the count of alike fields, the change to the count of fields, and the
/// pairs of types compared so far. A field present in both with the same
/// type counts twice; with two types of the configuration that were
/// compared before, in either order, it counts twice too; with two types
/// not compared yet, the comparison of those types counts in its place.
pub open spec fn dist_from(
    c: Config,
    t1: Type,
    t2: Type,
    j: int,
    vis: Set<(Seq<char>, Seq<char>)>,
    n: nat,
) -> (int, int, Set<(Seq<char>, Seq<char>)>)
    decreases n, t1.fields.entries@.len() - j,
{
    if j < 0 || j >= t1.fields.entries@.len() {
        (0, 0, vis)
    } else {
        let (name, f1) = t1.fields.entries@[j];
        let step: (int, int, Set<(Seq<char>, Seq<char>)>) = if t2.fields.as_map().contains_key(name@) {
            let f2 = t2.fields.as_map()[name@];
            let a = f1.type_of@;
            let b = f2.type_of@;
            if a == b {
                (2, 0, vis)
            } else if c.types.as_map().contains_key(a) && c.types.as_map().contains_key(b) {
                if vis.contains((a, b)) || vis.contains((b, a)) {
                    (2, 0, vis)
                } else if n == 0 {
                    (0, 0, vis)
                } else {
                    let r = dist(c, c.types.as_map()[a], c.types.as_map()[b], vis.insert((a, b)), (n - 1) as nat);
                    (r.0, r.1 - 2, r.2)
                }
            } else {
                (0, 0, vis)
            }
        } else {
            (0, 0, vis)
        };
        let rest = dist_from(c, t1, t2, j + 1, step.2, n);
        (step.0 + rest.0, step.1 + rest.1, rest.2)
    }
}

/// How alike `t1` is to `t2`: the count of alike fields, the count of
/// fields, and the pairs of types compared, starting from `vis`.
pub open spec fn dist(
    c: Config,
    t1: Type,
    t2: Type,
    vis: Set<(Seq<char>, Seq<char>)>,
    n: nat,
) -> (int, int, Set<(Seq<char>, Seq<char>)>)
    decreases n, t1.fields.entries@.len() + 1,
{
    let r = dist_from(c, t1, t2, 0, vis, n);
    (r.0, r.1 + t1.fields.entries@.len() + t2.fields.entries@.len(), r.2)
}

proof fn lemma_wrap_add(a: int, b: int)
    ensures
        vstd::wrapping::u32_specs::wrapping_add(wrap(a), wrap(b)) == wrap(a + b),
{
    vstd::arithmetic::div_mod::lemma_add_mod_noop(a, b, 0x1_0000_0000);
}

proof fn lemma_wrap_sub2(a: int)
    ensures
        vstd::wrapping::u32_specs::wrapping_sub(wrap(a), 2) == wrap(a - 2),
{
    vstd::arithmetic::div_mod::lemma_sub_mod_noop(a, 2, 0x1_0000_0000);
}

/// How alike the fields of two types are: twice the count of alike fields
/// present in both, and the count of fields of both. The counts wrap at
/// 2^32.
#[derive(Debug, Default)]
pub struct TypeFieldStat {
    pub same_field_count: u32,
    pub total_field_count: u32,
}

/// Compares types of a configuration.
pub struct StatGenerator<'a> {
    config: &'a Config,
}

/// The pairs of type names compared so far, in either order.
struct VisitedTypes {
    visited: PairSet,
}

impl<'a> StatGenerator<'a> {
    /// The configuration whose types are compared.
    pub closed spec fn config_spec(&self) -> Config {
        *self.config
    }

    /// Compares types of `config`.
    pub fn new(config: &'a Config) -> (r: StatGenerator<'a>)
        ensures
            r.config_spec() == *config,
    {
        StatGenerator { config }
    }

    /// How alike `type_1` is to `type_2`: see `dist`, started from no
    /// compared pair.
    pub fn calculate_distance(&self, type_1: &Type, type_2: &Type) -> (r: TypeFieldStat)
        requires
            self.config_spec().wf(),
            type_1.fields.wf(),
            type_2.fields.wf(),
        ensures
            ({
                let ks = self.config_spec().types.keys();
                let d = dist(self.config_spec(), *type_1, *type_2, Set::empty(), unvisited(ks, Set::empty(), ks.len()));
                r.same_field_count == wrap(d.0) && r.total_field_count == wrap(d.1)
            }),
    {
        let mut visited = VisitedTypes { visited: PairSet::new() };
        let ghost ks = self.config.types.keys();
        self.calculate_distance_inner(type_1, type_2, &mut visited, Ghost(unvisited(ks, Set::empty(), ks.len())))
    }

    fn calculate_distance_inner(
        &self,
        type_1: &Type,
        type_2: &Type,
        visited_type: &mut VisitedTypes,
        Ghost(n): Ghost<nat>,
    ) -> (r: TypeFieldStat)
        requires
            self.config.wf(),
            type_1.fields.wf(),
            type_2.fields.wf(),
            n >= unvisited(self.config.types.keys(), old(visited_type).visited.pairs(), self.config.types.keys().len()),
        ensures
            ({
                let d = dist(*self.config, *type_1, *type_2, old(visited_type).visited.pairs(), n);
                &&& r.same_field_count == wrap(d.0)
                &&& r.total_field_count == wrap(d.1)
                &&& final(visited_type).visited.pairs() == d.2
            }),
            old(visited_type).visited.pairs().subset_of(final(visited_type).visited.pairs()),
        decreases n,
    {
        let config: &Config = self.config;
        let ghost c = *config;
        let ghost ks = c.types.keys();
        let ghost vis0 = visited_type.visited.pairs();
        let ghost whole = dist_from(c, *type_1, *type_2, 0, vis0, n);
        proof {
            c.types.lemma_all_values(|t: Type| t.wf());
        }
        let mut same: u32 = 0;
        let mut total: u32 = 0;
        let ghost mut acc_s: int = 0;
        let ghost mut acc_t: int = 0;
        let len1 = type_1.fields.entries.len();
        let mut j: usize = 0;
        while j < len1
            invariant
                self.config == config,
                c == *config,
                c.wf(),
                ks == c.types.keys(),
                forall|k: Seq<char>| #[trigger] c.types.as_map().contains_key(k) ==> c.types.as_map()[k].wf(),
                type_1.fields.wf(),
                type_2.fields.wf(),
                len1 == type_1.fields.entries@.len(),
                j <= len1,
                n >= unvisited(ks, visited_type.visited.pairs(), ks.len()),
                vis0.subset_of(visited_type.visited.pairs()),
                whole == dist_from(c, *type_1, *type_2, 0, vis0, n),
                ({
                    let rest = dist_from(c, *type_1, *type_2, j as int, visited_type.visited.pairs(), n);
                    &&& whole.0 == acc_s + rest.0
                    &&& whole.1 == acc_t + rest.1
                    &&& whole.2 == rest.2
                }),
                same == wrap(acc_s),
                total == wrap(acc_t),
            decreases len1 - j,
        {
            let ghost vj = visited_type.visited.pairs();
            let name = &type_1.fields.entries[j].0;
            let field_1 = &type_1.fields.entries[j].1;
            match type_2.fields.get(name.as_str()) {
                Some(field_2) => {
                    let a = &field_1.type_of;
                    let b = &field_2.type_of;
                    if crate::strings::str_eq(a.as_str(), b.as_str()) {
                        proof {
                            lemma_wrap_add(acc_s, 2);
                            acc_s = acc_s + 2;
                        }
                        same = same.wrapping_add(2);
                    } else {
                        match config.types.get(a.as_str()) {
                            Some(type_a) => {
                                match config.types.get(b.as_str()) {
                                    Some(type_b) => {
                                        if visited_type.visited.contains(a.as_str(), b.as_str()) {
                                            proof {
                                                lemma_wrap_add(acc_s, 2);
                                                acc_s = acc_s + 2;
                                            }
                                            same = same.wrapping_add(2);
                                        } else {
                                            proof {
                                                let ia = c.types.pos(a@);
                                                let ib = c.types.pos(b@);
                                                assert(ks[ia] == a@);
                                                assert(ks[ib] == b@);
                                                lemma_unvisited_strict(ks, vj, ia, ib, ks.len());
                                            }
                                            visited_type.visited.insert(a.clone(), b.clone());
                                            let metric = self.calculate_distance_inner(
                                                type_a,
                                                type_b,
                                                visited_type,
                                                Ghost((n - 1) as nat),
                                            );
                                            let ghost d = dist(c, *type_a, *type_b, vj.insert((a@, b@)), (n - 1) as nat);
                                            proof {
                                                lemma_wrap_sub2(acc_t);
                                                lemma_wrap_add(acc_s, d.0);
                                                lemma_wrap_add(acc_t - 2, d.1);
                                                acc_s = acc_s + d.0;
                                                acc_t = acc_t - 2 + d.1;
                                                lemma_unvisited_mono(ks, vj, visited_type.visited.pairs(), ks.len());
                                            }
                                            total = total.wrapping_sub(2);
                                            same = same.wrapping_add(metric.same_field_count);
                                            total = total.wrapping_add(metric.total_field_count);
                                        }
                                    },
                                    None => {},
                                }
                            },
                            None => {},
                        }
                    }
                },
                None => {},
            }
            j = j + 1;
        }
        let len2 = type_2.fields.entries.len();
        proof {
            lemma_wrap_add(acc_t, len1 as int);
            lemma_wrap_add(acc_t + len1, len2 as int);
        }
        total = total.wrapping_add((len1 as u64 % 0x1_0000_0000u64) as u32);
        total = total.wrapping_add((len2 as u64 % 0x1_0000_0000u64) as u32);
        TypeFieldStat { same_field_count: same, total_field_count: total }
    }
}

/// The name of the query type, empty when the schema has none.
pub open spec fn query_type_name(c: Config) -> Seq<char> {
    match c.schema.query {
        Some(q) => q@,
        None => Seq::empty(),
    }
}

/// The group led by type `a`, grown by the types from position `b` on that
/// are not taken yet, not `a`, not the query type, and alike to `a`; with
/// the types taken so far.
pub open spec fn grow(
    sim: Seq<Seq<bool>>,
    ks: Seq<Seq<char>>,
    q: Seq<char>,
    a: int,
    b: int,
    taken: Set<int>,
    g: Seq<int>,
) -> (Set<int>, Seq<int>)
    decreases ks.len() - b,
{
    if b < 0 || b >= ks.len() {
        (taken, g)
    } else if taken.contains(b) || b == a || ks[b] == q {
        grow(sim, ks, q, a, b + 1, taken, g)
    } else if sim[a][b] {
        grow(sim, ks, q, a, b + 1, taken.insert(b), g.push(b))
    } else {
        grow(sim, ks, q, a, b + 1, taken, g)
    }
}

/// The groups of alike types, from type `a` on: each type not taken yet
/// and not the query type leads a group; `i` counts the leaders so far,
/// and the candidates of a group start after position `i`.
pub open spec fn group_all(
    sim: Seq<Seq<bool>>,
    ks: Seq<Seq<char>>,
    q: Seq<char>,
    a: int,
    i: int,
    taken: Set<int>,
    gs: Seq<Seq<int>>,
) -> Seq<Seq<int>>
    decreases ks.len() - a,
{
    if a < 0 || a >= ks.len() {
        gs
    } else if taken.contains(a) || ks[a] == q {
        group_all(sim, ks, q, a + 1, i, taken, gs)
    } else {
        let (t2, g) = grow(sim, ks, q, a, i + 1, taken, seq![a]);
        group_all(sim, ks, q, a + 1, i + 1, t2, if g.len() > 1 { gs.push(g) } else { gs })
    }
}

/// The groups of alike types of the configuration; `sim[a][b]` tells
/// whether type `b` is alike enough to type `a`.
pub open spec fn groups_of(c: Config, sim: Seq<Seq<bool>>) -> Seq<Seq<int>> {
    group_all(sim, c.types.keys(), query_type_name(c), 0, 0, Set::empty(), Seq::empty())
}

/// The matrix has a row and a column for each type.
pub open spec fn square(sim: Seq<Vec<bool>>, n: int) -> bool {
    &&& sim.len() == n
    &&& forall|a: int| 0 <= a < n ==> (#[trigger] sim[a])@.len() == n
}

/// The rows of the matrix.
pub open spec fn rows(sim: Seq<Vec<bool>>) -> Seq<Seq<bool>> {
    sim.map_values(|r: Vec<bool>| r@)
}

/// The groups of alike types.
fn group_types(c: &Config, similar: &Vec<Vec<bool>>) -> (r: Vec<Vec<usize>>)
    requires
        square(similar@, c.types.entries@.len() as int),
    ensures
        r@.len() == groups_of(*c, rows(similar@)).len(),
        forall|x: int| 0 <= x < r@.len() ==> (#[trigger] r@[x])@.len() == groups_of(*c, rows(similar@))[x].len()
            && forall|y: int| 0 <= y < r@[x]@.len() ==> r@[x]@[y] as int == groups_of(*c, rows(similar@))[x][y],
{
    let ghost ks = c.types.keys();
    let ghost sim = rows(similar@);
    let n = c.types.entries.len();
    let q: String = match &c.schema.query {
        Some(x) => x.clone(),
        None => String::new(),
    };
    let ghost target = groups_of(*c, sim);
    let mut taken: Vec<bool> = Vec::new();
    let mut z: usize = 0;
    while z < n
        invariant
            n == c.types.entries@.len(),
            z <= n,
            taken@.len() == z,
            forall|x: int| 0 <= x < z ==> !taken@[x],
        decreases n - z,
    {
        taken.push(false);
        z = z + 1;
    }
    let mut groups: Vec<Vec<usize>> = Vec::new();
    let ghost mut gs: Seq<Seq<int>> = Seq::empty();
    assert(Set::new(|x: int| 0 <= x < n && taken@[x]) =~= Set::<int>::empty());
    let mut i: usize = 0;
    let mut a: usize = 0;
    while a < n
        invariant
            n == c.types.entries@.len(),
            ks == c.types.keys(),
            ks.len() == n,
            sim == rows(similar@),
            square(similar@, n as int),
            q@ == query_type_name(*c),
            target == groups_of(*c, sim),
            a <= n,
            i <= a,
            taken@.len() == n,
            target == group_all(sim, ks, q@, a as int, i as int, Set::new(|x: int| 0 <= x < n && taken@[x]), gs),
            groups@.len() == gs.len(),
            forall|x: int| 0 <= x < groups@.len() ==> (#[trigger] groups@[x])@.len() == gs[x].len()
                && forall|y: int| 0 <= y < groups@[x]@.len() ==> groups@[x]@[y] as int == gs[x][y],
        decreases n - a,
    {
        let ghost tset = Set::new(|x: int| 0 <= x < n && taken@[x]);
        if taken[a] || str_eq(c.types.entries[a].0.as_str(), q.as_str()) {
            assert(tset.contains(a as int) || ks[a as int] == q@);
            a = a + 1;
        } else {
            let mut g: Vec<usize> = Vec::new();
            g.push(a);
            let ghost mut gv: Seq<int> = seq![a as int];
            let ghost grown = grow(sim, ks, q@, a as int, i + 1, tset, gv);
            let mut b: usize = i + 1;
            while b < n
                invariant
                    n == c.types.entries@.len(),
                    ks == c.types.keys(),
                    ks.len() == n,
                    sim == rows(similar@),
                    square(similar@, n as int),
                    a < n,
                    i + 1 <= b || b == i + 1,
                    b <= n || b == i + 1,
                    taken@.len() == n,
                    grown == grow(sim, ks, q@, a as int, b as int, Set::new(|x: int| 0 <= x < n && taken@[x]), gv),
                    g@.len() == gv.len(),
                    forall|y: int| 0 <= y < g@.len() ==> g@[y] as int == gv[y],
                decreases n - b,
            {
                let ghost t0 = Set::new(|x: int| 0 <= x < n && taken@[x]);
                assert(sim[a as int] == similar@[a as int]@);
                if taken[b] || b == a || str_eq(c.types.entries[b].0.as_str(), q.as_str()) {
                    assert(t0.contains(b as int) || b == a || ks[b as int] == q@);
                } else if similar[a][b] {
                    taken.set(b, true);
                    g.push(b);
                    proof {
                        assert(Set::new(|x: int| 0 <= x < n && taken@[x]) =~= t0.insert(b as int));
                        gv = gv.push(b as int);
                    }
                } else {
                }
                b = b + 1;
            }
            proof {
                if i + 1 > n {
                    assert(grow(sim, ks, q@, a as int, i + 1, tset, seq![a as int]) == (tset, seq![a as int]));
                }
            }
            let ghost gs0 = gs;
            if g.len() > 1 {
                groups.push(g);
                proof {
                    gs = gs.push(gv);
                }
            }
            proof {
                assert forall|x: int| 0 <= x < groups@.len() implies (#[trigger] groups@[x])@.len() == gs[x].len()
                    && forall|y: int| 0 <= y < groups@[x]@.len() ==> groups@[x]@[y] as int == gs[x][y] by {
                    if x < gs0.len() {
                    }
                }
            }
            i = i + 1;
            a = a + 1;
        }
    }
    groups
}

/// The name of the merged type numbered `k`.
pub open spec fn merged_name(k: int) -> Seq<char> {
    "M"@ + crate::strings::decimal(k as nat)
}

/// The names of the types at the positions of a group.
pub open spec fn group_names(ks: Seq<Seq<char>>, g: Seq<int>) -> Seq<Seq<char>> {
    g.map_values(|x: int| ks[x])
}

/// `ps` merges the types of `m` named `ns`, one after the other, into a
/// blank type.
pub open spec fn merge_steps(m: Map<Seq<char>, Type>, ns: Seq<Seq<char>>, ps: Seq<Type>) -> bool {
    &&& ps.len() == ns.len() + 1
    &&& ps[0].is_blank()
    &&& forall|k: int| 0 <= k < ns.len() ==> m.contains_key(ns[k]) && #[trigger] merged_type(m[ns[k]], ps[k], ps[k + 1])
}

/// `m2` is `m` with the merge of the types named `ns` added as merged type
/// number `k`.
pub open spec fn group_merged(m: Map<Seq<char>, Type>, m2: Map<Seq<char>, Type>, ns: Seq<Seq<char>>, k: int) -> bool {
    exists|ps: Seq<Type>| #[trigger] merge_steps(m, ns, ps) && m2 == m.insert(merged_name(k), ps.last())
}

/// The types after each group of `gs` was merged, numbering merged types
/// from `counter`.
pub open spec fn merge_chain(
    m0: Map<Seq<char>, Type>,
    ks: Seq<Seq<char>>,
    gs: Seq<Seq<int>>,
    counter: int,
    ms: Seq<Map<Seq<char>, Type>>,
) -> bool {
    &&& ms.len() == gs.len() + 1
    &&& ms[0] == m0
    &&& forall|j: int| 0 <= j < gs.len() ==> #[trigger] group_merged(ms[j], ms[j + 1], group_names(ks, gs[j]), counter + j)
}

/// Each type of the first `j` groups maps to the merged type of the last
/// of those groups it belongs to.
pub open spec fn mapping_upto(ks: Seq<Seq<char>>, gs: Seq<Seq<int>>, counter: int, j: nat) -> Map<Seq<char>, Seq<char>>
    decreases j,
{
    if j == 0 {
        Map::empty()
    } else {
        let ns = group_names(ks, gs[j - 1]);
        mapping_upto(ks, gs, counter, (j - 1) as nat).union_prefer_right(
            Map::new(|k: Seq<char>| ns.contains(k), |k: Seq<char>| merged_name(counter + j - 1)),
        )
    }
}

/// The name a type of the mapping takes, or the name itself.
pub open spec fn renamed_to(mp: Map<Seq<char>, Seq<char>>, t: Seq<char>) -> Seq<char> {
    if mp.contains_key(t) {
        mp[t]
    } else {
        t
    }
}

/// The names of a set, each renamed by `mp`.
pub open spec fn set_retyped(s: Set<Seq<char>>, mp: Map<Seq<char>, Seq<char>>) -> Set<Seq<char>> {
    s.map(|x: Seq<char>| renamed_to(mp, x))
}

/// `b` is the arguments `a` with their types renamed by `mp`.
pub open spec fn args_retyped(a: StrMap<Arg>, b: StrMap<Arg>, mp: Map<Seq<char>, Seq<char>>) -> bool {
    &&& b.keys() == a.keys()
    &&& b.entries@.len() == a.entries@.len()
    &&& forall|i: int| 0 <= i < a.entries@.len() ==> {
        let x = a.entries@[i].1;
        let y = (#[trigger] b.entries@[i]).1;
        &&& y == (Arg { type_of: y.type_of, ..x })
        &&& y.type_of@ == renamed_to(mp, x.type_of@)
    }
}

/// `u` is type `t` with the types of its fields and of their arguments, and
/// the interfaces it implements, renamed by `mp`.
pub open spec fn type_retyped(t: Type, u: Type, mp: Map<Seq<char>, Seq<char>>) -> bool {
    &&& u.fields.entries@.len() == t.fields.entries@.len()
    &&& forall|j: int| 0 <= j < t.fields.entries@.len() ==> {
        let (name, f) = t.fields.entries@[j];
        let g = (#[trigger] u.fields.entries@[j]).1;
        &&& u.fields.entries@[j].0 == name
        &&& g == (Field { type_of: g.type_of, args: g.args, ..f })
        &&& g.type_of@ == renamed_to(mp, f.type_of@)
        &&& args_retyped(f.args, g.args, mp)
    }
    &&& u.added_fields == t.added_fields
    &&& u.implements.wf()
    &&& u.implements.as_set() == set_retyped(t.implements.as_set(), mp)
    &&& u.tag == t.tag
    &&& u.resolvers == t.resolvers
    &&& u.doc == t.doc
}

/// `b` is the unions `a` with their members renamed by `mp`, as the two
/// passes over the unions do: each member renamed, then renamed again.
pub open spec fn unions_retyped(a: StrMap<Union>, b: StrMap<Union>, mp: Map<Seq<char>, Seq<char>>) -> bool {
    &&& b.keys() == a.keys()
    &&& b.entries@.len() == a.entries@.len()
    &&& forall|i: int| 0 <= i < a.entries@.len() ==> {
        let x = a.entries@[i].1;
        let y = (#[trigger] b.entries@[i]).1;
        &&& y.doc == x.doc
        &&& y.types.wf()
        &&& y.types.as_set() == set_retyped(set_retyped(x.types.as_set(), mp), mp)
    }
}

/// The types `out` after the types `m` of the mapping `mp` went and the
/// types of all fields and arguments, and the interfaces, were renamed by
/// it.
pub open spec fn round_result(m: Map<Seq<char>, Type>, mp: Map<Seq<char>, Seq<char>>, out: StrMap<Type>) -> bool {
    &&& out.wf()
    &&& forall|k: Seq<char>| #[trigger] out.as_map().contains_key(k) <==> (m.contains_key(k) && !mp.contains_key(k))
    &&& forall|k: Seq<char>| #[trigger] out.as_map().contains_key(k) ==> type_retyped(m[k], out.as_map()[k], mp)
}

/// Merging a well-formed type into a well-formed type gives one.
proof fn lemma_merged_wf(t: Type, into: Type, r: Type)
    requires
        t.wf(),
        into.wf(),
        merged_type(t, into, r),
    ensures
        r.wf(),
{
    let pf = |f: Field| f.args.wf();
    t.fields.lemma_all_values(pf);
    into.fields.lemma_all_values(pf);
    r.fields.lemma_all_values(pf);
    assert forall|k: Seq<char>| #[trigger] r.fields.as_map().contains_key(k) implies pf(r.fields.as_map()[k]) by {
        if t.fields.as_map().contains_key(k) {
            assert(same_field(t.fields.as_map()[k], r.fields.as_map()[k]));
            assert(pf(t.fields.as_map()[k]));
        } else {
            assert(into.fields.as_map().contains_key(k));
            assert(pf(into.fields.as_map()[k]));
        }
    }
    assert forall|i: int| 0 <= i < r.fields.entries@.len() implies (#[trigger] r.fields.entries@[i]).1.args.wf() by {
        assert(pf(r.fields.entries@[i].1));
    }
}

/// Every position of every group is below `n`.
pub open spec fn groups_in_range(gs: Seq<Seq<int>>, n: int) -> bool {
    forall|x: int, y: int| 0 <= x < gs.len() && 0 <= y < gs[x].len() ==> 0 <= #[trigger] gs[x][y] < n
}

proof fn lemma_grow_in_range(sim: Seq<Seq<bool>>, ks: Seq<Seq<char>>, q: Seq<char>, a: int, b: int, taken: Set<int>, g: Seq<int>)
    requires
        forall|y: int| 0 <= y < g.len() ==> 0 <= #[trigger] g[y] < ks.len(),
    ensures
        forall|y: int| 0 <= y < grow(sim, ks, q, a, b, taken, g).1.len()
            ==> 0 <= #[trigger] grow(sim, ks, q, a, b, taken, g).1[y] < ks.len(),
    decreases ks.len() - b,
{
    if b < 0 || b >= ks.len() {
    } else if taken.contains(b) || b == a || ks[b] == q {
        lemma_grow_in_range(sim, ks, q, a, b + 1, taken, g);
        assert(grow(sim, ks, q, a, b, taken, g) == grow(sim, ks, q, a, b + 1, taken, g));
    } else if sim[a][b] {
        let g2 = g.push(b);
        assert forall|y: int| 0 <= y < g2.len() implies 0 <= #[trigger] g2[y] < ks.len() by {
            if y < g.len() {
                assert(g2[y] == g[y]);
            }
        }
        lemma_grow_in_range(sim, ks, q, a, b + 1, taken.insert(b), g2);
        assert(grow(sim, ks, q, a, b, taken, g) == grow(sim, ks, q, a, b + 1, taken.insert(b), g2));
    } else {
        lemma_grow_in_range(sim, ks, q, a, b + 1, taken, g);
        assert(grow(sim, ks, q, a, b, taken, g) == grow(sim, ks, q, a, b + 1, taken, g));
    }
}

proof fn lemma_groups_in_range(sim: Seq<Seq<bool>>, ks: Seq<Seq<char>>, q: Seq<char>, a: int, i: int, taken: Set<int>, gs: Seq<Seq<int>>)
    requires
        groups_in_range(gs, ks.len() as int),
    ensures
        groups_in_range(group_all(sim, ks, q, a, i, taken, gs), ks.len() as int),
    decreases ks.len() - a,
{
    if a < 0 || a >= ks.len() {
    } else if taken.contains(a) || ks[a] == q {
        lemma_groups_in_range(sim, ks, q, a + 1, i, taken, gs);
    } else {
        let one = seq![a];
        assert forall|y: int| 0 <= y < one.len() implies 0 <= #[trigger] one[y] < ks.len() by {}
        lemma_grow_in_range(sim, ks, q, a, i + 1, taken, one);
        let (t2, g) = grow(sim, ks, q, a, i + 1, taken, one);
        let gs2 = if g.len() > 1 { gs.push(g) } else { gs };
        assert forall|x: int, y: int| 0 <= x < gs2.len() && 0 <= y < gs2[x].len() implies 0 <= #[trigger] gs2[x][y] < ks.len() by {
            if x < gs.len() {
                assert(gs2[x] == gs[x]);
            }
        }
        lemma_groups_in_range(sim, ks, q, a + 1, i + 1, t2, gs2);
    }
}

/// Merges each group into a new type numbered from `counter`, and maps
/// each merged type's name to the new type's.
fn merge_groups(
    types: StrMap<Type>,
    names: &Vec<String>,
    groups: &Vec<Vec<usize>>,
    counter: u32,
    Ghost(gs): Ghost<Seq<Seq<int>>>,
) -> (r: (StrMap<Type>, StrMap<String>, u32))
    requires
        types.wf(),
        forall|i: int| 0 <= i < types.entries@.len() ==> (#[trigger] types.entries@[i]).1.wf(),
        names@.len() == types.entries@.len(),
        forall|x: int| 0 <= x < names@.len() ==> (#[trigger] names@[x])@ == types.keys()[x],
        groups@.len() == gs.len(),
        forall|x: int| 0 <= x < groups@.len() ==> (#[trigger] groups@[x])@.len() == gs[x].len()
            && forall|y: int| 0 <= y < groups@[x]@.len() ==> groups@[x]@[y] as int == gs[x][y],
        groups_in_range(gs, types.entries@.len() as int),
        counter + gs.len() <= u32::MAX,
    ensures
        exists|ms: Seq<Map<Seq<char>, Type>>| #[trigger] merge_chain(types.as_map(), types.keys(), gs, counter as int, ms)
            && r.0.as_map() == ms.last(),
        r.0.wf(),
        forall|i: int| 0 <= i < r.0.entries@.len() ==> (#[trigger] r.0.entries@[i]).1.wf(),
        r.1.wf(),
        forall|k: Seq<char>| #[trigger] r.1.as_map().contains_key(k)
            <==> mapping_upto(types.keys(), gs, counter as int, gs.len()).contains_key(k),
        forall|k: Seq<char>| #[trigger] r.1.as_map().contains_key(k)
            ==> r.1.as_map()[k]@ == mapping_upto(types.keys(), gs, counter as int, gs.len())[k],
        r.2 == counter + gs.len(),
{
    let ghost m0 = types.as_map();
    let ghost ks = types.keys();
    let ghost n0 = types.entries@.len();
    proof {
        types.lemma_all_values(|t: Type| t.wf());
    }
    let mut types = types;
    let mut mapping: StrMap<String> = StrMap::new();
    let mut counter = counter;
    let ghost c0 = counter;
    let ghost mut ms: Seq<Map<Seq<char>, Type>> = seq![m0];
    let ng = groups.len();
    let mut j: usize = 0;
    assert(mapping.as_map() =~= Map::empty());
    while j < ng
        invariant
            ng == gs.len(),
            groups@.len() == gs.len(),
            forall|x: int| 0 <= x < groups@.len() ==> (#[trigger] groups@[x])@.len() == gs[x].len()
                && forall|y: int| 0 <= y < groups@[x]@.len() ==> groups@[x]@[y] as int == gs[x][y],
            groups_in_range(gs, n0 as int),
            names@.len() == n0,
            forall|x: int| 0 <= x < names@.len() ==> (#[trigger] names@[x])@ == ks[x],
            ks.len() == n0,
            forall|x: int| 0 <= x < n0 ==> #[trigger] m0.contains_key(ks[x]),
            j <= ng,
            counter == c0 + j,
            c0 + gs.len() <= u32::MAX,
            types.wf(),
            forall|k: Seq<char>| #[trigger] types.as_map().contains_key(k) ==> types.as_map()[k].wf(),
            forall|k: Seq<char>| #[trigger] m0.contains_key(k) ==> types.as_map().contains_key(k),
            ms.len() == j + 1,
            ms[0] == m0,
            forall|x: int| 0 <= x < j ==> #[trigger] group_merged(ms[x], ms[x + 1], group_names(ks, gs[x]), c0 + x),
            types.as_map() == ms.last(),
            mapping.wf(),
            forall|k: Seq<char>| #[trigger] mapping.as_map().contains_key(k)
                <==> mapping_upto(ks, gs, c0 as int, j as nat).contains_key(k),
            forall|k: Seq<char>| #[trigger] mapping.as_map().contains_key(k)
                ==> mapping.as_map()[k]@ == mapping_upto(ks, gs, c0 as int, j as nat)[k],
        decreases ng - j,
    {
        let digits = crate::strings::usize_to_string(counter as usize);
        let mname = concat_str("M", digits.as_str());
        assert(mname@ == merged_name(c0 + j));
        let group = &groups[j];
        let ghost ns = group_names(ks, gs[j as int]);
        let ghost mj = types.as_map();
        let ghost mp0 = mapping.as_map();
        let mut merged = Type::new();
        let ghost mut ps: Seq<Type> = seq![merged];
        assert forall|k: int| 0 <= k < ns.len() implies #[trigger] mj.contains_key(ns[k]) by {
            assert(0 <= gs[j as int][k] < n0);
            assert(ns[k] == ks[gs[j as int][k]]);
            assert(m0.contains_key(ks[gs[j as int][k]]));
        }
        let gl = group.len();
        let mut y: usize = 0;
        while y < gl
            invariant
                gl == group@.len(),
                group@.len() == gs[j as int].len(),
                *group == groups@[j as int],
                forall|z: int| 0 <= z < group@.len() ==> group@[z] as int == gs[j as int][z],
                forall|z: int| 0 <= z < gs[j as int].len() ==> 0 <= #[trigger] gs[j as int][z] < n0,
                names@.len() == n0,
                forall|x: int| 0 <= x < names@.len() ==> (#[trigger] names@[x])@ == ks[x],
                ks.len() == n0,
                ns == group_names(ks, gs[j as int]),
                forall|x: int| 0 <= x < n0 ==> #[trigger] m0.contains_key(ks[x]),
                forall|k: Seq<char>| #[trigger] m0.contains_key(k) ==> types.as_map().contains_key(k),
                types.as_map() == mj,
                types.wf(),
                forall|k: Seq<char>| #[trigger] types.as_map().contains_key(k) ==> types.as_map()[k].wf(),
                y <= gl,
                ps.len() == y + 1,
                ps[0].is_blank(),
                forall|k: int| 0 <= k < ns.len() ==> #[trigger] mj.contains_key(ns[k]),
                ns.len() == gl,
                forall|k: int| 0 <= k < y ==> #[trigger] merged_type(mj[ns[k]], ps[k], ps[k + 1]),
                merged == ps[y as int],
                merged.wf(),
                mname@ == merged_name(c0 + j),
                mapping.wf(),
                forall|k: Seq<char>| #[trigger] mapping.as_map().contains_key(k)
                    <==> (mp0.contains_key(k) || exists|z: int| 0 <= z < y && ns[z] == k),
                forall|k: Seq<char>| #[trigger] mapping.as_map().contains_key(k)
                    ==> mapping.as_map()[k]@ == if exists|z: int| 0 <= z < y && ns[z] == k { mname@ } else { mp0[k]@ },
            decreases gl - y,
        {
            let x = group[y];
            let name = &names[x];
            assert(name@ == ns[y as int]);
            assert(m0.contains_key(ks[x as int]));
            match types.get(name.as_str()) {
                Some(t) => {
                    let ghost before = merged;
                    merged = merge_type(t, merged);
                    proof {
                        lemma_merged_wf(*t, before, merged);
                        assert(mj[ns[y as int]] == *t);
                        let ps0 = ps;
                        ps = ps.push(merged);
                        assert(ps[y as int] == before);
                        assert(ps[y + 1] == merged);
                        assert(forall|k: int| 0 <= k <= y ==> ps[k] == ps0[k]);
                        assert(mj.contains_key(ns[y as int]));
                        assert(merged_type(mj[ns[y as int]], ps[y as int], ps[y + 1]));
                        assert forall|k: int| 0 <= k < y + 1 implies #[trigger] merged_type(mj[ns[k]], ps[k], ps[k + 1]) by {
                            if k < y {
                                assert(merged_type(mj[ns[k]], ps0[k], ps0[k + 1]));
                                assert(ps[k + 1] == ps0[k + 1]);
                            }
                        }
                    }
                    let ghost mpb = mapping.as_map();
                    mapping.insert(name.clone(), mname.clone());
                    proof {
                        assert forall|k: Seq<char>| #[trigger] mapping.as_map().contains_key(k)
                            <==> (mp0.contains_key(k) || exists|z: int| 0 <= z < y + 1 && ns[z] == k) by {
                            if k == ns[y as int] {
                            } else if exists|z: int| 0 <= z < y + 1 && ns[z] == k {
                                let z = choose|z: int| 0 <= z < y + 1 && ns[z] == k;
                                assert(z < y);
                            }
                        }
                        assert forall|k: Seq<char>| #[trigger] mapping.as_map().contains_key(k)
                            implies mapping.as_map()[k]@ == if exists|z: int| 0 <= z < y + 1 && ns[z] == k { mname@ } else { mp0[k]@ } by {
                            if k == ns[y as int] {
                                assert(exists|z: int| 0 <= z < y + 1 && ns[z] == k);
                            } else if exists|z: int| 0 <= z < y + 1 && ns[z] == k {
                                let z = choose|z: int| 0 <= z < y + 1 && ns[z] == k;
                                assert(z < y);
                                assert(exists|z: int| 0 <= z < y && ns[z] == k);
                            } else {
                                assert(!(exists|z: int| 0 <= z < y && ns[z] == k));
                            }
                        }
                    }
                },
                None => {
                    assert(false);
                },
            }
            y = y + 1;
        }
        let ghost merged_v = merged;
        types.insert(mname, merged);
        proof {
            assert(ns.len() == gl);
            assert(merge_steps(mj, ns, ps));
            assert(group_merged(mj, types.as_map(), ns, c0 + j));
            ms = ms.push(types.as_map());
            assert forall|x: int| 0 <= x < j + 1 implies #[trigger] group_merged(ms[x], ms[x + 1], group_names(ks, gs[x]), c0 + x) by {
                if x < j {
                }
            }
            assert forall|k: Seq<char>| #[trigger] types.as_map().contains_key(k) implies types.as_map()[k].wf() by {
                if k != merged_name(c0 + j) {
                    assert(mj.contains_key(k));
                }
            }
            let up = mapping_upto(ks, gs, c0 as int, (j + 1) as nat);
            assert(ns.len() == gs[j as int].len());
            assert forall|k: Seq<char>| #[trigger] mapping.as_map().contains_key(k) <==> up.contains_key(k) by {
                if exists|z: int| 0 <= z < gl && ns[z] == k {
                    let z = choose|z: int| 0 <= z < gl && ns[z] == k;
                    assert(ns.contains(k));
                }
                if ns.contains(k) {
                    let z = choose|z: int| 0 <= z < ns.len() && ns[z] == k;
                    assert(exists|z: int| 0 <= z < gl && ns[z] == k);
                }
            }
            assert forall|k: Seq<char>| #[trigger] mapping.as_map().contains_key(k) implies mapping.as_map()[k]@ == up[k] by {
                if exists|z: int| 0 <= z < gl && ns[z] == k {
                    let z = choose|z: int| 0 <= z < gl && ns[z] == k;
                    assert(ns.contains(k));
                } else {
                    if ns.contains(k) {
                        let z = choose|z: int| 0 <= z < ns.len() && ns[z] == k;
                        assert(exists|z: int| 0 <= z < gl && ns[z] == k);
                    }
                }
            }
        }
        counter = counter + 1;
        j = j + 1;
    }
    proof {
        assert(merge_chain(m0, ks, gs, c0 as int, ms));
        let pt = |t: Type| t.wf();
        types.lemma_all_values(pt);
        assert forall|k: Seq<char>| #[trigger] types.as_map().contains_key(k) implies pt(types.as_map()[k]) by {}
        assert forall|i: int| 0 <= i < types.entries@.len() implies (#[trigger] types.entries@[i]).1.wf() by {
            assert(pt(types.entries@[i].1));
        }
    }
    (types, mapping, counter)
}

/// A map of names to names, by characters.
pub open spec fn names_view(m: StrMap<String>) -> Map<Seq<char>, Seq<char>> {
    Map::new(|k: Seq<char>| m.as_map().contains_key(k), |k: Seq<char>| m.as_map()[k]@)
}

/// The name `name` takes under the mapping.
fn retype_name(mapping: &StrMap<String>, name: &String) -> (r: String)
    requires
        mapping.wf(),
    ensures
        r@ == renamed_to(names_view(*mapping), name@),
{
    match mapping.get(name.as_str()) {
        Some(m) => m.clone(),
        None => name.clone(),
    }
}

/// The names of a set, each renamed by the mapping.
fn retype_set(s: &StrSet, mapping: &StrMap<String>) -> (r: StrSet)
    requires
        mapping.wf(),
    ensures
        r.wf(),
        r.as_set() == set_retyped(s.as_set(), names_view(*mapping)),
{
    let ghost mp = names_view(*mapping);
    let mut r = StrSet::new();
    let n = s.items.len();
    let mut i: usize = 0;
    while i < n
        invariant
            mapping.wf(),
            mp == names_view(*mapping),
            n == s.items@.len(),
            i <= n,
            r.wf(),
            r.as_set() == Set::new(|y: Seq<char>| exists|j: int| 0 <= j < i && renamed_to(mp, #[trigger] s.items@[j]@) == y),
        decreases n - i,
    {
        let y = retype_name(mapping, &s.items[i]);
        let ghost before = r.as_set();
        r.insert(y);
        proof {
            let target = Set::new(|y: Seq<char>| exists|j: int| 0 <= j < i + 1 && renamed_to(mp, #[trigger] s.items@[j]@) == y);
            assert forall|z: Seq<char>| r.as_set().contains(z) == target.contains(z) by {
                if before.contains(z) {
                    let j = choose|j: int| 0 <= j < i && renamed_to(mp, #[trigger] s.items@[j]@) == z;
                    assert(0 <= j < i + 1 && renamed_to(mp, s.items@[j]@) == z);
                }
                if target.contains(z) {
                    let j = choose|j: int| 0 <= j < i + 1 && renamed_to(mp, #[trigger] s.items@[j]@) == z;
                    if j < i {
                        assert(before.contains(z));
                    }
                }
            }
            assert(r.as_set() =~= target);
        }
        i = i + 1;
    }
    proof {
        let target = Set::new(|y: Seq<char>| exists|j: int| 0 <= j < n && renamed_to(mp, #[trigger] s.items@[j]@) == y);
        assert forall|z: Seq<char>| target.contains(z) == set_retyped(s.as_set(), mp).contains(z) by {
            if target.contains(z) {
                let j = choose|j: int| 0 <= j < n && renamed_to(mp, #[trigger] s.items@[j]@) == z;
                assert(s.as_set().contains(s.items@[j]@));
            }
            if set_retyped(s.as_set(), mp).contains(z) {
                let y = choose|y: Seq<char>| s.as_set().contains(y) && renamed_to(mp, y) == z;
                let j = choose|j: int| 0 <= j < s.items@.len() && #[trigger] s.items@[j]@ == y;
            }
        }
        assert(target =~= set_retyped(s.as_set(), mp));
    }
    r
}

/// The arguments with their types renamed by the mapping.
fn retype_args(args: StrMap<Arg>, mapping: &StrMap<String>) -> (r: StrMap<Arg>)
    requires
        mapping.wf(),
    ensures
        args_retyped(args, r, names_view(*mapping)),
{
    let ghost mp = names_view(*mapping);
    let ghost all = args.entries@;
    let mut rest = args.entries;
    let mut out: Vec<(String, Arg)> = Vec::new();
    let n = rest.len();
    let mut i: usize = 0;
    while i < n
        invariant
            mapping.wf(),
            mp == names_view(*mapping),
            n == all.len(),
            i <= n,
            rest@ == all.skip(i as int),
            out@.len() == i,
            forall|j: int| 0 <= j < i ==> {
                let x = all[j].1;
                let y = (#[trigger] out@[j]).1;
                &&& out@[j].0 == all[j].0
                &&& y == (Arg { type_of: y.type_of, ..x })
                &&& y.type_of@ == renamed_to(mp, x.type_of@)
            },
        decreases n - i,
    {
        let (name, a) = rest.remove(0);
        assert((name, a) == all[i as int]);
        let ty = retype_name(mapping, &a.type_of);
        out.push((name, Arg { type_of: ty, ..a }));
        assert(rest@ =~= all.skip(i + 1));
        i = i + 1;
    }
    let r = StrMap { entries: out };
    assert(r.keys() =~= args.keys());
    r
}

fn retype_type(t: Type, mapping: &StrMap<String>) -> (u: Type)
    requires
        mapping.wf(),
    ensures
        type_retyped(t, u, names_view(*mapping)),
{
    let ghost mp = names_view(*mapping);
    let implements = retype_set(&t.implements, mapping);
    let Type { fields, added_fields, implements: _, tag, resolvers, doc } = t;
    let ghost all = fields.entries@;
    let mut rest = fields.entries;
    let mut out: Vec<(String, Field)> = Vec::new();
    let n = rest.len();
    let mut i: usize = 0;
    while i < n
        invariant
            mapping.wf(),
            mp == names_view(*mapping),
            n == all.len(),
            i <= n,
            rest@ == all.skip(i as int),
            out@.len() == i,
            forall|j: int| 0 <= j < i ==> {
                let (name, f) = all[j];
                let g = (#[trigger] out@[j]).1;
                &&& out@[j].0 == name
                &&& g == (Field { type_of: g.type_of, args: g.args, ..f })
                &&& g.type_of@ == renamed_to(mp, f.type_of@)
                &&& args_retyped(f.args, g.args, mp)
            },
        decreases n - i,
    {
        let (name, f) = rest.remove(0);
        assert((name, f) == all[i as int]);
        let new_type = retype_name(mapping, &f.type_of);
        let Field { type_of: _, list, required, list_type_required, args, doc: fdoc, omit, resolvers: fres } = f;
        let new_args = retype_args(args, mapping);
        let g = Field { type_of: new_type, list, required, list_type_required, args: new_args, doc: fdoc, omit, resolvers: fres };
        out.push((name, g));
        assert(rest@ =~= all.skip(i + 1));
        i = i + 1;
    }
    Type { fields: StrMap { entries: out }, added_fields, implements, tag, resolvers, doc }
}

/// The unions with their members renamed by the mapping, twice.
fn retype_unions(unions: StrMap<Union>, mapping: &StrMap<String>) -> (r: StrMap<Union>)
    requires
        mapping.wf(),
    ensures
        unions_retyped(unions, r, names_view(*mapping)),
{
    let ghost mp = names_view(*mapping);
    let ghost all = unions.entries@;
    let mut rest = unions.entries;
    let mut out: Vec<(String, Union)> = Vec::new();
    let n = rest.len();
    let mut i: usize = 0;
    while i < n
        invariant
            mapping.wf(),
            mp == names_view(*mapping),
            n == all.len(),
            i <= n,
            rest@ == all.skip(i as int),
            out@.len() == i,
            forall|j: int| 0 <= j < i ==> {
                let x = all[j].1;
                let y = (#[trigger] out@[j]).1;
                &&& out@[j].0 == all[j].0
                &&& y.doc == x.doc
                &&& y.types.wf()
                &&& y.types.as_set() == set_retyped(set_retyped(x.types.as_set(), mp), mp)
            },
        decreases n - i,
    {
        let (name, u) = rest.remove(0);
        assert((name, u) == all[i as int]);
        let once = retype_set(&u.types, mapping);
        let twice = retype_set(&once, mapping);
        out.push((name, Union { types: twice, doc: u.doc }));
        assert(rest@ =~= all.skip(i + 1));
        i = i + 1;
    }
    let r = StrMap { entries: out };
    assert(r.keys() =~= unions.keys());
    r
}

/// The types with the merged types gone and the types of all fields renamed
/// by the mapping.
fn retype_and_remove(types: StrMap<Type>, mapping: &StrMap<String>) -> (r: StrMap<Type>)
    requires
        types.wf(),
        forall|i: int| 0 <= i < types.entries@.len() ==> (#[trigger] types.entries@[i]).1.wf(),
        mapping.wf(),
    ensures
        round_result(types.as_map(), names_view(*mapping), r),
        forall|i: int| 0 <= i < r.entries@.len() ==> (#[trigger] r.entries@[i]).1.wf(),
{
    let ghost mp = names_view(*mapping);
    let ghost t0 = types;
    let ghost all = types.entries@;
    let mut rest = types.entries;
    let mut out: Vec<(String, Type)> = Vec::new();
    let n = rest.len();
    let mut i: usize = 0;
    while i < n
        invariant
            mapping.wf(),
            mp == names_view(*mapping),
            n == all.len(),
            all == t0.entries@,
            forall|x: int| 0 <= x < n ==> (#[trigger] all[x]).1.wf(),
            i <= n,
            rest@ == all.skip(i as int),
            out@.len() == i,
            forall|j: int| 0 <= j < i ==> (#[trigger] out@[j]).0 == all[j].0 && type_retyped(all[j].1, out@[j].1, mp)
                && out@[j].1.wf(),
        decreases n - i,
    {
        let (name, t) = rest.remove(0);
        assert((name, t) == all[i as int]);
        let ghost tv = t;
        let u = retype_type(t, mapping);
        proof {
            assert(u.fields.keys() =~= tv.fields.keys());
            crate::config::transformer::rename_types::lemma_same_keys(tv.fields, u.fields);
            assert forall|j: int| 0 <= j < u.fields.entries@.len() implies (#[trigger] u.fields.entries@[j]).1.args.wf() by {
                assert(tv.fields.entries@[j].1.args.wf());
                crate::config::transformer::rename_types::lemma_same_keys(tv.fields.entries@[j].1.args, u.fields.entries@[j].1.args);
            }
        }
        out.push((name, u));
        assert(rest@ =~= all.skip(i + 1));
        i = i + 1;
    }
    let mut r = StrMap { entries: out };
    proof {
        assert(r.keys() =~= t0.keys());
        crate::config::transformer::rename_types::lemma_same_keys(t0, r);
    }
    let ghost retyped = r.as_map();
    let m = mapping.entries.len();
    let mut k: usize = 0;
    while k < m
        invariant
            mapping.wf(),
            mp == names_view(*mapping),
            m == mapping.entries@.len(),
            k <= m,
            r.wf(),
            forall|x: Seq<char>| #[trigger] r.as_map().contains_key(x) <==> (retyped.contains_key(x)
                && !(exists|z: int| 0 <= z < k && mapping.entries@[z].0@ == x)),
            forall|x: Seq<char>| #[trigger] r.as_map().contains_key(x) ==> r.as_map()[x] == retyped[x],
        decreases m - k,
    {
        let ghost before = r.as_map();
        r.remove(mapping.entries[k].0.as_str());
        proof {
            assert forall|x: Seq<char>| #[trigger] r.as_map().contains_key(x) <==> (retyped.contains_key(x)
                && !(exists|z: int| 0 <= z < k + 1 && mapping.entries@[z].0@ == x)) by {
                if exists|z: int| 0 <= z < k + 1 && mapping.entries@[z].0@ == x {
                    let z = choose|z: int| 0 <= z < k + 1 && mapping.entries@[z].0@ == x;
                    if z < k {
                        assert(!before.contains_key(x));
                    }
                }
            }
            assert forall|x: Seq<char>| #[trigger] r.as_map().contains_key(x) implies r.as_map()[x] == retyped[x] by {
                assert(before.contains_key(x));
            }
        }
        k = k + 1;
    }
    proof {
        assert forall|x: Seq<char>| #[trigger] r.as_map().contains_key(x) <==> (t0.as_map().contains_key(x) && !mp.contains_key(x)) by {
            if mp.contains_key(x) {
                let z = mapping.pos(x);
                mapping.lemma_at(z);
            }
            if exists|z: int| 0 <= z < m && mapping.entries@[z].0@ == x {
                let z = choose|z: int| 0 <= z < m && mapping.entries@[z].0@ == x;
                mapping.lemma_at(z);
            }
        }
        assert forall|x: Seq<char>| #[trigger] r.as_map().contains_key(x) implies type_retyped(t0.as_map()[x], r.as_map()[x], mp) by {
            let j = t0.pos(x);
            t0.lemma_at(j);
        }
        let pt = |t: Type| t.wf();
        r.lemma_all_values(pt);
        assert forall|x: Seq<char>| #[trigger] r.as_map().contains_key(x) implies pt(r.as_map()[x]) by {
            let j = t0.pos(x);
            t0.lemma_at(j);
        }
        assert forall|i: int| 0 <= i < r.entries@.len() implies (#[trigger] r.entries@[i]).1.wf() by {
            assert(pt(r.entries@[i].1));
        }
    }
    r
}

/// One round of merging: the groups of alike types (`similar[a][b]` tells
/// whether type `b` is alike enough to type `a`) become merged types named
/// `M` and a number counted from `merge_counter`; fields, arguments,
/// interfaces and union members that name a merged type take the new
/// type's name, and the merged types go. Gives the new counter and whether
/// anything was merged.
///
/// Which pairs of types are alike, and on which measure, is the caller's
/// choice, made in `similar`. Once the groups stand, every reference to a
/// merged type is renamed: not only the types of fields but also those of
/// arguments, the interfaces a type implements and the members of unions
/// (a union's members are renamed in two passes, one after the other).
pub fn merge_round(config: Config, similar: &Vec<Vec<bool>>, merge_counter: u32) -> (r: (Config, u32, bool))
    requires
        config.wf(),
        square(similar@, config.types.entries@.len() as int),
        merge_counter + groups_of(config, rows(similar@)).len() <= u32::MAX,
    ensures
        ({
            let gs = groups_of(config, rows(similar@));
            let ks = config.types.keys();
            if gs.len() == 0 {
                r.0 == config && r.1 == merge_counter && !r.2
            } else {
                &&& r.2
                &&& r.1 == merge_counter + gs.len()
                &&& r.0.wf()
                &&& r.0.schema == config.schema
                &&& r.0.upstream == config.upstream
                &&& r.0.enable_federation == config.enable_federation
                &&& unions_retyped(config.unions, r.0.unions, mapping_upto(ks, gs, merge_counter as int, gs.len()))
                &&& r.0.enums == config.enums
                &&& exists|ms: Seq<Map<Seq<char>, Type>>| #[trigger] merge_chain(config.types.as_map(), ks, gs, merge_counter as int, ms)
                    && round_result(ms.last(), mapping_upto(ks, gs, merge_counter as int, gs.len()), r.0.types)
            }
        }),
{
    let ghost c = config;
    let ghost ks = config.types.keys();
    let ghost gs = groups_of(config, rows(similar@));
    let groups = group_types(&config, similar);
    if groups.len() == 0 {
        return (config, merge_counter, false);
    }
    proof {
        lemma_groups_in_range(rows(similar@), ks, query_type_name(c), 0, 0, Set::empty(), Seq::empty());
    }
    let mut names: Vec<String> = Vec::new();
    let n = config.types.entries.len();
    let mut x: usize = 0;
    while x < n
        invariant
            n == config.types.entries@.len(),
            ks == config.types.keys(),
            x <= n,
            names@.len() == x,
            forall|z: int| 0 <= z < x ==> (#[trigger] names@[z])@ == ks[z],
        decreases n - x,
    {
        names.push(config.types.entries[x].0.clone());
        x = x + 1;
    }
    let Config { schema, upstream, enable_federation, types, unions, enums } = config;
    let (merged, mapping, counter) = merge_groups(types, &names, &groups, merge_counter, Ghost(gs));
    let ghost mp = mapping_upto(ks, gs, merge_counter as int, gs.len());
    proof {
        assert(names_view(mapping) =~= mp);
    }
    let out = retype_and_remove(merged, &mapping);
    let ghost u0 = unions;
    let unions = retype_unions(unions, &mapping);
    proof {
        lemma_same_keys(u0, unions);
        assert forall|i: int| 0 <= i < unions.entries@.len() implies (#[trigger] unions.entries@[i]).1.types.wf() by {}
    }
    let r = Config { schema, upstream, enable_federation, types: out, unions, enums };
    proof {
        let ms = choose|ms: Seq<Map<Seq<char>, Type>>| #[trigger] merge_chain(c.types.as_map(), ks, gs, merge_counter as int, ms)
            && merged.as_map() == ms.last();
        assert(merge_chain(c.types.as_map(), ks, gs, merge_counter as int, ms)
            && round_result(ms.last(), mp, r.types));
    }
    (r, counter, true)
}

} // verus!
verus! {

/// How many fields of `t1`, from position `j` on, `t2` has too with the
/// same type.
pub open spec fn same_typed_common(t1: Type, t2: Type, j: int) -> nat
    decreases t1.fields.entries@.len() - j,
{
    if j < 0 || j >= t1.fields.entries@.len() {
        0
    } else {
        let (name, f1) = t1.fields.entries@[j];
        (if t2.fields.as_map().contains_key(name@) && t2.fields.as_map()[name@].type_of@ == f1.type_of@ {
            1nat
        } else {
            0nat
        }) + same_typed_common(t1, t2, j + 1)
    }
}

/// No two fields of the same name lead to comparing two types: their types
/// are the same, or not both types of the configuration.
pub open spec fn no_nested_comparison(c: Config, t1: Type, t2: Type) -> bool {
    forall|j: int| 0 <= j < t1.fields.entries@.len() ==> {
        let (name, f1) = #[trigger] t1.fields.entries@[j];
        t2.fields.as_map().contains_key(name@) ==> {
            let b = t2.fields.as_map()[name@].type_of@;
            f1.type_of@ == b || !(c.types.as_map().contains_key(f1.type_of@) && c.types.as_map().contains_key(b))
        }
    }
}

proof fn lemma_dist_from_flat(c: Config, t1: Type, t2: Type, j: int, vis: Set<(Seq<char>, Seq<char>)>, n: nat)
    requires
        no_nested_comparison(c, t1, t2),
        0 <= j,
    ensures
        dist_from(c, t1, t2, j, vis, n) == ((2 * same_typed_common(t1, t2, j)) as int, 0int, vis),
    decreases t1.fields.entries@.len() - j,
{
    if j < t1.fields.entries@.len() {
        let e = t1.fields.entries@[j];
        assert(no_nested_comparison(c, t1, t2) ==> {
            let (name, f1) = e;
            t2.fields.as_map().contains_key(name@) ==> {
                let b = t2.fields.as_map()[name@].type_of@;
                f1.type_of@ == b || !(c.types.as_map().contains_key(f1.type_of@) && c.types.as_map().contains_key(b))
            }
        });
        lemma_dist_from_flat(c, t1, t2, j + 1, vis, n);
    }
}

/// When no two fields of the same name lead to comparing two types, the
/// count of alike fields is twice the number of fields both types have
/// with the same type (a field of the same name with another type counts
/// nothing), and the count of fields is the fields of both.
pub proof fn law_distance_without_nesting(c: Config, t1: Type, t2: Type, vis: Set<(Seq<char>, Seq<char>)>, n: nat)
    requires
        no_nested_comparison(c, t1, t2),
    ensures
        dist(c, t1, t2, vis, n).0 == 2 * same_typed_common(t1, t2, 0),
        dist(c, t1, t2, vis, n).1 == t1.fields.entries@.len() + t2.fields.entries@.len(),
{
    lemma_dist_from_flat(c, t1, t2, 0, vis, n);
}

/// Whether fields `f1` and a field of the same name of type `b` count as
/// alike without a new comparison: the same type, or two types of the
/// configuration compared before (in either order).
pub open spec fn alike_without_comparing(c: Config, a: Seq<char>, b: Seq<char>, vis: Set<(Seq<char>, Seq<char>)>) -> bool {
    a == b || (c.types.as_map().contains_key(a) && c.types.as_map().contains_key(b) && (vis.contains((a, b))
        || vis.contains((b, a))))
}

/// How many fields of `t1`, from position `j` on, `t2` has too and count as
/// alike without a new comparison.
pub open spec fn settled_common(c: Config, t1: Type, t2: Type, vis: Set<(Seq<char>, Seq<char>)>, j: int) -> nat
    decreases t1.fields.entries@.len() - j,
{
    if j < 0 || j >= t1.fields.entries@.len() {
        0
    } else {
        let (name, f1) = t1.fields.entries@[j];
        (if t2.fields.as_map().contains_key(name@) && alike_without_comparing(
            c,
            f1.type_of@,
            t2.fields.as_map()[name@].type_of@,
            vis,
        ) {
            1nat
        } else {
            0nat
        }) + settled_common(c, t1, t2, vis, j + 1)
    }
}

/// No two fields of the same name call for a new comparison: their types
/// are the same, not both types of the configuration, or compared before.
pub open spec fn nothing_to_compare(c: Config, t1: Type, t2: Type, vis: Set<(Seq<char>, Seq<char>)>) -> bool {
    forall|j: int| 0 <= j < t1.fields.entries@.len() ==> {
        let (name, f1) = #[trigger] t1.fields.entries@[j];
        t2.fields.as_map().contains_key(name@) ==> {
            let b = t2.fields.as_map()[name@].type_of@;
            alike_without_comparing(c, f1.type_of@, b, vis) || !(c.types.as_map().contains_key(f1.type_of@)
                && c.types.as_map().contains_key(b))
        }
    }
}

proof fn lemma_dist_from_settled(c: Config, t1: Type, t2: Type, j: int, vis: Set<(Seq<char>, Seq<char>)>, n: nat)
    requires
        nothing_to_compare(c, t1, t2, vis),
        0 <= j,
    ensures
        dist_from(c, t1, t2, j, vis, n) == ((2 * settled_common(c, t1, t2, vis, j)) as int, 0int, vis),
    decreases t1.fields.entries@.len() - j,
{
    if j < t1.fields.entries@.len() {
        let e = t1.fields.entries@[j];
        assert(nothing_to_compare(c, t1, t2, vis) ==> {
            let (name, f1) = e;
            t2.fields.as_map().contains_key(name@) ==> {
                let b = t2.fields.as_map()[name@].type_of@;
                alike_without_comparing(c, f1.type_of@, b, vis) || !(c.types.as_map().contains_key(f1.type_of@)
                    && c.types.as_map().contains_key(b))
            }
        });
        lemma_dist_from_settled(c, t1, t2, j + 1, vis, n);
    }
}

/// When no two fields of the same name call for a new comparison, each such
/// pair with the same type, or with two types compared before, counts two
/// alike fields, any other counts nothing, and the count of fields is the
/// fields of both.
pub proof fn law_distance_compared_before(c: Config, t1: Type, t2: Type, vis: Set<(Seq<char>, Seq<char>)>, n: nat)
    requires
        nothing_to_compare(c, t1, t2, vis),
    ensures
        dist(c, t1, t2, vis, n).0 == 2 * settled_common(c, t1, t2, vis, 0),
        dist(c, t1, t2, vis, n).1 == t1.fields.entries@.len() + t2.fields.entries@.len(),
        dist(c, t1, t2, vis, n).2 == vis,
{
    lemma_dist_from_settled(c, t1, t2, 0, vis, n);
}

} // verus!
