//! Counts how many `@http` resolvers use each base URL, and moves a chosen
//! base URL to the upstream settings, dropping it from the resolvers that
//! repeat it.

use vstd::prelude::*;
use crate::config::{Config, Field, Type, Upstream};
use crate::config::resolver::{Http, Resolver};
use crate::config::transformer::max_value_map::MaxValueMap;
use crate::strmap::StrMap;
use crate::strset::StrSet;
use crate::strings::{copy_str, str_eq};

verus! {

/// Whether the resolver is an `@http` resolver with a base URL, and, when
/// `target` names one, with that base URL.
pub open spec fn url_matches(r: Resolver, target: Option<Seq<char>>) -> bool {
    r matches Resolver::Http(h) && h.base_url matches Some(b) && (target matches Some(u) ==> b@ == u)
}

/// How many resolvers of the list match `target`.
pub open spec fn url_count(rs: Seq<Resolver>, target: Option<Seq<char>>) -> nat
    decreases rs.len(),
{
    if rs.len() == 0 {
        0
    } else {
        url_count(rs.drop_last(), target) + if url_matches(rs.last(), target) { 1nat } else { 0nat }
    }
}

/// How many resolvers of the fields match `target`.
pub open spec fn fields_url_count(fs: Seq<(String, Field)>, target: Option<Seq<char>>) -> nat
    decreases fs.len(),
{
    if fs.len() == 0 {
        0
    } else {
        fields_url_count(fs.drop_last(), target) + url_count(fs.last().1.resolvers@, target)
    }
}

/// How many resolvers of the types' fields match `target`.
pub open spec fn types_url_count(ts: Seq<(String, Type)>, target: Option<Seq<char>>) -> nat
    decreases ts.len(),
{
    if ts.len() == 0 {
        0
    } else {
        types_url_count(ts.drop_last(), target) + fields_url_count(ts.last().1.fields.entries@, target)
    }
}

/// How many `@http` resolvers of the types' fields have base URL `u`.
pub open spec fn url_frequency(ts: Seq<(String, Type)>, u: Seq<char>) -> nat {
    types_url_count(ts, Some(u))
}

/// The names of the types with a field that has an `@http` resolver with a
/// base URL.
pub open spec fn url_types(ts: Seq<(String, Type)>) -> Set<Seq<char>>
    decreases ts.len(),
{
    if ts.len() == 0 {
        Set::empty()
    } else if fields_url_count(ts.last().1.fields.entries@, None) > 0 {
        url_types(ts.drop_last()).insert(ts.last().0@)
    } else {
        url_types(ts.drop_last())
    }
}

/// How many resolvers the fields hold.
pub open spec fn fields_resolver_total(fs: Seq<(String, Field)>) -> nat
    decreases fs.len(),
{
    if fs.len() == 0 {
        0
    } else {
        fields_resolver_total(fs.drop_last()) + fs.last().1.resolvers@.len()
    }
}

/// How many resolvers the types' fields hold.
pub open spec fn types_resolver_total(ts: Seq<(String, Type)>) -> nat
    decreases ts.len(),
{
    if ts.len() == 0 {
        0
    } else {
        types_resolver_total(ts.drop_last()) + fields_resolver_total(ts.last().1.fields.entries@)
    }
}

proof fn lemma_url_count_bound(rs: Seq<Resolver>, t: Option<Seq<char>>)
    ensures
        url_count(rs, t) <= rs.len(),
    decreases rs.len(),
{
    if rs.len() > 0 {
        lemma_url_count_bound(rs.drop_last(), t);
    }
}

proof fn lemma_fields_count_bound(fs: Seq<(String, Field)>, t: Option<Seq<char>>)
    ensures
        fields_url_count(fs, t) <= fields_resolver_total(fs),
    decreases fs.len(),
{
    if fs.len() > 0 {
        lemma_fields_count_bound(fs.drop_last(), t);
        lemma_url_count_bound(fs.last().1.resolvers@, t);
    }
}

proof fn lemma_types_count_bound(ts: Seq<(String, Type)>, t: Option<Seq<char>>)
    ensures
        types_url_count(ts, t) <= types_resolver_total(ts),
    decreases ts.len(),
{
    if ts.len() > 0 {
        lemma_types_count_bound(ts.drop_last(), t);
        lemma_fields_count_bound(ts.last().1.fields.entries@, t);
    }
}

proof fn lemma_fields_total_prefix(fs: Seq<(String, Field)>, j: int)
    requires
        0 <= j <= fs.len(),
    ensures
        fields_resolver_total(fs.take(j)) <= fields_resolver_total(fs),
    decreases fs.len() - j,
{
    if j < fs.len() {
        lemma_fields_total_prefix(fs, j + 1);
        assert(fs.take(j + 1).drop_last() =~= fs.take(j));
    } else {
        assert(fs.take(j) =~= fs);
    }
}

proof fn lemma_types_total_prefix(ts: Seq<(String, Type)>, i: int)
    requires
        0 <= i <= ts.len(),
    ensures
        types_resolver_total(ts.take(i)) <= types_resolver_total(ts),
    decreases ts.len() - i,
{
    if i < ts.len() {
        lemma_types_total_prefix(ts, i + 1);
        assert(ts.take(i + 1).drop_last() =~= ts.take(i));
    } else {
        assert(ts.take(i) =~= ts);
    }
}

/// The base URLs of the `@http` resolvers of the list that have one, in
/// order.
pub open spec fn resolver_urls(rs: Seq<Resolver>) -> Seq<Seq<char>>
    decreases rs.len(),
{
    if rs.len() == 0 {
        Seq::empty()
    } else {
        let p = resolver_urls(rs.drop_last());
        match rs.last() {
            Resolver::Http(h) => match h.base_url {
                Some(b) => p.push(b@),
                None => p,
            },
            _ => p,
        }
    }
}

/// The base URLs of the `@http` resolvers of the fields, field by field.
pub open spec fn fields_urls(fs: Seq<(String, Field)>) -> Seq<Seq<char>>
    decreases fs.len(),
{
    if fs.len() == 0 {
        Seq::empty()
    } else {
        fields_urls(fs.drop_last()) + resolver_urls(fs.last().1.resolvers@)
    }
}

/// The base URLs of the `@http` resolvers of the types' fields, in the
/// order the types, their fields and the fields' resolvers come.
pub open spec fn url_seq(ts: Seq<(String, Type)>) -> Seq<Seq<char>>
    decreases ts.len(),
{
    if ts.len() == 0 {
        Seq::empty()
    } else {
        url_seq(ts.drop_last()) + fields_urls(ts.last().1.fields.entries@)
    }
}

/// How often `u` occurs in `s`.
pub open spec fn seq_count(s: Seq<Seq<char>>, u: Seq<char>) -> nat
    decreases s.len(),
{
    if s.len() == 0 {
        0
    } else {
        seq_count(s.drop_last(), u) + if s.last() == u { 1nat } else { 0nat }
    }
}

/// Of the strings that occur in `s` as often as `m`, `m` got there first:
/// for each other one, some prefix of `s` holds `m` that often already and
/// the other one fewer times.
pub open spec fn first_to_reach(s: Seq<Seq<char>>, m: Seq<char>) -> bool {
    forall|u: Seq<char>|
        u != m && #[trigger] seq_count(s, u) == seq_count(s, m) ==> exists|n: int|
            0 <= n <= s.len() && #[trigger] seq_count(s.take(n), m) == seq_count(s, m) && seq_count(s.take(n), u)
                < seq_count(s, m)
}

proof fn lemma_count_push(s: Seq<Seq<char>>, b: Seq<char>, u: Seq<char>)
    ensures
        seq_count(s.push(b), u) == seq_count(s, u) + if b == u { 1nat } else { 0nat },
{
    assert(s.push(b).drop_last() =~= s);
}

proof fn lemma_count_concat(a: Seq<Seq<char>>, b: Seq<Seq<char>>, u: Seq<char>)
    ensures
        seq_count(a + b, u) == seq_count(a, u) + seq_count(b, u),
    decreases b.len(),
{
    if b.len() == 0 {
        assert(a + b =~= a);
    } else {
        lemma_count_concat(a, b.drop_last(), u);
        assert((a + b).drop_last() =~= a + b.drop_last());
        assert((a + b).last() == b.last());
    }
}

proof fn lemma_resolver_urls_count(rs: Seq<Resolver>, u: Seq<char>)
    ensures
        seq_count(resolver_urls(rs), u) == url_count(rs, Some(u)),
    decreases rs.len(),
{
    if rs.len() > 0 {
        lemma_resolver_urls_count(rs.drop_last(), u);
        let p = resolver_urls(rs.drop_last());
        match rs.last() {
            Resolver::Http(h) => match h.base_url {
                Some(b) => lemma_count_push(p, b@, u),
                None => {},
            },
            _ => {},
        }
    }
}

proof fn lemma_fields_urls_count(fs: Seq<(String, Field)>, u: Seq<char>)
    ensures
        seq_count(fields_urls(fs), u) == fields_url_count(fs, Some(u)),
    decreases fs.len(),
{
    if fs.len() > 0 {
        lemma_fields_urls_count(fs.drop_last(), u);
        lemma_resolver_urls_count(fs.last().1.resolvers@, u);
        lemma_count_concat(fields_urls(fs.drop_last()), resolver_urls(fs.last().1.resolvers@), u);
    }
}

/// Each base URL occurs in `url_seq(ts)` as often as `@http` resolvers of
/// the types' fields use it.
pub proof fn lemma_url_seq_count(ts: Seq<(String, Type)>, u: Seq<char>)
    ensures
        seq_count(url_seq(ts), u) == url_frequency(ts, u),
    decreases ts.len(),
{
    if ts.len() > 0 {
        lemma_url_seq_count(ts.drop_last(), u);
        lemma_fields_urls_count(ts.last().1.fields.entries@, u);
        lemma_count_concat(url_seq(ts.drop_last()), fields_urls(ts.last().1.fields.entries@), u);
    }
}

/// The URLs met so far while counting: those of the types `ti`, then of the
/// fields `fp`, then of the resolvers `rp`.
spec fn part_urls(ti: Seq<(String, Type)>, fp: Seq<(String, Field)>, rp: Seq<Resolver>) -> Seq<Seq<char>> {
    url_seq(ti) + fields_urls(fp) + resolver_urls(rp)
}

proof fn lemma_part_count(ti: Seq<(String, Type)>, fp: Seq<(String, Field)>, rp: Seq<Resolver>, u: Seq<char>)
    ensures
        seq_count(part_urls(ti, fp, rp), u) == types_url_count(ti, Some(u)) + fields_url_count(fp, Some(u)) + url_count(
            rp,
            Some(u),
        ),
{
    lemma_url_seq_count(ti, u);
    lemma_fields_urls_count(fp, u);
    lemma_resolver_urls_count(rp, u);
    lemma_count_concat(url_seq(ti), fields_urls(fp), u);
    lemma_count_concat(url_seq(ti) + fields_urls(fp), resolver_urls(rp), u);
}

/// Counting one more occurrence of `b` keeps the remembered string the first
/// to reach the largest count, when the remembered string changes only on a
/// count that exceeds its own.
proof fn lemma_first_to_reach_push(s: Seq<Seq<char>>, old_max: Option<Seq<char>>, b: Seq<char>, new_max: Option<Seq<char>>)
    requires
        old_max is None ==> forall|u: Seq<char>| #[trigger] seq_count(s, u) == 0,
        old_max matches Some(k) ==> first_to_reach(s, k) && forall|u: Seq<char>| #[trigger] seq_count(s, u) <= seq_count(s, k),
        new_max == match old_max {
            None => Some(b),
            Some(k) => if seq_count(s, k) < seq_count(s, b) + 1 {
                Some(b)
            } else {
                Some(k)
            },
        },
    ensures
        new_max matches Some(k) && first_to_reach(s.push(b), k),
{
    let s2 = s.push(b);
    let k2 = new_max.unwrap();
    assert forall|u: Seq<char>| u != k2 && #[trigger] seq_count(s2, u) == seq_count(s2, k2) implies exists|n: int|
        0 <= n <= s2.len() && #[trigger] seq_count(s2.take(n), k2) == seq_count(s2, k2) && seq_count(s2.take(n), u)
            < seq_count(s2, k2) by {
        lemma_count_push(s, b, u);
        lemma_count_push(s, b, k2);
        match old_max {
            None => {
                assert(seq_count(s, u) == 0);
                assert(seq_count(s, b) == 0);
            },
            Some(k) => {
                assert(seq_count(s, u) <= seq_count(s, k));
                assert(seq_count(s, b) <= seq_count(s, k));
                if k2 == k && u != b {
                    assert(seq_count(s, u) == seq_count(s, k));
                    let n = choose|n: int|
                        0 <= n <= s.len() && #[trigger] seq_count(s.take(n), k) == seq_count(s, k) && seq_count(s.take(n), u)
                            < seq_count(s, k);
                    assert(s2.take(n) =~= s.take(n));
                } else if k2 == k {
                    assert(s2.take(s.len() as int) =~= s);
                    assert(seq_count(s2.take(s.len() as int), k2) == seq_count(s2, k2));
                }
            },
        }
    }
}

/// An `@http` resolver that matches `u` loses its base URL; any other
/// resolver stays as it is.
pub open spec fn stripped(r: Resolver, u: Seq<char>) -> Resolver {
    match r {
        Resolver::Http(h) => if url_matches(r, Some(u)) {
            Resolver::Http(Http { base_url: None, ..h })
        } else {
            r
        },
        _ => r,
    }
}

/// `b` is field `a` with base URL `u` taken out of its resolvers.
pub open spec fn field_stripped(a: Field, b: Field, u: Seq<char>) -> bool {
    &&& b.type_of == a.type_of
    &&& b.list == a.list
    &&& b.required == a.required
    &&& b.list_type_required == a.list_type_required
    &&& b.args == a.args
    &&& b.doc == a.doc
    &&& b.omit == a.omit
    &&& b.resolvers@.len() == a.resolvers@.len()
    &&& forall|k: int| 0 <= k < a.resolvers@.len() ==> #[trigger] b.resolvers@[k] == stripped(a.resolvers@[k], u)
}

/// `b` is type `a` with base URL `u` taken out of its fields' resolvers.
pub open spec fn type_stripped(a: Type, b: Type, u: Seq<char>) -> bool {
    &&& b.fields.entries@.len() == a.fields.entries@.len()
    &&& forall|j: int| 0 <= j < a.fields.entries@.len() ==>
        (#[trigger] b.fields.entries@[j]).0 == a.fields.entries@[j].0
        && field_stripped(a.fields.entries@[j].1, b.fields.entries@[j].1, u)
    &&& b.added_fields == a.added_fields
    &&& b.implements == a.implements
    &&& b.tag == a.tag
    &&& b.resolvers == a.resolvers
    &&& b.doc == a.doc
}

/// The base URLs of the `@http` resolvers counted, and the types whose
/// fields use one.
pub struct UrlTypeMapping {
    pub url_to_frequency_map: MaxValueMap,
    pub visited_type_set: StrSet,
}

impl UrlTypeMapping {
    /// The mapping holds, for each base URL of the `@http` resolvers of
    /// `ts`, how many of them use it, and the names of the types with such
    /// a resolver; of the base URLs used most, it remembers the first to
    /// reach that count.
    pub open spec fn records(self, ts: Seq<(String, Type)>) -> bool {
        &&& self.url_to_frequency_map.inv()
        &&& self.url_to_frequency_map.max_ok()
        &&& (self.url_to_frequency_map.max_key() matches Some(k) ==> first_to_reach(url_seq(ts), k))
        &&& forall|u: Seq<char>| #[trigger] self.url_to_frequency_map.map_spec().contains_key(u)
            <==> url_frequency(ts, u) > 0
        &&& forall|u: Seq<char>| self.url_to_frequency_map.map_spec().contains_key(u)
            ==> #[trigger] self.url_to_frequency_map.map_spec()[u] == url_frequency(ts, u)
        &&& self.visited_type_set.wf()
        &&& self.visited_type_set.as_set() == url_types(ts)
    }

    /// The mapping holds what `records` asks of the types `ti`, followed by
    /// the fields `fp` and the resolvers `rp` of a type named `name`.
    spec fn records_part(
        self,
        ti: Seq<(String, Type)>,
        fp: Seq<(String, Field)>,
        rp: Seq<Resolver>,
        name: Seq<char>,
    ) -> bool {
        &&& self.url_to_frequency_map.inv()
        &&& self.url_to_frequency_map.max_ok()
        &&& (self.url_to_frequency_map.max_key() matches Some(k) ==> first_to_reach(part_urls(ti, fp, rp), k))
        &&& forall|u: Seq<char>| #[trigger] self.url_to_frequency_map.map_spec().contains_key(u)
            <==> types_url_count(ti, Some(u)) + fields_url_count(fp, Some(u)) + url_count(rp, Some(u)) > 0
        &&& forall|u: Seq<char>| self.url_to_frequency_map.map_spec().contains_key(u)
            ==> #[trigger] self.url_to_frequency_map.map_spec()[u]
                == types_url_count(ti, Some(u)) + fields_url_count(fp, Some(u)) + url_count(rp, Some(u))
        &&& self.visited_type_set.wf()
        &&& self.visited_type_set.as_set() == if fields_url_count(fp, None) + url_count(rp, None) > 0 {
            url_types(ti).insert(name)
        } else {
            url_types(ti)
        }
    }

    /// A mapping that records nothing.
    pub fn new() -> (r: UrlTypeMapping)
        ensures
            r.records(Seq::empty()),
    {
        UrlTypeMapping { url_to_frequency_map: MaxValueMap::new(), visited_type_set: StrSet::new() }
    }

    /// Counts the base URLs of the `@http` resolvers of the configuration's
    /// fields, and notes the types that have one.
    pub fn populate_url_frequency_map(&mut self, config: &Config)
        requires
            old(self).records(Seq::empty()),
            types_resolver_total(config.types.entries@) <= u32::MAX,
        ensures
            final(self).records(config.types.entries@),
    {
        let types = &config.types.entries;
        let ghost ts = types@;
        let mut i: usize = 0;
        assert(ts.take(0) =~= Seq::<(String, Type)>::empty());
        while i < types.len()
            invariant
                ts == types@,
                0 <= i <= ts.len(),
                self.records(ts.take(i as int)),
                types_resolver_total(ts) <= u32::MAX,
            decreases ts.len() - i,
        {
            let entity_name = &types[i].0;
            let fields = &types[i].1.fields.entries;
            let ghost fs = fields@;
            let ghost ti = ts.take(i as int);
            let ghost name = entity_name@;
            proof {
                lemma_types_total_prefix(ts, i + 1);
                assert(ts.take(i + 1).drop_last() =~= ti);
                assert(fs.take(0) =~= Seq::<(String, Field)>::empty());
                assert(part_urls(ti, fs.take(0), Seq::empty()) =~= url_seq(ti));
                assert(self.records_part(ti, fs.take(0), Seq::empty(), name));
            }
            let mut j: usize = 0;
            while j < fields.len()
                invariant
                    ts == types@,
                    i < ts.len(),
                    fs == fields@,
                    fs == ts[i as int].1.fields.entries@,
                    name == ts[i as int].0@,
                    name == entity_name@,
                    ti == ts.take(i as int),
                    0 <= j <= fs.len(),
                    types_resolver_total(ti) + fields_resolver_total(fs) <= u32::MAX,
                    self.records_part(ti, fs.take(j as int), Seq::empty(), name),
                decreases fs.len() - j,
            {
                let rs = &fields[j].1.resolvers;
                let ghost rv = rs@;
                let ghost fj = fs.take(j as int);
                proof {
                    lemma_fields_total_prefix(fs, j + 1);
                    assert(fs.take(j + 1).drop_last() =~= fj);
                    assert(rv.take(0) =~= Seq::<Resolver>::empty());
                }
                let mut k: usize = 0;
                while k < rs.len()
                    invariant
                        rv == rs@,
                        j < fs.len(),
                        rv == fs[j as int].1.resolvers@,
                        fj == fs.take(j as int),
                        name == entity_name@,
                        0 <= k <= rv.len(),
                        types_resolver_total(ti) + fields_resolver_total(fj) + rv.len() <= u32::MAX,
                        self.records_part(ti, fj, rv.take(k as int), name),
                    decreases rv.len() - k,
                {
                    let ghost before = *self;
                    proof {
                        assert(rv.take(k + 1).drop_last() =~= rv.take(k as int));
                    }
                    match &rs[k] {
                        Resolver::Http(http) => {
                            match &http.base_url {
                                Some(b) => {
                                    proof {
                                        lemma_types_count_bound(ti, Some(b@));
                                        lemma_fields_count_bound(fj, Some(b@));
                                        lemma_url_count_bound(rv.take(k as int), Some(b@));
                                        let p = part_urls(ti, fj, rv.take(k as int));
                                        let m0 = self.url_to_frequency_map.map_spec();
                                        self.url_to_frequency_map.lemma_max_key();
                                        assert forall|u: Seq<char>| #[trigger] seq_count(p, u) == (if m0.contains_key(u) {
                                            m0[u] as int
                                        } else {
                                            0int
                                        }) by {
                                            lemma_part_count(ti, fj, rv.take(k as int), u);
                                        }
                                    }
                                    self.url_to_frequency_map.increment(copy_str(b.as_str()), 1);
                                    self.visited_type_set.insert(copy_str(entity_name.as_str()));
                                    proof {
                                        let m = self.url_to_frequency_map.map_spec();
                                        let m0 = before.url_to_frequency_map.map_spec();
                                        assert forall|u: Seq<char>| #[trigger] m.contains_key(u) <==> types_url_count(ti, Some(u))
                                            + fields_url_count(fj, Some(u)) + url_count(rv.take(k + 1), Some(u)) > 0 by {
                                            if u != b@ {
                                                assert(m0.contains_key(u) == m.contains_key(u));
                                            }
                                        }
                                        assert forall|u: Seq<char>| m.contains_key(u) implies #[trigger] m[u]
                                            == types_url_count(ti, Some(u)) + fields_url_count(fj, Some(u))
                                                + url_count(rv.take(k + 1), Some(u)) by {
                                            if u != b@ {
                                                assert(m0.contains_key(u));
                                            }
                                        }
                                        assert(self.visited_type_set.as_set() =~= url_types(ti).insert(name));
                                        let p = part_urls(ti, fj, rv.take(k as int));
                                        let old_max = before.url_to_frequency_map.max_key();
                                        if let Some(mk) = old_max {
                                            assert forall|u: Seq<char>| #[trigger] seq_count(p, u) <= seq_count(p, mk) by {
                                                assert(seq_count(p, u) == (if m0.contains_key(u) { m0[u] as int } else { 0int }));
                                                assert(seq_count(p, mk) == (if m0.contains_key(mk) { m0[mk] as int } else { 0int }));
                                            }
                                        } else {
                                            assert forall|u: Seq<char>| #[trigger] seq_count(p, u) == 0 by {
                                                assert(seq_count(p, u) == (if m0.contains_key(u) { m0[u] as int } else { 0int }));
                                            }
                                        }
                                        assert(seq_count(p, b@) == (if m0.contains_key(b@) { m0[b@] as int } else { 0int }));
                                        lemma_first_to_reach_push(p, old_max, b@, self.url_to_frequency_map.max_key());
                                        assert(rv.take(k + 1).last() == rv[k as int]);
                                        assert(part_urls(ti, fj, rv.take(k + 1)) =~= p.push(b@));
                                    }
                                },
                                None => {},
                            }
                        },
                        _ => {},
                    }
                    k = k + 1;
                }
                proof {
                    assert(rv.take(rv.len() as int) =~= rv);
                    assert(fs.take(j + 1).last() == fs[j as int]);
                    assert(part_urls(ti, fs.take(j + 1), Seq::empty()) =~= part_urls(ti, fj, rv));
                    assert(self.records_part(ti, fs.take(j + 1), Seq::empty(), name));
                }
                j = j + 1;
            }
            proof {
                assert(fs.take(fs.len() as int) =~= fs);
                assert(ts.take(i + 1).last() == ts[i as int]);
                let s = self.visited_type_set.as_set();
                assert(s =~= url_types(ts.take(i + 1)));
                assert(url_seq(ts.take(i + 1)) =~= part_urls(ti, fs, Seq::empty()));
                assert(self.records(ts.take(i + 1)));
            }
            i = i + 1;
        }
        assert(ts.take(ts.len() as int) =~= ts);
    }
}

/// `b` is configuration `a` with base URL `u` moved to the upstream
/// settings and taken out of the resolvers of the types named in `names`.
pub open spec fn applied(a: Config, b: Config, u: Seq<char>, names: Set<Seq<char>>) -> bool {
    &&& b.upstream.base_url matches Some(s) && s@ == u
    &&& b.schema == a.schema
    &&& b.enable_federation == a.enable_federation
    &&& b.unions == a.unions
    &&& b.enums == a.enums
    &&& b.types.entries@.len() == a.types.entries@.len()
    &&& forall|i: int| 0 <= i < a.types.entries@.len() ==> {
        let (n, t) = a.types.entries@[i];
        &&& (#[trigger] b.types.entries@[i]).0 == n
        &&& if names.contains(n@) {
            type_stripped(t, b.types.entries@[i].1, u)
        } else {
            b.types.entries@[i].1 == t
        }
    }
}

fn strip_resolver(r: Resolver, u: &str) -> (o: Resolver)
    ensures
        o == stripped(r, u@),
{
    match r {
        Resolver::Http(h) => {
            let same = match &h.base_url {
                Some(b) => str_eq(b.as_str(), u),
                None => false,
            };
            if same {
                let Http { url, base_url: _, path, body, headers, query, batch_key } = h;
                Resolver::Http(Http { url, base_url: None, path, body, headers, query, batch_key })
            } else {
                Resolver::Http(h)
            }
        },
        other => other,
    }
}

fn strip_field(f: Field, u: &str) -> (o: Field)
    ensures
        field_stripped(f, o, u@),
{
    let Field { type_of, list, required, list_type_required, args, doc, omit, resolvers } = f;
    let ghost all = resolvers@;
    let mut rest = resolvers;
    let mut out: Vec<Resolver> = Vec::new();
    let n = rest.len();
    let mut i: usize = 0;
    while i < n
        invariant
            n == all.len(),
            i <= n,
            rest@ == all.skip(i as int),
            out@.len() == i,
            forall|k: int| 0 <= k < i ==> #[trigger] out@[k] == stripped(all[k], u@),
        decreases n - i,
    {
        let r = rest.remove(0);
        assert(r == all[i as int]);
        out.push(strip_resolver(r, u));
        assert(rest@ =~= all.skip(i + 1));
        i = i + 1;
    }
    Field { type_of, list, required, list_type_required, args, doc, omit, resolvers: out }
}

fn strip_type(t: Type, u: &str) -> (o: Type)
    ensures
        type_stripped(t, o, u@),
{
    let Type { fields, added_fields, implements, tag, resolvers, doc } = t;
    let ghost all = fields.entries@;
    let mut rest = fields.entries;
    let mut out: Vec<(String, Field)> = Vec::new();
    let n = rest.len();
    let mut i: usize = 0;
    while i < n
        invariant
            n == all.len(),
            i <= n,
            rest@ == all.skip(i as int),
            out@.len() == i,
            forall|j: int| 0 <= j < i ==> (#[trigger] out@[j]).0 == all[j].0
                && field_stripped(all[j].1, out@[j].1, u@),
        decreases n - i,
    {
        let (name, field) = rest.remove(0);
        assert((name, field) == all[i as int]);
        out.push((name, strip_field(field, u)));
        assert(rest@ =~= all.skip(i + 1));
        i = i + 1;
    }
    Type { fields: StrMap { entries: out }, added_fields, implements, tag, resolvers, doc }
}

impl UrlTypeMapping {
    /// The most frequent base URL, when at least `min_frequency` resolvers
    /// use it.
    pub open spec fn common_url(self, min_frequency: u32) -> Option<Seq<char>> {
        match self.url_to_frequency_map.max_key() {
            Some(k) => if self.url_to_frequency_map.map_spec()[k] >= min_frequency {
                Some(k)
            } else {
                None
            },
            None => None,
        }
    }

    /// The most frequent base URL, when at least `min_frequency` resolvers
    /// use it.
    pub fn find_common_url(&self, min_frequency: u32) -> (r: Option<String>)
        requires
            self.url_to_frequency_map.inv(),
        ensures
            r matches Some(s) ==> self.common_url(min_frequency) == Some(s@),
            r is None ==> self.common_url(min_frequency) is None,
    {
        match self.url_to_frequency_map.get_max_pair() {
            Some((url, frequency)) => {
                if *frequency >= min_frequency {
                    Some(copy_str(url.as_str()))
                } else {
                    None
                }
            },
            None => None,
        }
    }

    /// Sets `common_url` as the upstream base URL and takes it out of the
    /// `@http` resolvers of the types that the mapping noted.
    pub fn apply_common_url(&self, config: Config, common_url: String) -> (r: Config)
        requires
            self.visited_type_set.wf(),
        ensures
            applied(config, r, common_url@, self.visited_type_set.as_set()),
    {
        let Config { schema, upstream: _, enable_federation, types, unions, enums } = config;
        let ghost all = types.entries@;
        let mut rest = types.entries;
        let mut out: Vec<(String, Type)> = Vec::new();
        let n = rest.len();
        let mut i: usize = 0;
        while i < n
            invariant
                n == all.len(),
                i <= n,
                rest@ == all.skip(i as int),
                out@.len() == i,
                forall|j: int| 0 <= j < i ==> {
                    let (nm, t) = all[j];
                    &&& (#[trigger] out@[j]).0 == nm
                    &&& if self.visited_type_set.as_set().contains(nm@) {
                        type_stripped(t, out@[j].1, common_url@)
                    } else {
                        out@[j].1 == t
                    }
                },
            decreases n - i,
        {
            let (name, ty) = rest.remove(0);
            assert((name, ty) == all[i as int]);
            if self.visited_type_set.contains(name.as_str()) {
                let t = strip_type(ty, common_url.as_str());
                out.push((name, t));
            } else {
                out.push((name, ty));
            }
            assert(rest@ =~= all.skip(i + 1));
            i = i + 1;
        }
        Config {
            schema,
            upstream: Upstream { base_url: Some(common_url) },
            enable_federation,
            types: StrMap { entries: out },
            unions,
            enums,
        }
    }

    /// Moves the most frequent base URL to the upstream settings when at
    /// least `min_frequency` resolvers use it; otherwise the configuration
    /// is returned as it is. Of several base URLs used equally often, the
    /// one the mapping remembers is moved: the first to reach that count
    /// (see `law_common_url_most_frequent`).
    pub fn consolidate(&self, config: Config, min_frequency: u32) -> (r: Config)
        requires
            self.url_to_frequency_map.inv(),
            self.visited_type_set.wf(),
        ensures
            match self.common_url(min_frequency) {
                Some(u) => applied(config, r, u, self.visited_type_set.as_set()),
                None => r == config,
            },
    {
        match self.find_common_url(min_frequency) {
            Some(u) => self.apply_common_url(config, u),
            None => config,
        }
    }
}

proof fn lemma_url_count_zero(rs: Seq<Resolver>, t: Option<Seq<char>>)
    requires
        url_count(rs, t) == 0,
    ensures
        forall|k: int| 0 <= k < rs.len() ==> !url_matches(#[trigger] rs[k], t),
    decreases rs.len(),
{
    if rs.len() > 0 {
        lemma_url_count_zero(rs.drop_last(), t);
        assert forall|k: int| 0 <= k < rs.len() implies !url_matches(#[trigger] rs[k], t) by {
            if k < rs.len() - 1 {
                assert(rs.drop_last()[k] == rs[k]);
            }
        }
    }
}

proof fn lemma_fields_count_zero(fs: Seq<(String, Field)>, t: Option<Seq<char>>)
    requires
        fields_url_count(fs, t) == 0,
    ensures
        forall|j: int| 0 <= j < fs.len() ==> url_count((#[trigger] fs[j]).1.resolvers@, t) == 0,
    decreases fs.len(),
{
    if fs.len() > 0 {
        lemma_fields_count_zero(fs.drop_last(), t);
        assert forall|j: int| 0 <= j < fs.len() implies url_count((#[trigger] fs[j]).1.resolvers@, t) == 0 by {
            if j < fs.len() - 1 {
                assert(fs.drop_last()[j] == fs[j]);
            }
        }
    }
}

proof fn lemma_url_types_contains(ts: Seq<(String, Type)>, i: int)
    requires
        0 <= i < ts.len(),
        fields_url_count(ts[i].1.fields.entries@, None) > 0,
    ensures
        url_types(ts).contains(ts[i].0@),
    decreases ts.len(),
{
    if i < ts.len() - 1 {
        assert(ts.drop_last()[i] == ts[i]);
        lemma_url_types_contains(ts.drop_last(), i);
    }
}

/// The chosen base URL is one that the most `@http` resolvers use, and one
/// is chosen exactly when some base URL is used by at least
/// `min_frequency` resolvers. Of several base URLs used equally often, the
/// chosen one is the first to reach that count, in the order the types,
/// their fields and the fields' resolvers come.
pub proof fn law_common_url_most_frequent(m: UrlTypeMapping, ts: Seq<(String, Type)>, min_frequency: u32)
    requires
        m.records(ts),
    ensures
        forall|u: Seq<char>| #[trigger] seq_count(url_seq(ts), u) == url_frequency(ts, u),
        m.common_url(min_frequency) matches Some(c) ==> first_to_reach(url_seq(ts), c),
        m.common_url(min_frequency) is Some <==> exists|u: Seq<char>|
            url_frequency(ts, u) > 0 && #[trigger] url_frequency(ts, u) >= min_frequency,
        m.common_url(min_frequency) matches Some(c) ==> url_frequency(ts, c) >= min_frequency
            && url_frequency(ts, c) > 0
            && forall|u: Seq<char>| #[trigger] url_frequency(ts, u) <= url_frequency(ts, c),
{
    let mp = m.url_to_frequency_map.map_spec();
    m.url_to_frequency_map.lemma_max_key();
    assert forall|u: Seq<char>| #[trigger] seq_count(url_seq(ts), u) == url_frequency(ts, u) by {
        lemma_url_seq_count(ts, u);
    }
    if let Some(k) = m.url_to_frequency_map.max_key() {
        assert(mp.contains_key(k));
        assert forall|u: Seq<char>| #[trigger] url_frequency(ts, u) <= url_frequency(ts, k) by {
            if mp.contains_key(u) {
                assert(mp[u] <= mp[k]);
            }
        }
        if mp[k] >= min_frequency {
            assert(url_frequency(ts, k) >= min_frequency);
        }
    } else {
        assert forall|u: Seq<char>| url_frequency(ts, u) > 0 implies !(#[trigger] url_frequency(ts, u) >= min_frequency) by {
            assert(mp.contains_key(u));
            assert(mp.dom().contains(u));
        }
    }
}

/// After the base URL `u` moved to the upstream settings, no `@http`
/// resolver of the configuration repeats it.
pub proof fn law_url_consolidated(a: Config, m: UrlTypeMapping, u: Seq<char>, b: Config)
    requires
        m.records(a.types.entries@),
        applied(a, b, u, m.visited_type_set.as_set()),
    ensures
        b.upstream.base_url matches Some(s) && s@ == u,
        forall|i: int, j: int, k: int|
            0 <= i < b.types.entries@.len() && 0 <= j < b.types.entries@[i].1.fields.entries@.len()
                && 0 <= k < b.types.entries@[i].1.fields.entries@[j].1.resolvers@.len()
                ==> !url_matches(#[trigger] b.types.entries@[i].1.fields.entries@[j].1.resolvers@[k], Some(u)),
{
    let ts = a.types.entries@;
    assert forall|i: int, j: int, k: int|
        0 <= i < b.types.entries@.len() && 0 <= j < b.types.entries@[i].1.fields.entries@.len()
            && 0 <= k < b.types.entries@[i].1.fields.entries@[j].1.resolvers@.len()
            implies !url_matches(#[trigger] b.types.entries@[i].1.fields.entries@[j].1.resolvers@[k], Some(u)) by {
        let t = ts[i].1;
        let r = b.types.entries@[i].1.fields.entries@[j].1.resolvers@[k];
        if m.visited_type_set.as_set().contains(ts[i].0@) {
            assert(type_stripped(t, b.types.entries@[i].1, u));
            assert(field_stripped(t.fields.entries@[j].1, b.types.entries@[i].1.fields.entries@[j].1, u));
            assert(r == stripped(t.fields.entries@[j].1.resolvers@[k], u));
        } else {
            assert(b.types.entries@[i].1 == t);
            if fields_url_count(t.fields.entries@, None) > 0 {
                lemma_url_types_contains(ts, i);
            }
            lemma_fields_count_zero(t.fields.entries@, None);
            assert(url_count(t.fields.entries@[j].1.resolvers@, None) == 0);
            lemma_url_count_zero(t.fields.entries@[j].1.resolvers@, None);
            assert(!url_matches(r, None));
        }
    }
}

} // verus!
