//! Detection of fields whose resolution can issue N + 1 upstream calls: a
//! resolver that is not batched, reached through a list.

use vstd::prelude::*;
use crate::config::{lemma_has_field_in_pairs, type_field_pairs, Config};
use crate::strings::str_eq;
use crate::strmap::StrMap;
use crate::strset::StrSet;

verus! {

broadcast use vstd::seq_lib::seq_to_set_is_finite;

/// The pairs `(key, item)` that a map of sets holds.
pub open spec fn pairs_of(m: StrMap<StrSet>) -> Set<(Seq<char>, Seq<char>)> {
    Set::new(
        |p: (Seq<char>, Seq<char>)|
            m.as_map().contains_key(p.0) && m.as_map()[p.0].as_set().contains(p.1),
    )
}

/// A map of sets that is well formed and holds no empty set.
pub open spec fn set_map_wf(m: StrMap<StrSet>) -> bool {
    &&& m.wf()
    &&& forall|i: int|
        0 <= i < m.entries@.len() ==> (#[trigger] m.entries@[i]).1.wf()
            && m.entries@[i].1.items@.len() > 0
}

/// The pairs a list of pairs holds.
pub open spec fn pair_list_set(v: Seq<(String, String)>) -> Set<(Seq<char>, Seq<char>)> {
    Set::new(
        |p: (Seq<char>, Seq<char>)|
            exists|i: int| 0 <= i < v.len() && (#[trigger] v[i].0@, v[i].1@) == p,
    )
}

/// Whether some field of the configuration has a resolver that is not batched.
pub open spec fn has_unbatched_resolver(config: Config) -> bool {
    exists|t: Seq<char>, f: Seq<char>|
        #[trigger] config.has_field(t, f) && config.field_spec(t, f).spec_has_resolver()
            && !config.field_spec(t, f).spec_has_batched_resolver()
}

/// Adds item `f` to the set under key `t`.
pub fn add_pair(m: &mut StrMap<StrSet>, t: &str, f: &str)
    requires
        set_map_wf(*old(m)),
    ensures
        set_map_wf(*final(m)),
        pairs_of(*final(m)) == pairs_of(*old(m)).insert((t@, f@)),
        final(m).entries@.len() > 0,
{
    let ghost om = *m;
    let removed = m.remove(t);
    let mut s = match removed {
        Some(s) => s,
        None => StrSet::new(),
    };
    proof {
        if om.has(t@) {
            om.lemma_at(om.pos(t@));
        }
    }
    let ghost before = s.as_set();
    s.insert(crate::strings::copy_str(f));
    assert(s.items@.len() > 0) by {
        assert(s.as_set().contains(f@));
    }
    let ghost mid = *m;
    m.insert(crate::strings::copy_str(t), s);
    proof {
        assert forall|i: int| 0 <= i < m.entries@.len() implies (#[trigger] m.entries@[i]).1.wf()
            && m.entries@[i].1.items@.len() > 0 by {
            m.lemma_at(i);
            let k = m.entries@[i].0@;
            if k != t@ {
                assert(mid.as_map().contains_key(k));
                assert(om.as_map().contains_key(k));
                om.lemma_at(om.pos(k));
            }
        }
        assert(m.as_map().contains_key(t@));
        assert forall|p: (Seq<char>, Seq<char>)| #[trigger] pairs_of(*m).contains(p) <==> pairs_of(om).insert((t@, f@)).contains(p) by {
            if p.0 != t@ {
                assert(m.as_map().contains_key(p.0) == om.as_map().contains_key(p.0));
            }
        }
        assert(pairs_of(*m) =~= pairs_of(om).insert((t@, f@)));
        assert(m.entries@.len() > 0) by {
            let i = m.pos(t@);
        }
    }
}

/// Adds every pair of `src` to `dst`.
pub fn add_all_pairs(dst: &mut StrMap<StrSet>, src: &StrMap<StrSet>)
    requires
        set_map_wf(*old(dst)),
        set_map_wf(*src),
    ensures
        set_map_wf(*final(dst)),
        pairs_of(*final(dst)) == pairs_of(*old(dst)).union(pairs_of(*src)),
        old(dst).entries@.len() > 0 ==> final(dst).entries@.len() > 0,
{
    let ghost d0 = *dst;
    let n = src.entries.len();
    let mut i: usize = 0;
    while i < n
        invariant
            n == src.entries@.len(),
            i <= n,
            set_map_wf(*src),
            set_map_wf(*dst),
            d0.entries@.len() > 0 ==> dst.entries@.len() > 0,
            pairs_of(*dst) == pairs_of(d0).union(
                Set::new(
                    |p: (Seq<char>, Seq<char>)|
                        exists|a: int, b: int|
                            0 <= a < i && 0 <= b < src.entries@[a].1.items@.len() && p == (
                                src.entries@[a].0@,
                                #[trigger] src.entries@[a].1.items@[b]@,
                            ),
                ),
            ),
        decreases n - i,
    {
        let key = &src.entries[i].0;
        let set = &src.entries[i].1;
        let m = set.items.len();
        let mut j: usize = 0;
        while j < m
            invariant
                n == src.entries@.len(),
                i < n,
                *key == src.entries@[i as int].0,
                *set == src.entries@[i as int].1,
                m == set.items@.len(),
                j <= m,
                set_map_wf(*dst),
                d0.entries@.len() > 0 ==> dst.entries@.len() > 0,
                pairs_of(*dst) == pairs_of(d0).union(
                    Set::new(
                        |p: (Seq<char>, Seq<char>)|
                            exists|a: int, b: int|
                                0 <= a < i && 0 <= b < src.entries@[a].1.items@.len() && p == (
                                    src.entries@[a].0@,
                                    #[trigger] src.entries@[a].1.items@[b]@,
                                ),
                    ),
                ).union(
                    Set::new(
                        |p: (Seq<char>, Seq<char>)|
                            exists|b: int|
                                0 <= b < j && p == (key@, #[trigger] set.items@[b]@),
                    ),
                ),
            decreases m - j,
        {
            let ghost before = pairs_of(*dst);
            add_pair(dst, key.as_str(), set.items[j].as_str());
            proof {
                let ii = i as int;
                let lhs = Set::new(
                    |p: (Seq<char>, Seq<char>)|
                        exists|b: int| 0 <= b < j + 1 && p == (key@, #[trigger] set.items@[b]@),
                );
                let rhs = Set::new(
                    |p: (Seq<char>, Seq<char>)|
                        exists|b: int| 0 <= b < j && p == (key@, #[trigger] set.items@[b]@),
                ).insert((key@, set.items@[j as int]@));
                assert forall|p: (Seq<char>, Seq<char>)| lhs.contains(p) == rhs.contains(p) by {
                    if lhs.contains(p) {
                        let b = choose|b: int| 0 <= b < j + 1 && p == (key@, #[trigger] set.items@[b]@);
                        if b < j {
                            assert(p == (key@, set.items@[b]@));
                        }
                    }
                    if rhs.contains(p) && p != (key@, set.items@[j as int]@) {
                        let b = choose|b: int| 0 <= b < j && p == (key@, #[trigger] set.items@[b]@);
                        assert(p == (key@, set.items@[b]@));
                    }
                }
                assert(lhs =~= rhs);
            }
            j = j + 1;
        }
        proof {
            let ii = i as int;
            let a1 = Set::new(
                |p: (Seq<char>, Seq<char>)|
                    exists|a: int, b: int|
                        0 <= a < i + 1 && 0 <= b < src.entries@[a].1.items@.len() && p == (
                            src.entries@[a].0@,
                            #[trigger] src.entries@[a].1.items@[b]@,
                        ),
            );
            let a0 = Set::new(
                |p: (Seq<char>, Seq<char>)|
                    exists|a: int, b: int|
                        0 <= a < i && 0 <= b < src.entries@[a].1.items@.len() && p == (
                            src.entries@[a].0@,
                            #[trigger] src.entries@[a].1.items@[b]@,
                        ),
            );
            let bj = Set::new(
                |p: (Seq<char>, Seq<char>)|
                    exists|b: int| 0 <= b < m && p == (key@, #[trigger] set.items@[b]@),
            );
            assert forall|p: (Seq<char>, Seq<char>)| a1.contains(p) == a0.union(bj).contains(p) by {
                if a1.contains(p) {
                    let (a, b) = choose|a: int, b: int|
                        0 <= a < i + 1 && 0 <= b < src.entries@[a].1.items@.len() && p == (
                            src.entries@[a].0@,
                            #[trigger] src.entries@[a].1.items@[b]@,
                        );
                    if a < i {
                        assert(a0.contains(p));
                    } else {
                        assert(bj.contains(p));
                    }
                }
                if a0.contains(p) {
                    let (a, b) = choose|a: int, b: int|
                        0 <= a < i && 0 <= b < src.entries@[a].1.items@.len() && p == (
                            src.entries@[a].0@,
                            #[trigger] src.entries@[a].1.items@[b]@,
                        );
                    assert(p == (src.entries@[a].0@, src.entries@[a].1.items@[b]@));
                }
                if bj.contains(p) {
                    let b = choose|b: int| 0 <= b < m && p == (key@, #[trigger] set.items@[b]@);
                    assert(p == (src.entries@[ii].0@, src.entries@[ii].1.items@[b]@));
                }
            }
            assert(a1 =~= a0.union(bj));
        }
        i = i + 1;
    }
    proof {
        let all = Set::new(
            |p: (Seq<char>, Seq<char>)|
                exists|a: int, b: int|
                    0 <= a < n && 0 <= b < src.entries@[a].1.items@.len() && p == (
                        src.entries@[a].0@,
                        #[trigger] src.entries@[a].1.items@[b]@,
                    ),
        );
        assert forall|p: (Seq<char>, Seq<char>)| all.contains(p) == pairs_of(*src).contains(p) by {
            if all.contains(p) {
                let (a, b) = choose|a: int, b: int|
                    0 <= a < n && 0 <= b < src.entries@[a].1.items@.len() && p == (
                        src.entries@[a].0@,
                        #[trigger] src.entries@[a].1.items@[b]@,
                    );
                src.lemma_at(a);
                assert(src.entries@[a].1.as_set().contains(src.entries@[a].1.items@[b]@));
            }
            if pairs_of(*src).contains(p) {
                let a = src.pos(p.0);
                src.lemma_at(a);
                let b = choose|b: int| 0 <= b < src.entries@[a].1.items@.len() && #[trigger] src.entries@[a].1.items@[b]@ == p.1;
                assert(p == (src.entries@[a].0@, src.entries@[a].1.items@[b]@));
            }
        }
        assert(all =~= pairs_of(*src));
    }
}

/// The pairs on the paths from the fields of `fs` (of type `t`) at
/// positions `j` on to resolvers that are not batched and are reached
/// through a list, and the pairs walked, starting from `vis`. A pair
/// walked before is skipped; `n` bounds the depth.
pub open spec fn fan_from(
    c: Config,
    t: Seq<char>,
    fs: Seq<(String, crate::config::Field)>,
    j: int,
    is_list: bool,
    vis: Set<(Seq<char>, Seq<char>)>,
    n: nat,
) -> (Set<(Seq<char>, Seq<char>)>, Set<(Seq<char>, Seq<char>)>)
    decreases n, fs.len() - j,
{
    if j < 0 || j >= fs.len() {
        (Set::empty(), vis)
    } else {
        let (name, f) = fs[j];
        let p = (t, name@);
        if vis.contains(p) {
            fan_from(c, t, fs, j + 1, is_list, vis, n)
        } else {
            let v1 = vis.insert(p);
            let step: (Set<(Seq<char>, Seq<char>)>, Set<(Seq<char>, Seq<char>)>) =
                if f.spec_has_resolver() && !f.spec_has_batched_resolver() && is_list {
                    (set![p], v1)
                } else if n == 0 {
                    (Set::empty(), v1)
                } else {
                    let next = fan(c, f.type_of@, f.list || is_list, v1, (n - 1) as nat);
                    (if next.0 == Set::<(Seq<char>, Seq<char>)>::empty() { Set::empty() } else { next.0.insert(p) }, next.1)
                };
            let rest = fan_from(c, t, fs, j + 1, is_list, step.1, n);
            (step.0.union(rest.0), rest.1)
        }
    }
}

/// The pairs on the paths from type `t` to resolvers that are not batched
/// and are reached through a list (`is_list` tells whether `t` is reached
/// through one), and the pairs walked, starting from `vis`.
pub open spec fn fan(
    c: Config,
    t: Seq<char>,
    is_list: bool,
    vis: Set<(Seq<char>, Seq<char>)>,
    n: nat,
) -> (Set<(Seq<char>, Seq<char>)>, Set<(Seq<char>, Seq<char>)>)
    decreases n, if c.types.as_map().contains_key(t) { c.types.as_map()[t].fields.entries@.len() + 1 } else { 0 },
{
    if c.types.as_map().contains_key(t) {
        fan_from(c, t, c.types.as_map()[t].fields.entries@, 0, is_list, vis, n)
    } else {
        (Set::empty(), vis)
    }
}

/// A well-formed map of sets holds a pair exactly when it has an entry.
proof fn lemma_pairs_empty(m: StrMap<StrSet>)
    requires
        set_map_wf(m),
    ensures
        (pairs_of(m) == Set::<(Seq<char>, Seq<char>)>::empty()) == (m.entries@.len() == 0),
{
    if m.entries@.len() > 0 {
        m.lemma_at(0);
        let k = m.entries@[0].0@;
        let s = m.entries@[0].1;
        assert(s.as_set().contains(s.items@[0]@));
        assert(pairs_of(m).contains((k, s.items@[0]@)));
    } else {
        assert forall|p: (Seq<char>, Seq<char>)| !pairs_of(m).contains(p) by {
            if m.as_map().contains_key(p.0) {
                assert(m.has(p.0));
            }
        }
        assert(pairs_of(m) =~= Set::<(Seq<char>, Seq<char>)>::empty());
    }
}

/// Whether the pair `(t, f)` is in the list.
fn pair_listed(v: &Vec<(String, String)>, t: &str, f: &str) -> (r: bool)
    ensures
        r == pair_list_set(v@).contains((t@, f@)),
{
    let n = v.len();
    let mut i: usize = 0;
    while i < n
        invariant
            n == v@.len(),
            i <= n,
            forall|j: int| 0 <= j < i ==> (#[trigger] v@[j].0@, v@[j].1@) != (t@, f@),
        decreases n - i,
    {
        if str_eq(v[i].0.as_str(), t) && str_eq(v[i].1.as_str(), f) {
            assert((v@[i as int].0@, v@[i as int].1@) == (t@, f@));
            return true;
        }
        i = i + 1;
    }
    false
}

/// The type-field pairs of a configuration, as a set.
pub open spec fn config_pairs(config: Config) -> Set<(Seq<char>, Seq<char>)> {
    type_field_pairs(config.types.entries@).to_set()
}

/// Walks the fields of `ty_name`, visiting each type-field pair at most
/// once over the whole walk, and collects the pairs that lie on a path to a
/// resolver that is not batched and is reached through a list.
fn find_fan_out1(
    config: &Config,
    ty_name: &str,
    is_list: bool,
    visited: &mut Vec<(String, String)>,
    Ghost(fuel): Ghost<nat>,
) -> (ans: StrMap<StrSet>)
    requires
        config.wf(),
        pair_list_set(old(visited)@).subset_of(config_pairs(*config)),
        fuel >= config_pairs(*config).difference(pair_list_set(old(visited)@)).len(),
    ensures
        pairs_of(ans) == fan(*config, ty_name@, is_list, pair_list_set(old(visited)@), fuel).0,
        pair_list_set(final(visited)@) == fan(*config, ty_name@, is_list, pair_list_set(old(visited)@), fuel).1,
        set_map_wf(ans),
        pair_list_set(final(visited)@).subset_of(config_pairs(*config)),
        pair_list_set(old(visited)@).subset_of(pair_list_set(final(visited)@)),
        forall|p: (Seq<char>, Seq<char>)| #[trigger] pairs_of(ans).contains(p) ==> config.has_field(p.0, p.1),
        ans.entries@.len() > 0 ==> has_unbatched_resolver(*config),
    decreases config_pairs(*config).difference(pair_list_set(old(visited)@)).len(),
{
    let mut ans: StrMap<StrSet> = StrMap::new();
    let ghost v0 = visited@;
    proof {
        assert(config.types.wf());
        assert(pairs_of(ans) =~= Set::<(Seq<char>, Seq<char>)>::empty());
    }
    match config.find_type(ty_name) {
        None => {},
        Some(type_) => {
            let ghost tn = ty_name@;
            proof {
                let i = config.types.pos(tn);
                config.types.lemma_at(i);
                assert(config.types.entries@[i].1.wf());
                assert(config.types.as_map()[tn] == *type_);
            }
            let ghost fs = type_.fields.entries@;
            let ghost whole = fan_from(*config, tn, fs, 0, is_list, pair_list_set(v0), fuel);
            let n = type_.fields.entries.len();
            let mut k: usize = 0;
            while k < n
                invariant
                    v0 == old(visited)@,
                    config.wf(),
                    config.types.has(tn),
                    tn == ty_name@,
                    *type_ == config.types.get_spec(tn).unwrap(),
                    type_.wf(),
                    n == type_.fields.entries@.len(),
                    k <= n,
                    set_map_wf(ans),
                    pair_list_set(visited@).subset_of(config_pairs(*config)),
                    pair_list_set(v0).subset_of(pair_list_set(visited@)),
                    forall|p: (Seq<char>, Seq<char>)| #[trigger] pairs_of(ans).contains(p) ==> config.has_field(p.0, p.1),
                    ans.entries@.len() > 0 ==> has_unbatched_resolver(*config),
                    config_pairs(*config).difference(pair_list_set(visited@)).len()
                        <= config_pairs(*config).difference(pair_list_set(v0)).len(),
                    fs == type_.fields.entries@,
                    fuel >= config_pairs(*config).difference(pair_list_set(v0)).len(),
                    whole == fan_from(*config, tn, fs, 0, is_list, pair_list_set(v0), fuel),
                    ({
                        let rest = fan_from(*config, tn, fs, k as int, is_list, pair_list_set(visited@), fuel);
                        &&& whole.0 == pairs_of(ans).union(rest.0)
                        &&& whole.1 == rest.1
                    }),
                decreases n - k,
            {
                let field_name = &type_.fields.entries[k].0;
                let field = &type_.fields.entries[k].1;
                let ghost fname = field_name@;
                proof {
                    type_.fields.lemma_at(k as int);
                    assert(config.has_field(tn, fname));
                    assert(config.field_spec(tn, fname) == *field);
                    lemma_has_field_in_pairs(*config, tn, fname);
                }
                if pair_listed(visited, ty_name, field_name.as_str()) {
                    k = k + 1;
                    continue;
                }
                let ghost ans0 = pairs_of(ans);
                let ghost vset0 = pair_list_set(visited@);
                let ghost vb = visited@;
                visited.push((crate::strings::copy_str(ty_name), crate::strings::copy_str(field_name.as_str())));
                proof {
                    assert(pair_list_set(visited@) =~= pair_list_set(vb).insert((tn, fname))) by {
                        assert forall|p: (Seq<char>, Seq<char>)| pair_list_set(visited@).contains(p) implies #[trigger] pair_list_set(vb).insert((tn, fname)).contains(p) by {
                            let i = choose|i: int| 0 <= i < visited@.len() && (#[trigger] visited@[i].0@, visited@[i].1@) == p;
                            if i < vb.len() {
                                assert(visited@[i] == vb[i]);
                            }
                        }
                        assert forall|p: (Seq<char>, Seq<char>)| #[trigger] pair_list_set(vb).insert((tn, fname)).contains(p) implies pair_list_set(visited@).contains(p) by {
                            if p == (tn, fname) {
                                assert((visited@[vb.len() as int].0@, visited@[vb.len() as int].1@) == p);
                            } else {
                                let i = choose|i: int| 0 <= i < vb.len() && (#[trigger] vb[i].0@, vb[i].1@) == p;
                                assert(visited@[i] == vb[i]);
                            }
                        }
                    }
                    assert(config_pairs(*config).finite());
                    config_pairs(*config).lemma_set_insert_diff_decreases(pair_list_set(vb), (tn, fname));
                }
                let ghost va = visited@;
                let ghost p = (tn, fname);
                if field.has_resolver() && !field.has_batched_resolver() && is_list {
                    add_pair(&mut ans, ty_name, field_name.as_str());
                    proof {
                        let rest = fan_from(*config, tn, fs, k + 1, is_list, pair_list_set(visited@), fuel);
                        assert(pairs_of(ans) =~= ans0.insert(p));
                        assert(whole.0 =~= pairs_of(ans).union(rest.0));
                    }
                } else {
                    proof {
                        assert(config_pairs(*config).difference(pair_list_set(va)).len() < config_pairs(*config).difference(vset0).len());
                    }
                    let next = find_fan_out1(config, field.type_of.as_str(), field.list || is_list, visited, Ghost((fuel - 1) as nat));
                    proof {
                        let all = config_pairs(*config);
                        assert(all.difference(pair_list_set(visited@)).subset_of(all.difference(pair_list_set(va))));
                        vstd::set_lib::lemma_len_subset(all.difference(pair_list_set(visited@)), all.difference(pair_list_set(va)));
                        lemma_pairs_empty(next);
                    }
                    let ghost nx = pairs_of(next);
                    if next.entries.len() > 0 {
                        add_all_pairs(&mut ans, &next);
                        add_pair(&mut ans, ty_name, field_name.as_str());
                        proof {
                            let rest = fan_from(*config, tn, fs, k + 1, is_list, pair_list_set(visited@), fuel);
                            assert(pairs_of(ans) =~= ans0.union(nx).insert(p));
                            assert(whole.0 =~= pairs_of(ans).union(rest.0));
                        }
                    } else {
                        proof {
                            let rest = fan_from(*config, tn, fs, k + 1, is_list, pair_list_set(visited@), fuel);
                            assert(whole.0 =~= pairs_of(ans).union(rest.0));
                        }
                    }
                }
                k = k + 1;
            }
        },
    }
    ans
}

/// The type-field pairs on the paths from the query type to resolvers that
/// can issue N + 1 upstream calls, keyed by type name. Each type-field pair is
/// walked at most once.
pub fn n_plus_one(config: &Config) -> (r: StrMap<StrSet>)
    requires
        config.wf(),
    ensures
        set_map_wf(r),
        forall|p: (Seq<char>, Seq<char>)| #[trigger] pairs_of(r).contains(p) ==> config.has_field(p.0, p.1),
        r.entries@.len() > 0 ==> has_unbatched_resolver(*config),
        config.schema.query is None ==> r.entries@.len() == 0,
        config.schema.query matches Some(q) ==> pairs_of(r) == fan(*config, q@, false, Set::empty(), config_pairs(*config).len()).0,
        config.schema.query matches Some(q) ==> forall|ts: Seq<Seq<char>>, fs: Seq<Seq<char>>|
            #[trigger] fan_chain(*config, ts, fs) && chain_alone(*config, ts, fs) && ts[0] == q@ ==> forall|k: int|
                0 <= k < ts.len() ==> #[trigger] pairs_of(r).contains((ts[k], fs[k])),
        config.schema.query matches Some(q) ==> forall|x: (Seq<char>, Seq<char>)| #[trigger] pairs_of(r).contains(x)
            ==> on_fan_chain(*config, q@, false, x),
{
    let mut visited: Vec<(String, String)> = Vec::new();
    assert(pair_list_set(visited@) =~= Set::empty());
    proof {
        assert(config_pairs(*config).difference(Set::empty()) =~= config_pairs(*config));
    }
    let r = match &config.schema.query {
        Some(query) => find_fan_out1(config, query.as_str(), false, &mut visited, Ghost(config_pairs(*config).len())),
        None => StrMap::new(),
    };
    proof {
        if let Some(q) = &config.schema.query {
            assert forall|ts: Seq<Seq<char>>, fs: Seq<Seq<char>>|
                #[trigger] fan_chain(*config, ts, fs) && chain_alone(*config, ts, fs) && ts[0] == q@ implies forall|k: int|
                    0 <= k < ts.len() ==> #[trigger] pairs_of(r).contains((ts[k], fs[k])) by {
                law_fan_complete(*config, ts, fs);
            }
            law_fan_sound(*config, q@, false, Set::empty(), config_pairs(*config).len());
        }
    }
    r
}

} // verus!
verus! {

/// The type that field `p.1` of type `p.0` names.
pub open spec fn pair_type(c: Config, p: (Seq<char>, Seq<char>)) -> Seq<char> {
    c.field_spec(p.0, p.1).type_of@
}

/// Pairs in `b` that are not in `a`.
pub open spec fn added(a: Set<(Seq<char>, Seq<char>)>, b: Set<(Seq<char>, Seq<char>)>, p: (Seq<char>, Seq<char>)) -> bool {
    b.contains(p) && !a.contains(p)
}

pub proof fn lemma_type_fields(c: Config, t: Seq<char>, j: int)
    requires
        c.wf(),
        c.types.as_map().contains_key(t),
        0 <= j < c.types.as_map()[t].fields.entries@.len(),
    ensures
        c.has_field(t, c.types.as_map()[t].fields.entries@[j].0@),
        c.field_spec(t, c.types.as_map()[t].fields.entries@[j].0@) == c.types.as_map()[t].fields.entries@[j].1,
        c.types.as_map()[t].fields.wf(),
{
    let i = c.types.pos(t);
    c.types.lemma_at(i);
    let ty = c.types.as_map()[t];
    assert(ty.wf());
    ty.fields.lemma_at(j);
}

/// A walk from type `t` only adds pairs of the configuration, and each pair
/// it adds is a field of `t` or of a type named by a field whose pair it
/// added too.
proof fn lemma_fan_added(c: Config, t: Seq<char>, is_list: bool, vis: Set<(Seq<char>, Seq<char>)>, n: nat)
    requires
        c.wf(),
    ensures
        vis.subset_of(fan(c, t, is_list, vis, n).1),
        forall|p: (Seq<char>, Seq<char>)| #[trigger] added(vis, fan(c, t, is_list, vis, n).1, p) ==> c.has_field(p.0, p.1)
            && (p.0 == t || exists|q: (Seq<char>, Seq<char>)|
                added(vis, fan(c, t, is_list, vis, n).1, q) && c.has_field(q.0, q.1) && #[trigger] pair_type(c, q) == p.0),
    decreases n, if c.types.as_map().contains_key(t) { c.types.as_map()[t].fields.entries@.len() + 1 } else { 0 },
{
    if c.types.as_map().contains_key(t) {
        lemma_fan_from_added(c, t, c.types.as_map()[t].fields.entries@, 0, is_list, vis, n);
    }
}

proof fn lemma_fan_from_added(
    c: Config,
    t: Seq<char>,
    fs: Seq<(String, crate::config::Field)>,
    j: int,
    is_list: bool,
    vis: Set<(Seq<char>, Seq<char>)>,
    n: nat,
)
    requires
        c.wf(),
        c.types.as_map().contains_key(t),
        fs == c.types.as_map()[t].fields.entries@,
        0 <= j,
    ensures
        vis.subset_of(fan_from(c, t, fs, j, is_list, vis, n).1),
        forall|p: (Seq<char>, Seq<char>)| #[trigger] added(vis, fan_from(c, t, fs, j, is_list, vis, n).1, p) ==> c.has_field(p.0, p.1)
            && (p.0 == t || exists|q: (Seq<char>, Seq<char>)|
                added(vis, fan_from(c, t, fs, j, is_list, vis, n).1, q) && c.has_field(q.0, q.1) && #[trigger] pair_type(c, q) == p.0),
    decreases n, fs.len() - j,
{
    if j < fs.len() {
        let (name, f) = fs[j];
        let p = (t, name@);
        lemma_type_fields(c, t, j);
        if vis.contains(p) {
            lemma_fan_from_added(c, t, fs, j + 1, is_list, vis, n);
        } else {
            let v1 = vis.insert(p);
            let step: (Set<(Seq<char>, Seq<char>)>, Set<(Seq<char>, Seq<char>)>) =
                if f.spec_has_resolver() && !f.spec_has_batched_resolver() && is_list {
                    (set![p], v1)
                } else if n == 0 {
                    (Set::empty(), v1)
                } else {
                    let next = fan(c, f.type_of@, f.list || is_list, v1, (n - 1) as nat);
                    (if next.0 == Set::<(Seq<char>, Seq<char>)>::empty() { Set::empty() } else { next.0.insert(p) }, next.1)
                };
            let out = fan_from(c, t, fs, j, is_list, vis, n);
            let rest = fan_from(c, t, fs, j + 1, is_list, step.1, n);
            assert(out == (step.0.union(rest.0), rest.1));
            lemma_fan_from_added(c, t, fs, j + 1, is_list, step.1, n);
            if !(f.spec_has_resolver() && !f.spec_has_batched_resolver() && is_list) && n > 0 {
                lemma_fan_added(c, f.type_of@, f.list || is_list, v1, (n - 1) as nat);
            }
            assert(v1.subset_of(step.1));
            assert(pair_type(c, p) == f.type_of@);
            assert forall|x: (Seq<char>, Seq<char>)| #[trigger] added(vis, out.1, x) implies c.has_field(x.0, x.1)
                && (x.0 == t || exists|q: (Seq<char>, Seq<char>)|
                    added(vis, out.1, q) && c.has_field(q.0, q.1) && #[trigger] pair_type(c, q) == x.0) by {
                if added(step.1, rest.1, x) {
                    if x.0 != t {
                        let q = choose|q: (Seq<char>, Seq<char>)|
                            added(step.1, rest.1, q) && c.has_field(q.0, q.1) && #[trigger] pair_type(c, q) == x.0;
                        assert(added(vis, out.1, q));
                    }
                } else if x != p {
                    assert(added(v1, step.1, x));
                    if x.0 != t {
                        if x.0 == f.type_of@ {
                            assert(added(vis, out.1, p));
                        } else {
                            let q = choose|q: (Seq<char>, Seq<char>)|
                                added(v1, step.1, q) && c.has_field(q.0, q.1) && #[trigger] pair_type(c, q) == x.0;
                            assert(added(vis, out.1, q));
                        }
                    }
                }
            }
        }
    }
}


/// Whether one of the first `k` fields of the chain is a list.
pub open spec fn list_before(c: Config, ts: Seq<Seq<char>>, fs: Seq<Seq<char>>, k: int) -> bool {
    exists|i: int| 0 <= i < k && #[trigger] c.field_spec(ts[i], fs[i]).list
}

/// A chain of fields from type `ts[0]` to an N + 1 resolver: field `fs[k]`
/// of type `ts[k]` names type `ts[k + 1]`; the last field has a resolver
/// that is not batched and is reached through a list; no field before it
/// is such a field (their resolvers, if any, are batched or not reached
/// through a list).
pub open spec fn fan_chain(c: Config, ts: Seq<Seq<char>>, fs: Seq<Seq<char>>) -> bool {
    let m = ts.len() - 1;
    &&& ts.len() > 0
    &&& fs.len() == ts.len()
    &&& forall|k: int| 0 <= k < ts.len() ==> #[trigger] c.has_field(ts[k], fs[k])
    &&& forall|k: int| 0 <= k < m ==> #[trigger] c.field_spec(ts[k], fs[k]).type_of@ == ts[k + 1]
    &&& c.field_spec(ts[m], fs[m]).spec_has_resolver()
    &&& !c.field_spec(ts[m], fs[m]).spec_has_batched_resolver()
    &&& list_before(c, ts, fs, m)
    &&& forall|k: int| 0 <= k < m ==> !(#[trigger] c.field_spec(ts[k], fs[k]).spec_has_resolver()
        && !c.field_spec(ts[k], fs[k]).spec_has_batched_resolver() && list_before(c, ts, fs, k))
}

/// Only the chain leads to its types: its types differ, no field of the
/// configuration names the first, and each later one is named only by the
/// chain's field before it.
pub open spec fn chain_alone(c: Config, ts: Seq<Seq<char>>, fs: Seq<Seq<char>>) -> bool {
    &&& forall|i: int, j: int| 0 <= i < j < ts.len() ==> #[trigger] ts[i] != #[trigger] ts[j]
    &&& forall|u: Seq<char>, g: Seq<char>| #[trigger] c.has_field(u, g) ==> c.field_spec(u, g).type_of@ != ts[0]
    &&& forall|u: Seq<char>, g: Seq<char>, k: int|
        1 <= k < ts.len() && #[trigger] c.has_field(u, g) && c.field_spec(u, g).type_of@ == #[trigger] ts[k]
            ==> u == ts[k - 1] && g == fs[k - 1]
}

/// A walk from a type that is not one of the chain's adds no pair of a
/// chain type.
proof fn lemma_walk_misses_chain(
    c: Config,
    ts: Seq<Seq<char>>,
    fs: Seq<Seq<char>>,
    u: Seq<char>,
    is_list: bool,
    vis: Set<(Seq<char>, Seq<char>)>,
    n: nat,
    k: int,
)
    requires
        c.wf(),
        fs.len() == ts.len(),
        chain_alone(c, ts, fs),
        forall|i: int| 0 <= i < ts.len() ==> ts[i] != u,
        0 <= k < ts.len(),
    ensures
        forall|g: Seq<char>| !#[trigger] added(vis, fan(c, u, is_list, vis, n).1, (ts[k], g)),
    decreases k,
{
    lemma_fan_added(c, u, is_list, vis, n);
    let out = fan(c, u, is_list, vis, n).1;
    if k > 0 {
        lemma_walk_misses_chain(c, ts, fs, u, is_list, vis, n, k - 1);
    }
    assert forall|g: Seq<char>| !#[trigger] added(vis, out, (ts[k], g)) by {
        if added(vis, out, (ts[k], g)) {
            assert(ts[k] != u);
            let q = choose|q: (Seq<char>, Seq<char>)| added(vis, out, q) && c.has_field(q.0, q.1) && #[trigger] pair_type(c, q) == ts[k];
            assert(c.has_field(q.0, q.1));
            if k == 0 {
                assert(c.field_spec(q.0, q.1).type_of@ != ts[0]);
            } else {
                assert(q.0 == ts[k - 1] && q.1 == fs[k - 1]);
                assert(added(vis, out, (ts[k - 1], q.1)));
            }
        }
    }
}

pub proof fn lemma_list_before_next(c: Config, ts: Seq<Seq<char>>, fs: Seq<Seq<char>>, i: int)
    requires
        0 <= i,
    ensures
        list_before(c, ts, fs, i + 1) == (list_before(c, ts, fs, i) || c.field_spec(ts[i], fs[i]).list),
{
    if list_before(c, ts, fs, i + 1) {
        let x = choose|x: int| 0 <= x < i + 1 && #[trigger] c.field_spec(ts[x], fs[x]).list;
        if x < i {
            assert(list_before(c, ts, fs, i));
        }
    }
    if list_before(c, ts, fs, i) {
        let x = choose|x: int| 0 <= x < i && #[trigger] c.field_spec(ts[x], fs[x]).list;
        assert(0 <= x < i + 1);
    }
}

/// Walking the chain's type `ts[i]` (reached through a list exactly when a
/// chain field before it is one) with none of the chain's pairs from `i` on
/// walked yet, and depth enough, finds all those pairs.
proof fn lemma_fan_chain(
    c: Config,
    ts: Seq<Seq<char>>,
    fs: Seq<Seq<char>>,
    i: int,
    vis: Set<(Seq<char>, Seq<char>)>,
    n: nat,
)
    requires
        c.wf(),
        fan_chain(c, ts, fs),
        chain_alone(c, ts, fs),
        0 <= i < ts.len(),
        forall|k: int| i <= k < ts.len() ==> !vis.contains((ts[k], fs[k])),
        n >= ts.len() - i,
    ensures
        forall|k: int| i <= k < ts.len() ==> #[trigger] fan(c, ts[i], list_before(c, ts, fs, i), vis, n).0.contains((ts[k], fs[k])),
    decreases ts.len() - i, c.types.as_map()[ts[i]].fields.entries@.len() + 1,
{
    assert(c.has_field(ts[i], fs[i]));
    assert(c.types.as_map().contains_key(ts[i]));
    let l = list_before(c, ts, fs, i);
    assert(fan(c, ts[i], l, vis, n) == fan_from(c, ts[i], c.types.as_map()[ts[i]].fields.entries@, 0, l, vis, n));
    lemma_fan_from_chain(c, ts, fs, i, 0, vis, n);
}

proof fn lemma_fan_from_chain(
    c: Config,
    ts: Seq<Seq<char>>,
    fs: Seq<Seq<char>>,
    i: int,
    j: int,
    vis: Set<(Seq<char>, Seq<char>)>,
    n: nat,
)
    requires
        c.wf(),
        fan_chain(c, ts, fs),
        chain_alone(c, ts, fs),
        0 <= i < ts.len(),
        c.types.as_map().contains_key(ts[i]),
        0 <= j <= c.types.as_map()[ts[i]].fields.pos(fs[i]),
        forall|k: int| i <= k < ts.len() ==> !vis.contains((ts[k], fs[k])),
        n >= ts.len() - i,
    ensures
        forall|k: int| i <= k < ts.len() ==> #[trigger] fan_from(
            c,
            ts[i],
            c.types.as_map()[ts[i]].fields.entries@,
            j,
            list_before(c, ts, fs, i),
            vis,
            n,
        ).0.contains((ts[k], fs[k])),
    decreases ts.len() - i, c.types.as_map()[ts[i]].fields.entries@.len() - j,
{
    let t = ts[i];
    let fields = c.types.as_map()[t].fields;
    let fsq = fields.entries@;
    let l = list_before(c, ts, fs, i);
    assert(c.has_field(ts[i], fs[i]));
    let ti = c.types.pos(t);
    c.types.lemma_at(ti);
    assert(c.types.get_spec(t).unwrap() == c.types.as_map()[t]);
    assert(fields.has(fs[i]));
    let jc = fields.pos(fs[i]);
    assert(fsq[jc].0@ == fs[i]);
    lemma_type_fields(c, t, j);
    let (name, f) = fsq[j];
    let p = (t, name@);
    let out = fan_from(c, t, fsq, j, l, vis, n);
    if j < jc {
        fields.lemma_at(j);
        assert(name@ != fs[i]);
        assert forall|k: int| i <= k < ts.len() implies (ts[k], fs[k]) != p by {
            if k != i {
                assert(ts[i] != ts[k]);
            }
        }
        if vis.contains(p) {
            assert(out == fan_from(c, t, fsq, j + 1, l, vis, n));
            lemma_fan_from_chain(c, ts, fs, i, j + 1, vis, n);
        } else {
            let v1 = vis.insert(p);
            let step: (Set<(Seq<char>, Seq<char>)>, Set<(Seq<char>, Seq<char>)>) =
                if f.spec_has_resolver() && !f.spec_has_batched_resolver() && l {
                    (set![p], v1)
                } else if n == 0 {
                    (Set::empty(), v1)
                } else {
                    let next = fan(c, f.type_of@, f.list || l, v1, (n - 1) as nat);
                    (if next.0 == Set::<(Seq<char>, Seq<char>)>::empty() { Set::empty() } else { next.0.insert(p) }, next.1)
                };
            let rest = fan_from(c, t, fsq, j + 1, l, step.1, n);
            assert(out == (step.0.union(rest.0), rest.1));
            if !(f.spec_has_resolver() && !f.spec_has_batched_resolver() && l) && n > 0 {
                let u = f.type_of@;
                assert(c.has_field(t, name@));
                assert(c.field_spec(t, name@).type_of@ == u);
                assert forall|k: int| 0 <= k < ts.len() implies ts[k] != u by {
                    if ts[k] == u {
                        if k == 0 {
                            assert(c.field_spec(t, name@).type_of@ != ts[0]);
                        } else {
                            assert(t == ts[k - 1] && name@ == fs[k - 1]);
                            if k - 1 != i {
                                assert(ts[i] != ts[k - 1] || ts[k - 1] != ts[i]);
                            }
                        }
                    }
                }
                assert forall|k: int| i <= k < ts.len() implies !step.1.contains((ts[k], fs[k])) by {
                    lemma_walk_misses_chain(c, ts, fs, u, f.list || l, v1, (n - 1) as nat, k);
                    assert(!added(v1, step.1, (ts[k], fs[k])));
                }
            }
            lemma_fan_from_chain(c, ts, fs, i, j + 1, step.1, n);
        }
    } else {
        assert(j == jc);
        assert(name@ == fs[i]);
        assert(f == c.field_spec(ts[i], fs[i]));
        let m = ts.len() - 1;
        let v1 = vis.insert(p);
        assert(!vis.contains(p));
        let step: (Set<(Seq<char>, Seq<char>)>, Set<(Seq<char>, Seq<char>)>) =
            if f.spec_has_resolver() && !f.spec_has_batched_resolver() && l {
                (set![p], v1)
            } else if n == 0 {
                (Set::empty(), v1)
            } else {
                let next = fan(c, f.type_of@, f.list || l, v1, (n - 1) as nat);
                (if next.0 == Set::<(Seq<char>, Seq<char>)>::empty() { Set::empty() } else { next.0.insert(p) }, next.1)
            };
        let rest = fan_from(c, t, fsq, j + 1, l, step.1, n);
        assert(out == (step.0.union(rest.0), rest.1));
        if f.spec_has_resolver() && !f.spec_has_batched_resolver() && l {
            if i < m {
                assert(!(c.field_spec(ts[i], fs[i]).spec_has_resolver() && !c.field_spec(ts[i], fs[i]).spec_has_batched_resolver()
                    && list_before(c, ts, fs, i)));
            }
            assert(i == m);
        } else {
            assert(i < m);
            assert(n > 0);
            lemma_list_before_next(c, ts, fs, i);
            assert(f.type_of@ == ts[i + 1]);
            assert forall|k: int| i + 1 <= k < ts.len() implies !v1.contains((ts[k], fs[k])) by {
                assert(ts[i] != ts[k]);
            }
            lemma_fan_chain(c, ts, fs, i + 1, v1, (n - 1) as nat);
            let next = fan(c, ts[i + 1], list_before(c, ts, fs, i + 1), v1, (n - 1) as nat);
            assert(next.0.contains((ts[m], fs[m])));
            assert(next.0 != Set::<(Seq<char>, Seq<char>)>::empty());
            assert(f.list || l == list_before(c, ts, fs, i + 1));
            assert(step.0 == next.0.insert(p));
            assert forall|k: int| i <= k < ts.len() implies #[trigger] out.0.contains((ts[k], fs[k])) by {
                if k > i {
                    assert(next.0.contains((ts[k], fs[k])));
                }
            }
        }
    }
}

/// Every chain of fields from a type to a resolver that is not batched and
/// is reached through a list, where no other field leads to the chain's
/// types, has all its type-field pairs found by the walk from that type.
pub proof fn law_fan_complete(c: Config, ts: Seq<Seq<char>>, fs: Seq<Seq<char>>)
    requires
        c.wf(),
        fan_chain(c, ts, fs),
        chain_alone(c, ts, fs),
    ensures
        forall|k: int| 0 <= k < ts.len() ==> #[trigger] fan(c, ts[0], false, Set::empty(), config_pairs(c).len()).0.contains(
            (ts[k], fs[k]),
        ),
{
    let cps = Seq::new(ts.len(), |k: int| (ts[k], fs[k]));
    assert(cps.no_duplicates()) by {
        assert forall|a: int, b: int| 0 <= a < cps.len() && 0 <= b < cps.len() && a != b implies cps[a] != cps[b] by {
            if a < b {
                assert(ts[a] != ts[b]);
            } else {
                assert(ts[b] != ts[a]);
            }
        }
    }
    cps.unique_seq_to_set();
    assert forall|x: (Seq<char>, Seq<char>)| cps.to_set().contains(x) implies config_pairs(c).contains(x) by {
        let k = choose|k: int| 0 <= k < cps.len() && cps[k] == x;
        assert(c.has_field(ts[k], fs[k]));
        lemma_has_field_in_pairs(c, ts[k], fs[k]);
    }
    vstd::set_lib::lemma_len_subset(cps.to_set(), config_pairs(c));
    assert(!list_before(c, ts, fs, 0));
    lemma_fan_chain(c, ts, fs, 0, Set::empty(), config_pairs(c).len());
}

/// Whether the walk reached the chain's field `k` through a list: it
/// started through one (`l0`), or a chain field before `k` is a list.
pub open spec fn list_from(c: Config, l0: bool, ts: Seq<Seq<char>>, fs: Seq<Seq<char>>, k: int) -> bool {
    l0 || list_before(c, ts, fs, k)
}

/// A chain of fields from type `ts[0]`, entered through a list when `l0`,
/// to a resolver that is not batched and is reached through a list, with no
/// earlier field such a one.
pub open spec fn fan_chain_from(c: Config, l0: bool, ts: Seq<Seq<char>>, fs: Seq<Seq<char>>) -> bool {
    let m = ts.len() - 1;
    &&& ts.len() > 0
    &&& fs.len() == ts.len()
    &&& forall|k: int| 0 <= k < ts.len() ==> #[trigger] c.has_field(ts[k], fs[k])
    &&& forall|k: int| 0 <= k < m ==> #[trigger] c.field_spec(ts[k], fs[k]).type_of@ == ts[k + 1]
    &&& c.field_spec(ts[m], fs[m]).spec_has_resolver()
    &&& !c.field_spec(ts[m], fs[m]).spec_has_batched_resolver()
    &&& list_from(c, l0, ts, fs, m)
    &&& forall|k: int| 0 <= k < m ==> !(#[trigger] c.field_spec(ts[k], fs[k]).spec_has_resolver()
        && !c.field_spec(ts[k], fs[k]).spec_has_batched_resolver() && list_from(c, l0, ts, fs, k))
}

/// Whether pair `x` lies on a chain from type `t`, entered through a list
/// when `l0`, to a resolver that is not batched and is reached through a
/// list.
pub open spec fn on_fan_chain(c: Config, t: Seq<char>, l0: bool, x: (Seq<char>, Seq<char>)) -> bool {
    exists|ts: Seq<Seq<char>>, fs: Seq<Seq<char>>|
        #[trigger] fan_chain_from(c, l0, ts, fs) && ts[0] == t && exists|k: int| 0 <= k < ts.len() && (ts[k], fs[k]) == x
}

proof fn lemma_prepend_chain(
    c: Config,
    t: Seq<char>,
    name: Seq<char>,
    l0: bool,
    ts: Seq<Seq<char>>,
    fs: Seq<Seq<char>>,
)
    requires
        c.has_field(t, name),
        fan_chain_from(c, l0 || c.field_spec(t, name).list, ts, fs),
        ts[0] == c.field_spec(t, name).type_of@,
        !(c.field_spec(t, name).spec_has_resolver() && !c.field_spec(t, name).spec_has_batched_resolver() && l0),
    ensures
        fan_chain_from(c, l0, seq![t] + ts, seq![name] + fs),
        forall|k: int| 0 <= k < ts.len() ==> ((seq![t] + ts)[k + 1], (seq![name] + fs)[k + 1]) == (ts[k], fs[k]),
{
    let t2 = seq![t] + ts;
    let f2 = seq![name] + fs;
    let l1 = l0 || c.field_spec(t, name).list;
    assert forall|k: int| 0 <= k <= ts.len() implies list_from(c, l0, t2, f2, k + 1) == list_from(c, l1, ts, fs, k) by {
        if list_before(c, t2, f2, k + 1) {
            let x = choose|x: int| 0 <= x < k + 1 && #[trigger] c.field_spec(t2[x], f2[x]).list;
            if x > 0 {
                assert(t2[x] == ts[x - 1] && f2[x] == fs[x - 1]);
                assert(c.field_spec(ts[x - 1], fs[x - 1]).list);
                assert(list_before(c, ts, fs, k));
            }
        }
        if list_before(c, ts, fs, k) {
            let x = choose|x: int| 0 <= x < k && #[trigger] c.field_spec(ts[x], fs[x]).list;
            assert(t2[x + 1] == ts[x] && f2[x + 1] == fs[x]);
            assert(c.field_spec(t2[x + 1], f2[x + 1]).list);
        }
        if c.field_spec(t, name).list {
            assert(t2[0] == t && f2[0] == name);
            assert(c.field_spec(t2[0], f2[0]).list);
        }
    }
    assert(!list_before(c, t2, f2, 0));
    let m = ts.len() - 1;
    assert forall|k: int| 0 <= k < t2.len() implies #[trigger] c.has_field(t2[k], f2[k]) by {
        if k > 0 {
            assert(c.has_field(ts[k - 1], fs[k - 1]));
        }
    }
    assert forall|k: int| 0 <= k < t2.len() - 1 implies #[trigger] c.field_spec(t2[k], f2[k]).type_of@ == t2[k + 1] by {
        if k > 0 {
            assert(c.field_spec(ts[k - 1], fs[k - 1]).type_of@ == ts[k]);
        }
    }
    assert(t2[m + 1] == ts[m] && f2[m + 1] == fs[m]);
    assert(list_from(c, l0, t2, f2, m + 1));
    assert forall|k: int| 0 <= k < t2.len() - 1 implies !(#[trigger] c.field_spec(t2[k], f2[k]).spec_has_resolver()
        && !c.field_spec(t2[k], f2[k]).spec_has_batched_resolver() && list_from(c, l0, t2, f2, k)) by {
        if k > 0 {
            assert(t2[k] == ts[k - 1] && f2[k] == fs[k - 1]);
            assert(list_from(c, l0, t2, f2, (k - 1) + 1) == list_from(c, l1, ts, fs, k - 1));
        } else {
            assert(!list_before(c, t2, f2, 0));
        }
    }
}

/// Each pair the walk from type `t` finds lies on a chain from `t` to a
/// resolver that is not batched and is reached through a list.
pub proof fn law_fan_sound(c: Config, t: Seq<char>, is_list: bool, vis: Set<(Seq<char>, Seq<char>)>, n: nat)
    requires
        c.wf(),
    ensures
        forall|x: (Seq<char>, Seq<char>)| #[trigger] fan(c, t, is_list, vis, n).0.contains(x) ==> on_fan_chain(c, t, is_list, x),
    decreases n, if c.types.as_map().contains_key(t) { c.types.as_map()[t].fields.entries@.len() + 1 } else { 0 },
{
    if c.types.as_map().contains_key(t) {
        assert(fan(c, t, is_list, vis, n) == fan_from(c, t, c.types.as_map()[t].fields.entries@, 0, is_list, vis, n));
        lemma_fan_from_sound(c, t, c.types.as_map()[t].fields.entries@, 0, is_list, vis, n);
    }
}

proof fn lemma_fan_from_sound(
    c: Config,
    t: Seq<char>,
    fs: Seq<(String, crate::config::Field)>,
    j: int,
    is_list: bool,
    vis: Set<(Seq<char>, Seq<char>)>,
    n: nat,
)
    requires
        c.wf(),
        c.types.as_map().contains_key(t),
        fs == c.types.as_map()[t].fields.entries@,
        0 <= j,
    ensures
        forall|x: (Seq<char>, Seq<char>)| #[trigger] fan_from(c, t, fs, j, is_list, vis, n).0.contains(x) ==> on_fan_chain(c, t, is_list, x),
    decreases n, fs.len() - j,
{
    if j < fs.len() {
        let (name, f) = fs[j];
        let p = (t, name@);
        lemma_type_fields(c, t, j);
        if vis.contains(p) {
            assert(fan_from(c, t, fs, j, is_list, vis, n) == fan_from(c, t, fs, j + 1, is_list, vis, n));
            lemma_fan_from_sound(c, t, fs, j + 1, is_list, vis, n);
        } else {
            let v1 = vis.insert(p);
            let step: (Set<(Seq<char>, Seq<char>)>, Set<(Seq<char>, Seq<char>)>) =
                if f.spec_has_resolver() && !f.spec_has_batched_resolver() && is_list {
                    (set![p], v1)
                } else if n == 0 {
                    (Set::empty(), v1)
                } else {
                    let next = fan(c, f.type_of@, f.list || is_list, v1, (n - 1) as nat);
                    (if next.0 == Set::<(Seq<char>, Seq<char>)>::empty() { Set::empty() } else { next.0.insert(p) }, next.1)
                };
            let out = fan_from(c, t, fs, j, is_list, vis, n);
            let rest = fan_from(c, t, fs, j + 1, is_list, step.1, n);
            assert(out == (step.0.union(rest.0), rest.1));
            lemma_fan_from_sound(c, t, fs, j + 1, is_list, step.1, n);
            assert(c.field_spec(t, name@) == f);
            if f.spec_has_resolver() && !f.spec_has_batched_resolver() && is_list {
                let ts1 = seq![t];
                let fs1 = seq![name@];
                assert(!list_before(c, ts1, fs1, 0));
                assert(fan_chain_from(c, is_list, ts1, fs1));
                assert((ts1[0], fs1[0]) == p);
                assert(on_fan_chain(c, t, is_list, p));
            } else if n > 0 {
                let next = fan(c, f.type_of@, f.list || is_list, v1, (n - 1) as nat);
                law_fan_sound(c, f.type_of@, f.list || is_list, v1, (n - 1) as nat);
                if next.0 != Set::<(Seq<char>, Seq<char>)>::empty() {
                    if !(exists|y: (Seq<char>, Seq<char>)| next.0.contains(y)) {
                        assert(next.0 =~= Set::<(Seq<char>, Seq<char>)>::empty());
                    }
                    let l1 = f.list || is_list;
                assert forall|x: (Seq<char>, Seq<char>)| #[trigger] step.0.contains(x) implies on_fan_chain(c, t, is_list, x) by {
                        let y = if x == p { next.0.choose() } else { x };
                        if x == p {
                            assert(next.0.contains(y));
                        }
                        assert(on_fan_chain(c, f.type_of@, l1, y));
                        let (ts, fs2) = choose|ts: Seq<Seq<char>>, fs2: Seq<Seq<char>>|
                            #[trigger] fan_chain_from(c, l1, ts, fs2) && ts[0] == f.type_of@ && exists|k: int|
                                0 <= k < ts.len() && (ts[k], fs2[k]) == y;
                        assert(f.list || is_list == is_list || c.field_spec(t, name@).list);
                        lemma_prepend_chain(c, t, name@, is_list, ts, fs2);
                        let t2 = seq![t] + ts;
                        let f2 = seq![name@] + fs2;
                        assert(t2[0] == t);
                        if x == p {
                            assert((t2[0], f2[0]) == x);
                        } else {
                            let k = choose|k: int| 0 <= k < ts.len() && (ts[k], fs2[k]) == y;
                            assert((t2[k + 1], f2[k + 1]) == x);
                        }
                        assert(fan_chain_from(c, is_list, t2, f2));
                    }
                }
            }
            assert forall|x: (Seq<char>, Seq<char>)| #[trigger] out.0.contains(x) implies on_fan_chain(c, t, is_list, x) by {
                if step.0.contains(x) {
                    if f.spec_has_resolver() && !f.spec_has_batched_resolver() && is_list {
                        assert(x == p);
                    }
                } else {
                    assert(rest.0.contains(x));
                }
            }
        }
    }
}

} // verus!
