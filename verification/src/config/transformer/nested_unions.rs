//! Replaces each union that a union lists by the types that union stands
//! for, recursively.

use vstd::prelude::*;
use crate::config::{Config, Union};
use crate::strmap::StrMap;
use crate::strset::StrSet;
use crate::strings::concat_str;
use crate::valid::{trace_all, Cause};

verus! {

broadcast use vstd::seq_lib::seq_to_set_is_finite;

/// The names of the unions.
pub open spec fn union_names(unions: StrMap<Union>) -> Set<Seq<char>> {
    unions.keys().to_set()
}

/// The members of union `n`.
pub open spec fn members(unions: StrMap<Union>, n: Seq<char>) -> Set<Seq<char>> {
    unions.as_map()[n].types.as_set()
}

/// A walk from a member of `start` through unions: each name but the last
/// is a union that lists the next one.
pub open spec fn member_path(unions: StrMap<Union>, start: Set<Seq<char>>, p: Seq<Seq<char>>) -> bool {
    &&& p.len() > 0
    &&& start.contains(p[0])
    &&& forall|i: int| 0 <= i < p.len() - 1 ==> #[trigger] unions.as_map().contains_key(p[i]) && members(unions, p[i]).contains(
        p[i + 1],
    )
}

/// The names that are not unions and that some walk from `start` reaches.
pub open spec fn leaves(unions: StrMap<Union>, start: Set<Seq<char>>) -> Set<Seq<char>> {
    Set::new(|x: Seq<char>| !unions.as_map().contains_key(x) && exists|p: Seq<Seq<char>>| #[trigger] member_path(unions, start, p) && p.last() == x)
}

/// Some walk from `start` reaches union `y`.
pub open spec fn reaches_union(unions: StrMap<Union>, start: Set<Seq<char>>, y: Seq<char>) -> bool {
    unions.as_map().contains_key(y) && exists|p: Seq<Seq<char>>| #[trigger] member_path(unions, start, p) && p.last() == y
}

/// Whether a message reports a union that is reached again.
pub open spec fn reports_recursion(m: Seq<char>, unions: StrMap<Union>, start: Set<Seq<char>>) -> bool {
    exists|y: Seq<char>| reaches_union(unions, start, y) && m == "Recursive type "@ + y
}

proof fn lemma_path_step(unions: StrMap<Union>, start: Set<Seq<char>>, y: Seq<char>, q: Seq<Seq<char>>)
    requires
        start.contains(y),
        unions.as_map().contains_key(y),
        member_path(unions, members(unions, y), q),
    ensures
        member_path(unions, start, seq![y] + q),
        (seq![y] + q).last() == q.last(),
{
    let p = seq![y] + q;
    assert forall|i: int| 0 <= i < p.len() - 1 implies #[trigger] unions.as_map().contains_key(p[i]) && members(unions, p[i]).contains(
        p[i + 1],
    ) by {
        if i > 0 {
            assert(p[i] == q[i - 1]);
            assert(p[i + 1] == q[i]);
        }
    }
}

proof fn lemma_path_rest(unions: StrMap<Union>, start: Set<Seq<char>>, p: Seq<Seq<char>>)
    requires
        member_path(unions, start, p),
        p.len() > 1,
    ensures
        unions.as_map().contains_key(p[0]),
        member_path(unions, members(unions, p[0]), p.drop_first()),
        p.drop_first().last() == p.last(),
{
    let q = p.drop_first();
    assert(unions.as_map().contains_key(p[0]) && members(unions, p[0]).contains(p[1]));
    assert forall|i: int| 0 <= i < q.len() - 1 implies #[trigger] unions.as_map().contains_key(q[i]) && members(unions, q[i]).contains(
        q[i + 1],
    ) by {
        assert(q[i] == p[i + 1]);
        assert(unions.as_map().contains_key(p[i + 1]) && members(unions, p[i + 1]).contains(p[i + 2]));
    }
}

/// The members of union `n`, in the order they are walked.
pub open spec fn member_seq(unions: StrMap<Union>, n: Seq<char>) -> Seq<Seq<char>> {
    unions.as_map()[n].types.seq()
}

/// The characters of a list of strings.
pub open spec fn texts(v: Seq<String>) -> Seq<Seq<char>> {
    v.map_values(|s: String| s@)
}

/// Walks the names `ms` from position `k` on, with the unions met so far in
/// `seen`: a union not met yet is walked in turn, and one met again is
/// reported. Gives the unions met by the end and the reports, in order.
/// `fuel` bounds the depth; it never runs out when it is at least the
/// number of unions not met yet.
pub open spec fn walk_spec(
    unions: StrMap<Union>,
    ms: Seq<Seq<char>>,
    k: int,
    seen: Set<Seq<char>>,
    fuel: nat,
) -> (Set<Seq<char>>, Seq<Seq<char>>)
    decreases fuel, ms.len() - k,
{
    if k < 0 || k >= ms.len() {
        (seen, Seq::empty())
    } else {
        let m = ms[k];
        if !unions.as_map().contains_key(m) {
            walk_spec(unions, ms, k + 1, seen, fuel)
        } else if seen.contains(m) {
            let rest = walk_spec(unions, ms, k + 1, seen, fuel);
            (rest.0, seq!["Recursive type "@ + m] + rest.1)
        } else if fuel == 0 {
            (seen, Seq::empty())
        } else {
            let inner = walk_spec(unions, member_seq(unions, m), 0, seen.insert(m), (fuel - 1) as nat);
            let rest = walk_spec(unions, ms, k + 1, inner.0, fuel);
            (rest.0, inner.1 + rest.1)
        }
    }
}

/// The reports of walking the members of the union at position `j`, with
/// no union met yet.
pub open spec fn union_errors(unions: StrMap<Union>, j: int) -> Seq<Seq<char>> {
    walk_spec(unions, member_seq(unions, unions.keys()[j]), 0, Set::empty(), unions.entries@.len() as nat).1
}

/// The reports of the unions before position `k`, each with the trace of
/// the union it was found in.
pub open spec fn causes_upto(unions: StrMap<Union>, k: int) -> Seq<(Seq<char>, Seq<Seq<char>>)>
    decreases k,
{
    if k <= 0 {
        Seq::empty()
    } else {
        causes_upto(unions, k - 1) + union_errors(unions, k - 1).map_values(
            |e: Seq<char>| (e, seq![unions.keys()[k - 1]]),
        )
    }
}

/// Every report of walking the unions, in order.
pub open spec fn nested_union_causes(unions: StrMap<Union>) -> Seq<(Seq<char>, Seq<Seq<char>>)> {
    causes_upto(unions, unions.entries@.len() as int)
}

/// A cause as its message and its trace.
pub open spec fn cause_view(c: Cause) -> (Seq<char>, Seq<Seq<char>>) {
    (c.error@, texts(c.trace@))
}

/// Causes as messages and traces.
pub open spec fn cause_views(v: Seq<Cause>) -> Seq<(Seq<char>, Seq<Seq<char>>)> {
    v.map_values(|c: Cause| cause_view(c))
}

/// Walks the unions, listing for each union the types it stands for.
struct Visitor<'a> {
    unions: &'a StrMap<Union>,
}

impl<'a> Visitor<'a> {
    fn walk_union(
        &self,
        union_members: &'a StrSet,
        union_types: &mut StrSet,
        seen: &mut Vec<&'a str>,
        Ghost(fuel): Ghost<nat>,
    ) -> (r: Vec<String>)
        requires
            self.unions.wf(),
            forall|i: int| 0 <= i < self.unions.entries@.len() ==> (#[trigger] self.unions.entries@[i]).1.types.wf(),
            old(union_types).wf(),
            fuel >= union_names(*self.unions).difference(name_list(old(seen)@)).len(),
        ensures
            name_list(final(seen)@) == walk_spec(*self.unions, union_members.seq(), 0, name_list(old(seen)@), fuel).0,
            texts(r@) == walk_spec(*self.unions, union_members.seq(), 0, name_list(old(seen)@), fuel).1,
            final(union_types).wf(),
            final(union_types).as_set().subset_of(old(union_types).as_set().union(leaves(*self.unions, union_members.as_set()))),
            r@.len() == 0 ==> leaves(*self.unions, union_members.as_set()).subset_of(final(union_types).as_set()),
            old(union_types).as_set().subset_of(final(union_types).as_set()),
            name_list(old(seen)@).subset_of(name_list(final(seen)@)),
            forall|i: int| 0 <= i < r@.len() ==> reports_recursion(#[trigger] r@[i]@, *self.unions, union_members.as_set()),
        decreases union_names(*self.unions).difference(name_list(old(seen)@)).len(),
    {
        let unions: &'a StrMap<Union> = self.unions;
        let ghost start = union_members.as_set();
        let mut errs: Vec<String> = Vec::new();
        let n = union_members.items.len();
        let mut k: usize = 0;
        let ghost ms = union_members.seq();
        let ghost total = walk_spec(*unions, ms, 0, name_list(seen@), fuel);
        while k < n
            invariant
                self.unions == unions,
                ms == union_members.seq(),
                total == walk_spec(*unions, ms, 0, name_list(old(seen)@), fuel),
                walk_spec(*unions, ms, k as int, name_list(seen@), fuel).0 == total.0,
                texts(errs@) + walk_spec(*unions, ms, k as int, name_list(seen@), fuel).1 == total.1,
                fuel >= union_names(*unions).difference(name_list(seen@)).len(),
                unions.wf(),
                forall|i: int| 0 <= i < unions.entries@.len() ==> (#[trigger] unions.entries@[i]).1.types.wf(),
                n == union_members.items@.len(),
                start == union_members.as_set(),
                k <= n,
                union_types.wf(),
                union_types.as_set().subset_of(old(union_types).as_set().union(leaves(*unions, start))),
                old(union_types).as_set().subset_of(union_types.as_set()),
                name_list(old(seen)@).subset_of(name_list(seen@)),
                errs@.len() == 0 ==> forall|p: Seq<Seq<char>>| #[trigger] member_path(*unions, start, p)
                    && !unions.as_map().contains_key(p.last()) && (exists|j: int| 0 <= j < k && union_members.items@[j]@ == p[0])
                    ==> union_types.as_set().contains(p.last()),
                forall|i: int| 0 <= i < errs@.len() ==> reports_recursion(#[trigger] errs@[i]@, *unions, start),
            decreases n - k,
        {
            let name: &'a str = union_members.items[k].as_str();
            let ghost m = name@;
            assert(start.contains(m));
            let ghost e0 = errs@;
            let ghost t0 = union_types.as_set();
            let ghost sk = name_list(seen@);
            let ghost here = walk_spec(*unions, ms, k as int, sk, fuel);
            assert(ms[k as int] == m);
            match unions.get(name) {
                Some(inner) => {
                    proof {
                        let i = unions.pos(m);
                        unions.lemma_at(i);
                    }
                    let ghost one = seq![m];
                    proof {
                        assert(member_path(*unions, start, one));
                        assert(reaches_union(*unions, start, m));
                    }
                    if contains_str(seen, name) {
                        let msg = concat_str("Recursive type ", name);
                        errs.push(msg);
                        proof {
                            assert(texts(errs@) =~= texts(e0).push(msg@));
                            assert(texts(e0).push(msg@) + walk_spec(*unions, ms, k + 1, sk, fuel).1
                                =~= texts(e0) + here.1);
                            assert forall|i: int| 0 <= i < errs@.len() implies reports_recursion(#[trigger] errs@[i]@, *unions, start) by {
                                if i < e0.len() {
                                    assert(errs@[i] == e0[i]);
                                }
                            }
                        }
                    } else {
                        let ghost s0 = name_list(seen@);
                        let ghost sv = seen@;
                        seen.push(name);
                        proof {
                            assert(seen@ =~= sv.push(name));
                            lemma_name_list_push(sv, name);
                            let i = unions.pos(m);
                            assert(unions.keys()[i] == m);
                            assert(union_names(*unions).contains(m));
                            assert(union_names(*unions).finite());
                            union_names(*unions).lemma_set_insert_diff_decreases(s0, m);
                            vstd::set_lib::lemma_len_subset(
                                union_names(*unions).difference(s0),
                                union_names(*unions).difference(name_list(old(seen)@)),
                            );
                        }
                        proof {
                            let d0 = union_names(*unions).difference(s0);
                            let d1 = union_names(*unions).difference(name_list(seen@));
                            assert(name_list(seen@) == s0.insert(m));
                            union_names(*unions).lemma_set_insert_diff_decreases(s0, m);
                            assert(d1.len() < d0.len());
                        }
                        let sub = self.walk_union(&inner.types, union_types, seen, Ghost((fuel - 1) as nat));
                        let ghost inner_start = inner.types.as_set();
                        proof {
                            assert(inner_start == members(*unions, m));
                            assert forall|x: Seq<char>| union_types.as_set().contains(x) implies old(union_types).as_set().union(leaves(*unions, start)).contains(x) by {
                                if !t0.contains(x) {
                                    assert(leaves(*unions, inner_start).contains(x));
                                    let q = choose|q: Seq<Seq<char>>| #[trigger] member_path(*unions, inner_start, q) && q.last() == x;
                                    lemma_path_step(*unions, start, m, q);
                                    assert(member_path(*unions, start, seq![m] + q));
                                }
                            }
                        }
                        let mut sub = sub;
                        let ghost se = sub@;
                        errs.append(&mut sub);
                        proof {
                            assert(inner.types.seq() == member_seq(*unions, m));
                            assert(texts(errs@) =~= texts(e0) + texts(se));
                            let w1 = walk_spec(*unions, member_seq(*unions, m), 0, sk.insert(m), (fuel - 1) as nat);
                            assert(texts(e0) + texts(se) + walk_spec(*unions, ms, k + 1, w1.0, fuel).1
                                =~= texts(e0) + here.1);
                            assert(union_names(*unions).finite());
                            vstd::set_lib::lemma_len_subset(
                                union_names(*unions).difference(name_list(seen@)),
                                union_names(*unions).difference(sk),
                            );
                            assert forall|i: int| 0 <= i < errs@.len() implies reports_recursion(#[trigger] errs@[i]@, *unions, start) by {
                                if i < e0.len() {
                                    assert(errs@[i] == e0[i]);
                                } else {
                                    assert(errs@[i] == se[i - e0.len()]);
                                    assert(reports_recursion(se[i - e0.len()]@, *unions, inner_start));
                                    let y = choose|y: Seq<char>| reaches_union(*unions, inner_start, y) && se[i - e0.len()]@ == "Recursive type "@ + y;
                                    let q = choose|q: Seq<Seq<char>>| #[trigger] member_path(*unions, inner_start, q) && q.last() == y;
                                    lemma_path_step(*unions, start, m, q);
                                    assert(reaches_union(*unions, start, y));
                                }
                            }
                        }
                    }
                },
                None => {
                    union_types.insert(crate::strings::copy_str(name));
                    proof {
                        let one = seq![m];
                        assert(member_path(*unions, start, one));
                        assert(leaves(*unions, start).contains(m));
                    }
                },
            }
            proof {
                if errs@.len() == 0 {
                    assert forall|p: Seq<Seq<char>>| #[trigger] member_path(*unions, start, p)
                        && !unions.as_map().contains_key(p.last()) && (exists|j: int| 0 <= j < k + 1 && union_members.items@[j]@ == p[0])
                        implies union_types.as_set().contains(p.last()) by {
                        let j = choose|j: int| 0 <= j < k + 1 && union_members.items@[j]@ == p[0];
                        if j < k {
                            assert(t0.contains(p.last()));
                        } else {
                            if p.len() == 1 {
                            } else {
                                lemma_path_rest(*unions, start, p);
                                assert(member_path(*unions, members(*unions, m), p.drop_first()));
                                assert(leaves(*unions, members(*unions, m)).contains(p.last()));
                            }
                        }
                    }
                }
            }
            k = k + 1;
        }
        proof {
            if errs@.len() == 0 {
                assert forall|x: Seq<char>| leaves(*unions, start).contains(x) implies union_types.as_set().contains(x) by {
                    let p = choose|p: Seq<Seq<char>>| #[trigger] member_path(*unions, start, p) && p.last() == x;
                    let j = choose|j: int| 0 <= j < union_members.items@.len() && union_members.items@[j]@ == p[0];
                    assert(member_path(*unions, start, p) && !unions.as_map().contains_key(p.last())
                        && (exists|j: int| 0 <= j < k && union_members.items@[j]@ == p[0]));
                }
            }
        }
        errs
    }
}

impl<'a> Visitor<'a> {
    /// The unions with each one's members replaced by the types it stands
    /// for; a union met twice while walking one union is reported.
    fn visit(&self) -> (r: Result<StrMap<Union>, Vec<Cause>>)
        requires
            self.unions.wf(),
            forall|i: int| 0 <= i < self.unions.entries@.len() ==> (#[trigger] self.unions.entries@[i]).1.types.wf(),
        ensures
            r matches Ok(m) ==> flattened(*self.unions, m),
            r matches Err(e) ==> e@.len() > 0 && forall|i: int| 0 <= i < e@.len() ==> recursion_cause(*self.unions, #[trigger] e@[i]),
            r is Ok <==> nested_union_causes(*self.unions).len() == 0,
            r matches Err(e) ==> cause_views(e@) == nested_union_causes(*self.unions),
    {
        let unions: &'a StrMap<Union> = self.unions;
        let mut result: StrMap<Union> = StrMap::new();
        let mut causes: Vec<Cause> = Vec::new();
        let n = unions.entries.len();
        let mut k: usize = 0;
        while k < n
            invariant
                self.unions == unions,
                unions.wf(),
                forall|i: int| 0 <= i < unions.entries@.len() ==> (#[trigger] unions.entries@[i]).1.types.wf(),
                n == unions.entries@.len(),
                k <= n,
                result.wf(),
                causes@.len() == 0 ==> flattened_upto(*unions, result, k as int),
                forall|i: int| 0 <= i < causes@.len() ==> recursion_cause(*unions, #[trigger] causes@[i]),
                cause_views(causes@) == causes_upto(*unions, k as int),
            decreases n - k,
        {
            let name = &unions.entries[k].0;
            let u = &unions.entries[k].1;
            proof {
                unions.lemma_at(k as int);
            }
            let mut types = StrSet::new();
            let mut seen: Vec<&'a str> = Vec::new();
            proof {
                assert(seen@ =~= Seq::<&str>::empty());
                assert(name_list(seen@) =~= Set::<Seq<char>>::empty());
                assert(union_names(*unions).difference(name_list(seen@)) =~= union_names(*unions));
                unions.keys().lemma_cardinality_of_set();
            }
            let errs = self.walk_union(&u.types, &mut types, &mut seen, Ghost(n as nat));
            let ghost c0 = causes@;
            let ghost r0 = result;
            proof {
                assert(u.types.seq() == member_seq(*unions, unions.keys()[k as int]));
                assert(texts(errs@) == union_errors(*unions, k as int));
            }
            if errs.len() == 0 {
                proof {
                    assert(types.as_set() =~= leaves(*unions, members(*unions, name@)));
                }
                result.insert(name.clone(), Union { types, doc: u.doc.clone() });
                proof {
                    assert(union_errors(*unions, k as int).map_values(
                        |e: Seq<char>| (e, seq![unions.keys()[k as int]]),
                    ) =~= Seq::empty());
                    assert(causes_upto(*unions, k + 1) =~= causes_upto(*unions, k as int));
                    if c0.len() == 0 {
                        assert forall|x: Seq<char>| #[trigger] result.as_map().contains_key(x) implies exists|j: int| 0 <= j < k + 1
                            && unions.entries@[j].0@ == x by {
                            if x != name@ {
                                assert(r0.as_map().contains_key(x));
                            }
                        }
                        assert forall|j: int| 0 <= j < k + 1 implies union_flat(*unions, result, #[trigger] unions.entries@[j].0@) by {
                            if j < k {
                                assert(union_flat(*unions, r0, unions.entries@[j].0@));
                                unions.lemma_at(j);
                                assert(unions.entries@[j].0@ != name@) by {
                                    if unions.entries@[j].0@ == name@ {
                                        unions.lemma_unique(j, k as int);
                                    }
                                }
                            }
                        }
                    }
                }
            } else {
                let mut fresh: Vec<Cause> = Vec::new();
                let m = errs.len();
                let mut j: usize = 0;
                while j < m
                    invariant
                        m == errs@.len(),
                        j <= m,
                        fresh@.len() == j,
                        forall|x: int| 0 <= x < j ==> (#[trigger] fresh@[x]).error == errs@[x] && fresh@[x].trace@.len() == 0,
                    decreases m - j,
                {
                    fresh.push(Cause::new(errs[j].clone()));
                    j = j + 1;
                }
                let mut traced = trace_all(fresh, name.as_str());
                let ghost tv = traced@;
                causes.append(&mut traced);
                proof {
                    let add = union_errors(*unions, k as int).map_values(
                        |e: Seq<char>| (e, seq![unions.keys()[k as int]]),
                    );
                    assert(cause_views(tv) =~= add) by {
                        assert forall|x: int| 0 <= x < tv.len() implies #[trigger] cause_views(tv)[x] == add[x] by {
                            assert(fresh@[x].error == errs@[x]);
                            assert(texts(tv[x].trace@) =~= seq![name@]);
                            assert(texts(errs@)[x] == errs@[x]@);
                        }
                    }
                    assert(cause_views(causes@) =~= cause_views(c0) + cause_views(tv));
                    assert forall|i: int| 0 <= i < causes@.len() implies recursion_cause(*unions, #[trigger] causes@[i]) by {
                        if i >= c0.len() {
                            let x = i - c0.len();
                            assert(reports_recursion(errs@[x]@, *unions, members(*unions, name@)));
                        } else {
                            assert(causes@[i] == c0[i]);
                        }
                    }
                }
            }
            k = k + 1;
        }
        assert(cause_views(causes@).len() == causes@.len());
        if causes.len() > 0 {
            Err(causes)
        } else {
            proof {
                assert forall|x: Seq<char>| #[trigger] result.as_map().contains_key(x) == unions.as_map().contains_key(x) by {
                    if result.as_map().contains_key(x) {
                        let j = choose|j: int| 0 <= j < n && unions.entries@[j].0@ == x;
                        unions.lemma_at(j);
                    }
                    if unions.as_map().contains_key(x) {
                        let j = unions.pos(x);
                        assert(union_flat(*unions, result, unions.entries@[j].0@));
                    }
                }
                assert forall|x: Seq<char>| #[trigger] unions.as_map().contains_key(x) implies union_flat(*unions, result, x) by {
                    let j = unions.pos(x);
                    assert(union_flat(*unions, result, unions.entries@[j].0@));
                }
            }
            Ok(result)
        }
    }
}

/// The union named `n` in `m` lists the types the union `n` stands for in
/// `unions`, with its documentation.
pub open spec fn union_flat(unions: StrMap<Union>, m: StrMap<Union>, n: Seq<char>) -> bool {
    &&& m.as_map().contains_key(n)
    &&& m.as_map()[n].types.wf()
    &&& m.as_map()[n].types.as_set() == leaves(unions, members(unions, n))
    &&& m.as_map()[n].doc == unions.as_map()[n].doc
}

/// `m` holds every union of `unions`, each listing the types it stands for.
pub open spec fn flattened(unions: StrMap<Union>, m: StrMap<Union>) -> bool {
    &&& m.wf()
    &&& forall|x: Seq<char>| #[trigger] m.as_map().contains_key(x) == unions.as_map().contains_key(x)
    &&& forall|x: Seq<char>| #[trigger] unions.as_map().contains_key(x) ==> union_flat(unions, m, x)
}

spec fn flattened_upto(unions: StrMap<Union>, m: StrMap<Union>, k: int) -> bool {
    &&& m.wf()
    &&& forall|x: Seq<char>| #[trigger] m.as_map().contains_key(x) ==> exists|j: int| 0 <= j < k && unions.entries@[j].0@ == x
    &&& forall|j: int| 0 <= j < k ==> union_flat(unions, m, #[trigger] unions.entries@[j].0@)
}

/// A cause found while walking a union: traced by that union's name, it
/// reports a union the walk met again.
pub open spec fn recursion_cause(unions: StrMap<Union>, c: Cause) -> bool {
    &&& c.trace@.len() == 1
    &&& unions.as_map().contains_key(c.trace@[0]@)
    &&& reports_recursion(c.error@, unions, members(unions, c.trace@[0]@))
}

/// Replaces the unions that unions list by the types they stand for.
#[derive(Clone, Copy, Debug, Default)]
pub struct NestedUnions;

impl NestedUnions {
    /// The configuration with every union listing the types it stands for;
    /// fails when walking a union meets some union twice, with a cause for
    /// each such meeting, traced by the union being walked.
    pub fn transform(&self, config: Config) -> (r: Result<Config, Vec<Cause>>)
        requires
            config.wf(),
        ensures
            r matches Ok(c) ==> {
                &&& flattened(config.unions, c.unions)
                &&& c.types == config.types
                &&& c.enums == config.enums
                &&& c.schema == config.schema
                &&& c.upstream == config.upstream
                &&& c.enable_federation == config.enable_federation
            },
            r matches Err(e) ==> forall|i: int| 0 <= i < e@.len() ==> recursion_cause(config.unions, #[trigger] e@[i]),
            r is Ok <==> nested_union_causes(config.unions).len() == 0,
            r matches Err(e) ==> cause_views(e@) == nested_union_causes(config.unions),
    {
        let visited = {
            let visitor = Visitor { unions: &config.unions };
            visitor.visit()
        };
        match visited {
            Ok(unions) => {
                let Config { schema, upstream, enable_federation, types, unions: _, enums } = config;
                Ok(Config { schema, upstream, enable_federation, types, unions, enums })
            },
            Err(e) => Err(e),
        }
    }
}

/// The names in a list of names, as a set.
pub open spec fn name_list(v: Seq<&str>) -> Set<Seq<char>> {
    v.map_values(|s: &str| s@).to_set()
}

proof fn lemma_name_list_push(v: Seq<&str>, s: &str)
    ensures
        name_list(v.push(s)) == name_list(v).insert(s@),
{
    let a = v.map_values(|x: &str| x@);
    let b = v.push(s).map_values(|x: &str| x@);
    assert(b =~= a.push(s@));
    assert forall|y: Seq<char>| b.to_set().contains(y) <==> a.to_set().insert(s@).contains(y) by {
        if b.contains(y) {
            let i = choose|i: int| 0 <= i < b.len() && b[i] == y;
            if i < a.len() {
                assert(a[i] == y);
            }
        }
        if a.contains(y) {
            let i = choose|i: int| 0 <= i < a.len() && a[i] == y;
            assert(b[i] == y);
        }
        if y == s@ {
            assert(b[a.len() as int] == y);
        }
    }
    assert(b.to_set() =~= a.to_set().insert(s@));
}

fn contains_str(v: &Vec<&str>, t: &str) -> (r: bool)
    ensures
        r == name_list(v@).contains(t@),
{
    let n = v.len();
    let mut i: usize = 0;
    while i < n
        invariant
            n == v@.len(),
            i <= n,
            forall|j: int| 0 <= j < i ==> v@[j]@ != t@,
        decreases n - i,
    {
        if crate::strings::str_eq(v[i], t) {
            assert(v@.map_values(|x: &str| x@)[i as int] == t@);
            return true;
        }
        i = i + 1;
    }
    let ghost a = v@.map_values(|x: &str| x@);
    assert forall|j: int| 0 <= j < a.len() implies a[j] != t@ by {
        assert(a[j] == v@[j]@);
    }
    false
}

/// After the unions are flattened, no union lists another union: each
/// union of the result lists only names that are not unions.
pub proof fn law_flattened_members_not_unions(unions: StrMap<Union>, m: StrMap<Union>, u: Seq<char>, x: Seq<char>)
    requires
        flattened(unions, m),
        m.as_map().contains_key(u),
        m.as_map()[u].types.as_set().contains(x),
    ensures
        !m.as_map().contains_key(x),
{
    assert(unions.as_map().contains_key(u));
    assert(union_flat(unions, m, u));
    assert(leaves(unions, members(unions, u)).contains(x));
    assert(!unions.as_map().contains_key(x));
}

} // verus!
