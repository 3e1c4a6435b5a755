//! Replaces unions used by arguments: a field whose argument is a union
//! becomes one field per member, and a type whose fields hold unions
//! becomes one type per choice of members.

use vstd::prelude::*;
use crate::config::{AddField, Arg, Config, Field, Type};
use crate::config::copies::{copy_field, copy_opt, copy_resolvers, same_field, same_resolvers};
use crate::config::transformer::type_merger::same_add_field;
use crate::config::transformer::nested_unions::texts;
use crate::strmap::StrMap;
use crate::valid::Cause;
use crate::strset::{lemma_same_names_same_seq, sorted_names, StrSet};
use crate::strings::{concat_str, copy_str, decimal, usize_to_string};

verus! {

broadcast use vstd::seq_lib::seq_to_set_is_finite;

/// What the walk knows of a name: `None` when it holds no union, or the
/// names it stands for when it is a union or holds one.
pub open spec fn presence_view(p: StrMap<Option<Vec<String>>>) -> Map<Seq<char>, Option<Seq<Seq<char>>>> {
    Map::new(
        |k: Seq<char>| p.as_map().contains_key(k),
        |k: Seq<char>|
            match p.as_map()[k] {
                None => None,
                Some(v) => Some(texts(v@)),
            },
    )
}

/// Name `n` stands for several names.
pub open spec fn stands_for_many(p: Map<Seq<char>, Option<Seq<Seq<char>>>>, n: Seq<char>) -> bool {
    p.contains_key(n) && p[n] is Some
}

/// The union fields of a type as names: each field name with the names its
/// type stands for.
pub open spec fn fields_view(v: Seq<(String, Vec<String>)>) -> Seq<(Seq<char>, Seq<Seq<char>>)> {
    v.map_values(|x: (String, Vec<String>)| (x.0@, texts(x.1@)))
}

/// Requests for new types, as names.
pub open spec fn requests_view(v: Seq<(String, Vec<(String, Vec<String>)>)>) -> Seq<(Seq<char>, Seq<(Seq<char>, Seq<Seq<char>>)>)> {
    v.map_values(|x: (String, Vec<(String, Vec<String>)>)| (x.0@, fields_view(x.1@)))
}

/// Choices of a name for each of some fields or arguments.
pub open spec fn choices_view(v: Seq<(String, String)>) -> Seq<(Seq<char>, Seq<char>)> {
    v.map_values(|x: (String, String)| (x.0@, x.1@))
}

/// Named lists of choices.
pub open spec fn variants_view(v: Seq<(String, Vec<(String, String)>)>) -> Seq<(Seq<char>, Seq<(Seq<char>, Seq<char>)>)> {
    v.map_values(|x: (String, Vec<(String, String)>)| (x.0@, choices_view(x.1@)))
}

/// The names the members `ms` before position `k` stand for: a member that
/// stands for several names gives those, any other gives itself.
pub open spec fn flat_upto(ms: Seq<Seq<char>>, k: int, p: Map<Seq<char>, Option<Seq<Seq<char>>>>) -> Set<Seq<char>>
    decreases k,
{
    if k <= 0 {
        Set::empty()
    } else {
        let m = ms[k - 1];
        flat_upto(ms, k - 1, p).union(
            if stands_for_many(p, m) {
                p[m].unwrap().to_set()
            } else {
                Set::empty().insert(m)
            },
        )
    }
}

/// The names of a finite set in increasing order.
pub open spec fn sorted_of(s: Set<Seq<char>>) -> Seq<Seq<char>> {
    choose|q: Seq<Seq<char>>| sorted_names(q) && q.to_set() == s
}

/// The fields before position `k` whose type stands for several names, with
/// those names.
pub open spec fn union_fields_upto(
    e: Seq<(String, crate::config::Field)>,
    k: int,
    p: Map<Seq<char>, Option<Seq<Seq<char>>>>,
) -> Seq<(Seq<char>, Seq<Seq<char>>)>
    decreases k,
{
    if k <= 0 {
        Seq::empty()
    } else {
        let prev = union_fields_upto(e, k - 1, p);
        let t = e[k - 1].1.type_of@;
        if stands_for_many(p, t) {
            prev.push((e[k - 1].0@, p[t].unwrap()))
        } else {
            prev
        }
    }
}

/// Every choice of a name for each of the union fields from position `k`
/// on, after the choices `chosen`: the name of the new type, `__`, the field
/// and the position of the chosen name added for each field.
pub open spec fn product(
    name: Seq<char>,
    uf: Seq<(Seq<char>, Seq<Seq<char>>)>,
    k: int,
    chosen: Seq<(Seq<char>, Seq<char>)>,
) -> Seq<(Seq<char>, Seq<(Seq<char>, Seq<char>)>)>
    decreases uf.len() - k, 1int, 0int,
{
    if k < 0 || k >= uf.len() {
        seq![(name, chosen)]
    } else {
        product_from(name, uf, k, chosen, 0)
    }
}

/// The choices of `product` whose field at position `k` takes one of its
/// names from position `i` on.
pub open spec fn product_from(
    name: Seq<char>,
    uf: Seq<(Seq<char>, Seq<Seq<char>>)>,
    k: int,
    chosen: Seq<(Seq<char>, Seq<char>)>,
    i: int,
) -> Seq<(Seq<char>, Seq<(Seq<char>, Seq<char>)>)>
    decreases uf.len() - k, 0int, uf[k].1.len() - i,
{
    if k < 0 || k >= uf.len() || i < 0 || i >= uf[k].1.len() {
        Seq::empty()
    } else {
        product(name + "__"@ + uf[k].0 + decimal(i as nat), uf, k + 1, chosen.push((uf[k].0, uf[k].1[i])))
            + product_from(name, uf, k, chosen, i + 1)
    }
}

/// The names of the types made for the union fields `uf` of type `name`.
pub open spec fn product_names(name: Seq<char>, uf: Seq<(Seq<char>, Seq<Seq<char>>)>) -> Seq<Seq<char>> {
    product(name, uf, 0, Seq::empty()).map_values(|x: (Seq<char>, Seq<(Seq<char>, Seq<char>)>)| x.0)
}

/// The names of the unions and types of the configuration.
pub open spec fn all_names(c: Config) -> Set<Seq<char>> {
    c.unions.as_map().dom().union(c.types.as_map().dom())
}

/// The types of the fields of a type, in order.
pub open spec fn field_type_names(t: Type) -> Seq<Seq<char>> {
    Seq::new(t.fields.entries@.len(), |i: int| t.fields.entries@[i].1.type_of@)
}

/// What the walk knows, the names it has been to, and the types it asked
/// for, each with its union fields.
pub type WalkState = (
    Map<Seq<char>, Option<Seq<Seq<char>>>>,
    Set<Seq<char>>,
    Seq<(Seq<char>, Seq<(Seq<char>, Seq<Seq<char>>)>)>,
);

/// The walk from name `n`: a name known or been to is left; a union is
/// walked through its members and stands for the names they stand for; a
/// type is walked through its fields' types, and when some of its fields
/// then stand for several names it stands for one new type per choice of
/// them. `fuel` bounds the depth; it never runs out when it is at least the
/// number of unions and types not been to.
pub open spec fn walked(c: Config, n: Seq<char>, s: WalkState, fuel: nat) -> WalkState
    decreases fuel, 0int,
{
    if s.0.contains_key(n) || s.1.contains(n) {
        s
    } else {
        let s1 = (s.0, s.1.insert(n), s.2);
        if c.unions.as_map().contains_key(n) {
            if fuel == 0 {
                s1
            } else {
                let ms = c.unions.as_map()[n].types.seq();
                let s2 = walked_all(c, ms, 0, s1, (fuel - 1) as nat);
                (s2.0.insert(n, Some(sorted_of(flat_upto(ms, ms.len() as int, s2.0)))), s2.1, s2.2)
            }
        } else if c.types.as_map().contains_key(n) {
            if fuel == 0 {
                s1
            } else {
                let t = c.types.as_map()[n];
                let s2 = walked_all(c, field_type_names(t), 0, s1, (fuel - 1) as nat);
                let uf = union_fields_upto(t.fields.entries@, t.fields.entries@.len() as int, s2.0);
                if uf.len() == 0 {
                    (s2.0.insert(n, None), s2.1, s2.2)
                } else {
                    (s2.0.insert(n, Some(product_names(n, uf))), s2.1, s2.2.push((n, uf)))
                }
            }
        } else {
            s1
        }
    }
}

/// The walk from each of the names `ns` from position `k` on, in order.
pub open spec fn walked_all(c: Config, ns: Seq<Seq<char>>, k: int, s: WalkState, fuel: nat) -> WalkState
    decreases fuel, ns.len() - k + 1,
{
    if k < 0 || k >= ns.len() {
        s
    } else {
        walked_all(c, ns, k + 1, walked(c, ns[k], s, fuel), fuel)
    }
}

/// The state of a walk.
struct Walk {
    presence: StrMap<Option<Vec<String>>>,
    visited: StrSet,
    requests: Vec<(String, Vec<(String, Vec<String>)>)>,
}

impl Walk {
    spec fn wf(self) -> bool {
        self.presence.wf() && self.visited.wf()
    }

    spec fn state(self) -> WalkState {
        (presence_view(self.presence), self.visited.as_set(), requests_view(self.requests@))
    }
}

fn copy_names(v: &Vec<String>) -> (r: Vec<String>)
    ensures
        texts(r@) == texts(v@),
{
    let mut r: Vec<String> = Vec::new();
    let n = v.len();
    let mut i: usize = 0;
    while i < n
        invariant
            n == v@.len(),
            i <= n,
            texts(r@) == texts(v@).take(i as int),
        decreases n - i,
    {
        let ghost r0 = r@;
        r.push(v[i].clone());
        assert(r@ == r0.push(v@[i as int]));
        assert(texts(r@) =~= texts(r0).push(v@[i as int]@));
        assert(texts(r@) =~= texts(v@).take(i + 1));
        i = i + 1;
    }
    assert(texts(v@).take(n as int) =~= texts(v@));
    r
}

fn copy_choices(v: &Vec<(String, String)>) -> (r: Vec<(String, String)>)
    ensures
        choices_view(r@) == choices_view(v@),
{
    let mut r: Vec<(String, String)> = Vec::new();
    let n = v.len();
    let mut i: usize = 0;
    while i < n
        invariant
            n == v@.len(),
            i <= n,
            choices_view(r@) == choices_view(v@).take(i as int),
        decreases n - i,
    {
        let ghost r0 = r@;
        let a = v[i].0.clone();
        let b = v[i].1.clone();
        r.push((a, b));
        assert(r@ == r0.push((a, b)));
        assert(choices_view(r@) =~= choices_view(r0).push((v@[i as int].0@, v@[i as int].1@)));
        assert(choices_view(r@) =~= choices_view(v@).take(i + 1));
        i = i + 1;
    }
    assert(choices_view(v@).take(n as int) =~= choices_view(v@));
    r
}

/// The new types for the union fields `uf` from position `k` on, after the
/// choices `chosen`, each named and with the choice for each union field.
fn create_types_from_union(name: String, uf: &Vec<(String, Vec<String>)>, k: usize, chosen: Vec<(String, String)>) -> (r: Vec<(String, Vec<(String, String)>)>)
    requires
        k <= uf@.len(),
    ensures
        variants_view(r@) == product(name@, fields_view(uf@), k as int, choices_view(chosen@)),
    decreases uf@.len() - k,
{
    let ghost ufv = fields_view(uf@);
    if k >= uf.len() {
        let mut r: Vec<(String, Vec<(String, String)>)> = Vec::new();
        r.push((name, chosen));
        assert(variants_view(r@) =~= seq![(name@, choices_view(chosen@))]);
        return r;
    }
    let next = k + 1;
    let field_name = &uf[k].0;
    let names = &uf[k].1;
    let n = names.len();
    let mut out: Vec<(String, Vec<(String, String)>)> = Vec::new();
    let mut i: usize = 0;
    assert(ufv[k as int] == (field_name@, texts(names@)));
    while i < n
        invariant
            k < uf@.len(),
            ufv == fields_view(uf@),
            field_name == &uf@[k as int].0,
            names == &uf@[k as int].1,
            n == names@.len(),
            next == k + 1,
            ufv[k as int] == (field_name@, texts(names@)),
            i <= n,
            variants_view(out@) + product_from(name@, ufv, k as int, choices_view(chosen@), i as int)
                == product_from(name@, ufv, k as int, choices_view(chosen@), 0),
        decreases n - i,
    {
        let suffix = usize_to_string(i);
        let sub_name = concat_str(concat_str(concat_str(name.as_str(), "__").as_str(), field_name.as_str()).as_str(), suffix.as_str());
        let mut sub_chosen = copy_choices(&chosen);
        sub_chosen.push((field_name.clone(), names[i].clone()));
        proof {
            reveal_strlit("__");
            assert(sub_name@ == name@ + "__"@ + ufv[k as int].0 + decimal(i as nat));
            assert(choices_view(sub_chosen@) =~= choices_view(chosen@).push((ufv[k as int].0, ufv[k as int].1[i as int])));
        }
        let sub = create_types_from_union(sub_name, uf, next, sub_chosen);
        let ghost before = variants_view(out@);
        let mut sub = sub;
        let ghost sv = sub@;
        out.append(&mut sub);
        proof {
            assert(variants_view(out@) =~= before + variants_view(sv));
            assert(before + variants_view(sv) + product_from(name@, ufv, k as int, choices_view(chosen@), i + 1)
                =~= before + product_from(name@, ufv, k as int, choices_view(chosen@), i as int));
        }
        i = i + 1;
    }
    assert(variants_view(out@) =~= variants_view(out@) + product_from(name@, ufv, k as int, choices_view(chosen@), n as int));
    out
}

/// The set of the names of a list.
fn set_of(v: &Vec<String>) -> (r: StrSet)
    ensures
        r.wf(),
        r.as_set() == texts(v@).to_set(),
{
    let mut r = StrSet::new();
    let n = v.len();
    let mut i: usize = 0;
    while i < n
        invariant
            n == v@.len(),
            i <= n,
            r.wf(),
            r.as_set() == texts(v@).take(i as int).to_set(),
        decreases n - i,
    {
        r.insert(v[i].clone());
        proof {
            assert(texts(v@).take(i + 1) =~= texts(v@).take(i as int).push(v@[i as int]@));
            texts(v@).take(i as int).lemma_push_to_set_commute(v@[i as int]@);
        }
        i = i + 1;
    }
    assert(texts(v@).take(n as int) =~= texts(v@));
    r
}

/// The names the members `ms` stand for.
fn flat_names(ms: &Vec<String>, presence: &StrMap<Option<Vec<String>>>) -> (r: StrSet)
    requires
        presence.wf(),
    ensures
        r.wf(),
        r.as_set() == flat_upto(texts(ms@), ms@.len() as int, presence_view(*presence)),
{
    let ghost p = presence_view(*presence);
    let mut r = StrSet::new();
    let n = ms.len();
    let mut k: usize = 0;
    while k < n
        invariant
            n == ms@.len(),
            k <= n,
            r.wf(),
            presence.wf(),
            p == presence_view(*presence),
            r.as_set() == flat_upto(texts(ms@), k as int, p),
        decreases n - k,
    {
        let m = &ms[k];
        assert(texts(ms@)[k as int] == m@);
        match presence.get(m.as_str()) {
            Some(Some(ts)) => {
                let part = set_of(ts);
                r.extend(&part);
            },
            _ => {
                r.insert(copy_str(m.as_str()));
                assert(Set::<Seq<char>>::empty().insert(m@) =~= set![m@]);
            },
        }
        proof {
            assert(r.as_set() =~= flat_upto(texts(ms@), k + 1, p));
        }
        k = k + 1;
    }
    r
}

/// The fields of `t` whose type stands for several names, with those names.
fn union_fields_of(t: &Type, presence: &StrMap<Option<Vec<String>>>) -> (r: Vec<(String, Vec<String>)>)
    requires
        presence.wf(),
    ensures
        fields_view(r@) == union_fields_upto(t.fields.entries@, t.fields.entries@.len() as int, presence_view(*presence)),
{
    let ghost p = presence_view(*presence);
    let mut r: Vec<(String, Vec<String>)> = Vec::new();
    let n = t.fields.entries.len();
    let mut k: usize = 0;
    while k < n
        invariant
            n == t.fields.entries@.len(),
            k <= n,
            presence.wf(),
            p == presence_view(*presence),
            fields_view(r@) == union_fields_upto(t.fields.entries@, k as int, p),
        decreases n - k,
    {
        let name = &t.fields.entries[k].0;
        let ty = &t.fields.entries[k].1.type_of;
        let ghost r0 = r@;
        match presence.get(ty.as_str()) {
            Some(Some(ts)) => {
                let item = (name.clone(), copy_names(ts));
                r.push(item);
                proof {
                    assert(r@ == r0.push(item));
                    assert(fields_view(r@) =~= fields_view(r0).push((name@, texts(ts@))));
                }
            },
            _ => {},
        }
        k = k + 1;
    }
    r
}

/// The names of a list of variants.
fn names_of(v: &Vec<(String, Vec<(String, String)>)>) -> (r: Vec<String>)
    ensures
        texts(r@) == variants_view(v@).map_values(|x: (Seq<char>, Seq<(Seq<char>, Seq<char>)>)| x.0),
{
    let ghost want = variants_view(v@).map_values(|x: (Seq<char>, Seq<(Seq<char>, Seq<char>)>)| x.0);
    let mut r: Vec<String> = Vec::new();
    let n = v.len();
    let mut i: usize = 0;
    while i < n
        invariant
            n == v@.len(),
            i <= n,
            want == variants_view(v@).map_values(|x: (Seq<char>, Seq<(Seq<char>, Seq<char>)>)| x.0),
            texts(r@) == want.take(i as int),
        decreases n - i,
    {
        let ghost r0 = r@;
        let x = v[i].0.clone();
        r.push(x);
        proof {
            assert(r@ == r0.push(x));
            assert(variants_view(v@)[i as int].0 == v@[i as int].0@);
            assert(want[i as int] == v@[i as int].0@);
            assert(texts(r@) =~= texts(r0).push(x@));
            assert(texts(r@) =~= want.take(i + 1));
        }
        i = i + 1;
    }
    assert(want.take(n as int) =~= want);
    r
}

/// Sets the presence of `name` and keeps the rest of the walk.
proof fn lemma_presence_insert(
    before: StrMap<Option<Vec<String>>>,
    after: StrMap<Option<Vec<String>>>,
    name: Seq<char>,
    v: Option<Vec<String>>,
)
    requires
        after.as_map() == before.as_map().insert(name, v),
    ensures
        presence_view(after) == presence_view(before).insert(
            name,
            match v {
                None => None,
                Some(x) => Some(texts(x@)),
            },
        ),
{
    assert(presence_view(after) =~= presence_view(before).insert(
        name,
        match v {
            None => None,
            Some(x) => Some(texts(x@)),
        },
    ));
}

/// Walks from `name`, as `walked` says, recording what each name met
/// stands for.
fn collect_nested_unions_for_type(c: &Config, name: &str, w: &mut Walk, Ghost(fuel): Ghost<nat>)
    requires
        c.wf(),
        old(w).wf(),
        fuel >= all_names(*c).difference(old(w).visited.as_set()).len(),
    ensures
        final(w).wf(),
        final(w).state() == walked(*c, name@, old(w).state(), fuel),
        old(w).visited.as_set().subset_of(final(w).visited.as_set()),
        old(w).requests@.len() <= final(w).requests@.len(),
    decreases all_names(*c).difference(old(w).visited.as_set()).len(),
{
    if w.presence.contains_key(name) || w.visited.contains(name) {
        return;
    }
    let ghost s0 = w.state();
    let ghost u = all_names(*c);
    proof {
        c.unions.lemma_len();
        c.types.lemma_len();
    }
    w.visited.insert(copy_str(name));
    let ghost s1 = w.state();
    assert(s1 == (s0.0, s0.1.insert(name@), s0.2));
    match c.unions.get(name) {
        Some(un) => {
            proof {
                assert(u.contains(name@));
                u.lemma_set_insert_diff_decreases(s0.1, name@);
            }
            let members = &un.types.items;
            let ghost ms = un.types.seq();
            assert(ms == c.unions.as_map()[name@].types.seq());
            let n = members.len();
            let mut k: usize = 0;
            while k < n
                invariant
                    c.wf(),
                    w.wf(),
                    n == members@.len(),
                    k <= n,
                    ms == un.types.seq(),
                    members == &un.types.items,
                    old(w).requests@.len() <= w.requests@.len(),
                    u == all_names(*c),
                    u.finite(),
                    s0.1 == old(w).visited.as_set(),
                    fuel >= u.difference(s0.1).len(),
                    u.difference(s1.1).len() < u.difference(s0.1).len(),
                    s1.1.subset_of(w.visited.as_set()),
                    walked_all(*c, ms, k as int, w.state(), (fuel - 1) as nat)
                        == walked_all(*c, ms, 0, s1, (fuel - 1) as nat),
                decreases n - k,
            {
                proof {
                    vstd::set_lib::lemma_len_subset(u.difference(w.visited.as_set()), u.difference(s1.1));
                }
                let ghost sk = w.state();
                collect_nested_unions_for_type(c, members[k].as_str(), w, Ghost((fuel - 1) as nat));
                proof {
                    assert(ms[k as int] == members@[k as int]@);
                }
                k = k + 1;
            }
            let ghost s2 = w.state();
            assert(texts(members@) =~= ms);
            let flat = flat_names(members, &w.presence);
            let ghost fs = flat.as_set();
            proof {
                flat.lemma_sorted();
                assert(texts(flat.items@) =~= flat.seq());
                lemma_same_names_same_seq(sorted_of(fs), flat.seq());
            }
            let ghost p0 = w.presence;
            w.presence.insert(copy_str(name), Some(flat.items));
            proof {
                lemma_presence_insert(p0, w.presence, name@, Some(flat.items));
            }
        },
        None => {
            match c.types.get(name) {
                Some(t) => {
                    proof {
                        assert(u.contains(name@));
                        u.lemma_set_insert_diff_decreases(s0.1, name@);
                    }
                    let ghost fts = field_type_names(*t);
                    let n = t.fields.entries.len();
                    let mut k: usize = 0;
                    while k < n
                        invariant
                            c.wf(),
                            w.wf(),
                            n == t.fields.entries@.len(),
                            k <= n,
                            fts == field_type_names(*t),
                            old(w).requests@.len() <= w.requests@.len(),
                            u == all_names(*c),
                            u.finite(),
                            s0.1 == old(w).visited.as_set(),
                            fuel >= u.difference(s0.1).len(),
                            u.difference(s1.1).len() < u.difference(s0.1).len(),
                            s1.1.subset_of(w.visited.as_set()),
                            walked_all(*c, fts, k as int, w.state(), (fuel - 1) as nat)
                                == walked_all(*c, fts, 0, s1, (fuel - 1) as nat),
                        decreases n - k,
                    {
                        proof {
                            vstd::set_lib::lemma_len_subset(u.difference(w.visited.as_set()), u.difference(s1.1));
                        }
                        collect_nested_unions_for_type(c, t.fields.entries[k].1.type_of.as_str(), w, Ghost((fuel - 1) as nat));
                        k = k + 1;
                    }
                    let uf = union_fields_of(t, &w.presence);
                    let ghost p0 = w.presence;
                    if uf.len() == 0 {
                        w.presence.insert(copy_str(name), None);
                        proof {
                            lemma_presence_insert(p0, w.presence, name@, None);
                        }
                    } else {
                        let variants = create_types_from_union(copy_str(name), &uf, 0, Vec::new());
                        let names = names_of(&variants);
                        proof {
                            assert(choices_view(Seq::<(String, String)>::empty()) =~= Seq::empty());
                        }
                        w.presence.insert(copy_str(name), Some(names));
                        proof {
                            lemma_presence_insert(p0, w.presence, name@, Some(names));
                        }
                        let ghost r0 = w.requests@;
                        let item = (copy_str(name), uf);
                        w.requests.push(item);
                        proof {
                            assert(w.requests@ == r0.push(item));
                            assert(requests_view(w.requests@) =~= requests_view(r0).push((name@, fields_view(item.1@))));
                        }
                    }
                },
                None => {},
            }
        },
    }
}

/// The name chosen last for `n` among `ch`, or `d` when none is.
pub open spec fn choice_for(ch: Seq<(Seq<char>, Seq<char>)>, n: Seq<char>, d: Seq<char>) -> Seq<char>
    decreases ch.len(),
{
    if ch.len() == 0 {
        d
    } else if ch.last().0 == n {
        ch.last().1
    } else {
        choice_for(ch.drop_last(), n, d)
    }
}

/// Every choice of a member for each argument from position `k` on whose
/// type stands for several names, after the choices `chosen`: the field's
/// name, `Var` and the position of the chosen member added for each such
/// argument.
pub open spec fn arg_variants(
    name: Seq<char>,
    args: Seq<(String, Arg)>,
    k: int,
    p: Map<Seq<char>, Option<Seq<Seq<char>>>>,
    chosen: Seq<(Seq<char>, Seq<char>)>,
) -> Seq<(Seq<char>, Seq<(Seq<char>, Seq<char>)>)>
    decreases args.len() - k, 1int, 0int,
{
    if k < 0 || k >= args.len() {
        seq![(name, chosen)]
    } else if stands_for_many(p, args[k].1.type_of@) {
        arg_variants_from(name, args, k, p, chosen, 0)
    } else {
        arg_variants(name, args, k + 1, p, chosen)
    }
}

/// The choices of `arg_variants` whose argument at position `k` takes one
/// of its members from position `i` on.
pub open spec fn arg_variants_from(
    name: Seq<char>,
    args: Seq<(String, Arg)>,
    k: int,
    p: Map<Seq<char>, Option<Seq<Seq<char>>>>,
    chosen: Seq<(Seq<char>, Seq<char>)>,
    i: int,
) -> Seq<(Seq<char>, Seq<(Seq<char>, Seq<char>)>)>
    decreases args.len() - k, 0int, p[args[k].1.type_of@].unwrap().len() - i,
{
    if k < 0 || k >= args.len() || !stands_for_many(p, args[k].1.type_of@) || i < 0 || i
        >= p[args[k].1.type_of@].unwrap().len() {
        Seq::empty()
    } else {
        let ts = p[args[k].1.type_of@].unwrap();
        arg_variants(name + "Var"@ + decimal(i as nat), args, k + 1, p, chosen.push((args[k].0@, ts[i])))
            + arg_variants_from(name, args, k, p, chosen, i + 1)
    }
}

/// `b` is `a` with its type named `t`.
pub open spec fn arg_chosen(a: Arg, b: Arg, t: Seq<char>) -> bool {
    &&& b.type_of@ == t
    &&& b.list == a.list
    &&& b.required == a.required
    &&& b.doc == a.doc
}

/// `g` is field `f` with each argument's type as chosen in `ch`.
pub open spec fn field_with_args(f: Field, g: Field, ch: Seq<(Seq<char>, Seq<char>)>) -> bool {
    &&& g.type_of == f.type_of
    &&& g.list == f.list
    &&& g.required == f.required
    &&& g.list_type_required == f.list_type_required
    &&& g.doc == f.doc
    &&& g.omit == f.omit
    &&& same_resolvers(f.resolvers@, g.resolvers@)
    &&& g.args.entries@.len() == f.args.entries@.len()
    &&& forall|i: int|
        0 <= i < f.args.entries@.len() ==> {
            let (an, a) = f.args.entries@[i];
            &&& (#[trigger] g.args.entries@[i]).0 == an
            &&& arg_chosen(a, g.args.entries@[i].1, choice_for(ch, an@, a.type_of@))
        }
}

/// `g` is field `f` with its type named `t`.
pub open spec fn field_typed(f: Field, g: Field, t: Seq<char>) -> bool {
    &&& g.type_of@ == t
    &&& same_field(Field { type_of: g.type_of, ..f }, g)
}

/// `b` has the added fields, interfaces, tag, resolvers and documentation
/// of `a`.
pub open spec fn same_type_rest(a: Type, b: Type) -> bool {
    &&& b.added_fields@.len() == a.added_fields@.len()
    &&& forall|i: int| 0 <= i < a.added_fields@.len() ==> same_add_field(#[trigger] a.added_fields@[i], b.added_fields@[i])
    &&& b.implements.seq() == a.implements.seq()
    &&& b.implements.as_set() == a.implements.as_set()
    &&& (a.implements.wf() ==> b.implements.wf())
    &&& b.tag == a.tag
    &&& same_resolvers(a.resolvers@, b.resolvers@)
    &&& b.doc == a.doc
}

/// `b` is type `a` with each field's type as chosen in `ch`.
pub open spec fn type_with_choices(a: Type, b: Type, ch: Seq<(Seq<char>, Seq<char>)>) -> bool {
    &&& same_type_rest(a, b)
    &&& b.fields.entries@.len() == a.fields.entries@.len()
    &&& forall|j: int|
        0 <= j < a.fields.entries@.len() ==> {
            let (n, f) = a.fields.entries@[j];
            &&& (#[trigger] b.fields.entries@[j]).0 == n
            &&& field_typed(f, b.fields.entries@[j].1, choice_for(ch, n@, f.type_of@))
        }
}

fn copy_add_fields(v: &Vec<AddField>) -> (r: Vec<AddField>)
    ensures
        r@.len() == v@.len(),
        forall|i: int| 0 <= i < v@.len() ==> same_add_field(#[trigger] v@[i], r@[i]),
{
    let mut r: Vec<AddField> = Vec::new();
    let n = v.len();
    let mut i: usize = 0;
    while i < n
        invariant
            n == v@.len(),
            i <= n,
            r@.len() == i,
            forall|j: int| 0 <= j < i ==> same_add_field(#[trigger] v@[j], r@[j]),
        decreases n - i,
    {
        let a = AddField { name: v[i].name.clone(), path: crate::config::static_config::merge::copy_strings(&v[i].path) };
        r.push(a);
        i = i + 1;
    }
    r
}

/// The choice for `n` in `ch`, the last one made.
fn find_choice<'a>(ch: &'a Vec<(String, String)>, n: &str) -> (r: Option<&'a String>)
    ensures
        forall|d: Seq<char>| #[trigger] choice_for(choices_view(ch@), n@, d) == match r {
            Some(t) => t@,
            None => d,
        },
{
    let mut i = ch.len();
    assert(choices_view(ch@).take(ch@.len() as int) =~= choices_view(ch@));
    while i > 0
        invariant
            i <= ch@.len(),
            forall|d: Seq<char>| #[trigger] choice_for(choices_view(ch@), n@, d) == choice_for(choices_view(ch@).take(i as int), n@, d),
        decreases i,
    {
        proof {
            assert(choices_view(ch@).take(i as int).drop_last() =~= choices_view(ch@).take(i - 1));
        }
        if crate::strings::str_eq(ch[i - 1].0.as_str(), n) {
            return Some(&ch[i - 1].1);
        }
        i = i - 1;
    }
    None
}

/// The rest of type `a`: its added fields, interfaces, tag, resolvers and
/// documentation, with the fields `fields`.
pub(crate) fn with_fields(a: &Type, fields: StrMap<Field>) -> (r: Type)
    ensures
        same_type_rest(*a, r),
        r.fields == fields,
{
    Type {
        fields,
        added_fields: copy_add_fields(&a.added_fields),
        implements: a.implements.copy(),
        tag: copy_opt(&a.tag),
        resolvers: copy_resolvers(&a.resolvers),
        doc: copy_opt(&a.doc),
    }
}

/// Type `a` with each field's type as chosen in `ch`.
fn make_chosen_type(a: &Type, ch: &Vec<(String, String)>) -> (r: Type)
    requires
        a.fields.wf(),
    ensures
        type_with_choices(*a, r, choices_view(ch@)),
        r.fields.wf(),
{
    let ghost chv = choices_view(ch@);
    let mut entries: Vec<(String, Field)> = Vec::new();
    let n = a.fields.entries.len();
    let mut j: usize = 0;
    while j < n
        invariant
            n == a.fields.entries@.len(),
            j <= n,
            chv == choices_view(ch@),
            entries@.len() == j,
            forall|x: int|
                0 <= x < j ==> {
                    let (fname, f) = a.fields.entries@[x];
                    &&& (#[trigger] entries@[x]).0 == fname
                    &&& field_typed(f, entries@[x].1, choice_for(chv, fname@, f.type_of@))
                },
        decreases n - j,
    {
        let fname = &a.fields.entries[j].0;
        let f = &a.fields.entries[j].1;
        let g = copy_field(f);
        let ty = match find_choice(ch, fname.as_str()) {
            Some(t) => t.clone(),
            None => f.type_of.clone(),
        };
        let g = Field { type_of: ty, ..g };
        assert(choice_for(chv, fname@, f.type_of@) == ty@);
        entries.push((fname.clone(), g));
        j = j + 1;
    }
    let fields = StrMap { entries };
    proof {
        assert forall|x: int, y: int| 0 <= x < y < fields.entries@.len() implies crate::strings::seq_lt(
            #[trigger] fields.entries@[x].0@,
            #[trigger] fields.entries@[y].0@,
        ) by {
            assert(fields.entries@[x].0 == a.fields.entries@[x].0);
            assert(fields.entries@[y].0 == a.fields.entries@[y].0);
        }
    }
    with_fields(a, fields)
}

/// Field `f` with each argument's type as chosen in `ch`.
fn map_args_to_field(f: &Field, ch: &Vec<(String, String)>) -> (r: Field)
    requires
        f.args.wf(),
    ensures
        field_with_args(*f, r, choices_view(ch@)),
        r.args.wf(),
{
    let ghost chv = choices_view(ch@);
    let mut entries: Vec<(String, Arg)> = Vec::new();
    let n = f.args.entries.len();
    let mut j: usize = 0;
    while j < n
        invariant
            n == f.args.entries@.len(),
            j <= n,
            chv == choices_view(ch@),
            entries@.len() == j,
            forall|x: int|
                0 <= x < j ==> {
                    let (an, a) = f.args.entries@[x];
                    &&& (#[trigger] entries@[x]).0 == an
                    &&& arg_chosen(a, entries@[x].1, choice_for(chv, an@, a.type_of@))
                },
        decreases n - j,
    {
        let an = &f.args.entries[j].0;
        let a = &f.args.entries[j].1;
        let ty = match find_choice(ch, an.as_str()) {
            Some(t) => t.clone(),
            None => a.type_of.clone(),
        };
        assert(choice_for(chv, an@, a.type_of@) == ty@);
        entries.push((an.clone(), Arg { type_of: ty, list: a.list, required: a.required, doc: copy_opt(&a.doc) }));
        j = j + 1;
    }
    let args = StrMap { entries };
    proof {
        assert forall|x: int, y: int| 0 <= x < y < args.entries@.len() implies crate::strings::seq_lt(
            #[trigger] args.entries@[x].0@,
            #[trigger] args.entries@[y].0@,
        ) by {
            assert(args.entries@[x].0 == f.args.entries@[x].0);
            assert(args.entries@[y].0 == f.args.entries@[y].0);
        }
    }
    let g = copy_field(f);
    Field { args, ..g }
}

/// How a type of the result is made from the configuration.
pub enum TypeDesc {
    /// Type `base` with each field's type as chosen.
    Created { base: Seq<char>, choices: Seq<(Seq<char>, Seq<char>)> },
    /// Type `base` with the fields listed: each a name, the position of the
    /// field of `base` it comes from, and the choices for its arguments.
    Mapped { base: Seq<char>, fields: Seq<(Seq<char>, int, Seq<(Seq<char>, Seq<char>)>)> },
}

/// The types of the arguments of a field, in order.
pub open spec fn arg_type_names(f: Field) -> Seq<Seq<char>> {
    Seq::new(f.args.entries@.len(), |i: int| f.args.entries@[i].1.type_of@)
}

/// Walks the arguments of the fields `fe` from position `j` on and lists
/// the fields each becomes.
pub open spec fn visit_fields(c: Config, fe: Seq<(String, Field)>, j: int, s: WalkState, fuel: nat) -> (
    WalkState,
    Seq<(Seq<char>, int, Seq<(Seq<char>, Seq<char>)>)>,
)
    decreases fe.len() - j,
{
    if j < 0 || j >= fe.len() {
        (s, Seq::empty())
    } else {
        let f = fe[j].1;
        let s1 = walked_all(c, arg_type_names(f), 0, s, fuel);
        let outs = arg_variants(fe[j].0@, f.args.entries@, 0, s1.0, Seq::empty()).map_values(
            |o: (Seq<char>, Seq<(Seq<char>, Seq<char>)>)| (o.0, j, o.1),
        );
        let rest = visit_fields(c, fe, j + 1, s1, fuel);
        (rest.0, outs + rest.1)
    }
}

/// The types made for one request: one per choice, when the requested name
/// is a type.
pub open spec fn request_types(c: Config, req: (Seq<char>, Seq<(Seq<char>, Seq<Seq<char>>)>)) -> Seq<(Seq<char>, TypeDesc)> {
    if c.types.as_map().contains_key(req.0) {
        product(req.0, req.1, 0, Seq::empty()).map_values(
            |x: (Seq<char>, Seq<(Seq<char>, Seq<char>)>)| (x.0, TypeDesc::Created { base: req.0, choices: x.1 }),
        )
    } else {
        Seq::empty()
    }
}

/// The types made for the requests from position `q` on.
pub open spec fn created_types(c: Config, reqs: Seq<(Seq<char>, Seq<(Seq<char>, Seq<Seq<char>>)>)>, q: int) -> Seq<(Seq<char>, TypeDesc)>
    decreases reqs.len() - q,
{
    if q < 0 || q >= reqs.len() {
        Seq::empty()
    } else {
        request_types(c, reqs[q]) + created_types(c, reqs, q + 1)
    }
}

/// Walks the types from position `k` on: each type's fields are walked and
/// mapped, the types its walk asked for are made, then the type itself.
/// Lists the types made, in order.
pub open spec fn visit_types(c: Config, k: int, s: WalkState, fuel: nat) -> (WalkState, Seq<(Seq<char>, TypeDesc)>)
    decreases c.types.entries@.len() - k,
{
    if k < 0 || k >= c.types.entries@.len() {
        (s, Seq::empty())
    } else {
        let tn = c.types.entries@[k].0@;
        let t = c.types.entries@[k].1;
        let v = visit_fields(c, t.fields.entries@, 0, s, fuel);
        let made = created_types(c, v.0.2, s.2.len() as int) + seq![(tn, TypeDesc::Mapped { base: tn, fields: v.1 })];
        let rest = visit_types(c, k + 1, v.0, fuel);
        (rest.0, made + rest.1)
    }
}

/// Enough fuel for every walk of the configuration.
pub open spec fn walk_fuel(c: Config) -> nat {
    (c.unions.entries@.len() + c.types.entries@.len()) as nat
}

/// The types made from the configuration, in order: a later one replaces
/// an earlier one of the same name.
pub open spec fn union_input_types(c: Config) -> Seq<(Seq<char>, TypeDesc)> {
    visit_types(c, 0, (Map::empty(), Set::empty(), Seq::empty()), walk_fuel(c)).1
}

/// The types after making the types `ev` in order.
pub open spec fn made_map(ev: Seq<(Seq<char>, TypeDesc)>) -> Map<Seq<char>, TypeDesc>
    decreases ev.len(),
{
    if ev.len() == 0 {
        Map::empty()
    } else {
        made_map(ev.drop_last()).insert(ev.last().0, ev.last().1)
    }
}

/// The fields after adding the fields `outs` in order.
pub open spec fn outs_map(outs: Seq<(Seq<char>, int, Seq<(Seq<char>, Seq<char>)>)>) -> Map<Seq<char>, (int, Seq<(Seq<char>, Seq<char>)>)>
    decreases outs.len(),
{
    if outs.len() == 0 {
        Map::empty()
    } else {
        outs_map(outs.drop_last()).insert(outs.last().0, (outs.last().1, outs.last().2))
    }
}

/// `b` has the rest of type `a` and the fields listed in `outs`, each made
/// from a field of `a`.
pub open spec fn mapped_type(a: Type, b: Type, outs: Seq<(Seq<char>, int, Seq<(Seq<char>, Seq<char>)>)>) -> bool {
    &&& same_type_rest(a, b)
    &&& b.fields.wf()
    &&& b.fields.as_map().dom() == outs_map(outs).dom()
    &&& forall|n: Seq<char>| #[trigger] b.fields.as_map().contains_key(n) ==> {
        let (j, ch) = outs_map(outs)[n];
        &&& 0 <= j < a.fields.entries@.len()
        &&& field_with_args(a.fields.entries@[j].1, b.fields.as_map()[n], ch)
    }
}

/// Type `ty` is made as `d` says from the configuration.
pub open spec fn made_as(c: Config, d: TypeDesc, ty: Type) -> bool {
    match d {
        TypeDesc::Created { base, choices } => {
            &&& c.types.as_map().contains_key(base)
            &&& type_with_choices(c.types.as_map()[base], ty, choices)
        },
        TypeDesc::Mapped { base, fields } => {
            &&& c.types.as_map().contains_key(base)
            &&& mapped_type(c.types.as_map()[base], ty, fields)
        },
    }
}

/// The fields `field` becomes: one for each choice of members for its
/// arguments whose type stands for several names.
fn walk_arguments(
    name: String,
    args: &Vec<(String, Arg)>,
    k: usize,
    presence: &StrMap<Option<Vec<String>>>,
    chosen: Vec<(String, String)>,
) -> (r: Vec<(String, Vec<(String, String)>)>)
    requires
        k <= args@.len(),
        presence.wf(),
    ensures
        variants_view(r@) == arg_variants(name@, args@, k as int, presence_view(*presence), choices_view(chosen@)),
    decreases args@.len() - k,
{
    let ghost p = presence_view(*presence);
    if k >= args.len() {
        let mut r: Vec<(String, Vec<(String, String)>)> = Vec::new();
        r.push((name, chosen));
        assert(variants_view(r@) =~= seq![(name@, choices_view(chosen@))]);
        return r;
    }
    let next = k + 1;
    let arg_name = &args[k].0;
    match presence.get(args[k].1.type_of.as_str()) {
        Some(Some(ts)) => {
            let ghost tv = texts(ts@);
            assert(p[args@[k as int].1.type_of@] == Some(tv));
            let n = ts.len();
            let mut out: Vec<(String, Vec<(String, String)>)> = Vec::new();
            let mut i: usize = 0;
            while i < n
                invariant
                    k < args@.len(),
                    next == k + 1,
                    presence.wf(),
                    p == presence_view(*presence),
                    stands_for_many(p, args@[k as int].1.type_of@),
                    p[args@[k as int].1.type_of@] == Some(tv),
                    tv == texts(ts@),
                    arg_name == &args@[k as int].0,
                    n == ts@.len(),
                    i <= n,
                    variants_view(out@) + arg_variants_from(name@, args@, k as int, p, choices_view(chosen@), i as int)
                        == arg_variants_from(name@, args@, k as int, p, choices_view(chosen@), 0),
                decreases n - i,
            {
                let suffix = usize_to_string(i);
                let sub_name = concat_str(concat_str(name.as_str(), "Var").as_str(), suffix.as_str());
                let mut sub_chosen = copy_choices(&chosen);
                sub_chosen.push((arg_name.clone(), ts[i].clone()));
                proof {
                    reveal_strlit("Var");
                    assert(sub_name@ == name@ + "Var"@ + decimal(i as nat));
                    assert(choices_view(sub_chosen@) =~= choices_view(chosen@).push((args@[k as int].0@, tv[i as int])));
                }
                let sub = walk_arguments(sub_name, args, next, presence, sub_chosen);
                let ghost before = variants_view(out@);
                let mut sub = sub;
                let ghost sv = sub@;
                out.append(&mut sub);
                proof {
                    assert(variants_view(out@) =~= before + variants_view(sv));
                    assert(before + variants_view(sv) + arg_variants_from(name@, args@, k as int, p, choices_view(chosen@), i + 1)
                        =~= before + arg_variants_from(name@, args@, k as int, p, choices_view(chosen@), i as int));
                }
                i = i + 1;
            }
            assert(variants_view(out@) =~= variants_view(out@) + arg_variants_from(name@, args@, k as int, p, choices_view(chosen@), n as int));
            out
        },
        _ => {
            walk_arguments(name, args, next, presence, chosen)
        },
    }
}

/// Any walk of the configuration has fuel enough.
proof fn lemma_fuel(c: Config, v: Set<Seq<char>>)
    requires
        c.wf(),
    ensures
        all_names(c).finite(),
        all_names(c).difference(v).len() <= walk_fuel(c),
{
    c.unions.lemma_len();
    c.types.lemma_len();
    let u = all_names(c);
    vstd::set_lib::lemma_len_union(c.unions.as_map().dom(), c.types.as_map().dom());
    vstd::set_lib::lemma_len_subset(u.difference(v), u);
}

/// Walks the arguments of the fields of `t` and makes the fields each
/// becomes, as `visit_fields` says.
fn map_type_fields(c: &Config, t: &Type, w: &mut Walk, Ghost(fuel): Ghost<nat>) -> (r: StrMap<Field>)
    requires
        c.wf(),
        t.wf(),
        old(w).wf(),
        fuel == walk_fuel(*c),
    ensures
        final(w).wf(),
        final(w).state() == visit_fields(*c, t.fields.entries@, 0, old(w).state(), fuel).0,
        old(w).requests@.len() <= final(w).requests@.len(),
        r.wf(),
        r.as_map().dom() == outs_map(visit_fields(*c, t.fields.entries@, 0, old(w).state(), fuel).1).dom(),
        forall|n: Seq<char>| #[trigger] r.as_map().contains_key(n) ==> {
            let (j, ch) = outs_map(visit_fields(*c, t.fields.entries@, 0, old(w).state(), fuel).1)[n];
            &&& 0 <= j < t.fields.entries@.len()
            &&& field_with_args(t.fields.entries@[j].1, r.as_map()[n], ch)
            &&& r.as_map()[n].args.wf()
        },
{
    let ghost fe = t.fields.entries@;
    let ghost total = visit_fields(*c, fe, 0, w.state(), fuel);
    let ghost mut outs: Seq<(Seq<char>, int, Seq<(Seq<char>, Seq<char>)>)> = Seq::empty();
    let mut fields: StrMap<Field> = StrMap::new();
    let n = t.fields.entries.len();
    let mut j: usize = 0;
    assert(outs_map(outs) =~= Map::empty());
    while j < n
        invariant
            c.wf(),
            t.wf(),
            w.wf(),
            fields.wf(),
            fuel == walk_fuel(*c),
            fe == t.fields.entries@,
            n == fe.len(),
            j <= n,
            visit_fields(*c, fe, j as int, w.state(), fuel).0 == total.0,
            old(w).requests@.len() <= w.requests@.len(),
            outs + visit_fields(*c, fe, j as int, w.state(), fuel).1 == total.1,
            fields.as_map().dom() == outs_map(outs).dom(),
            forall|x: Seq<char>| #[trigger] fields.as_map().contains_key(x) ==> {
                let (i, ch) = outs_map(outs)[x];
                &&& 0 <= i < fe.len()
                &&& field_with_args(fe[i].1, fields.as_map()[x], ch)
                &&& fields.as_map()[x].args.wf()
            },
        decreases n - j,
    {
        let fname = &t.fields.entries[j].0;
        let f = &t.fields.entries[j].1;
        let ghost sj = w.state();
        let ghost ats = arg_type_names(*f);
        let m = f.args.entries.len();
        let mut a: usize = 0;
        while a < m
            invariant
                c.wf(),
                w.wf(),
                fuel == walk_fuel(*c),
                m == f.args.entries@.len(),
                ats == arg_type_names(*f),
                a <= m,
                old(w).requests@.len() <= w.requests@.len(),
                walked_all(*c, ats, a as int, w.state(), fuel) == walked_all(*c, ats, 0, sj, fuel),
            decreases m - a,
        {
            proof {
                lemma_fuel(*c, w.visited.as_set());
            }
            collect_nested_unions_for_type(c, f.args.entries[a].1.type_of.as_str(), w, Ghost(fuel));
            a = a + 1;
        }
        let ghost s1 = w.state();
        assert(s1 == walked_all(*c, ats, 0, sj, fuel));
        proof {
            assert(t.fields.entries@[j as int].1.args.wf());
        }
        let variants = walk_arguments(fname.clone(), &f.args.entries, 0, &w.presence, Vec::new());
        proof {
            assert(choices_view(Seq::<(String, String)>::empty()) =~= Seq::empty());
        }
        let ghost vj = arg_variants(fname@, f.args.entries@, 0, s1.0, Seq::empty()).map_values(
            |o: (Seq<char>, Seq<(Seq<char>, Seq<char>)>)| (o.0, j as int, o.1),
        );
        let ghost outs_j = outs;
        let nv = variants.len();
        let mut i: usize = 0;
        while i < nv
            invariant
                t.wf(),
                fields.wf(),
                fe == t.fields.entries@,
                n == fe.len(),
                j < n,
                f == &fe[j as int].1,
                nv == variants@.len(),
                i <= nv,
                vj.len() == nv,
                forall|y: int| 0 <= y < nv ==> #[trigger] vj[y] == (variants@[y].0@, j as int, choices_view(variants@[y].1@)),
                outs == outs_j + vj.take(i as int),
                fields.as_map().dom() == outs_map(outs).dom(),
                forall|x: Seq<char>| #[trigger] fields.as_map().contains_key(x) ==> {
                    let (q, ch) = outs_map(outs)[x];
                    &&& 0 <= q < fe.len()
                    &&& field_with_args(fe[q].1, fields.as_map()[x], ch)
                    &&& fields.as_map()[x].args.wf()
                },
            decreases nv - i,
        {
            let g = map_args_to_field(f, &variants[i].1);
            let key = variants[i].0.clone();
            let ghost o = vj[i as int];
            let ghost m0 = fields.as_map();
            fields.insert(key, g);
            proof {
                assert(vj.take(i + 1) =~= vj.take(i as int).push(o));
                assert(outs_j + vj.take(i + 1) =~= (outs_j + vj.take(i as int)).push(o));
                outs = outs.push(o);
                assert(outs.drop_last() =~= outs_j + vj.take(i as int));
                assert(outs_map(outs) == outs_map(outs.drop_last()).insert(o.0, (o.1, o.2)));
                assert(fields.as_map().dom() =~= outs_map(outs).dom());
            }
            i = i + 1;
        }
        proof {
            assert(vj.take(nv as int) =~= vj);
            assert(outs + visit_fields(*c, fe, j + 1, s1, fuel).1 =~= outs_j + visit_fields(*c, fe, j as int, sj, fuel).1);
        }
        j = j + 1;
    }
    assert(outs =~= total.1);
    fields
}

/// The types made from the configuration, as `union_input_types` lists
/// them.
fn visit(c: &Config) -> (r: StrMap<Type>)
    requires
        c.wf(),
    ensures
        r.wf(),
        r.as_map().dom() == made_map(union_input_types(*c)).dom(),
        forall|n: Seq<char>| #[trigger] r.as_map().contains_key(n) ==> made_as(*c, made_map(union_input_types(*c))[n], r.as_map()[n])
            && r.as_map()[n].wf(),
{
    let mut w = Walk { presence: StrMap::new(), visited: StrSet::new(), requests: Vec::new() };
    proof {
        assert(presence_view(w.presence) =~= Map::empty());
        assert(requests_view(w.requests@) =~= Seq::empty());
    }
    let ghost fuel = walk_fuel(*c);
    let ghost total = visit_types(*c, 0, w.state(), fuel);
    assert(total.1 == union_input_types(*c));
    let ghost mut ev: Seq<(Seq<char>, TypeDesc)> = Seq::empty();
    let mut out: StrMap<Type> = StrMap::new();
    assert(made_map(ev) =~= Map::empty());
    let n = c.types.entries.len();
    let mut k: usize = 0;
    while k < n
        invariant
            c.wf(),
            w.wf(),
            out.wf(),
            fuel == walk_fuel(*c),
            n == c.types.entries@.len(),
            k <= n,
            ev + visit_types(*c, k as int, w.state(), fuel).1 == total.1,
            out.as_map().dom() == made_map(ev).dom(),
            forall|x: Seq<char>| #[trigger] out.as_map().contains_key(x) ==> made_as(*c, made_map(ev)[x], out.as_map()[x])
                && out.as_map()[x].wf(),
        decreases n - k,
    {
        let tn = &c.types.entries[k].0;
        let t = &c.types.entries[k].1;
        proof {
            c.types.lemma_at(k as int);
        }
        let ghost sk = w.state();
        let r0 = w.requests.len();
        let fields = map_type_fields(c, t, &mut w, Ghost(fuel));
        let ghost v = visit_fields(*c, t.fields.entries@, 0, sk, fuel);
        let ghost reqs = requests_view(w.requests@);
        let ghost ev_k = ev;
        let m = w.requests.len();
        let mut q: usize = r0;
        while q < m
            invariant
                c.wf(),
                out.wf(),
                m == w.requests@.len(),
                reqs == requests_view(w.requests@),
                r0 <= q <= m,
                ev + created_types(*c, reqs, q as int) == ev_k + created_types(*c, reqs, r0 as int),
                out.as_map().dom() == made_map(ev).dom(),
                forall|x: Seq<char>| #[trigger] out.as_map().contains_key(x) ==> made_as(*c, made_map(ev)[x], out.as_map()[x])
                    && out.as_map()[x].wf(),
            decreases m - q,
        {
            let rn = &w.requests[q].0;
            let uf = &w.requests[q].1;
            let ghost block = request_types(*c, reqs[q as int]);
            let ghost ev_q = ev;
            assert(reqs[q as int] == (rn@, fields_view(uf@)));
            match c.types.get(rn.as_str()) {
                Some(bt) => {
                    proof {
                        let i = c.types.pos(rn@);
                        c.types.lemma_at(i);
                        assert(c.types.entries@[i].1.wf());
                    }
                    let variants = create_types_from_union(rn.clone(), uf, 0, Vec::new());
                    proof {
                        assert(choices_view(Seq::<(String, String)>::empty()) =~= Seq::empty());
                    }
                    let nv = variants.len();
                    let mut i: usize = 0;
                    while i < nv
                        invariant
                            c.wf(),
                            out.wf(),
                            bt.wf(),
                            c.types.as_map().contains_key(rn@),
                            c.types.as_map()[rn@] == *bt,
                            nv == variants@.len(),
                            block.len() == nv,
                            forall|y: int| 0 <= y < nv ==> #[trigger] block[y] == (
                                variants@[y].0@,
                                TypeDesc::Created { base: rn@, choices: choices_view(variants@[y].1@) },
                            ),
                            i <= nv,
                            ev == ev_q + block.take(i as int),
                            out.as_map().dom() == made_map(ev).dom(),
                            forall|x: Seq<char>| #[trigger] out.as_map().contains_key(x) ==> made_as(*c, made_map(ev)[x], out.as_map()[x])
                                && out.as_map()[x].wf(),
                        decreases nv - i,
                    {
                        let ty = make_chosen_type(bt, &variants[i].1);
                        let key = variants[i].0.clone();
                        let ghost e = block[i as int];
                        proof {
                            assert(ty.wf()) by {
                                assert forall|z: int| 0 <= z < ty.fields.entries@.len() implies (#[trigger] ty.fields.entries@[z]).1.args.wf() by {
                                    assert(bt.fields.entries@[z].1.args.wf());
                                    assert(same_field(Field { type_of: ty.fields.entries@[z].1.type_of, ..bt.fields.entries@[z].1 }, ty.fields.entries@[z].1));
                                }
                            }
                        }
                        out.insert(key, ty);
                        proof {
                            assert(block.take(i + 1) =~= block.take(i as int).push(e));
                            ev = ev.push(e);
                            assert(ev.drop_last() =~= ev_q + block.take(i as int));
                            assert(out.as_map().dom() =~= made_map(ev).dom());
                        }
                        i = i + 1;
                    }
                    proof {
                        assert(block.take(nv as int) =~= block);
                    }
                },
                None => {
                    assert(block =~= Seq::<(Seq<char>, TypeDesc)>::empty());
                },
            }
            proof {
                assert(ev + created_types(*c, reqs, q + 1) =~= ev_q + created_types(*c, reqs, q as int));
            }
            q = q + 1;
        }
        let ty = with_fields(t, fields);
        let ghost e = (tn@, TypeDesc::Mapped { base: tn@, fields: v.1 });
        proof {
            assert(t.wf());
            assert(ty.fields.wf());
            assert(ty.implements.wf());
            assert(ty.wf()) by {
                let pf = |f: Field| f.args.wf();
                ty.fields.lemma_all_values(pf);
                assert forall|x: Seq<char>| #[trigger] ty.fields.as_map().contains_key(x) implies pf(ty.fields.as_map()[x]) by {
                    assert(fields.as_map().contains_key(x));
                }
                assert forall|z: int| 0 <= z < ty.fields.entries@.len() implies (#[trigger] ty.fields.entries@[z]).1.args.wf() by {
                    assert(pf(ty.fields.entries@[z].1));
                }
            }
            assert(mapped_type(*t, ty, v.1));
        }
        out.insert(tn.clone(), ty);
        let ghost ev_m = ev;
        proof {
            ev = ev.push(e);
            assert(ev.drop_last() =~= ev_m);
            assert(out.as_map().dom() =~= made_map(ev).dom());
            assert(sk.2.len() == r0);
            assert(ev + visit_types(*c, k + 1, w.state(), fuel).1 =~= ev_k + visit_types(*c, k as int, sk, fuel).1);
        }
        k = k + 1;
    }
    assert(ev =~= total.1);
    out
}

/// Replaces the unions that arguments use by their members.
#[derive(Clone, Copy, Debug, Default)]
pub struct UnionInputType;

impl UnionInputType {
    /// The configuration with its types replaced by the types made from it,
    /// as `union_input_types` lists them, a later one replacing an earlier
    /// one of the same name; everything else is kept. Never fails.
    pub fn transform(&self, config: Config) -> (r: Result<Config, Vec<Cause>>)
        requires
            config.wf(),
        ensures
            r is Ok,
            r matches Ok(c) ==> {
                &&& c.wf()
                &&& c.types.as_map().dom() == made_map(union_input_types(config)).dom()
                &&& forall|n: Seq<char>| #[trigger] c.types.as_map().contains_key(n) ==> made_as(
                    config,
                    made_map(union_input_types(config))[n],
                    c.types.as_map()[n],
                )
                &&& c.unions == config.unions
                &&& c.enums == config.enums
                &&& c.schema == config.schema
                &&& c.upstream == config.upstream
                &&& c.enable_federation == config.enable_federation
            },
    {
        let types = visit(&config);
        let Config { schema, upstream, enable_federation, types: _, unions, enums } = config;
        let c = Config { schema, upstream, enable_federation, types, unions, enums };
        proof {
            let pt = |t: Type| t.wf();
            c.types.lemma_all_values(pt);
            assert forall|i: int| 0 <= i < c.types.entries@.len() implies (#[trigger] c.types.entries@[i]).1.wf() by {
                assert(pt(c.types.entries@[i].1));
            }
        }
        Ok(c)
    }
}

proof fn lemma_made_map_has(ev: Seq<(Seq<char>, TypeDesc)>, i: int)
    requires
        0 <= i < ev.len(),
    ensures
        made_map(ev).contains_key(ev[i].0),
    decreases ev.len(),
{
    if i < ev.len() - 1 {
        lemma_made_map_has(ev.drop_last(), i);
    }
}

proof fn lemma_visit_lists_types(c: Config, k: int, s: WalkState, fuel: nat, j: int)
    requires
        0 <= k <= j < c.types.entries@.len(),
    ensures
        exists|i: int| 0 <= i < visit_types(c, k, s, fuel).1.len() && visit_types(c, k, s, fuel).1[i].0 == c.types.entries@[j].0@,
    decreases j - k,
{
    let tn = c.types.entries@[k].0@;
    let t = c.types.entries@[k].1;
    let v = visit_fields(c, t.fields.entries@, 0, s, fuel);
    let made = created_types(c, v.0.2, s.2.len() as int) + seq![(tn, TypeDesc::Mapped { base: tn, fields: v.1 })];
    let rest = visit_types(c, k + 1, v.0, fuel);
    let ev = visit_types(c, k, s, fuel).1;
    assert(ev == made + rest.1);
    if j == k {
        assert(ev[made.len() - 1] == made[made.len() - 1]);
    } else {
        lemma_visit_lists_types(c, k + 1, v.0, fuel, j);
        let i = choose|i: int| 0 <= i < rest.1.len() && rest.1[i].0 == c.types.entries@[j].0@;
        assert(ev[made.len() + i] == rest.1[i]);
    }
}

/// Every type of the configuration is still a type after the unions that
/// arguments use are replaced.
pub proof fn law_union_input_keeps_types(c: Config, n: Seq<char>)
    requires
        c.wf(),
        c.types.as_map().contains_key(n),
    ensures
        made_map(union_input_types(c)).contains_key(n),
{
    let j = c.types.pos(n);
    lemma_visit_lists_types(c, 0, (Map::empty(), Set::empty(), Seq::empty()), walk_fuel(c), j);
    let ev = union_input_types(c);
    let i = choose|i: int| 0 <= i < ev.len() && ev[i].0 == c.types.entries@[j].0@;
    lemma_made_map_has(ev, i);
}

} // verus!
