//! Flattening of single types: a type with one field (and no tag) stands
//! for that field, so a field of such a type takes the single field's place.

use vstd::prelude::*;
use crate::config::{Config, Field, Type};
use crate::config::copies::{copy_field, same_field};
use crate::strings::{seq_lt, str_eq};
use crate::strmap::StrMap;
use crate::strset::StrSet;
use crate::valid::Cause;
use crate::config::transformer::rename_types::lemma_same_keys;
use crate::strings::copy_str;

verus! {

/// How many of the fields are not omitted.
pub open spec fn non_omitted(fs: Seq<(String, Field)>) -> nat
    decreases fs.len(),
{
    if fs.len() == 0 {
        0
    } else {
        non_omitted(fs.drop_last()) + if fs.last().1.omit { 0nat } else { 1nat }
    }
}

/// A single type: no tag, and one field that is not omitted or added.
pub open spec fn is_single(t: Type) -> bool {
    t.tag is None && non_omitted(t.fields.entries@) + t.added_fields@.len() == 1
}

/// The field a single type named `name` stands for: its first field.
pub open spec fn single_field(c: Config, name: Seq<char>) -> Option<Field> {
    if c.types.as_map().contains_key(name) && is_single(c.types.as_map()[name]) {
        Some(c.types.as_map()[name].fields.entries@[0].1)
    } else {
        None
    }
}

/// Field `f` of a single type's type takes its place: the single field,
/// a list when either is one, required as both are.
pub open spec fn merged(s: Field, f: Field) -> Field {
    if s.list {
        Field { list: true, required: f.required && s.required, list_type_required: s.list_type_required, ..s }
    } else if f.list {
        Field { list: true, required: f.required, list_type_required: f.list_type_required && s.required, ..s }
    } else {
        Field { list: false, required: f.required && s.required, ..s }
    }
}

/// Following single types from type `name` ends within `n` steps.
pub open spec fn chain_ends(c: Config, name: Seq<char>, n: nat) -> bool
    decreases n,
{
    match single_field(c, name) {
        None => true,
        Some(s) => n > 0 && chain_ends(c, s.type_of@, (n - 1) as nat),
    }
}

/// Field `f` with single types replaced by their fields, `n` times at
/// most.
pub open spec fn flat(c: Config, f: Field, n: nat) -> Field
    decreases n,
{
    match single_field(c, f.type_of@) {
        None => f,
        Some(s) => if n == 0 {
            f
        } else {
            flat(c, merged(s, f), (n - 1) as nat)
        },
    }
}

/// Field `f` with single types replaced by their fields until none is
/// left.
pub open spec fn flattened(c: Config, f: Field) -> Field {
    flat(c, f, choose|n: nat| chain_ends(c, f.type_of@, n))
}

/// Field `f` has a single type but stays: it has a resolver, or both it
/// and the single field are lists.
pub open spec fn kept_single(c: Config, f: Field) -> bool {
    single_field(c, f.type_of@) matches Some(s) && (f.resolvers@.len() > 0 || (f.list && s.list))
}

/// Field `f` has a single type and takes the single field's place.
pub open spec fn to_flatten(c: Config, f: Field) -> bool {
    single_field(c, f.type_of@) is Some && !kept_single(c, f)
}

/// Whether field `f` is omitted after the transformation.
pub open spec fn omitted_after(c: Config, f: Field) -> bool {
    if to_flatten(c, f) {
        flattened(c, f).omit
    } else {
        f.omit
    }
}

/// How many of the fields are not omitted after the transformation.
pub open spec fn non_omitted_after(c: Config, fs: Seq<(String, Field)>) -> nat
    decreases fs.len(),
{
    if fs.len() == 0 {
        0
    } else {
        non_omitted_after(c, fs.drop_last()) + if omitted_after(c, fs.last().1) { 0nat } else { 1nat }
    }
}

/// Whether type `t` is single after the transformation.
pub open spec fn single_after(c: Config, t: Type) -> bool {
    t.tag is None && non_omitted_after(c, t.fields.entries@) + t.added_fields@.len() == 1
}

/// The names of the root types: the schema's, or `Query`, `Mutation` and
/// `Subscription`.
pub open spec fn root_names(c: Config) -> Set<Seq<char>> {
    set![
        match c.schema.query { Some(q) => q@, None => "Query"@ },
        match c.schema.mutation { Some(q) => q@, None => "Mutation"@ },
        match c.schema.subscription { Some(q) => q@, None => "Subscription"@ },
    ]
}

/// The names of single types that a kept field still refers to.
pub open spec fn still_referenced(c: Config) -> Set<Seq<char>> {
    Set::new(|k: Seq<char>| exists|i: int, j: int|
        0 <= i < c.types.entries@.len() && 0 <= j < c.types.entries@[i].1.fields.entries@.len()
        && #[trigger] kept_single(c, c.types.entries@[i].1.fields.entries@[j].1)
        && c.types.entries@[i].1.fields.entries@[j].1.type_of@ == k)
}

/// Whether type `k` of the configuration stays.
pub open spec fn stays(c: Config, k: Seq<char>) -> bool {
    root_names(c).contains(k) || still_referenced(c).contains(k) || !single_after(c, c.types.as_map()[k])
}

/// `u` is type `t` after its fields of single types took the single
/// fields' places.
pub open spec fn type_flattened(c: Config, t: Type, u: Type) -> bool {
    &&& u.fields.entries@.len() == t.fields.entries@.len()
    &&& forall|j: int| 0 <= j < t.fields.entries@.len() ==> {
        let (name, f) = t.fields.entries@[j];
        &&& (#[trigger] u.fields.entries@[j]).0 == name
        &&& if to_flatten(c, f) {
            same_field(flattened(c, f), u.fields.entries@[j].1)
        } else {
            u.fields.entries@[j].1 == f
        }
    }
    &&& u.added_fields == t.added_fields
    &&& u.implements == t.implements
    &&& u.tag == t.tag
    &&& u.resolvers == t.resolvers
    &&& u.doc == t.doc
}

/// A single type has a first field, and following single types from a
/// field that takes a single field's place ends.
pub open spec fn flattenable(c: Config) -> bool {
    &&& forall|k: Seq<char>| #[trigger] c.types.as_map().contains_key(k) && is_single(c.types.as_map()[k])
        ==> c.types.as_map()[k].fields.entries@.len() > 0
    &&& forall|i: int, j: int|
        0 <= i < c.types.entries@.len() && 0 <= j < c.types.entries@[i].1.fields.entries@.len()
        && #[trigger] to_flatten(c, c.types.entries@[i].1.fields.entries@[j].1)
        ==> exists|n: nat| chain_ends(c, c.types.entries@[i].1.fields.entries@[j].1.type_of@, n)
}

/// Whether the type is single.
fn is_single_type(t: &Type) -> (r: bool)
    ensures
        r == is_single(*t),
{
    let n = t.fields.entries.len();
    let mut count: usize = 0;
    let mut i: usize = 0;
    while i < n
        invariant
            n == t.fields.entries@.len(),
            i <= n,
            count <= i,
            count == non_omitted(t.fields.entries@.take(i as int)),
        decreases n - i,
    {
        proof {
            assert(t.fields.entries@.take(i + 1).drop_last() =~= t.fields.entries@.take(i as int));
        }
        if !t.fields.entries[i].1.omit {
            count = count + 1;
        }
        i = i + 1;
    }
    assert(t.fields.entries@.take(n as int) =~= t.fields.entries@);
    let added = t.added_fields.len();
    t.tag.is_none() && ((count == 1 && added == 0) || (count == 0 && added == 1))
}

/// The field the single type named `name` stands for, if it is one.
fn single_of<'c>(c: &'c Config, name: &str) -> (r: Option<&'c Field>)
    requires
        c.wf(),
        flattenable(*c),
    ensures
        r is Some <==> single_field(*c, name@) is Some,
        r matches Some(s) ==> single_field(*c, name@) == Some(*s),
{
    match c.types.get(name) {
        Some(t) => {
            if is_single_type(t) {
                Some(&t.fields.entries[0].1)
            } else {
                None
            }
        },
        None => None,
    }
}

/// Field `f` with single types replaced by their fields.
fn flatten_field(c: &Config, f: &Field, Ghost(n): Ghost<nat>) -> (r: Field)
    requires
        c.wf(),
        flattenable(*c),
        chain_ends(*c, f.type_of@, n),
    ensures
        same_field(flat(*c, *f, n), r),
{
    let mut list = f.list;
    let mut required = f.required;
    let mut list_type_required = f.list_type_required;
    let mut last: &Field = f;
    let ghost mut g: Field = *f;
    let ghost mut m: nat = n;
    loop
        invariant
            c.wf(),
            flattenable(*c),
            g == (Field { list, required, list_type_required, ..*last }),
            chain_ends(*c, g.type_of@, m),
            flat(*c, *f, n) == flat(*c, g, m),
        ensures
            g == (Field { list, required, list_type_required, ..*last }),
            flat(*c, *f, n) == g,
        decreases m,
    {
        match single_of(c, last.type_of.as_str()) {
            Some(s) => {
                if s.list {
                    required = required && s.required;
                    list_type_required = s.list_type_required;
                } else if list {
                    list_type_required = list_type_required && s.required;
                } else {
                    required = required && s.required;
                    list_type_required = s.list_type_required;
                }
                list = s.list || list;
                proof {
                    g = merged(*s, g);
                    m = (m - 1) as nat;
                }
                last = s;
            },
            None => {
                break;
            },
        }
    }
    let copy = copy_field(last);
    Field { list, required, list_type_required, ..copy }
}

/// For each field of each type, the field that takes its place, when it is
/// one to flatten.
fn replacements(c: &Config) -> (r: Vec<Vec<Option<Field>>>)
    requires
        c.wf(),
        flattenable(*c),
    ensures
        r@.len() == c.types.entries@.len(),
        forall|i: int| 0 <= i < r@.len() ==> (#[trigger] r@[i])@.len() == c.types.entries@[i].1.fields.entries@.len(),
        forall|i: int, j: int| 0 <= i < r@.len() && 0 <= j < r@[i]@.len() ==> {
            let f = c.types.entries@[i].1.fields.entries@[j].1;
            &&& (#[trigger] r@[i]@[j] is Some) == to_flatten(*c, f)
            &&& r@[i]@[j] matches Some(x) ==> same_field(flattened(*c, f), x)
        },
{
    let mut r: Vec<Vec<Option<Field>>> = Vec::new();
    let n = c.types.entries.len();
    let mut i: usize = 0;
    while i < n
        invariant
            c.wf(),
            flattenable(*c),
            n == c.types.entries@.len(),
            i <= n,
            r@.len() == i,
            forall|a: int| 0 <= a < i ==> (#[trigger] r@[a])@.len() == c.types.entries@[a].1.fields.entries@.len(),
            forall|a: int, b: int| 0 <= a < i && 0 <= b < r@[a]@.len() ==> {
                let f = c.types.entries@[a].1.fields.entries@[b].1;
                &&& (#[trigger] r@[a]@[b] is Some) == to_flatten(*c, f)
                &&& r@[a]@[b] matches Some(x) ==> same_field(flattened(*c, f), x)
            },
        decreases n - i,
    {
        let fields = &c.types.entries[i].1.fields.entries;
        let m = fields.len();
        let mut row: Vec<Option<Field>> = Vec::new();
        let mut j: usize = 0;
        while j < m
            invariant
                c.wf(),
                flattenable(*c),
                i < c.types.entries@.len(),
                *fields == c.types.entries@[i as int].1.fields.entries,
                m == fields@.len(),
                j <= m,
                row@.len() == j,
                forall|b: int| 0 <= b < j ==> {
                    let f = fields@[b].1;
                    &&& (#[trigger] row@[b] is Some) == to_flatten(*c, f)
                    &&& row@[b] matches Some(x) ==> same_field(flattened(*c, f), x)
                },
            decreases m - j,
        {
            let f = &fields[j].1;
            let replacement = match single_of(c, f.type_of.as_str()) {
                Some(s) => {
                    if f.resolvers.len() > 0 || (f.list && s.list) {
                        None
                    } else {
                        proof {
                            assert(to_flatten(*c, c.types.entries@[i as int].1.fields.entries@[j as int].1));
                        }
                        let ghost fuel = choose|n: nat| chain_ends(*c, f.type_of@, n);
                        Some(flatten_field(c, f, Ghost(fuel)))
                    }
                },
                None => None,
            };
            row.push(replacement);
            j = j + 1;
        }
        r.push(row);
        i = i + 1;
    }
    r
}

/// The names of the single types a kept field refers to, among the fields
/// before position `(i, j)`.
spec fn refs_before(c: Config, i: int, j: int) -> Set<Seq<char>> {
    Set::new(|k: Seq<char>| exists|a: int, b: int|
        0 <= a < c.types.entries@.len() && 0 <= b < c.types.entries@[a].1.fields.entries@.len()
        && (a < i || (a == i && b < j))
        && #[trigger] kept_single(c, c.types.entries@[a].1.fields.entries@[b].1)
        && c.types.entries@[a].1.fields.entries@[b].1.type_of@ == k)
}

/// The names of the single types a kept field refers to.
fn kept_names(c: &Config) -> (r: StrSet)
    requires
        c.wf(),
        flattenable(*c),
    ensures
        r.wf(),
        r.as_set() == still_referenced(*c),
{
    let mut r = StrSet::new();
    let n = c.types.entries.len();
    let mut i: usize = 0;
    assert(r.as_set() =~= refs_before(*c, 0, 0));
    while i < n
        invariant
            c.wf(),
            flattenable(*c),
            n == c.types.entries@.len(),
            i <= n,
            r.wf(),
            r.as_set() == refs_before(*c, i as int, 0),
        decreases n - i,
    {
        let fields = &c.types.entries[i].1.fields.entries;
        let m = fields.len();
        let mut j: usize = 0;
        while j < m
            invariant
                c.wf(),
                flattenable(*c),
                n == c.types.entries@.len(),
                i < n,
                *fields == c.types.entries@[i as int].1.fields.entries,
                m == fields@.len(),
                j <= m,
                r.wf(),
                r.as_set() == refs_before(*c, i as int, j as int),
            decreases m - j,
        {
            let f = &fields[j].1;
            let ghost before = r.as_set();
            let mut added = false;
            match single_of(c, f.type_of.as_str()) {
                Some(s) => {
                    if f.resolvers.len() > 0 || (f.list && s.list) {
                        r.insert(f.type_of.clone());
                        added = true;
                    }
                },
                None => {},
            }
            proof {
                let f0 = c.types.entries@[i as int].1.fields.entries@[j as int].1;
                assert(added == kept_single(*c, f0));
                assert forall|k: Seq<char>| #[trigger] r.as_set().contains(k) == refs_before(*c, i as int, j + 1).contains(k) by {
                    if refs_before(*c, i as int, j + 1).contains(k) {
                        let (a, b) = choose|a: int, b: int|
                            0 <= a < c.types.entries@.len() && 0 <= b < c.types.entries@[a].1.fields.entries@.len()
                            && (a < i || (a == i && b < j + 1))
                            && #[trigger] kept_single(*c, c.types.entries@[a].1.fields.entries@[b].1)
                            && c.types.entries@[a].1.fields.entries@[b].1.type_of@ == k;
                        if !(a == i && b == j) {
                            assert(refs_before(*c, i as int, j as int).contains(k));
                        }
                    }
                    if before.contains(k) {
                        let (a, b) = choose|a: int, b: int|
                            0 <= a < c.types.entries@.len() && 0 <= b < c.types.entries@[a].1.fields.entries@.len()
                            && (a < i || (a == i && b < j))
                            && #[trigger] kept_single(*c, c.types.entries@[a].1.fields.entries@[b].1)
                            && c.types.entries@[a].1.fields.entries@[b].1.type_of@ == k;
                        assert(refs_before(*c, i as int, j + 1).contains(k));
                    }
                }
                assert(r.as_set() =~= refs_before(*c, i as int, j + 1));
            }
            j = j + 1;
        }
        proof {
            assert forall|k: Seq<char>| #[trigger] refs_before(*c, i as int, m as int).contains(k) == refs_before(*c, i + 1, 0).contains(k) by {
                if refs_before(*c, i + 1, 0).contains(k) {
                    let (a, b) = choose|a: int, b: int|
                        0 <= a < c.types.entries@.len() && 0 <= b < c.types.entries@[a].1.fields.entries@.len()
                        && (a < i + 1 || (a == i + 1 && b < 0))
                        && #[trigger] kept_single(*c, c.types.entries@[a].1.fields.entries@[b].1)
                        && c.types.entries@[a].1.fields.entries@[b].1.type_of@ == k;
                    assert(refs_before(*c, i as int, m as int).contains(k));
                }
                if refs_before(*c, i as int, m as int).contains(k) {
                    let (a, b) = choose|a: int, b: int|
                        0 <= a < c.types.entries@.len() && 0 <= b < c.types.entries@[a].1.fields.entries@.len()
                        && (a < i || (a == i && b < m))
                        && #[trigger] kept_single(*c, c.types.entries@[a].1.fields.entries@[b].1)
                        && c.types.entries@[a].1.fields.entries@[b].1.type_of@ == k;
                    assert(refs_before(*c, i + 1, 0).contains(k));
                }
            }
            assert(refs_before(*c, i as int, m as int) =~= refs_before(*c, i + 1, 0));
        }
        i = i + 1;
    }
    proof {
        assert forall|k: Seq<char>| #[trigger] refs_before(*c, n as int, 0).contains(k) == still_referenced(*c).contains(k) by {
            if still_referenced(*c).contains(k) {
                let (a, b) = choose|a: int, b: int|
                    0 <= a < c.types.entries@.len() && 0 <= b < c.types.entries@[a].1.fields.entries@.len()
                    && #[trigger] kept_single(*c, c.types.entries@[a].1.fields.entries@[b].1)
                    && c.types.entries@[a].1.fields.entries@[b].1.type_of@ == k;
                assert(refs_before(*c, n as int, 0).contains(k));
            }
        }
        assert(refs_before(*c, n as int, 0) =~= still_referenced(*c));
    }
    r
}

/// Type `t` with each field that has a replacement replaced by it.
fn update_type(t: Type, row: Vec<Option<Field>>, Ghost(c): Ghost<Config>) -> (u: Type)
    requires
        row@.len() == t.fields.entries@.len(),
        forall|j: int| 0 <= j < row@.len() ==> {
            let f = t.fields.entries@[j].1;
            &&& (#[trigger] row@[j] is Some) == to_flatten(c, f)
            &&& row@[j] matches Some(x) ==> same_field(flattened(c, f), x)
        },
    ensures
        type_flattened(c, t, u),
{
    let ghost t0 = t;
    let Type { fields, added_fields, implements, tag, resolvers, doc } = t;
    let ghost all = fields.entries@;
    let ghost rall = row@;
    let mut rest = fields.entries;
    let mut rrest = row;
    let mut out: Vec<(String, Field)> = Vec::new();
    let n = rest.len();
    let mut i: usize = 0;
    while i < n
        invariant
            n == all.len(),
            rall.len() == n,
            all == t0.fields.entries@,
            rall == row@,
            forall|j: int| 0 <= j < rall.len() ==> {
                let f = all[j].1;
                &&& (#[trigger] rall[j] is Some) == to_flatten(c, f)
                &&& rall[j] matches Some(x) ==> same_field(flattened(c, f), x)
            },
            i <= n,
            rest@ == all.skip(i as int),
            rrest@ == rall.skip(i as int),
            out@.len() == i,
            forall|j: int| 0 <= j < i ==> {
                let (name, f) = all[j];
                &&& (#[trigger] out@[j]).0 == name
                &&& if to_flatten(c, f) {
                    same_field(flattened(c, f), out@[j].1)
                } else {
                    out@[j].1 == f
                }
            },
        decreases n - i,
    {
        let (name, f) = rest.remove(0);
        let r = rrest.remove(0);
        assert((name, f) == all[i as int]);
        assert(r == rall[i as int]);
        match r {
            Some(x) => out.push((name, x)),
            None => out.push((name, f)),
        }
        assert(rest@ =~= all.skip(i + 1));
        assert(rrest@ =~= rall.skip(i + 1));
        i = i + 1;
    }
    Type { fields: StrMap { entries: out }, added_fields, implements, tag, resolvers, doc }
}

/// Counting fields that are not omitted after the transformation.
proof fn lemma_count_after(c: Config, ts: Seq<(String, Field)>, us: Seq<(String, Field)>)
    requires
        us.len() == ts.len(),
        forall|j: int| 0 <= j < ts.len() ==> (#[trigger] us[j]).1.omit == omitted_after(c, ts[j].1),
    ensures
        non_omitted(us) == non_omitted_after(c, ts),
    decreases ts.len(),
{
    if ts.len() > 0 {
        assert forall|j: int| 0 <= j < ts.drop_last().len() implies (#[trigger] us.drop_last()[j]).1.omit
            == omitted_after(c, ts.drop_last()[j].1) by {
            assert(us.drop_last()[j] == us[j]);
            assert(ts.drop_last()[j] == ts[j]);
        }
        lemma_count_after(c, ts.drop_last(), us.drop_last());
        assert(us.last() == us[us.len() - 1]);
    }
}

/// The arguments of a flattened field are those of a field of the
/// configuration.
proof fn lemma_flat_args(c: Config, f: Field, n: nat)
    requires
        c.wf(),
        flattenable(c),
        f.args.wf(),
    ensures
        flat(c, f, n).args.wf(),
    decreases n,
{
    match single_field(c, f.type_of@) {
        None => {},
        Some(s) => {
            if n > 0 {
                let name = f.type_of@;
                c.types.lemma_all_values(|t: Type| t.wf());
                assert(c.types.as_map()[name].wf());
                assert(c.types.as_map()[name].fields.entries@.len() > 0);
                assert(s.args.wf());
                lemma_flat_args(c, merged(s, f), (n - 1) as nat);
            }
        },
    }
}

/// The configuration after flattening single types.
pub open spec fn flattened_config(c: Config, o: Config) -> bool {
    &&& o.wf()
    &&& o.schema == c.schema
    &&& o.upstream == c.upstream
    &&& o.enable_federation == c.enable_federation
    &&& o.unions == c.unions
    &&& o.enums == c.enums
    &&& forall|k: Seq<char>| #[trigger] o.types.as_map().contains_key(k)
        <==> (c.types.as_map().contains_key(k) && stays(c, k))
    &&& forall|k: Seq<char>| #[trigger] o.types.as_map().contains_key(k)
        ==> type_flattened(c, c.types.as_map()[k], o.types.as_map()[k])
}

/// Flattens single types.
pub struct FlattenSingleTypes;

impl FlattenSingleTypes {
    /// Each field whose type is single takes the single field's place,
    /// following single types to the end, unless it has a resolver or both
    /// it and the single field are lists. Then the single types go, but for
    /// the root types and those a kept field still refers to.
    pub fn transform(&self, config: Config) -> (r: Result<Config, Vec<Cause>>)
        requires
            config.wf(),
            flattenable(config),
        ensures
            r matches Ok(o) && flattened_config(config, o),
    {
        let repl = replacements(&config);
        let kept = kept_names(&config);
        let ghost c = config;
        proof {
            c.types.lemma_all_values(|t: Type| t.wf());
        }
        let q = match &config.schema.query {
            Some(x) => x.clone(),
            None => copy_str("Query"),
        };
        let m = match &config.schema.mutation {
            Some(x) => x.clone(),
            None => copy_str("Mutation"),
        };
        let sb = match &config.schema.subscription {
            Some(x) => x.clone(),
            None => copy_str("Subscription"),
        };
        assert(root_names(c) == set![q@, m@, sb@]);
        let Config { schema, upstream, enable_federation, types, unions, enums } = config;
        let ghost all = types.entries@;
        let ghost rall = repl@;
        let mut rest = types.entries;
        let mut rrest = repl;
        let mut out: Vec<(String, Type)> = Vec::new();
        let ghost mut idx: Seq<int> = Seq::empty();
        let n = rest.len();
        let mut i: usize = 0;
        while i < n
            invariant
                c.wf(),
                flattenable(c),
                all == c.types.entries@,
                forall|k: Seq<char>| #[trigger] c.types.as_map().contains_key(k) ==> c.types.as_map()[k].wf(),
                rall.len() == n,
                forall|a: int| 0 <= a < n ==> (#[trigger] rall[a])@.len() == all[a].1.fields.entries@.len(),
                forall|a: int, b: int| 0 <= a < n && 0 <= b < rall[a]@.len() ==> {
                    let f = all[a].1.fields.entries@[b].1;
                    &&& (#[trigger] rall[a]@[b] is Some) == to_flatten(c, f)
                    &&& rall[a]@[b] matches Some(x) ==> same_field(flattened(c, f), x)
                },
                kept.wf(),
                kept.as_set() == still_referenced(c),
                root_names(c) == set![q@, m@, sb@],
                n == all.len(),
                i <= n,
                rest@ == all.skip(i as int),
                rrest@ == rall.skip(i as int),
                out@.len() == idx.len(),
                forall|x: int, y: int| 0 <= x < y < idx.len() ==> idx[x] < idx[y],
                forall|x: int| 0 <= x < idx.len() ==> 0 <= #[trigger] idx[x] < i,
                forall|x: int| 0 <= x < idx.len() ==> {
                    &&& (#[trigger] out@[x]).0 == all[idx[x]].0
                    &&& type_flattened(c, all[idx[x]].1, out@[x].1)
                    &&& out@[x].1.wf()
                },
                forall|a: int| 0 <= a < i ==> (stays(c, (#[trigger] all[a]).0@) <==> exists|x: int| 0 <= x < idx.len() && idx[x] == a),
            decreases n - i,
        {
            let (name, t) = rest.remove(0);
            let row = rrest.remove(0);
            assert((name, t) == all[i as int]);
            assert(row == rall[i as int]);
            let ghost tv = t;
            let u = update_type(t, row, Ghost(c));
            proof {
                c.types.lemma_at(i as int);
                assert(c.types.as_map()[name@] == tv);
                assert(tv.wf());
                assert forall|j: int| 0 <= j < tv.fields.entries@.len() implies (#[trigger] u.fields.entries@[j]).1.omit
                    == omitted_after(c, tv.fields.entries@[j].1) by {
                    let f = tv.fields.entries@[j].1;
                    if to_flatten(c, f) {
                        assert(same_field(flattened(c, f), u.fields.entries@[j].1));
                    }
                }
                lemma_count_after(c, tv.fields.entries@, u.fields.entries@);
                assert(u.fields.keys() =~= tv.fields.keys());
                lemma_same_keys(tv.fields, u.fields);
                assert forall|j: int| 0 <= j < u.fields.entries@.len() implies (#[trigger] u.fields.entries@[j]).1.args.wf() by {
                    let f = tv.fields.entries@[j].1;
                    assert(f.args.wf());
                    if to_flatten(c, f) {
                        lemma_flat_args(c, f, choose|n: nat| chain_ends(c, f.type_of@, n));
                        assert(u.fields.entries@[j].1.args.entries@ == flattened(c, f).args.entries@);
                    }
                }
                assert(u.wf());
            }
            let single = is_single_type(&u);
            let keep = str_eq(name.as_str(), q.as_str()) || str_eq(name.as_str(), m.as_str())
                || str_eq(name.as_str(), sb.as_str()) || kept.contains(name.as_str()) || !single;
            proof {
                assert(single == single_after(c, tv));
                assert(keep == stays(c, name@));
            }
            let ghost idx0 = idx;
            if keep {
                out.push((name, u));
                proof {
                    idx = idx.push(i as int);
                }
            }
            proof {
                assert forall|a: int| 0 <= a < i + 1 implies (stays(c, (#[trigger] all[a]).0@) <==> exists|x: int|
                    0 <= x < idx.len() && idx[x] == a) by {
                    if a < i {
                        if exists|x: int| 0 <= x < idx0.len() && idx0[x] == a {
                            let x = choose|x: int| 0 <= x < idx0.len() && idx0[x] == a;
                            assert(idx[x] == a);
                        }
                        if exists|x: int| 0 <= x < idx.len() && idx[x] == a {
                            let x = choose|x: int| 0 <= x < idx.len() && idx[x] == a;
                            assert(x < idx0.len());
                        }
                    } else {
                        if keep {
                            assert(idx[idx.len() - 1] == a);
                        } else {
                            if exists|x: int| 0 <= x < idx.len() && idx[x] == a {
                                let x = choose|x: int| 0 <= x < idx.len() && idx[x] == a;
                                assert(idx[x] < i);
                            }
                        }
                    }
                }
            }
            assert(rest@ =~= all.skip(i + 1));
            assert(rrest@ =~= rall.skip(i + 1));
            i = i + 1;
        }
        let types = StrMap { entries: out };
        let o = Config { schema, upstream, enable_federation, types, unions, enums };
        proof {
            assert forall|x: int, y: int| 0 <= x < y < o.types.entries@.len() implies seq_lt(
                #[trigger] o.types.entries@[x].0@,
                #[trigger] o.types.entries@[y].0@,
            ) by {
                assert(idx[x] < idx[y]);
            }
            assert(o.types.wf());
            assert forall|k: Seq<char>| #[trigger] o.types.as_map().contains_key(k)
                <==> (c.types.as_map().contains_key(k) && stays(c, k)) by {
                if o.types.as_map().contains_key(k) {
                    let x = choose|x: int| 0 <= x < o.types.entries@.len() && #[trigger] o.types.entries@[x].0@ == k;
                    c.types.lemma_at(idx[x]);
                    assert(stays(c, all[idx[x]].0@));
                }
                if c.types.as_map().contains_key(k) && stays(c, k) {
                    let a = c.types.pos(k);
                    c.types.lemma_at(a);
                    assert(stays(c, all[a].0@));
                    let x = choose|x: int| 0 <= x < idx.len() && idx[x] == a;
                    assert(o.types.entries@[x].0@ == k);
                }
            }
            assert forall|k: Seq<char>| #[trigger] o.types.as_map().contains_key(k)
                implies type_flattened(c, c.types.as_map()[k], o.types.as_map()[k]) by {
                let x = o.types.pos(k);
                o.types.lemma_at(x);
                c.types.lemma_at(idx[x]);
            }
            let pt = |t: Type| t.wf();
            o.types.lemma_all_values(pt);
            assert forall|x: int| 0 <= x < o.types.entries@.len() implies (#[trigger] o.types.entries@[x]).1.wf() by {}
            assert(o.wf());
        }
        Ok(o)
    }
}

proof fn lemma_flat_ends(c: Config, f: Field, n: nat)
    requires
        chain_ends(c, f.type_of@, n),
    ensures
        single_field(c, flat(c, f, n).type_of@) is None,
    decreases n,
{
    match single_field(c, f.type_of@) {
        None => {},
        Some(s) => {
            lemma_flat_ends(c, merged(s, f), (n - 1) as nat);
        },
    }
}

/// A flattened field no longer refers to a single type: single types are
/// followed to the end.
pub proof fn law_flattened_field_not_single(c: Config, f: Field)
    requires
        exists|n: nat| chain_ends(c, f.type_of@, n),
    ensures
        single_field(c, flattened(c, f).type_of@) is None,
{
    lemma_flat_ends(c, f, choose|n: nat| chain_ends(c, f.type_of@, n));
}

} // verus!
verus! {

/// The single fields met following single types from type `t`, at most
/// `n` of them: the field the single type `t` stands for, then the one its
/// type stands for, and so on.
pub open spec fn single_chain(c: Config, t: Seq<char>, n: nat) -> Seq<Field>
    decreases n,
{
    match single_field(c, t) {
        None => Seq::empty(),
        Some(s) => if n == 0 {
            Seq::empty()
        } else {
            seq![s] + single_chain(c, s.type_of@, (n - 1) as nat)
        },
    }
}

/// All the single fields met following single types from type `t`.
pub open spec fn full_chain(c: Config, t: Seq<char>) -> Seq<Field> {
    single_chain(c, t, choose|n: nat| chain_ends(c, t, n))
}

proof fn lemma_flat_required(c: Config, f: Field, n: nat)
    requires
        !f.list,
        forall|i: int| 0 <= i < single_chain(c, f.type_of@, n).len() ==> !(#[trigger] single_chain(c, f.type_of@, n)[i]).list,
    ensures
        !flat(c, f, n).list,
        flat(c, f, n).required == (f.required && forall|i: int|
            0 <= i < single_chain(c, f.type_of@, n).len() ==> (#[trigger] single_chain(c, f.type_of@, n)[i]).required),
    decreases n,
{
    let ch = single_chain(c, f.type_of@, n);
    match single_field(c, f.type_of@) {
        None => {},
        Some(s) => {
            if n > 0 {
                let g = merged(s, f);
                let rest = single_chain(c, s.type_of@, (n - 1) as nat);
                assert(ch == seq![s] + rest);
                assert(ch[0] == s);
                assert(!s.list);
                assert(g.type_of == s.type_of);
                assert forall|i: int| 0 <= i < rest.len() implies !(#[trigger] rest[i]).list by {
                    assert(ch[i + 1] == rest[i]);
                }
                lemma_flat_required(c, g, (n - 1) as nat);
                assert((forall|i: int| 0 <= i < ch.len() ==> (#[trigger] ch[i]).required) == (s.required && forall|i: int|
                    0 <= i < rest.len() ==> (#[trigger] rest[i]).required)) by {
                    if forall|i: int| 0 <= i < ch.len() ==> (#[trigger] ch[i]).required {
                        assert(ch[0].required);
                        assert forall|i: int| 0 <= i < rest.len() implies (#[trigger] rest[i]).required by {
                            assert(ch[i + 1] == rest[i]);
                        }
                    }
                    if s.required && forall|i: int| 0 <= i < rest.len() ==> (#[trigger] rest[i]).required {
                        assert forall|i: int| 0 <= i < ch.len() implies (#[trigger] ch[i]).required by {
                            if i > 0 {
                                assert(ch[i] == rest[i - 1]);
                            }
                        }
                    }
                }
            }
        },
    }
}

/// A field that takes a single field's place, when neither it nor any
/// single field met on the way is a list, is no list and is required
/// exactly when it and every single field met are required.
pub proof fn law_flattened_required(c: Config, o: Config, k: Seq<char>, j: int)
    requires
        flattened_config(c, o),
        o.types.as_map().contains_key(k),
        0 <= j < c.types.as_map()[k].fields.entries@.len(),
        to_flatten(c, c.types.as_map()[k].fields.entries@[j].1),
        exists|n: nat| chain_ends(c, c.types.as_map()[k].fields.entries@[j].1.type_of@, n),
        !c.types.as_map()[k].fields.entries@[j].1.list,
        forall|i: int|
            0 <= i < full_chain(c, c.types.as_map()[k].fields.entries@[j].1.type_of@).len() ==> !(#[trigger] full_chain(
                c,
                c.types.as_map()[k].fields.entries@[j].1.type_of@,
            )[i]).list,
    ensures
        ({
            let f = c.types.as_map()[k].fields.entries@[j].1;
            let g = o.types.as_map()[k].fields.entries@[j].1;
            let ch = full_chain(c, f.type_of@);
            &&& !g.list
            &&& g.required == (f.required && forall|i: int| 0 <= i < ch.len() ==> (#[trigger] ch[i]).required)
        }),
{
    let f = c.types.as_map()[k].fields.entries@[j].1;
    let n = choose|n: nat| chain_ends(c, f.type_of@, n);
    assert(type_flattened(c, c.types.as_map()[k], o.types.as_map()[k]));
    lemma_flat_required(c, f, n);
}

proof fn lemma_flat_list(c: Config, f: Field, n: nat)
    ensures
        flat(c, f, n).list == (f.list || exists|i: int|
            0 <= i < single_chain(c, f.type_of@, n).len() && (#[trigger] single_chain(c, f.type_of@, n)[i]).list),
        flat(c, f, n).type_of == if single_chain(c, f.type_of@, n).len() == 0 {
            f.type_of
        } else {
            single_chain(c, f.type_of@, n).last().type_of
        },
    decreases n,
{
    let ch = single_chain(c, f.type_of@, n);
    match single_field(c, f.type_of@) {
        None => {},
        Some(s) => {
            if n > 0 {
                let g = merged(s, f);
                let rest = single_chain(c, s.type_of@, (n - 1) as nat);
                assert(ch == seq![s] + rest);
                assert(g.type_of == s.type_of);
                assert(g.list == (s.list || f.list));
                lemma_flat_list(c, g, (n - 1) as nat);
                if rest.len() > 0 {
                    assert(ch.last() == rest.last());
                }
                assert((exists|i: int| 0 <= i < ch.len() && (#[trigger] ch[i]).list) == (s.list || exists|i: int|
                    0 <= i < rest.len() && (#[trigger] rest[i]).list)) by {
                    if exists|i: int| 0 <= i < ch.len() && (#[trigger] ch[i]).list {
                        let i = choose|i: int| 0 <= i < ch.len() && (#[trigger] ch[i]).list;
                        if i > 0 {
                            assert(rest[i - 1] == ch[i]);
                        }
                    }
                    if exists|i: int| 0 <= i < rest.len() && (#[trigger] rest[i]).list {
                        let i = choose|i: int| 0 <= i < rest.len() && (#[trigger] rest[i]).list;
                        assert(ch[i + 1] == rest[i]);
                    }
                    if s.list {
                        assert(ch[0] == s);
                    }
                }
            }
        },
    }
}

/// A field that takes a single field's place is a list exactly when it or
/// a single field met on the way is one, and it names the type that the
/// last single field met names.
pub proof fn law_flattened_list(c: Config, o: Config, k: Seq<char>, j: int)
    requires
        flattened_config(c, o),
        o.types.as_map().contains_key(k),
        0 <= j < c.types.as_map()[k].fields.entries@.len(),
        to_flatten(c, c.types.as_map()[k].fields.entries@[j].1),
    ensures
        ({
            let f = c.types.as_map()[k].fields.entries@[j].1;
            let g = o.types.as_map()[k].fields.entries@[j].1;
            let ch = full_chain(c, f.type_of@);
            &&& g.list == (f.list || exists|i: int| 0 <= i < ch.len() && (#[trigger] ch[i]).list)
            &&& g.type_of == if ch.len() == 0 { f.type_of } else { ch.last().type_of }
        }),
{
    let f = c.types.as_map()[k].fields.entries@[j].1;
    let n = choose|n: nat| chain_ends(c, f.type_of@, n);
    assert(type_flattened(c, c.types.as_map()[k], o.types.as_map()[k]));
    lemma_flat_list(c, f, n);
}

} // verus!
