//! Renames types, enums and unions to suggested names, and every reference
//! to them.

use vstd::prelude::*;
use indexmap::IndexMap;
use crate::config::{Arg, Config, Field, Type, Union};
use crate::config::transformer::index_map::{
    keys_unique, lemma_upsert_unique, lookup, name_entries, names_entries, names_get, names_insert,
    names_new, upsert,
};
use crate::strmap::StrMap;
use crate::strset::StrSet;
use crate::strings::concat_str;
use crate::valid::Cause;

verus! {

/// A map with key `a` moved to key `b`, when `a` is a key.
pub open spec fn move_key<V>(m: Map<Seq<char>, V>, a: Seq<char>, b: Seq<char>) -> Map<Seq<char>, V> {
    if m.contains_key(a) {
        m.remove(a).insert(b, m[a])
    } else {
        m
    }
}

/// A map after the renames `e`, one after the other.
pub open spec fn moved<V>(m: Map<Seq<char>, V>, e: Seq<(Seq<char>, Seq<char>)>) -> Map<Seq<char>, V>
    decreases e.len(),
{
    if e.len() == 0 {
        m
    } else {
        move_key(moved(m, e.drop_last()), e.last().0, e.last().1)
    }
}

/// The names of the query and mutation types after the renames `e`: a
/// rename of a type that is the query (else the mutation) type renames it.
pub open spec fn roots_after(
    types: Map<Seq<char>, Type>,
    roots: (Option<Seq<char>>, Option<Seq<char>>),
    e: Seq<(Seq<char>, Seq<char>)>,
) -> (Option<Seq<char>>, Option<Seq<char>>)
    decreases e.len(),
{
    if e.len() == 0 {
        roots
    } else {
        let (q, mu) = roots_after(types, roots, e.drop_last());
        let (a, b) = e.last();
        if moved(types, e.drop_last()).contains_key(a) {
            if q == Some(a) {
                (Some(b), mu)
            } else if mu == Some(a) {
                (q, Some(b))
            } else {
                (q, mu)
            }
        } else {
            (q, mu)
        }
    }
}

/// The renames give new names: none is a name of `types`, and no two give
/// the same name.
pub open spec fn fresh_renames<V>(types: Map<Seq<char>, V>, e: Seq<(Seq<char>, Seq<char>)>) -> bool {
    &&& forall|i: int| 0 <= i < e.len() ==> !types.contains_key(#[trigger] e[i].1)
    &&& forall|i: int, j: int| 0 <= i < j < e.len() ==> #[trigger] e[i].1 != #[trigger] e[j].1
}

/// The query and mutation names, when set, name types of `types`, and
/// differ.
pub open spec fn roots_named<V>(types: Map<Seq<char>, V>, roots: (Option<Seq<char>>, Option<Seq<char>>)) -> bool {
    &&& (roots.0 matches Some(q) ==> types.contains_key(q))
    &&& (roots.1 matches Some(m) ==> types.contains_key(m))
    &&& (roots.0 matches Some(q) && roots.1 matches Some(m) ==> q != m)
}

/// Renaming to new names keeps the query and mutation names naming types:
/// when the query or the mutation type is renamed, its name in the schema
/// follows it, and a name that is not renamed stays a type.
pub proof fn law_roots_follow_renames(
    types: Map<Seq<char>, Type>,
    roots: (Option<Seq<char>>, Option<Seq<char>>),
    e: Seq<(Seq<char>, Seq<char>)>,
)
    requires
        roots_named(types, roots),
        fresh_renames(types, e),
    ensures
        roots_named(moved(types, e), roots_after(types, roots, e)),
        forall|k: Seq<char>| #[trigger] moved(types, e).contains_key(k) ==> types.contains_key(k) || exists|i: int|
            0 <= i < e.len() && e[i].1 == k,
    decreases e.len(),
{
    if e.len() > 0 {
        let e0 = e.drop_last();
        assert forall|i: int, j: int| 0 <= i < j < e0.len() implies #[trigger] e0[i].1 != #[trigger] e0[j].1 by {
            assert(e[i].1 != e[j].1);
        }
        assert forall|i: int| 0 <= i < e0.len() implies !types.contains_key(#[trigger] e0[i].1) by {
            assert(!types.contains_key(e[i].1));
        }
        law_roots_follow_renames(types, roots, e0);
        let m0 = moved(types, e0);
        let (a, b) = e.last();
        assert(!m0.contains_key(b)) by {
            if m0.contains_key(b) {
                if !types.contains_key(b) {
                    let i = choose|i: int| 0 <= i < e0.len() && e0[i].1 == b;
                    assert(e[i].1 != e[e.len() - 1].1);
                }
                assert(!types.contains_key(e[e.len() - 1].1));
            }
        }
        assert forall|k: Seq<char>| #[trigger] moved(types, e).contains_key(k) implies types.contains_key(k) || exists|i: int|
            0 <= i < e.len() && e[i].1 == k by {
            if k == b {
                assert(e[e.len() - 1].1 == k);
            } else if m0.contains_key(k) && !types.contains_key(k) {
                let i = choose|i: int| 0 <= i < e0.len() && e0[i].1 == k;
                assert(e[i].1 == k);
            }
        }
    }
}

/// The name a reference takes: its suggested name, if it has one.
pub open spec fn renamed(e: Seq<(Seq<char>, Seq<char>)>, x: Seq<char>) -> Seq<char> {
    match lookup(e, x) {
        Some(y) => y,
        None => x,
    }
}

/// Renames types, enums and unions to suggested names.
pub struct RenameTypes(IndexMap<String, String>);

impl RenameTypes {
    /// The suggested renames, in order.
    pub closed spec fn renames(self) -> Seq<(Seq<char>, Seq<char>)> {
        name_entries(self.0)
    }

    /// Each name has one suggestion.
    pub closed spec fn wf(self) -> bool {
        keys_unique(name_entries(self.0))
    }

    /// The renames, in order; a later suggestion for the same name replaces
    /// the earlier one in its place.
    pub fn new(suggested_names: Vec<(String, String)>) -> (r: RenameTypes)
        ensures
            r.wf(),
            r.renames() == suggested_fold(suggested_names@),
    {
        let mut m = names_new();
        let ghost all = suggested_names@;
        let mut rest = suggested_names;
        let n = rest.len();
        let mut i: usize = 0;
        assert(all.take(0) =~= Seq::<(String, String)>::empty());
        while i < n
            invariant
                n == all.len(),
                i <= n,
                rest@ == all.skip(i as int),
                keys_unique(name_entries(m)),
                name_entries(m) == suggested_fold(all.take(i as int)),
            decreases n - i,
        {
            let (a, b) = rest.remove(0);
            assert((a, b) == all[i as int]);
            proof {
                lemma_upsert_unique(name_entries(m), a@, b@);
                assert(all.take(i + 1).drop_last() =~= all.take(i as int));
            }
            names_insert(&mut m, a, b);
            assert(rest@ =~= all.skip(i + 1));
            i = i + 1;
        }
        assert(all.take(n as int) =~= all);
        RenameTypes(m)
    }
}

/// The entries inserting the pairs one after the other gives.
pub open spec fn suggested_fold(v: Seq<(String, String)>) -> Seq<(Seq<char>, Seq<char>)>
    decreases v.len(),
{
    if v.len() == 0 {
        Seq::empty()
    } else {
        upsert(suggested_fold(v.drop_last()), v.last().0@, v.last().1@)
    }
}

/// The view of an optional name.
pub open spec fn opt_view(o: Option<String>) -> Option<Seq<char>> {
    match o {
        Some(s) => Some(s@),
        None => None,
    }
}

/// The name renamed by rename `j` is a type, enum or union once the renames
/// before it are done.
pub open spec fn present_at(config: Config, e: Seq<(Seq<char>, Seq<char>)>, j: int) -> bool {
    ||| moved(config.types.as_map(), e.take(j)).contains_key(e[j].0)
    ||| moved(config.enums.as_map(), e.take(j)).contains_key(e[j].0)
    ||| moved(config.unions.as_map(), e.take(j)).contains_key(e[j].0)
}

/// Every rename names a type, enum or union when its turn comes.
pub open spec fn all_present(config: Config, e: Seq<(Seq<char>, Seq<char>)>) -> bool {
    forall|j: int| 0 <= j < e.len() ==> present_at(config, e, j)
}

/// The messages for the renames before position `k` whose name is not
/// found when its turn comes, in order.
pub open spec fn missing_messages(config: Config, e: Seq<(Seq<char>, Seq<char>)>, k: int) -> Seq<Seq<char>>
    decreases k,
{
    if k <= 0 {
        Seq::empty()
    } else if present_at(config, e, k - 1) {
        missing_messages(config, e, k - 1)
    } else {
        missing_messages(config, e, k - 1).push(not_found_message(e[k - 1].0))
    }
}

/// The messages of a list of causes.
pub open spec fn cause_messages(v: Seq<Cause>) -> Seq<Seq<char>> {
    v.map_values(|c: Cause| c.error@)
}

/// The message for a name that is not found.
pub open spec fn not_found_message(a: Seq<char>) -> Seq<char> {
    "Type '"@ + a + "' not found in configuration."@
}

proof fn lemma_upsert_new(e: Seq<(Seq<char>, Seq<char>)>, k: Seq<char>, v: Seq<char>)
    requires
        forall|i: int| 0 <= i < e.len() ==> (#[trigger] e[i]).0 != k,
    ensures
        upsert(e, k, v) == e.push((k, v)),
{
}

proof fn lemma_upsert_same(e: Seq<(Seq<char>, Seq<char>)>, k: Seq<char>, v: Seq<char>)
    requires
        keys_unique(e),
        e.len() > 0,
        e.last() == (k, v),
    ensures
        upsert(e, k, v) == e,
{
    assert(e[e.len() - 1].0 == k);
    let i = choose|i: int| 0 <= i < e.len() && (#[trigger] e[i]).0 == k;
    if i != e.len() - 1 {
        assert(e[i].0 != e[e.len() - 1].0);
    }
    assert(e.update(i, (k, v)) =~= e);
}

proof fn lemma_lookup_step(l: Seq<(Seq<char>, Seq<char>)>, e: Seq<(Seq<char>, Seq<char>)>, i: int)
    requires
        keys_unique(e),
        0 <= i < e.len(),
        l == e.take(i) || l == e.take(i + 1),
    ensures
        upsert(l, e[i].0, e[i].1) == e.take(i + 1),
{
    let t = e.take(i + 1);
    assert(t.last() == e[i]);
    assert(keys_unique(t)) by {
        assert forall|a: int, b: int| 0 <= a < b < t.len() implies (#[trigger] t[a]).0 != (#[trigger] t[b]).0 by {
            assert(e[a].0 != e[b].0);
        }
    }
    if l == e.take(i) {
        assert forall|j: int| 0 <= j < l.len() implies (#[trigger] l[j]).0 != e[i].0 by {
            assert(e[j].0 != e[i].0);
        }
        lemma_upsert_new(l, e[i].0, e[i].1);
        assert(l.push(e[i]) =~= t);
    } else {
        lemma_upsert_same(t, e[i].0, e[i].1);
    }
}

proof fn lemma_moved_step<V>(m: Map<Seq<char>, V>, e: Seq<(Seq<char>, Seq<char>)>, i: int)
    requires
        0 <= i < e.len(),
    ensures
        moved(m, e.take(i + 1)) == move_key(moved(m, e.take(i)), e[i].0, e[i].1),
{
    assert(e.take(i + 1).drop_last() =~= e.take(i));
}

impl RenameTypes {
    /// Moves each type, enum and union to its suggested name, in order, and
    /// reports the names that are not found; gives the renames done.
    fn move_all(&self, config: Config) -> (r: (Config, IndexMap<String, String>, Vec<Cause>))
        requires
            self.wf(),
            config.wf(),
        ensures
            r.0.wf(),
            r.0.types.as_map() == moved(config.types.as_map(), self.renames()),
            r.0.enums.as_map() == moved(config.enums.as_map(), self.renames()),
            r.0.unions.as_map() == moved(config.unions.as_map(), self.renames()),
            (opt_view(r.0.schema.query), opt_view(r.0.schema.mutation)) == roots_after(
                config.types.as_map(),
                (opt_view(config.schema.query), opt_view(config.schema.mutation)),
                self.renames(),
            ),
            r.0.schema.subscription == config.schema.subscription,
            r.0.upstream == config.upstream,
            r.0.enable_federation == config.enable_federation,
            r.2@.len() == 0 <==> all_present(config, self.renames()),
            r.2@.len() == 0 ==> name_entries(r.1) == self.renames(),
            forall|x: int| 0 <= x < r.2@.len() ==> exists|j: int|
                0 <= j < self.renames().len() && !present_at(config, self.renames(), j) && (#[trigger] r.2@[x]).error@
                    == not_found_message(self.renames()[j].0),
            cause_messages(r.2@) == missing_messages(config, self.renames(), self.renames().len() as int),
            forall|x: int| 0 <= x < r.2@.len() ==> (#[trigger] r.2@[x]).trace@.len() == 0,
    {
        let ghost e = self.renames();
        let ghost orig = config;
        let pairs = names_entries(&self.0);
        let mut config = config;
        let mut lookup = names_new();
        let mut errs: Vec<Cause> = Vec::new();
        let n = pairs.len();
        let mut i: usize = 0;
        assert(e.take(0) =~= Seq::<(Seq<char>, Seq<char>)>::empty());
        while i < n
            invariant
                n == e.len(),
                n == pairs@.len(),
                e == self.renames(),
                keys_unique(e),
                forall|j: int| 0 <= j < n ==> (#[trigger] pairs@[j]).0@ == e[j].0 && pairs@[j].1@ == e[j].1,
                i <= n,
                config.wf(),
                config.types.as_map() == moved(orig.types.as_map(), e.take(i as int)),
                config.enums.as_map() == moved(orig.enums.as_map(), e.take(i as int)),
                config.unions.as_map() == moved(orig.unions.as_map(), e.take(i as int)),
                (opt_view(config.schema.query), opt_view(config.schema.mutation)) == roots_after(
                    orig.types.as_map(),
                    (opt_view(orig.schema.query), opt_view(orig.schema.mutation)),
                    e.take(i as int),
                ),
                config.schema.subscription == orig.schema.subscription,
                config.upstream == orig.upstream,
                config.enable_federation == orig.enable_federation,
                errs@.len() == 0 <==> forall|j: int| 0 <= j < i ==> present_at(orig, e, j),
                errs@.len() == 0 ==> name_entries(lookup) == e.take(i as int),
                forall|x: int| 0 <= x < errs@.len() ==> exists|j: int|
                    0 <= j < e.len() && !present_at(orig, e, j) && (#[trigger] errs@[x]).error@ == not_found_message(e[j].0),
                cause_messages(errs@) == missing_messages(orig, e, i as int),
                forall|x: int| 0 <= x < errs@.len() ==> (#[trigger] errs@[x]).trace@.len() == 0,
            decreases n - i,
        {
            let a: &String = &pairs[i].0;
            let b: &String = &pairs[i].1;
            let ghost ep = e.take(i as int);
            let ghost e0 = errs@;
            let ghost l0 = name_entries(lookup);
            proof {
                lemma_moved_step(orig.types.as_map(), e, i as int);
                lemma_moved_step(orig.enums.as_map(), e, i as int);
                lemma_moved_step(orig.unions.as_map(), e, i as int);
                assert(e.take(i + 1).drop_last() =~= ep);
                assert(e.take(i + 1).last() == e[i as int]);
                assert(ep.len() == i);
            }
            let found = config.types.contains_key(a.as_str()) || config.enums.contains_key(a.as_str())
                || config.unions.contains_key(a.as_str());
            if found {
                let ghost mut did = false;
                match config.remove_type(a.as_str()) {
                    Some(t) => {
                        config.insert_type(b.clone(), t);
                        proof {
                            if e0.len() == 0 {
                                lemma_lookup_step(name_entries(lookup), e, i as int);
                            }
                            did = true;
                        }
                        names_insert(&mut lookup, a.clone(), b.clone());
                        let is_query = match &config.schema.query {
                            Some(q) => crate::strings::str_eq(q.as_str(), a.as_str()),
                            None => false,
                        };
                        if is_query {
                            config.schema.query = Some(b.clone());
                        } else {
                            let is_mutation = match &config.schema.mutation {
                                Some(m) => crate::strings::str_eq(m.as_str(), a.as_str()),
                                None => false,
                            };
                            if is_mutation {
                                config.schema.mutation = Some(b.clone());
                            }
                        }
                    },
                    None => {},
                }
                match config.remove_enum(a.as_str()) {
                    Some(en) => {
                        config.insert_enum(b.clone(), en);
                        proof {
                            if e0.len() == 0 {
                                lemma_lookup_step(name_entries(lookup), e, i as int);
                            }
                            did = true;
                        }
                        names_insert(&mut lookup, a.clone(), b.clone());
                    },
                    None => {},
                }
                match config.remove_union(a.as_str()) {
                    Some(u) => {
                        config.insert_union(b.clone(), u);
                        proof {
                            if e0.len() == 0 {
                                lemma_lookup_step(name_entries(lookup), e, i as int);
                            }
                            did = true;
                        }
                        names_insert(&mut lookup, a.clone(), b.clone());
                    },
                    None => {},
                }
                proof {
                    assert(config.types.as_map() =~= moved(orig.types.as_map(), e.take(i + 1)));
                    assert(config.enums.as_map() =~= moved(orig.enums.as_map(), e.take(i + 1)));
                    assert(config.unions.as_map() =~= moved(orig.unions.as_map(), e.take(i + 1)));
                    assert(present_at(orig, e, i as int));
                    assert(missing_messages(orig, e, i + 1) == missing_messages(orig, e, i as int));
                    assert(did);
                }
            } else {
                let msg = concat_str("Type '", a.as_str());
                let msg = concat_str(msg.as_str(), "' not found in configuration.");
                errs.push(Cause::new(msg));
                proof {
                    assert(!present_at(orig, e, i as int));
                    assert(cause_messages(errs@) =~= cause_messages(e0).push(not_found_message(e[i as int].0)));
                    assert(config.types.as_map() =~= moved(orig.types.as_map(), e.take(i + 1)));
                    assert(config.enums.as_map() =~= moved(orig.enums.as_map(), e.take(i + 1)));
                    assert(config.unions.as_map() =~= moved(orig.unions.as_map(), e.take(i + 1)));
                    assert forall|x: int| 0 <= x < errs@.len() implies exists|j: int|
                        0 <= j < e.len() && !present_at(orig, e, j) && (#[trigger] errs@[x]).error@ == not_found_message(e[j].0) by {
                        if x < e0.len() {
                            assert(errs@[x] == e0[x]);
                        } else {
                            assert(errs@[x].error@ == not_found_message(e[i as int].0));
                        }
                    }
                }
            }
            i = i + 1;
        }
        assert(e.take(n as int) =~= e);
        (config, lookup, errs)
    }
}

/// An argument whose type is renamed.
pub open spec fn arg_renamed(e: Seq<(Seq<char>, Seq<char>)>, a: Arg, b: Arg) -> bool {
    &&& b.type_of@ == renamed(e, a.type_of@)
    &&& b.list == a.list
    &&& b.required == a.required
    &&& b.doc == a.doc
}

/// A field whose type and arguments' types are renamed.
pub open spec fn field_renamed(e: Seq<(Seq<char>, Seq<char>)>, a: Field, b: Field) -> bool {
    &&& b.type_of@ == renamed(e, a.type_of@)
    &&& b.args.keys() == a.args.keys()
    &&& b.args.entries@.len() == a.args.entries@.len()
    &&& forall|i: int| 0 <= i < a.args.entries@.len() ==> arg_renamed(e, #[trigger] a.args.entries@[i].1, b.args.entries@[i].1)
    &&& b.list == a.list
    &&& b.required == a.required
    &&& b.list_type_required == a.list_type_required
    &&& b.doc == a.doc
    &&& b.omit == a.omit
    &&& b.resolvers == a.resolvers
}

/// A type whose fields' references and interfaces are renamed.
pub open spec fn type_renamed(e: Seq<(Seq<char>, Seq<char>)>, a: Type, b: Type) -> bool {
    &&& b.fields.keys() == a.fields.keys()
    &&& b.fields.entries@.len() == a.fields.entries@.len()
    &&& forall|i: int| 0 <= i < a.fields.entries@.len() ==> field_renamed(e, #[trigger] a.fields.entries@[i].1, b.fields.entries@[i].1)
    &&& b.implements.wf()
    &&& b.implements.as_set() == a.implements.as_set().map(|x: Seq<char>| renamed(e, x))
    &&& b.added_fields == a.added_fields
    &&& b.tag == a.tag
    &&& b.resolvers == a.resolvers
    &&& b.doc == a.doc
}

/// A union whose members are renamed.
pub open spec fn union_renamed(e: Seq<(Seq<char>, Seq<char>)>, a: Union, b: Union) -> bool {
    &&& b.types.wf()
    &&& b.types.as_set() == a.types.as_set().map(|x: Seq<char>| renamed(e, x))
    &&& b.doc == a.doc
}

fn rename_name(lookup: &IndexMap<String, String>, x: &String, Ghost(e): Ghost<Seq<(Seq<char>, Seq<char>)>>) -> (r: String)
    requires
        keys_unique(e),
        name_entries(*lookup) == e,
    ensures
        r@ == renamed(e, x@),
{
    match names_get(lookup, x.as_str()) {
        Some(y) => y,
        None => x.clone(),
    }
}

fn rename_set(lookup: &IndexMap<String, String>, s: &StrSet, Ghost(e): Ghost<Seq<(Seq<char>, Seq<char>)>>) -> (r: StrSet)
    requires
        keys_unique(e),
        name_entries(*lookup) == e,
    ensures
        r.wf(),
        r.as_set() == s.as_set().map(|x: Seq<char>| renamed(e, x)),
{
    let mut r = StrSet::new();
    let n = s.items.len();
    let mut i: usize = 0;
    while i < n
        invariant
            keys_unique(e),
            name_entries(*lookup) == e,
            n == s.items@.len(),
            i <= n,
            r.wf(),
            r.as_set() == Set::new(|y: Seq<char>| exists|j: int| 0 <= j < i && renamed(e, #[trigger] s.items@[j]@) == y),
        decreases n - i,
    {
        let y = rename_name(lookup, &s.items[i], Ghost(e));
        let ghost before = r.as_set();
        r.insert(y);
        proof {
            let target = Set::new(|y: Seq<char>| exists|j: int| 0 <= j < i + 1 && renamed(e, #[trigger] s.items@[j]@) == y);
            assert forall|z: Seq<char>| r.as_set().contains(z) == target.contains(z) by {
                if before.contains(z) {
                    let j = choose|j: int| 0 <= j < i && renamed(e, #[trigger] s.items@[j]@) == z;
                    assert(0 <= j < i + 1 && renamed(e, s.items@[j]@) == z);
                }
                if target.contains(z) {
                    let j = choose|j: int| 0 <= j < i + 1 && renamed(e, #[trigger] s.items@[j]@) == z;
                    if j < i {
                        assert(before.contains(z));
                    }
                }
            }
            assert(r.as_set() =~= target);
        }
        i = i + 1;
    }
    proof {
        let img = s.as_set().map(|x: Seq<char>| renamed(e, x));
        assert forall|z: Seq<char>| r.as_set().contains(z) == img.contains(z) by {
            if r.as_set().contains(z) {
                let j = choose|j: int| 0 <= j < n && renamed(e, #[trigger] s.items@[j]@) == z;
                assert(s.as_set().contains(s.items@[j]@));
            }
            if img.contains(z) {
                let x = choose|x: Seq<char>| s.as_set().contains(x) && renamed(e, x) == z;
                let j = choose|j: int| 0 <= j < s.items@.len() && #[trigger] s.items@[j]@ == x;
                assert(renamed(e, s.items@[j]@) == z);
            }
        }
        assert(r.as_set() =~= img);
    }
    r
}

fn rename_args(lookup: &IndexMap<String, String>, args: StrMap<Arg>, Ghost(e): Ghost<Seq<(Seq<char>, Seq<char>)>>) -> (r: StrMap<Arg>)
    requires
        keys_unique(e),
        name_entries(*lookup) == e,
    ensures
        r.keys() == args.keys(),
        r.entries@.len() == args.entries@.len(),
        forall|i: int| 0 <= i < args.entries@.len() ==> arg_renamed(e, #[trigger] args.entries@[i].1, r.entries@[i].1),
{
    let ghost all = args.entries@;
    let mut rest = args.entries;
    let mut out: Vec<(String, Arg)> = Vec::new();
    let n = rest.len();
    let mut i: usize = 0;
    while i < n
        invariant
            keys_unique(e),
            name_entries(*lookup) == e,
            n == all.len(),
            i <= n,
            rest@ == all.skip(i as int),
            out@.len() == i,
            forall|j: int| 0 <= j < i ==> (#[trigger] out@[j]).0 == all[j].0 && arg_renamed(e, all[j].1, out@[j].1),
        decreases n - i,
    {
        let (name, arg) = rest.remove(0);
        assert((name, arg) == all[i as int]);
        let t = rename_name(lookup, &arg.type_of, Ghost(e));
        out.push((name, Arg { type_of: t, list: arg.list, required: arg.required, doc: arg.doc }));
        assert(rest@ =~= all.skip(i + 1));
        i = i + 1;
    }
    let r = StrMap { entries: out };
    assert(r.keys() =~= args.keys());
    r
}

fn rename_field(lookup: &IndexMap<String, String>, field: Field, Ghost(e): Ghost<Seq<(Seq<char>, Seq<char>)>>) -> (r: Field)
    requires
        keys_unique(e),
        name_entries(*lookup) == e,
    ensures
        field_renamed(e, field, r),
{
    let Field { type_of, list, required, list_type_required, args, doc, omit, resolvers } = field;
    let t = rename_name(lookup, &type_of, Ghost(e));
    Field { type_of: t, list, required, list_type_required, args: rename_args(lookup, args, Ghost(e)), doc, omit, resolvers }
}

fn rename_type(lookup: &IndexMap<String, String>, ty: Type, Ghost(e): Ghost<Seq<(Seq<char>, Seq<char>)>>) -> (r: Type)
    requires
        keys_unique(e),
        name_entries(*lookup) == e,
    ensures
        type_renamed(e, ty, r),
{
    let Type { fields, added_fields, implements, tag, resolvers, doc } = ty;
    let ghost all = fields.entries@;
    let mut rest = fields.entries;
    let mut out: Vec<(String, Field)> = Vec::new();
    let n = rest.len();
    let mut i: usize = 0;
    while i < n
        invariant
            keys_unique(e),
            name_entries(*lookup) == e,
            n == all.len(),
            i <= n,
            rest@ == all.skip(i as int),
            out@.len() == i,
            forall|j: int| 0 <= j < i ==> (#[trigger] out@[j]).0 == all[j].0 && field_renamed(e, all[j].1, out@[j].1),
        decreases n - i,
    {
        let (name, field) = rest.remove(0);
        assert((name, field) == all[i as int]);
        let f = rename_field(lookup, field, Ghost(e));
        out.push((name, f));
        assert(rest@ =~= all.skip(i + 1));
        i = i + 1;
    }
    let new_fields = StrMap { entries: out };
    assert(new_fields.keys() =~= Seq::new(all.len(), |j: int| all[j].0@));
    let new_implements = rename_set(lookup, &implements, Ghost(e));
    Type { fields: new_fields, added_fields, implements: new_implements, tag, resolvers, doc }
}

/// Two maps with the same keys in the same order: one is well formed when
/// the other is, and a key finds the same position in both.
pub proof fn lemma_same_keys<V, W>(a: StrMap<V>, b: StrMap<W>)
    requires
        a.wf(),
        a.keys() == b.keys(),
    ensures
        b.wf(),
        forall|k: Seq<char>| #[trigger] b.as_map().contains_key(k) == a.as_map().contains_key(k),
        forall|i: int| 0 <= i < a.entries@.len() ==> #[trigger] a.as_map()[a.entries@[i].0@] == a.entries@[i].1
            && b.as_map()[a.entries@[i].0@] == b.entries@[i].1,
{
    assert(a.entries@.len() == a.keys().len());
    assert(b.entries@.len() == b.keys().len());
    assert forall|i: int, j: int| 0 <= i < j < b.entries@.len() implies crate::strings::seq_lt(
        #[trigger] b.entries@[i].0@,
        #[trigger] b.entries@[j].0@,
    ) by {
        assert(b.keys()[i] == a.keys()[i]);
        assert(b.keys()[j] == a.keys()[j]);
        assert(crate::strings::seq_lt(a.entries@[i].0@, a.entries@[j].0@));
    }
    assert forall|k: Seq<char>| #[trigger] b.as_map().contains_key(k) == a.as_map().contains_key(k) by {
        if b.has(k) {
            let i = choose|i: int| 0 <= i < b.entries@.len() && #[trigger] b.entries@[i].0@ == k;
            assert(b.keys()[i] == a.keys()[i]);
            assert(a.entries@[i].0@ == k);
        }
        if a.has(k) {
            let i = choose|i: int| 0 <= i < a.entries@.len() && #[trigger] a.entries@[i].0@ == k;
            assert(b.keys()[i] == a.keys()[i]);
            assert(b.entries@[i].0@ == k);
        }
    }
    assert forall|i: int| 0 <= i < a.entries@.len() implies #[trigger] a.as_map()[a.entries@[i].0@] == a.entries@[i].1
        && b.as_map()[a.entries@[i].0@] == b.entries@[i].1 by {
        a.lemma_at(i);
        assert(b.keys()[i] == a.keys()[i]);
        b.lemma_at(i);
    }
}

fn rename_all_types(lookup: &IndexMap<String, String>, types: StrMap<Type>, Ghost(e): Ghost<Seq<(Seq<char>, Seq<char>)>>) -> (r: StrMap<Type>)
    requires
        keys_unique(e),
        name_entries(*lookup) == e,
        types.wf(),
        forall|i: int| 0 <= i < types.entries@.len() ==> (#[trigger] types.entries@[i]).1.wf(),
    ensures
        r.keys() == types.keys(),
        r.entries@.len() == types.entries@.len(),
        forall|i: int| 0 <= i < types.entries@.len() ==> type_renamed(e, #[trigger] types.entries@[i].1, r.entries@[i].1)
            && r.entries@[i].1.wf(),
{
    let ghost all = types.entries@;
    let mut rest = types.entries;
    let mut out: Vec<(String, Type)> = Vec::new();
    let n = rest.len();
    let mut i: usize = 0;
    while i < n
        invariant
            keys_unique(e),
            name_entries(*lookup) == e,
            n == all.len(),
            forall|j: int| 0 <= j < all.len() ==> (#[trigger] all[j]).1.wf(),
            i <= n,
            rest@ == all.skip(i as int),
            out@.len() == i,
            forall|j: int| 0 <= j < i ==> (#[trigger] out@[j]).0 == all[j].0 && type_renamed(e, all[j].1, out@[j].1)
                && out@[j].1.wf(),
        decreases n - i,
    {
        let (name, ty) = rest.remove(0);
        assert((name, ty) == all[i as int]);
        let t = rename_type(lookup, ty, Ghost(e));
        proof {
            lemma_same_keys(ty.fields, t.fields);
            assert forall|j: int| 0 <= j < t.fields.entries@.len() implies (#[trigger] t.fields.entries@[j]).1.args.wf() by {
                assert(field_renamed(e, ty.fields.entries@[j].1, t.fields.entries@[j].1));
                lemma_same_keys(ty.fields.entries@[j].1.args, t.fields.entries@[j].1.args);
            }
        }
        out.push((name, t));
        assert(rest@ =~= all.skip(i + 1));
        i = i + 1;
    }
    let r = StrMap { entries: out };
    assert(r.keys() =~= types.keys());
    r
}

fn rename_all_unions(lookup: &IndexMap<String, String>, unions: StrMap<Union>, Ghost(e): Ghost<Seq<(Seq<char>, Seq<char>)>>) -> (r: StrMap<Union>)
    requires
        keys_unique(e),
        name_entries(*lookup) == e,
    ensures
        r.keys() == unions.keys(),
        r.entries@.len() == unions.entries@.len(),
        forall|i: int| 0 <= i < unions.entries@.len() ==> union_renamed(e, #[trigger] unions.entries@[i].1, r.entries@[i].1),
{
    let ghost all = unions.entries@;
    let mut rest = unions.entries;
    let mut out: Vec<(String, Union)> = Vec::new();
    let n = rest.len();
    let mut i: usize = 0;
    while i < n
        invariant
            keys_unique(e),
            name_entries(*lookup) == e,
            n == all.len(),
            i <= n,
            rest@ == all.skip(i as int),
            out@.len() == i,
            forall|j: int| 0 <= j < i ==> (#[trigger] out@[j]).0 == all[j].0 && union_renamed(e, all[j].1, out@[j].1),
        decreases n - i,
    {
        let (name, u) = rest.remove(0);
        assert((name, u) == all[i as int]);
        let types = rename_set(lookup, &u.types, Ghost(e));
        out.push((name, Union { types, doc: u.doc }));
        assert(rest@ =~= all.skip(i + 1));
        i = i + 1;
    }
    let r = StrMap { entries: out };
    assert(r.keys() =~= unions.keys());
    r
}

impl RenameTypes {
    /// Moves each type, enum and union to its suggested name, in order, and
    /// renames every reference to them: field and argument types,
    /// interfaces and union members. Fails, reporting each one, when a name
    /// is not a type, enum or union when its turn comes.
    pub fn transform(&self, config: Config) -> (r: Result<Config, Vec<Cause>>)
        requires
            self.wf(),
            config.wf(),
        ensures
            r is Ok <==> all_present(config, self.renames()),
            r matches Ok(c) ==> {
                let e = self.renames();
                let mt = moved(config.types.as_map(), e);
                let mu = moved(config.unions.as_map(), e);
                &&& c.wf()
                &&& forall|k: Seq<char>| #[trigger] c.types.as_map().contains_key(k) == mt.contains_key(k)
                &&& forall|k: Seq<char>| #[trigger] mt.contains_key(k) ==> type_renamed(e, mt[k], c.types.as_map()[k])
                &&& c.enums.as_map() == moved(config.enums.as_map(), e)
                &&& forall|k: Seq<char>| #[trigger] c.unions.as_map().contains_key(k) == mu.contains_key(k)
                &&& forall|k: Seq<char>| #[trigger] mu.contains_key(k) ==> union_renamed(e, mu[k], c.unions.as_map()[k])
                &&& (opt_view(c.schema.query), opt_view(c.schema.mutation)) == roots_after(
                    config.types.as_map(),
                    (opt_view(config.schema.query), opt_view(config.schema.mutation)),
                    e,
                )
                &&& (roots_named(config.types.as_map(), (opt_view(config.schema.query), opt_view(config.schema.mutation)))
                    && fresh_renames(config.types.as_map(), e) ==> roots_named(
                    c.types.as_map(),
                    (opt_view(c.schema.query), opt_view(c.schema.mutation)),
                ))
                &&& c.schema.subscription == config.schema.subscription
                &&& c.upstream == config.upstream
                &&& c.enable_federation == config.enable_federation
            },
            r matches Err(errs) ==> errs@.len() > 0 && forall|x: int| 0 <= x < errs@.len() ==> exists|j: int|
                0 <= j < self.renames().len() && !present_at(config, self.renames(), j) && (#[trigger] errs@[x]).error@
                    == not_found_message(self.renames()[j].0),
            r matches Err(errs) ==> cause_messages(errs@) == missing_messages(config, self.renames(), self.renames().len() as int),
            r matches Err(errs) ==> forall|x: int| 0 <= x < errs@.len() ==> (#[trigger] errs@[x]).trace@.len() == 0,
    {
        let ghost e = self.renames();
        let (moved_config, lookup, errs) = self.move_all(config);
        if errs.len() > 0 {
            return Err(errs);
        }
        let Config { schema, upstream, enable_federation, types, unions, enums } = moved_config;
        let ghost old_types = types;
        let ghost old_unions = unions;
        let new_types = rename_all_types(&lookup, types, Ghost(e));
        let new_unions = rename_all_unions(&lookup, unions, Ghost(e));
        proof {
            lemma_same_keys(old_types, new_types);
            lemma_same_keys(old_unions, new_unions);
            assert forall|k: Seq<char>| #[trigger] old_types.as_map().contains_key(k) implies type_renamed(
                e,
                old_types.as_map()[k],
                new_types.as_map()[k],
            ) by {
                let i = old_types.pos(k);
                assert(type_renamed(e, old_types.entries@[i].1, new_types.entries@[i].1));
                assert(old_types.as_map()[old_types.entries@[i].0@] == old_types.entries@[i].1);
            }
            assert forall|k: Seq<char>| #[trigger] old_unions.as_map().contains_key(k) implies union_renamed(
                e,
                old_unions.as_map()[k],
                new_unions.as_map()[k],
            ) by {
                let i = old_unions.pos(k);
                assert(union_renamed(e, old_unions.entries@[i].1, new_unions.entries@[i].1));
                assert(old_unions.as_map()[old_unions.entries@[i].0@] == old_unions.entries@[i].1);
            }
            assert forall|i: int| 0 <= i < new_unions.entries@.len() implies (#[trigger] new_unions.entries@[i]).1.types.wf() by {
                assert(union_renamed(e, old_unions.entries@[i].1, new_unions.entries@[i].1));
            }
        }
        let c = Config { schema, upstream, enable_federation, types: new_types, unions: new_unions, enums };
        proof {
            assert(new_types.wf());
            assert(new_unions.wf());
            assert(c.enums.wf());
            assert forall|i: int| 0 <= i < new_types.entries@.len() implies (#[trigger] new_types.entries@[i]).1.wf() by {
                assert(type_renamed(e, old_types.entries@[i].1, new_types.entries@[i].1) && new_types.entries@[i].1.wf());
            }
            assert(c.wf());
            let mt = moved(config.types.as_map(), e);
            assert(old_types.as_map() == mt);
            assert(forall|k: Seq<char>| #[trigger] c.types.as_map().contains_key(k) == mt.contains_key(k));
            assert(forall|k: Seq<char>| #[trigger] mt.contains_key(k) ==> type_renamed(e, mt[k], c.types.as_map()[k]));
            let mu = moved(config.unions.as_map(), e);
            assert(old_unions.as_map() == mu);
            assert(forall|k: Seq<char>| #[trigger] c.unions.as_map().contains_key(k) == mu.contains_key(k));
            let r0 = (opt_view(config.schema.query), opt_view(config.schema.mutation));
            if roots_named(config.types.as_map(), r0) && fresh_renames(config.types.as_map(), e) {
                law_roots_follow_renames(config.types.as_map(), r0, e);
                let r1 = (opt_view(c.schema.query), opt_view(c.schema.mutation));
                assert(r1 == roots_after(config.types.as_map(), r0, e));
                if let Some(q) = r1.0 {
                    assert(mt.contains_key(q));
                }
                if let Some(m) = r1.1 {
                    assert(mt.contains_key(m));
                }
            }
        }
        Ok(c)
    }
}

} // verus!
