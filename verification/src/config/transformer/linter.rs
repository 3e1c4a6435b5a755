//! Brings names to their conventional case: types in `PascalCase`, fields
//! in `camelCase`, enums in `PascalCase` and their values in capitals.
//! Names that collide after the change are reported.

use vstd::prelude::*;
use crate::config::{Arg, Config, Enum, Field, Type};
use crate::strset::StrSet;
use crate::strmap::StrMap;
use crate::valid::Cause;
use crate::strings::concat_str;
use crate::config::transformer::rename_types::cause_messages;

verus! {

/// What `Inflector::to_pascal_case` returns for a string.
pub uninterp spec fn pascal_case(s: Seq<char>) -> Seq<char>;

/// What `Inflector::to_camel_case` returns for a string.
pub uninterp spec fn camel_case(s: Seq<char>) -> Seq<char>;

/// The `PascalCase` form of a name.
///
/// Calls `Inflector::to_pascal_case`; the case rules are named, not stated.
#[verifier::external_body]
pub(crate) fn to_pascal_case(s: &str) -> (r: String)
    ensures
        r@ == pascal_case(s@),
{
    inflector::Inflector::to_pascal_case(s)
}

/// The `camelCase` form of a name.
///
/// Calls `Inflector::to_camel_case`; the case rules are named, not stated.
#[verifier::external_body]
fn to_camel_case(s: &str) -> (r: String)
    ensures
        r@ == camel_case(s@),
{
    inflector::Inflector::to_camel_case(s)
}

/// An argument with its type's name in `PascalCase`.
pub open spec fn arg_linted(a: Arg, b: Arg) -> bool {
    &&& b.type_of@ == pascal_case(a.type_of@)
    &&& b.list == a.list
    &&& b.required == a.required
    &&& b.doc == a.doc
}

/// A field with its type's name and its arguments' types in `PascalCase`.
pub open spec fn field_linted(a: Field, b: Field) -> bool {
    &&& b.type_of@ == pascal_case(a.type_of@)
    &&& b.args.wf()
    &&& b.args.keys() == a.args.keys()
    &&& forall|i: int| 0 <= i < a.args.entries@.len() ==> arg_linted(
        #[trigger] a.args.entries@[i].1,
        b.args.entries@[i].1,
    )
    &&& b.list == a.list
    &&& b.required == a.required
    &&& b.list_type_required == a.list_type_required
    &&& b.doc == a.doc
    &&& b.omit == a.omit
    &&& b.resolvers == a.resolvers
}

/// No two fields have the same `camelCase` name.
pub open spec fn fields_distinct(e: Seq<(String, Field)>) -> bool {
    forall|a: int, b: int| 0 <= a < b < e.len() ==> camel_case(#[trigger] e[a].0@) != camel_case(#[trigger] e[b].0@)
}

/// `m` holds the fields `e` names, each under its `camelCase` name.
pub open spec fn fields_linted(e: Seq<(String, Field)>, m: StrMap<Field>) -> bool {
    &&& m.wf()
    &&& forall|k: Seq<char>| #[trigger] m.as_map().contains_key(k) ==> exists|j: int| 0 <= j < e.len() && camel_case(e[j].0@) == k
    &&& forall|j: int| 0 <= j < e.len() ==> #[trigger] m.as_map().contains_key(camel_case(e[j].0@))
        && field_linted(e[j].1, m.as_map()[camel_case(e[j].0@)])
}

/// No two types have the same `PascalCase` name, and within each type no
/// two fields have the same `camelCase` name.
pub open spec fn types_distinct(e: Seq<(String, Type)>) -> bool {
    &&& forall|a: int, b: int| 0 <= a < b < e.len() ==> pascal_case(#[trigger] e[a].0@) != pascal_case(#[trigger] e[b].0@)
    &&& forall|a: int| 0 <= a < e.len() ==> fields_distinct((#[trigger] e[a]).1.fields.entries@)
}

/// A type whose fields are renamed as `fields_linted` says.
pub open spec fn type_linted(a: Type, b: Type) -> bool {
    &&& fields_linted(a.fields.entries@, b.fields)
    &&& b.added_fields == a.added_fields
    &&& b.implements == a.implements
    &&& b.tag == a.tag
    &&& b.resolvers == a.resolvers
    &&& b.doc == a.doc
}

/// `m` holds the types `e` names, each under its `PascalCase` name.
pub open spec fn types_linted(e: Seq<(String, Type)>, m: StrMap<Type>) -> bool {
    &&& m.wf()
    &&& forall|k: Seq<char>| #[trigger] m.as_map().contains_key(k) ==> exists|j: int| 0 <= j < e.len() && pascal_case(e[j].0@) == k
    &&& forall|j: int| 0 <= j < e.len() ==> #[trigger] m.as_map().contains_key(pascal_case(e[j].0@))
        && type_linted(e[j].1, m.as_map()[pascal_case(e[j].0@)])
}

/// Whether a message reports a duplicate key.
pub open spec fn reports_duplicate(m: Seq<char>) -> bool {
    m.len() >= "Duplicate key: "@.len() && m.take("Duplicate key: "@.len() as int) == "Duplicate key: "@
}

/// Whether every cause reports a duplicate key.
pub open spec fn all_duplicates(errs: Seq<Cause>) -> bool {
    forall|i: int| 0 <= i < errs.len() ==> reports_duplicate((#[trigger] errs[i]).error@)
}

proof fn lemma_reports_duplicate(k: Seq<char>)
    ensures
        reports_duplicate("Duplicate key: "@ + k),
{
    assert(("Duplicate key: "@ + k).take("Duplicate key: "@.len() as int) =~= "Duplicate key: "@);
}

/// The message for a key that is taken.
pub open spec fn dup_key(k: Seq<char>) -> Seq<char> {
    "Duplicate key: "@ + k
}

/// The message for an enum value that is taken.
pub open spec fn dup_value(u: Seq<char>) -> Seq<char> {
    "Duplicate value: "@ + ("Variant { name: "@ + debug_text(u) + ", alias: None }"@)
}

/// The reports for the fields before position `k` whose `camelCase` name
/// an earlier field already has, in order.
#[verifier::opaque]
pub open spec fn field_dups(e: Seq<(String, Field)>, k: int) -> Seq<Seq<char>>
    decreases k,
{
    if k <= 0 {
        Seq::empty()
    } else if exists|j: int| 0 <= j < k - 1 && camel_case(#[trigger] e[j].0@) == camel_case(e[k - 1].0@) {
        field_dups(e, k - 1).push(dup_key(camel_case(e[k - 1].0@)))
    } else {
        field_dups(e, k - 1)
    }
}

/// The reports for the types before position `k`, in order: a type whose
/// fields collide reports those; otherwise a type whose `PascalCase` name an
/// earlier type with distinct fields already has is reported.
#[verifier::opaque]
pub open spec fn type_dups(e: Seq<(String, Type)>, k: int) -> Seq<Seq<char>>
    decreases k,
{
    if k <= 0 {
        Seq::empty()
    } else {
        let t = e[k - 1].1.fields.entries@;
        if !fields_distinct(t) {
            type_dups(e, k - 1) + field_dups(t, t.len() as int)
        } else if exists|j: int| 0 <= j < k - 1 && fields_distinct((#[trigger] e[j]).1.fields.entries@)
            && pascal_case(e[j].0@) == pascal_case(e[k - 1].0@) {
            type_dups(e, k - 1).push(dup_key(pascal_case(e[k - 1].0@)))
        } else {
            type_dups(e, k - 1)
        }
    }
}

/// The reports for the values before position `k` that an earlier value
/// already has in capitals, in order.
#[verifier::opaque]
pub open spec fn value_dups(v: Seq<String>, k: int) -> Seq<Seq<char>>
    decreases k,
{
    if k <= 0 {
        Seq::empty()
    } else if exists|j: int| 0 <= j < k - 1 && uppercase(#[trigger] v[j]@) == uppercase(v[k - 1]@) {
        value_dups(v, k - 1).push(dup_value(uppercase(v[k - 1]@)))
    } else {
        value_dups(v, k - 1)
    }
}

/// The reports for the enums before position `k`, in order: an enum whose
/// values collide reports those; otherwise an enum whose `PascalCase` name
/// an earlier enum with distinct values already has is reported.
#[verifier::opaque]
pub open spec fn enum_dups(e: Seq<(String, Enum)>, k: int) -> Seq<Seq<char>>
    decreases k,
{
    if k <= 0 {
        Seq::empty()
    } else {
        let v = e[k - 1].1.variants.items@;
        if !values_distinct(v) {
            enum_dups(e, k - 1) + value_dups(v, v.len() as int)
        } else if exists|j: int| 0 <= j < k - 1 && values_distinct((#[trigger] e[j]).1.variants.items@)
            && pascal_case(e[j].0@) == pascal_case(e[k - 1].0@) {
            enum_dups(e, k - 1).push(dup_key(pascal_case(e[k - 1].0@)))
        } else {
            enum_dups(e, k - 1)
        }
    }
}

/// No cause carries a trace.
pub open spec fn untraced(errs: Seq<Cause>) -> bool {
    forall|i: int| 0 <= i < errs.len() ==> (#[trigger] errs[i]).trace@.len() == 0
}

/// Stores `val` under `key`, or reports the key when it is taken.
fn populate_map<V>(key: String, val: V, map: &mut StrMap<V>) -> (r: Option<Cause>)
    requires
        old(map).wf(),
    ensures
        final(map).wf(),
        old(map).as_map().contains_key(key@) ==> *final(map) == *old(map) && (r matches Some(c)
            && c.error@ == "Duplicate key: "@ + key@ && reports_duplicate(c.error@) && c.trace@.len() == 0),
        !old(map).as_map().contains_key(key@) ==> final(map).as_map() == old(map).as_map().insert(key@, val)
            && r is None,
{
    if map.contains_key(key.as_str()) {
        proof {
            lemma_reports_duplicate(key@);
        }
        return Some(Cause::new(concat_str("Duplicate key: ", key.as_str())));
    }
    map.insert(key, val);
    None
}

fn lint_args(args: StrMap<Arg>) -> (r: StrMap<Arg>)
    requires
        args.wf(),
    ensures
        r.wf(),
        r.keys() == args.keys(),
        r.entries@.len() == args.entries@.len(),
        forall|i: int| 0 <= i < args.entries@.len() ==> arg_linted(#[trigger] args.entries@[i].1, r.entries@[i].1),
{
    let ghost all = args.entries@;
    let mut rest = args.entries;
    let mut out: Vec<(String, Arg)> = Vec::new();
    let n = rest.len();
    let mut i: usize = 0;
    while i < n
        invariant
            n == all.len(),
            i <= n,
            rest@ == all.skip(i as int),
            out@.len() == i,
            forall|j: int| 0 <= j < i ==> (#[trigger] out@[j]).0 == all[j].0 && arg_linted(all[j].1, out@[j].1),
        decreases n - i,
    {
        let (name, arg) = rest.remove(0);
        let new_arg = Arg { type_of: to_pascal_case(arg.type_of.as_str()), list: arg.list, required: arg.required, doc: arg.doc };
        out.push((name, new_arg));
        assert(rest@ =~= all.skip(i + 1));
        i = i + 1;
    }
    let r = StrMap { entries: out };
    assert(r.keys() =~= args.keys());
    r
}

fn lint_field(field: Field) -> (r: Field)
    requires
        field.args.wf(),
    ensures
        field_linted(field, r),
{
    let Field { type_of, list, required, list_type_required, args, doc, omit, resolvers } = field;
    Field {
        type_of: to_pascal_case(type_of.as_str()),
        list,
        required,
        list_type_required,
        args: lint_args(args),
        doc,
        omit,
        resolvers,
    }
}

spec fn fields_distinct_upto(e: Seq<(String, Field)>, n: int) -> bool {
    forall|a: int, b: int| 0 <= a < b < n ==> camel_case(#[trigger] e[a].0@) != camel_case(#[trigger] e[b].0@)
}

spec fn fields_linted_upto(e: Seq<(String, Field)>, n: int, m: StrMap<Field>) -> bool {
    &&& m.wf()
    &&& forall|k: Seq<char>| #[trigger] m.as_map().contains_key(k) ==> exists|j: int| 0 <= j < n && camel_case(e[j].0@) == k
    &&& forall|j: int| 0 <= j < n ==> #[trigger] m.as_map().contains_key(camel_case(e[j].0@))
        && field_linted(e[j].1, m.as_map()[camel_case(e[j].0@)])
}

/// Renames the fields of a type; the causes report the names that collide.
fn lint_fields(fields: StrMap<Field>) -> (r: (StrMap<Field>, Vec<Cause>))
    requires
        fields.wf(),
        forall|i: int| 0 <= i < fields.entries@.len() ==> (#[trigger] fields.entries@[i]).1.args.wf(),
    ensures
        r.0.wf(),
        all_duplicates(r.1@),
        r.1@.len() == 0 <==> fields_distinct(fields.entries@),
        r.1@.len() == 0 ==> fields_linted(fields.entries@, r.0),
        cause_messages(r.1@) == field_dups(fields.entries@, fields.entries@.len() as int),
        untraced(r.1@),
{
    let ghost all = fields.entries@;
    let mut rest = fields.entries;
    let mut resolved: StrMap<Field> = StrMap::new();
    let mut errs: Vec<Cause> = Vec::new();
    let n = rest.len();
    let mut i: usize = 0;
    proof {
        reveal(field_dups);
        assert(cause_messages(errs@) =~= field_dups(all, 0));
    }
    while i < n
        invariant
            n == all.len(),
            i <= n,
            rest@ == all.skip(i as int),
            forall|j: int| 0 <= j < all.len() ==> (#[trigger] all[j]).1.args.wf(),
            resolved.wf(),
            all_duplicates(errs@),
            errs@.len() == 0 ==> fields_distinct_upto(all, i as int) && fields_linted_upto(all, i as int, resolved),
            errs@.len() > 0 ==> !fields_distinct_upto(all, i as int),
            cause_messages(errs@) == field_dups(all, i as int),
            untraced(errs@),
            forall|k: Seq<char>| #[trigger] resolved.as_map().contains_key(k) ==> exists|j: int| 0 <= j < i && camel_case(all[j].0@) == k,
            forall|j: int| 0 <= j < i ==> #[trigger] resolved.as_map().contains_key(camel_case(all[j].0@)),
        decreases n - i,
    {
        let (name, field) = rest.remove(0);
        assert((name, field) == all[i as int]);
        let key = to_camel_case(name.as_str());
        let lf = lint_field(field);
        let ghost before = resolved;
        let ghost e0 = errs@;
        match populate_map(key, lf, &mut resolved) {
            Some(c) => {
                errs.push(c);
                proof {
                    let j = choose|j: int| 0 <= j < i && camel_case(all[j].0@) == camel_case(name@);
                    assert(camel_case(#[trigger] all[j].0@) == camel_case(all[i as int].0@));
                    reveal(field_dups);
                    assert(field_dups(all, i + 1) == field_dups(all, i as int).push(dup_key(camel_case(all[i as int].0@))));
                    assert(cause_messages(errs@) =~= cause_messages(e0).push(c.error@));
                    assert forall|x: int| 0 <= x < errs@.len() implies (#[trigger] errs@[x]).trace@.len() == 0 by {
                        if x < e0.len() {
                            assert(errs@[x] == e0[x]);
                        }
                    }
                    assert forall|j2: int| 0 <= j2 < i + 1 implies #[trigger] resolved.as_map().contains_key(camel_case(all[j2].0@)) by {}
                    if e0.len() == 0 {
                        let j = choose|j: int| 0 <= j < i && camel_case(all[j].0@) == camel_case(name@);
                        assert(camel_case(all[j].0@) == camel_case(all[i as int].0@));
                    } else {
                        let (a, b) = choose|a: int, b: int| 0 <= a < b < i && camel_case(#[trigger] all[a].0@) == camel_case(#[trigger] all[b].0@);
                    }
                    lemma_reports_duplicate(camel_case(name@));
                    assert forall|x: int| 0 <= x < errs@.len() implies reports_duplicate((#[trigger] errs@[x]).error@) by {
                        if x < e0.len() {
                            assert(errs@[x] == e0[x]);
                        }
                    }
                }
            },
            None => {
                proof {
                    assert(!(exists|j: int| 0 <= j < i && camel_case(#[trigger] all[j].0@) == camel_case(all[i as int].0@))) by {
                        if exists|j: int| 0 <= j < i && camel_case(#[trigger] all[j].0@) == camel_case(all[i as int].0@) {
                            let j = choose|j: int| 0 <= j < i && camel_case(#[trigger] all[j].0@) == camel_case(all[i as int].0@);
                            assert(before.as_map().contains_key(camel_case(all[j].0@)));
                        }
                    }
                    reveal(field_dups);
                    assert(field_dups(all, i + 1) == field_dups(all, i as int));
                    assert forall|k: Seq<char>| #[trigger] resolved.as_map().contains_key(k) implies exists|j: int| 0 <= j < i + 1 && camel_case(all[j].0@) == k by {
                        if k != camel_case(name@) {
                            assert(before.as_map().contains_key(k));
                        }
                    }
                    assert forall|j2: int| 0 <= j2 < i + 1 implies #[trigger] resolved.as_map().contains_key(camel_case(all[j2].0@)) by {
                        if j2 < i {
                            assert(before.as_map().contains_key(camel_case(all[j2].0@)));
                        }
                    }
                    if e0.len() == 0 {
                        assert forall|a: int, b: int| 0 <= a < b < i + 1 implies camel_case(#[trigger] all[a].0@) != camel_case(#[trigger] all[b].0@) by {
                            if b == i {
                                assert(before.as_map().contains_key(camel_case(all[a].0@)));
                            }
                        }
                        assert forall|k: Seq<char>| #[trigger] resolved.as_map().contains_key(k) implies exists|j: int| 0 <= j < i + 1 && camel_case(all[j].0@) == k by {
                            if k != camel_case(name@) {
                                assert(before.as_map().contains_key(k));
                            }
                        }
                        assert forall|j: int| 0 <= j < i + 1 implies #[trigger] resolved.as_map().contains_key(camel_case(all[j].0@))
                            && field_linted(all[j].1, resolved.as_map()[camel_case(all[j].0@)]) by {
                            if j < i {
                                assert(before.as_map().contains_key(camel_case(all[j].0@)));
                            }
                        }
                    } else {
                        let (a, b) = choose|a: int, b: int| 0 <= a < b < i && camel_case(#[trigger] all[a].0@) == camel_case(#[trigger] all[b].0@);
                    }
                }
            },
        }
        assert(rest@ =~= all.skip(i + 1));
        i = i + 1;
    }
    (resolved, errs)
}

spec fn types_distinct_upto(e: Seq<(String, Type)>, n: int) -> bool {
    &&& forall|a: int, b: int| 0 <= a < b < n ==> pascal_case(#[trigger] e[a].0@) != pascal_case(#[trigger] e[b].0@)
    &&& forall|a: int| 0 <= a < n ==> fields_distinct((#[trigger] e[a]).1.fields.entries@)
}

spec fn types_linted_upto(e: Seq<(String, Type)>, n: int, m: StrMap<Type>) -> bool {
    &&& m.wf()
    &&& forall|k: Seq<char>| #[trigger] m.as_map().contains_key(k) ==> exists|j: int| 0 <= j < n && pascal_case(e[j].0@) == k
    &&& forall|j: int| 0 <= j < n ==> #[trigger] m.as_map().contains_key(pascal_case(e[j].0@))
        && type_linted(e[j].1, m.as_map()[pascal_case(e[j].0@)])
}

/// The `PascalCase` names of the types before position `k` whose fields do
/// not collide.
pub open spec fn kept_type_names(e: Seq<(String, Type)>, k: int) -> Set<Seq<char>> {
    Set::new(|n: Seq<char>| exists|j: int| 0 <= j < k && fields_distinct((#[trigger] e[j]).1.fields.entries@) && pascal_case(e[j].0@) == n)
}

proof fn lemma_kept_type_names_step(e: Seq<(String, Type)>, k: int)
    requires
        0 <= k < e.len(),
    ensures
        kept_type_names(e, k + 1) == if fields_distinct(e[k].1.fields.entries@) {
            kept_type_names(e, k).insert(pascal_case(e[k].0@))
        } else {
            kept_type_names(e, k)
        },
{
    let a = kept_type_names(e, k + 1);
    let b = if fields_distinct(e[k].1.fields.entries@) {
        kept_type_names(e, k).insert(pascal_case(e[k].0@))
    } else {
        kept_type_names(e, k)
    };
    assert forall|n: Seq<char>| a.contains(n) == b.contains(n) by {
        if a.contains(n) {
            let j = choose|j: int| 0 <= j < k + 1 && fields_distinct((#[trigger] e[j]).1.fields.entries@) && pascal_case(e[j].0@) == n;
            if j < k {
                assert(kept_type_names(e, k).contains(n));
            }
        }
        if kept_type_names(e, k).contains(n) {
            let j = choose|j: int| 0 <= j < k && fields_distinct((#[trigger] e[j]).1.fields.entries@) && pascal_case(e[j].0@) == n;
            assert(a.contains(n));
        }
        if fields_distinct(e[k].1.fields.entries@) && n == pascal_case(e[k].0@) {
            assert(fields_distinct(e[k].1.fields.entries@) && pascal_case(e[k].0@) == n);
            assert(a.contains(n));
        }
    }
    assert(a =~= b);
}

/// Renames every type to `PascalCase` and every field to `camelCase`, with
/// the types that fields and arguments name. Fails, reporting each
/// duplicate, when two names collide after renaming.
pub fn resolve_types_and_fields(config: Config) -> (r: Result<Config, Vec<Cause>>)
    requires
        config.wf(),
    ensures
        r is Ok <==> types_distinct(config.types.entries@),
        r matches Ok(c) ==> {
            &&& types_linted(config.types.entries@, c.types)
            &&& c.schema == config.schema
            &&& c.upstream == config.upstream
            &&& c.enable_federation == config.enable_federation
            &&& c.unions == config.unions
            &&& c.enums == config.enums
        },
        r matches Err(e) ==> e@.len() > 0 && all_duplicates(e@),
        r matches Err(e) ==> cause_messages(e@) == type_dups(config.types.entries@, config.types.entries@.len() as int)
            && untraced(e@),
{
    let Config { schema, upstream, enable_federation, types, unions, enums } = config;
    let ghost all = types.entries@;
    let mut rest = types.entries;
    let mut resolved: StrMap<Type> = StrMap::new();
    let mut errs: Vec<Cause> = Vec::new();
    let n = rest.len();
    let mut i: usize = 0;
    proof {
        reveal(type_dups);
        assert(cause_messages(errs@) =~= type_dups(all, 0));
    }
    while i < n
        invariant
            n == all.len(),
            i <= n,
            rest@ == all.skip(i as int),
            forall|j: int| 0 <= j < all.len() ==> (#[trigger] all[j]).1.wf(),
            resolved.wf(),
            all_duplicates(errs@),
            errs@.len() == 0 ==> types_distinct_upto(all, i as int) && types_linted_upto(all, i as int, resolved),
            errs@.len() > 0 ==> !types_distinct_upto(all, i as int),
            cause_messages(errs@) == type_dups(all, i as int),
            untraced(errs@),
            resolved.as_map().dom() == kept_type_names(all, i as int),
        decreases n - i,
    {
        let (name, ty) = rest.remove(0);
        assert((name, ty) == all[i as int]);
        let Type { fields, added_fields, implements, tag, resolvers, doc } = ty;
        let ghost tfields = fields.entries@;
        let (rfields, ferrs) = lint_fields(fields);
        let ghost before = resolved;
        let ghost e0 = errs@;
        if ferrs.len() > 0 {
            let ghost fe = ferrs@;
            let mut ferrs = ferrs;
            errs.append(&mut ferrs);
            proof {
                reveal(type_dups);
                assert(type_dups(all, i + 1) == type_dups(all, i as int) + field_dups(tfields, tfields.len() as int));
                assert(cause_messages(errs@) =~= cause_messages(e0) + cause_messages(fe));
                assert forall|x: int| 0 <= x < errs@.len() implies (#[trigger] errs@[x]).trace@.len() == 0 by {
                    if x < e0.len() {
                        assert(errs@[x] == e0[x]);
                    } else {
                        assert(errs@[x] == fe[x - e0.len()]);
                    }
                }
                assert forall|x: int| 0 <= x < errs@.len() implies reports_duplicate((#[trigger] errs@[x]).error@) by {
                    if x < e0.len() {
                        assert(errs@[x] == e0[x]);
                    } else {
                        assert(errs@[x] == fe[x - e0.len()]);
                    }
                }
                assert(!fields_distinct(all[i as int].1.fields.entries@));
            }
        } else {
            let key = to_pascal_case(name.as_str());
            let new_ty = Type { fields: rfields, added_fields, implements, tag, resolvers, doc };
            match populate_map(key, new_ty, &mut resolved) {
                Some(c) => {
                    errs.push(c);
                    proof {
                        assert(kept_type_names(all, i as int).contains(pascal_case(name@)));
                        let j = choose|j: int| 0 <= j < i && fields_distinct((#[trigger] all[j]).1.fields.entries@) && pascal_case(all[j].0@)
                            == pascal_case(name@);
                        lemma_kept_type_names_step(all, i as int);
                        assert(fields_distinct((#[trigger] all[j]).1.fields.entries@) && pascal_case(all[j].0@) == pascal_case(all[i as int].0@));
                        reveal(type_dups);
                        assert(type_dups(all, i + 1) == type_dups(all, i as int).push(dup_key(pascal_case(all[i as int].0@))));
                        assert(cause_messages(errs@) =~= cause_messages(e0).push(c.error@));
                        assert forall|x: int| 0 <= x < errs@.len() implies (#[trigger] errs@[x]).trace@.len() == 0 by {
                            if x < e0.len() {
                                assert(errs@[x] == e0[x]);
                            }
                        }
                        if e0.len() == 0 {
                            let j = choose|j: int| 0 <= j < i && pascal_case(all[j].0@) == pascal_case(name@);
                            assert(pascal_case(all[j].0@) == pascal_case(all[i as int].0@));
                        } else {
                            if forall|a: int| 0 <= a < i ==> fields_distinct((#[trigger] all[a]).1.fields.entries@) {
                                let (a, b) = choose|a: int, b: int| 0 <= a < b < i && pascal_case(#[trigger] all[a].0@) == pascal_case(#[trigger] all[b].0@);
                            } else {
                                let a = choose|a: int| 0 <= a < i && !fields_distinct((#[trigger] all[a]).1.fields.entries@);
                            }
                        }
                        lemma_reports_duplicate(pascal_case(name@));
                        assert forall|x: int| 0 <= x < errs@.len() implies reports_duplicate((#[trigger] errs@[x]).error@) by {
                            if x < e0.len() {
                                assert(errs@[x] == e0[x]);
                            }
                        }
                    }
                },
                None => {
                    proof {
                        assert(!(exists|j: int| 0 <= j < i && fields_distinct((#[trigger] all[j]).1.fields.entries@)
                            && pascal_case(all[j].0@) == pascal_case(all[i as int].0@))) by {
                            if exists|j: int| 0 <= j < i && fields_distinct((#[trigger] all[j]).1.fields.entries@)
                                && pascal_case(all[j].0@) == pascal_case(all[i as int].0@) {
                                assert(kept_type_names(all, i as int).contains(pascal_case(all[i as int].0@)));
                            }
                        }
                        reveal(type_dups);
                        assert(type_dups(all, i + 1) == type_dups(all, i as int));
                        assert(resolved.as_map().dom() == kept_type_names(all, i + 1)) by {
                            lemma_kept_type_names_step(all, i as int);
                            assert(resolved.as_map().dom() =~= before.as_map().dom().insert(pascal_case(name@)));
                        }
                        if e0.len() == 0 {
                            assert forall|a: int, b: int| 0 <= a < b < i + 1 implies pascal_case(#[trigger] all[a].0@) != pascal_case(#[trigger] all[b].0@) by {
                                if b == i {
                                    assert(before.as_map().contains_key(pascal_case(all[a].0@)));
                                }
                            }
                            assert forall|k: Seq<char>| #[trigger] resolved.as_map().contains_key(k) implies exists|j: int| 0 <= j < i + 1 && pascal_case(all[j].0@) == k by {
                                if k != pascal_case(name@) {
                                    assert(before.as_map().contains_key(k));
                                }
                            }
                            assert forall|j: int| 0 <= j < i + 1 implies #[trigger] resolved.as_map().contains_key(pascal_case(all[j].0@))
                                && type_linted(all[j].1, resolved.as_map()[pascal_case(all[j].0@)]) by {
                                if j < i {
                                    assert(before.as_map().contains_key(pascal_case(all[j].0@)));
                                }
                            }
                        } else {
                            if forall|a: int| 0 <= a < i ==> fields_distinct((#[trigger] all[a]).1.fields.entries@) {
                                let (a, b) = choose|a: int, b: int| 0 <= a < b < i && pascal_case(#[trigger] all[a].0@) == pascal_case(#[trigger] all[b].0@);
                            } else {
                                let a = choose|a: int| 0 <= a < i && !fields_distinct((#[trigger] all[a]).1.fields.entries@);
                            }
                        }
                    }
                },
            }
        }
        assert(rest@ =~= all.skip(i + 1));
        i = i + 1;
    }
    if errs.len() > 0 {
        Err(errs)
    } else {
        Ok(Config { schema, upstream, enable_federation, types: resolved, unions, enums })
    }
}

/// What `str::to_uppercase` returns for a string: its uppercase
/// equivalent under Unicode's rules.
pub uninterp spec fn uppercase(s: Seq<char>) -> Seq<char>;

/// What formatting a string with `{:?}` gives: the string quoted, with its
/// special characters escaped.
pub uninterp spec fn debug_text(s: Seq<char>) -> Seq<char>;

/// The uppercase form of a string.
///
/// Calls `str::to_uppercase`; Unicode's case mapping is named, not stated.
#[verifier::external_body]
fn to_uppercase(s: &str) -> (r: String)
    ensures
        r@ == uppercase(s@),
{
    s.to_uppercase()
}

/// A string as `{:?}` writes it.
///
/// Calls the `Debug` formatting of `str`; its escaping rules are named, not
/// stated.
#[verifier::external_body]
fn debug_str(s: &str) -> (r: String)
    ensures
        r@ == debug_text(s@),
{
    format!("{:?}", s)
}

/// Whether a message reports a duplicate enum value.
pub open spec fn reports_duplicate_value(m: Seq<char>) -> bool {
    m.len() >= "Duplicate value: "@.len() && m.take("Duplicate value: "@.len() as int) == "Duplicate value: "@
}

/// Whether every cause reports a duplicate key or value.
pub open spec fn all_duplicate_names(errs: Seq<Cause>) -> bool {
    forall|i: int| 0 <= i < errs.len() ==> reports_duplicate((#[trigger] errs[i]).error@)
        || reports_duplicate_value(errs[i].error@)
}

/// No two values of the enum are the same once in capitals.
pub open spec fn values_distinct(v: Seq<String>) -> bool {
    forall|a: int, b: int| 0 <= a < b < v.len() ==> uppercase(#[trigger] v[a]@) != uppercase(#[trigger] v[b]@)
}

/// No two enums have the same `PascalCase` name, and no enum has two values
/// that are the same in capitals.
pub open spec fn enums_distinct(e: Seq<(String, Enum)>) -> bool {
    &&& forall|a: int, b: int| 0 <= a < b < e.len() ==> pascal_case(#[trigger] e[a].0@) != pascal_case(#[trigger] e[b].0@)
    &&& forall|a: int| 0 <= a < e.len() ==> values_distinct((#[trigger] e[a]).1.variants.items@)
}

/// The values of an enum in capitals.
pub open spec fn values_upper(v: Seq<String>) -> Set<Seq<char>> {
    Set::new(|u: Seq<char>| exists|j: int| 0 <= j < v.len() && uppercase(#[trigger] v[j]@) == u)
}

/// An enum with its values in capitals.
pub open spec fn enum_linted(a: Enum, b: Enum) -> bool {
    &&& b.variants.wf()
    &&& b.variants.as_set() == values_upper(a.variants.items@)
    &&& b.doc == a.doc
}

/// `m` holds the enums `e` names, each under its `PascalCase` name.
pub open spec fn enums_linted(e: Seq<(String, Enum)>, m: StrMap<Enum>) -> bool {
    &&& m.wf()
    &&& forall|k: Seq<char>| #[trigger] m.as_map().contains_key(k) ==> exists|j: int| 0 <= j < e.len() && pascal_case(e[j].0@) == k
    &&& forall|j: int| 0 <= j < e.len() ==> #[trigger] m.as_map().contains_key(pascal_case(e[j].0@))
        && enum_linted(e[j].1, m.as_map()[pascal_case(e[j].0@)])
}

proof fn lemma_reports_duplicate_value(k: Seq<char>)
    ensures
        reports_duplicate_value("Duplicate value: "@ + k),
{
    assert(("Duplicate value: "@ + k).take("Duplicate value: "@.len() as int) =~= "Duplicate value: "@);
}

/// The values of an enum in capitals; the causes report the values that
/// collide.
fn lint_values(values: &StrSet) -> (r: (StrSet, Vec<Cause>))
    ensures
        r.0.wf(),
        forall|i: int| 0 <= i < r.1@.len() ==> reports_duplicate_value((#[trigger] r.1@[i]).error@),
        r.1@.len() == 0 <==> values_distinct(values.items@),
        r.1@.len() == 0 ==> r.0.as_set() == values_upper(values.items@),
        cause_messages(r.1@) == value_dups(values.items@, values.items@.len() as int),
        untraced(r.1@),
{
    let ghost all = values.items@;
    let mut resolved = StrSet::new();
    let mut errs: Vec<Cause> = Vec::new();
    let n = values.items.len();
    let mut i: usize = 0;
    proof {
        reveal(value_dups);
        assert(cause_messages(errs@) =~= value_dups(all, 0));
    }
    while i < n
        invariant
            n == all.len(),
            all == values.items@,
            i <= n,
            resolved.wf(),
            forall|x: int| 0 <= x < errs@.len() ==> reports_duplicate_value((#[trigger] errs@[x]).error@),
            errs@.len() == 0 ==> values_distinct(all.take(i as int)) && resolved.as_set() == values_upper(all.take(i as int)),
            errs@.len() > 0 ==> !values_distinct(all.take(i as int)),
            resolved.as_set() == values_upper(all.take(i as int)),
            cause_messages(errs@) == value_dups(all, i as int),
            untraced(errs@),
        decreases n - i,
    {
        let up = to_uppercase(values.items[i].as_str());
        let ghost before = resolved.as_set();
        let ghost e0 = errs@;
        let ghost pre = all.take(i as int);
        let ghost post = all.take(i + 1);
        assert(post.drop_last() =~= pre);
        assert(post.last() == all[i as int]);
        if resolved.contains(up.as_str()) {
            let text = debug_str(up.as_str());
            let s = concat_str("Variant { name: ", text.as_str());
            let s = concat_str(s.as_str(), ", alias: None }");
            let s = concat_str("Duplicate value: ", s.as_str());
            proof {
                lemma_reports_duplicate_value(("Variant { name: "@ + debug_text(up@)) + ", alias: None }"@);
                assert(s@ =~= "Duplicate value: "@ + (("Variant { name: "@ + debug_text(up@)) + ", alias: None }"@));
                if e0.len() == 0 {
                    let j = choose|j: int| 0 <= j < pre.len() && uppercase(#[trigger] pre[j]@) == up@;
                    assert(uppercase(post[j]@) == uppercase(post[i as int]@));
                } else {
                    let (a, b) = choose|a: int, b: int| 0 <= a < b < pre.len() && uppercase(#[trigger] pre[a]@) == uppercase(#[trigger] pre[b]@);
                    assert(post[a] == pre[a] && post[b] == pre[b]);
                }
            }
            let cause = Cause::new(s);
            errs.push(cause);
            proof {
                let j = choose|j: int| 0 <= j < pre.len() && uppercase(#[trigger] pre[j]@) == up@;
                assert(pre[j] == all[j]);
                assert(uppercase(#[trigger] all[j]@) == uppercase(all[i as int]@));
                reveal(value_dups);
                assert(value_dups(all, i + 1) == value_dups(all, i as int).push(dup_value(uppercase(all[i as int]@))));
                assert(cause_messages(errs@) =~= cause_messages(e0).push(cause.error@));
                assert forall|x: int| 0 <= x < errs@.len() implies (#[trigger] errs@[x]).trace@.len() == 0 by {
                    if x < e0.len() {
                        assert(errs@[x] == e0[x]);
                    }
                }
                assert forall|u: Seq<char>| resolved.as_set().contains(u) == values_upper(post).contains(u) by {
                    if before.contains(u) {
                        let j = choose|j: int| 0 <= j < pre.len() && uppercase(#[trigger] pre[j]@) == u;
                        assert(post[j] == pre[j]);
                    }
                    if values_upper(post).contains(u) {
                        let j = choose|j: int| 0 <= j < post.len() && uppercase(#[trigger] post[j]@) == u;
                        if j < i {
                            assert(post[j] == pre[j]);
                        }
                    }
                }
                assert(resolved.as_set() =~= values_upper(post));
                assert forall|x: int| 0 <= x < errs@.len() implies reports_duplicate_value((#[trigger] errs@[x]).error@) by {
                    if x < e0.len() {
                        assert(errs@[x] == e0[x]);
                    }
                }
            }
        } else {
            resolved.insert(up);
            proof {
                assert(!(exists|j: int| 0 <= j < i && uppercase(#[trigger] all[j]@) == uppercase(all[i as int]@))) by {
                    if exists|j: int| 0 <= j < i && uppercase(#[trigger] all[j]@) == uppercase(all[i as int]@) {
                        let j = choose|j: int| 0 <= j < i && uppercase(#[trigger] all[j]@) == uppercase(all[i as int]@);
                        assert(pre[j] == all[j]);
                        assert(before.contains(uppercase(pre[j]@)));
                    }
                }
                reveal(value_dups);
                assert(value_dups(all, i + 1) == value_dups(all, i as int));
                assert forall|u: Seq<char>| resolved.as_set().contains(u) == values_upper(post).contains(u) by {
                    if before.contains(u) {
                        let j = choose|j: int| 0 <= j < pre.len() && uppercase(#[trigger] pre[j]@) == u;
                        assert(post[j] == pre[j]);
                    }
                    if values_upper(post).contains(u) {
                        let j = choose|j: int| 0 <= j < post.len() && uppercase(#[trigger] post[j]@) == u;
                        if j < i {
                            assert(post[j] == pre[j]);
                            assert(before.contains(u));
                        }
                    }
                    if u == uppercase(all[i as int]@) {
                        assert(uppercase(post[i as int]@) == u);
                    }
                }
                assert(resolved.as_set() =~= values_upper(post));
                if e0.len() == 0 {
                    assert forall|a: int, b: int| 0 <= a < b < post.len() implies uppercase(#[trigger] post[a]@) != uppercase(#[trigger] post[b]@) by {
                        if b == i {
                            assert(before.contains(uppercase(pre[a]@)));
                        } else {
                            assert(post[a] == pre[a] && post[b] == pre[b]);
                        }
                    }
                    assert forall|u: Seq<char>| resolved.as_set().contains(u) == values_upper(post).contains(u) by {
                        if before.contains(u) {
                            let j = choose|j: int| 0 <= j < pre.len() && uppercase(#[trigger] pre[j]@) == u;
                            assert(post[j] == pre[j]);
                        }
                        if values_upper(post).contains(u) {
                            let j = choose|j: int| 0 <= j < post.len() && uppercase(#[trigger] post[j]@) == u;
                            if j < i {
                                assert(post[j] == pre[j]);
                                assert(before.contains(u));
                            }
                        }
                        if u == uppercase(all[i as int]@) {
                            assert(uppercase(post[i as int]@) == u);
                        }
                    }
                    assert(resolved.as_set() =~= values_upper(post));
                } else {
                    let (a, b) = choose|a: int, b: int| 0 <= a < b < pre.len() && uppercase(#[trigger] pre[a]@) == uppercase(#[trigger] pre[b]@);
                    assert(post[a] == pre[a] && post[b] == pre[b]);
                }
            }
        }
        i = i + 1;
    }
    assert(all.take(n as int) =~= all);
    (resolved, errs)
}

spec fn enums_distinct_upto(e: Seq<(String, Enum)>, n: int) -> bool {
    &&& forall|a: int, b: int| 0 <= a < b < n ==> pascal_case(#[trigger] e[a].0@) != pascal_case(#[trigger] e[b].0@)
    &&& forall|a: int| 0 <= a < n ==> values_distinct((#[trigger] e[a]).1.variants.items@)
}

spec fn enums_linted_upto(e: Seq<(String, Enum)>, n: int, m: StrMap<Enum>) -> bool {
    &&& m.wf()
    &&& forall|k: Seq<char>| #[trigger] m.as_map().contains_key(k) ==> exists|j: int| 0 <= j < n && pascal_case(e[j].0@) == k
    &&& forall|j: int| 0 <= j < n ==> #[trigger] m.as_map().contains_key(pascal_case(e[j].0@))
        && enum_linted(e[j].1, m.as_map()[pascal_case(e[j].0@)])
}

/// The `PascalCase` names of the enums before position `k` whose values do
/// not collide.
pub open spec fn kept_enum_names(e: Seq<(String, Enum)>, k: int) -> Set<Seq<char>> {
    Set::new(|n: Seq<char>| exists|j: int| 0 <= j < k && values_distinct((#[trigger] e[j]).1.variants.items@) && pascal_case(e[j].0@) == n)
}

proof fn lemma_kept_enum_names_step(e: Seq<(String, Enum)>, k: int)
    requires
        0 <= k < e.len(),
    ensures
        kept_enum_names(e, k + 1) == if values_distinct(e[k].1.variants.items@) {
            kept_enum_names(e, k).insert(pascal_case(e[k].0@))
        } else {
            kept_enum_names(e, k)
        },
{
    let a = kept_enum_names(e, k + 1);
    let b = if values_distinct(e[k].1.variants.items@) {
        kept_enum_names(e, k).insert(pascal_case(e[k].0@))
    } else {
        kept_enum_names(e, k)
    };
    assert forall|n: Seq<char>| a.contains(n) == b.contains(n) by {
        if a.contains(n) {
            let j = choose|j: int| 0 <= j < k + 1 && values_distinct((#[trigger] e[j]).1.variants.items@) && pascal_case(e[j].0@) == n;
            if j < k {
                assert(kept_enum_names(e, k).contains(n));
            }
        }
        if kept_enum_names(e, k).contains(n) {
            let j = choose|j: int| 0 <= j < k && values_distinct((#[trigger] e[j]).1.variants.items@) && pascal_case(e[j].0@) == n;
            assert(a.contains(n));
        }
        if values_distinct(e[k].1.variants.items@) && n == pascal_case(e[k].0@) {
            assert(values_distinct(e[k].1.variants.items@) && pascal_case(e[k].0@) == n);
            assert(a.contains(n));
        }
    }
    assert(a =~= b);
}

/// Renames every enum to `PascalCase` and puts its values in capitals.
/// Fails, reporting each duplicate, when two enum names or two values of an
/// enum collide after renaming.
pub fn resolve_enum(config: Config) -> (r: Result<Config, Vec<Cause>>)
    requires
        config.enums.wf(),
    ensures
        r is Ok <==> enums_distinct(config.enums.entries@),
        r matches Ok(c) ==> {
            &&& enums_linted(config.enums.entries@, c.enums)
            &&& c.schema == config.schema
            &&& c.upstream == config.upstream
            &&& c.enable_federation == config.enable_federation
            &&& c.types == config.types
            &&& c.unions == config.unions
        },
        r matches Err(e) ==> e@.len() > 0 && all_duplicate_names(e@),
        r matches Err(e) ==> cause_messages(e@) == enum_dups(config.enums.entries@, config.enums.entries@.len() as int)
            && untraced(e@),
{
    let Config { schema, upstream, enable_federation, types, unions, enums } = config;
    let ghost all = enums.entries@;
    let mut rest = enums.entries;
    let mut resolved: StrMap<Enum> = StrMap::new();
    let mut errs: Vec<Cause> = Vec::new();
    let n = rest.len();
    let mut i: usize = 0;
    proof {
        reveal(enum_dups);
        assert(cause_messages(errs@) =~= enum_dups(all, 0));
        assert(resolved.as_map().dom() =~= kept_enum_names(all, 0));
    }
    while i < n
        invariant
            n == all.len(),
            i <= n,
            rest@ == all.skip(i as int),
            resolved.wf(),
            all_duplicate_names(errs@),
            errs@.len() == 0 ==> enums_distinct_upto(all, i as int) && enums_linted_upto(all, i as int, resolved),
            errs@.len() > 0 ==> !enums_distinct_upto(all, i as int),
            cause_messages(errs@) == enum_dups(all, i as int),
            untraced(errs@),
            resolved.as_map().dom() == kept_enum_names(all, i as int),
        decreases n - i,
    {
        let (name, en) = rest.remove(0);
        assert((name, en) == all[i as int]);
        let (values, verrs) = lint_values(&en.variants);
        let ghost before = resolved;
        let ghost e0 = errs@;
        if verrs.len() > 0 {
            let ghost ve = verrs@;
            let mut verrs = verrs;
            errs.append(&mut verrs);
            proof {
                reveal(enum_dups);
                lemma_kept_enum_names_step(all, i as int);
                assert(enum_dups(all, i + 1) == enum_dups(all, i as int) + value_dups(en.variants.items@, en.variants.items@.len() as int));
                assert(cause_messages(errs@) =~= cause_messages(e0) + cause_messages(ve));
                assert forall|x: int| 0 <= x < errs@.len() implies (#[trigger] errs@[x]).trace@.len() == 0 by {
                    if x < e0.len() {
                        assert(errs@[x] == e0[x]);
                    } else {
                        assert(errs@[x] == ve[x - e0.len()]);
                    }
                }
                assert forall|x: int| 0 <= x < errs@.len() implies reports_duplicate((#[trigger] errs@[x]).error@)
                    || reports_duplicate_value(errs@[x].error@) by {
                    if x < e0.len() {
                        assert(errs@[x] == e0[x]);
                    } else {
                        assert(errs@[x] == ve[x - e0.len()]);
                    }
                }
            }
        } else {
            let key = to_pascal_case(name.as_str());
            let new_enum = Enum { variants: values, doc: en.doc };
            match populate_map(key, new_enum, &mut resolved) {
                Some(c) => {
                    errs.push(c);
                    proof {
                        reveal(enum_dups);
                        lemma_kept_enum_names_step(all, i as int);
                        assert(kept_enum_names(all, i as int).contains(pascal_case(name@)));
                        let j = choose|j: int| 0 <= j < i && values_distinct((#[trigger] all[j]).1.variants.items@) && pascal_case(all[j].0@)
                            == pascal_case(name@);
                        assert(enum_dups(all, i + 1) == enum_dups(all, i as int).push(dup_key(pascal_case(all[i as int].0@))));
                        assert(cause_messages(errs@) =~= cause_messages(e0).push(c.error@));
                        assert forall|x: int| 0 <= x < errs@.len() implies (#[trigger] errs@[x]).trace@.len() == 0 by {
                            if x < e0.len() {
                                assert(errs@[x] == e0[x]);
                            }
                        }
                        if e0.len() == 0 {
                            let j = choose|j: int| 0 <= j < i && pascal_case(all[j].0@) == pascal_case(name@);
                            assert(pascal_case(all[j].0@) == pascal_case(all[i as int].0@));
                        } else {
                            if forall|a: int| 0 <= a < i ==> values_distinct((#[trigger] all[a]).1.variants.items@) {
                                let (a, b) = choose|a: int, b: int| 0 <= a < b < i && pascal_case(#[trigger] all[a].0@) == pascal_case(#[trigger] all[b].0@);
                            } else {
                                let a = choose|a: int| 0 <= a < i && !values_distinct((#[trigger] all[a]).1.variants.items@);
                            }
                        }
                        assert forall|x: int| 0 <= x < errs@.len() implies reports_duplicate((#[trigger] errs@[x]).error@)
                            || reports_duplicate_value(errs@[x].error@) by {
                            if x < e0.len() {
                                assert(errs@[x] == e0[x]);
                            }
                        }
                    }
                },
                None => {
                    proof {
                        lemma_kept_enum_names_step(all, i as int);
                        assert(!(exists|j: int| 0 <= j < i && values_distinct((#[trigger] all[j]).1.variants.items@)
                            && pascal_case(all[j].0@) == pascal_case(all[i as int].0@))) by {
                            if exists|j: int| 0 <= j < i && values_distinct((#[trigger] all[j]).1.variants.items@)
                                && pascal_case(all[j].0@) == pascal_case(all[i as int].0@) {
                                assert(kept_enum_names(all, i as int).contains(pascal_case(all[i as int].0@)));
                            }
                        }
                        assert(enum_dups(all, i + 1) == enum_dups(all, i as int)) by {
                            reveal(enum_dups);
                        }
                        assert(resolved.as_map().dom() =~= before.as_map().dom().insert(pascal_case(name@)));
                        if e0.len() == 0 {
                            assert forall|a: int, b: int| 0 <= a < b < i + 1 implies pascal_case(#[trigger] all[a].0@) != pascal_case(#[trigger] all[b].0@) by {
                                if b == i {
                                    assert(before.as_map().contains_key(pascal_case(all[a].0@)));
                                }
                            }
                            assert forall|k: Seq<char>| #[trigger] resolved.as_map().contains_key(k) implies exists|j: int| 0 <= j < i + 1 && pascal_case(all[j].0@) == k by {
                                if k != pascal_case(name@) {
                                    assert(before.as_map().contains_key(k));
                                }
                            }
                            assert forall|j: int| 0 <= j < i + 1 implies #[trigger] resolved.as_map().contains_key(pascal_case(all[j].0@))
                                && enum_linted(all[j].1, resolved.as_map()[pascal_case(all[j].0@)]) by {
                                if j < i {
                                    assert(before.as_map().contains_key(pascal_case(all[j].0@)));
                                }
                            }
                        } else {
                            if forall|a: int| 0 <= a < i ==> values_distinct((#[trigger] all[a]).1.variants.items@) {
                                let (a, b) = choose|a: int, b: int| 0 <= a < b < i && pascal_case(#[trigger] all[a].0@) == pascal_case(#[trigger] all[b].0@);
                            } else {
                                let a = choose|a: int| 0 <= a < i && !values_distinct((#[trigger] all[a]).1.variants.items@);
                            }
                        }
                    }
                },
            }
        }
        assert(rest@ =~= all.skip(i + 1));
        i = i + 1;
    }
    if errs.len() > 0 {
        Err(errs)
    } else {
        Ok(Config { schema, upstream, enable_federation, types, unions, enums: resolved })
    }
}

/// Brings the names of a configuration to their conventional case.
#[derive(Clone, Copy, Debug, Default)]
pub struct Linter;

impl Linter {
    /// Renames types and fields, then enums and their values; fails when
    /// names collide after renaming.
    pub fn transform(&self, config: Config) -> (r: Result<Config, Vec<Cause>>)
        requires
            config.wf(),
        ensures
            r is Ok <==> types_distinct(config.types.entries@) && enums_distinct(config.enums.entries@),
            r matches Ok(c) ==> {
                &&& types_linted(config.types.entries@, c.types)
                &&& enums_linted(config.enums.entries@, c.enums)
                &&& c.schema == config.schema
                &&& c.upstream == config.upstream
                &&& c.enable_federation == config.enable_federation
                &&& c.unions == config.unions
            },
            r matches Err(e) ==> e@.len() > 0 && all_duplicate_names(e@),
            r matches Err(e) ==> untraced(e@) && cause_messages(e@) == if !types_distinct(config.types.entries@) {
                type_dups(config.types.entries@, config.types.entries@.len() as int)
            } else {
                enum_dups(config.enums.entries@, config.enums.entries@.len() as int)
            },
    {
        match resolve_types_and_fields(config) {
            Ok(c) => resolve_enum(c),
            Err(e) => {
                proof {
                    assert forall|i: int| 0 <= i < e@.len() implies reports_duplicate((#[trigger] e@[i]).error@)
                        || reports_duplicate_value(e@[i].error@) by {}
                }
                Err(e)
            },
        }
    }
}

} // verus!
