//! Apollo Federation entities: every type with a resolver becomes an
//! entity that the `_entities` query field resolves.

use vstd::prelude::*;
use crate::config::{Arg, Config, Field, RootSchema, Type, Union};
use crate::config::copies::{copy_resolver, same_resolver};
use crate::config::resolver::{ApolloFederation, Resolver};
use crate::strings::copy_str;
use crate::strmap::StrMap;
use crate::strset::StrSet;
use crate::valid::Cause;

verus! {

/// The names of the types that have a resolver.
pub open spec fn entity_names(types: StrMap<Type>) -> Set<Seq<char>> {
    Set::new(|k: Seq<char>| types.as_map().contains_key(k) && types.as_map()[k].resolvers@.len() > 0)
}

/// The name of the query type: the schema's, or `Query`.
pub open spec fn query_name(c: Config) -> Seq<char> {
    match c.schema.query {
        Some(q) => q@,
        None => "Query"@,
    }
}

/// `m` maps each type that has a resolver to a copy of its first resolver.
pub open spec fn entity_resolvers(types: StrMap<Type>, m: StrMap<Resolver>) -> bool {
    &&& m.wf()
    &&& m.as_map().dom() == entity_names(types)
    &&& forall|k: Seq<char>| #[trigger] m.as_map().contains_key(k) ==> same_resolver(types.as_map()[k].resolvers@[0], m.as_map()[k])
}

/// The `_entities` field, which resolves the entities of `types`.
pub open spec fn entities_field(f: Field, types: StrMap<Type>) -> bool {
    &&& f.type_of@ == "_Entity"@
    &&& f.list
    &&& f.required
    &&& !f.list_type_required
    &&& !f.omit
    &&& (f.doc matches Some(d) && d@ == "Apollo federation Query._entities resolver"@)
    &&& f.args.wf()
    &&& f.args.as_map().dom() == set!["representations"@]
    &&& f.args.as_map()["representations"@].type_of@ == "_Any"@
    &&& f.args.as_map()["representations"@].list
    &&& f.args.as_map()["representations"@].required
    &&& f.args.as_map()["representations"@].doc is None
    &&& f.resolvers@.len() == 1
    &&& (f.resolvers@[0] matches Resolver::ApolloFederation(ApolloFederation::EntityResolver(e))
        && entity_resolvers(types, e.resolver_by_type))
}

/// `t` is the query type `base` (or a blank type, for `None`) with the
/// `_entities` field added.
pub open spec fn query_type_extended(base: Option<Type>, t: Type, types: StrMap<Type>) -> bool {
    &&& t.wf()
    &&& t.fields.as_map().contains_key("_entities"@)
    &&& entities_field(t.fields.as_map()["_entities"@], types)
    &&& match base {
        Some(b) => {
            &&& t.fields.as_map() == b.fields.as_map().insert("_entities"@, t.fields.as_map()["_entities"@])
            &&& t.added_fields == b.added_fields
            &&& t.implements == b.implements
            &&& t.tag == b.tag
            &&& t.resolvers == b.resolvers
            &&& t.doc == b.doc
        },
        None => {
            &&& t.fields.as_map().dom() == set!["_entities"@]
            &&& t.added_fields@.len() == 0
            &&& t.implements.items@.len() == 0
            &&& t.tag is None
            &&& t.resolvers@.len() == 0
            &&& t.doc is None
        },
    }
}

/// `r` is `c` with the entity union `_Entity`, the scalar type `_Any` and
/// the `_entities` field of the query type added.
pub open spec fn with_entities(c: Config, r: Config) -> bool {
    let q = query_name(c);
    let ts = c.types.as_map();
    &&& r.wf()
    &&& (r.schema.query matches Some(s) && s@ == q)
    &&& r.schema.mutation == c.schema.mutation
    &&& r.schema.subscription == c.schema.subscription
    &&& r.upstream == c.upstream
    &&& r.enable_federation == c.enable_federation
    &&& r.enums == c.enums
    &&& r.unions.as_map() == c.unions.as_map().insert("_Entity"@, r.unions.as_map()["_Entity"@])
    &&& r.unions.as_map()["_Entity"@].types.as_set() == entity_names(c.types)
    &&& r.unions.as_map()["_Entity"@].doc is None
    &&& r.types.as_map().dom() == ts.dom().insert("_Any"@).insert(q)
    &&& forall|k: Seq<char>| #[trigger] r.types.as_map().contains_key(k) && k != "_Any"@ && k != q
        ==> r.types.as_map()[k] == ts[k]
    &&& q != "_Any"@ ==> r.types.as_map()["_Any"@].is_blank()
    &&& query_type_extended(
        if q != "_Any"@ && ts.contains_key(q) { Some(ts[q]) } else { None },
        r.types.as_map()[q],
        c.types,
    )
}

/// Adds the Apollo Federation entities to a configuration.
pub struct EntityResolver;

/// A copy of the first resolver of each type that has one, by type name.
fn resolvers_by_type(types: &StrMap<Type>) -> (r: StrMap<Resolver>)
    requires
        types.wf(),
    ensures
        entity_resolvers(*types, r),
{
    let mut m: StrMap<Resolver> = StrMap::new();
    let n = types.entries.len();
    let mut i: usize = 0;
    while i < n
        invariant
            types.wf(),
            n == types.entries@.len(),
            i <= n,
            m.wf(),
            forall|k: Seq<char>| #[trigger] m.as_map().contains_key(k) <==> exists|j: int|
                0 <= j < i && (#[trigger] types.entries@[j]).0@ == k && types.entries@[j].1.resolvers@.len() > 0,
            forall|k: Seq<char>| #[trigger] m.as_map().contains_key(k) ==> types.as_map().contains_key(k)
                && same_resolver(types.as_map()[k].resolvers@[0], m.as_map()[k]),
        decreases n - i,
    {
        proof {
            types.lemma_at(i as int);
        }
        if types.entries[i].1.resolvers.len() > 0 {
            let ghost m0 = m.as_map();
            let c = copy_resolver(&types.entries[i].1.resolvers[0]);
            m.insert(types.entries[i].0.clone(), c);
            proof {
                let ki = types.entries@[i as int].0@;
                assert forall|k: Seq<char>| #[trigger] m.as_map().contains_key(k) <==> exists|j: int|
                    0 <= j < i + 1 && (#[trigger] types.entries@[j]).0@ == k && types.entries@[j].1.resolvers@.len() > 0 by {
                    if k == ki {
                        assert(types.entries@[i as int].0@ == k);
                    } else if m.as_map().contains_key(k) {
                        assert(m0.contains_key(k));
                    } else {
                        assert(!m0.contains_key(k));
                    }
                }
            }
        } else {
            proof {
                assert forall|k: Seq<char>| #[trigger] m.as_map().contains_key(k) <==> exists|j: int|
                    0 <= j < i + 1 && (#[trigger] types.entries@[j]).0@ == k && types.entries@[j].1.resolvers@.len() > 0 by {
                    if exists|j: int| 0 <= j < i + 1 && (#[trigger] types.entries@[j]).0@ == k && types.entries@[j].1.resolvers@.len() > 0 {
                        let j = choose|j: int| 0 <= j < i + 1 && (#[trigger] types.entries@[j]).0@ == k && types.entries@[j].1.resolvers@.len() > 0;
                        assert(j != i);
                    }
                }
            }
        }
        i = i + 1;
    }
    proof {
        assert forall|k: Seq<char>| #[trigger] m.as_map().dom().contains(k) == entity_names(*types).contains(k) by {
            if m.as_map().contains_key(k) {
                let j = choose|j: int| 0 <= j < n && (#[trigger] types.entries@[j]).0@ == k && types.entries@[j].1.resolvers@.len() > 0;
                types.lemma_at(j);
            }
            if entity_names(*types).contains(k) {
                let j = types.pos(k);
                types.lemma_at(j);
            }
        }
        assert(m.as_map().dom() =~= entity_names(*types));
    }
    m
}

/// The names of the map, as a set.
fn key_set(m: &StrMap<Resolver>) -> (r: StrSet)
    requires
        m.wf(),
    ensures
        r.wf(),
        r.as_set() == m.as_map().dom(),
{
    let mut s = StrSet::new();
    let n = m.entries.len();
    let mut i: usize = 0;
    while i < n
        invariant
            m.wf(),
            n == m.entries@.len(),
            i <= n,
            s.wf(),
            forall|k: Seq<char>| #[trigger] s.as_set().contains(k) <==> exists|j: int| 0 <= j < i && (#[trigger] m.entries@[j]).0@ == k,
        decreases n - i,
    {
        let ghost s0 = s.as_set();
        s.insert(m.entries[i].0.clone());
        proof {
            assert forall|k: Seq<char>| #[trigger] s.as_set().contains(k) <==> exists|j: int| 0 <= j < i + 1 && (#[trigger] m.entries@[j]).0@ == k by {
                if k == m.entries@[i as int].0@ {
                } else if s0.contains(k) {
                } else {
                    if exists|j: int| 0 <= j < i + 1 && (#[trigger] m.entries@[j]).0@ == k {
                        let j = choose|j: int| 0 <= j < i + 1 && (#[trigger] m.entries@[j]).0@ == k;
                        assert(j != i);
                    }
                }
            }
        }
        i = i + 1;
    }
    proof {
        assert forall|k: Seq<char>| #[trigger] s.as_set().contains(k) == m.as_map().dom().contains(k) by {
            if s.as_set().contains(k) {
                let j = choose|j: int| 0 <= j < n && (#[trigger] m.entries@[j]).0@ == k;
                m.lemma_at(j);
            }
            if m.as_map().contains_key(k) {
                let j = m.pos(k);
                m.lemma_at(j);
            }
        }
        assert(s.as_set() =~= m.as_map().dom());
    }
    s
}

impl EntityResolver {
    /// Adds, when some type has a resolver: the union `_Entity` of those
    /// types, the scalar type `_Any`, and the query field `_entities`,
    /// whose entity resolver holds each such type's first resolver. The
    /// query type is the schema's, or `Query`, which is then set as the
    /// schema's query type.
    pub fn transform(&self, config: Config) -> (r: Result<Config, Vec<Cause>>)
        requires
            config.wf(),
        ensures
            r matches Ok(c) && if entity_names(config.types) == Set::<Seq<char>>::empty() {
                c == config
            } else {
                with_entities(config, c)
            },
    {
        let by_type = resolvers_by_type(&config.types);
        proof {
            by_type.lemma_len();
        }
        if by_type.len() == 0 {
            proof {
                assert(entity_names(config.types) =~= Set::<Seq<char>>::empty());
            }
            return Ok(config);
        }
        let ghost c0 = config;
        let ghost ts = config.types.as_map();
        proof {
            assert(entity_names(config.types) != Set::<Seq<char>>::empty());
            c0.types.lemma_all_values(|t: Type| t.wf());
            c0.unions.lemma_all_values(|u: Union| u.types.wf());
        }
        let names = key_set(&by_type);
        let Config { schema, upstream, enable_federation, types, unions, enums } = config;
        let mut unions = unions;
        let entity_union = Union { types: names, doc: None };
        unions.insert(copy_str("_Entity"), entity_union);
        let mut types = types;
        let blank = Type::new();
        let ghost blank_v = blank;
        types.insert(copy_str("_Any"), blank);
        let ghost mid = types.as_map();
        assert(mid == ts.insert("_Any"@, blank_v));
        let q: String = match &schema.query {
            Some(n) => n.clone(),
            None => copy_str("Query"),
        };
        let RootSchema { query: _, mutation, subscription } = schema;
        let schema = RootSchema { query: Some(q.clone()), mutation, subscription };
        let ghost pre = types;
        let found = types.remove(q.as_str());
        proof {
            if pre.has(q@) {
                assert(pre.as_map().contains_key(q@));
                assert(found == Some(mid[q@]));
            } else {
                assert(!mid.contains_key(q@));
            }
        }
        let mut qt = match found {
            Some(t) => t,
            None => Type::new(),
        };
        let ghost base = qt;
        proof {
            if q@ != "_Any"@ && ts.contains_key(q@) {
                assert(base == ts[q@]);
                assert(base.wf());
            } else {
                assert(base.is_blank());
            }
            base.fields.lemma_all_values(|f: Field| f.args.wf());
        }
        let mut args: StrMap<Arg> = StrMap::new();
        args.insert(copy_str("representations"), Arg { type_of: copy_str("_Any"), list: true, required: true, doc: None });
        let er = crate::config::resolver::EntityResolver { resolver_by_type: by_type };
        let field = Field {
            type_of: copy_str("_Entity"),
            list: true,
            required: true,
            list_type_required: false,
            args,
            doc: Some(copy_str("Apollo federation Query._entities resolver")),
            omit: false,
            resolvers: vec![Resolver::ApolloFederation(ApolloFederation::EntityResolver(er))],
        };
        proof {
            assert(field.args.as_map().dom() =~= set!["representations"@]);
            assert(entities_field(field, c0.types));
        }
        qt.fields.insert(copy_str("_entities"), field);
        proof {
            let pf = |f: Field| f.args.wf();
            qt.fields.lemma_all_values(pf);
            assert forall|k: Seq<char>| #[trigger] qt.fields.as_map().contains_key(k) implies pf(qt.fields.as_map()[k]) by {
                if k != "_entities"@ {
                    assert(base.fields.as_map().contains_key(k));
                }
            }
            assert forall|i: int| 0 <= i < qt.fields.entries@.len() implies (#[trigger] qt.fields.entries@[i]).1.args.wf() by {
                assert(pf(qt.fields.entries@[i].1));
            }
            assert(qt.wf());
            if !(q@ != "_Any"@ && ts.contains_key(q@)) {
                assert(qt.fields.as_map().dom() =~= set!["_entities"@]);
            }
            assert(query_type_extended(
                if q@ != "_Any"@ && ts.contains_key(q@) { Some(ts[q@]) } else { None },
                qt,
                c0.types,
            ));
        }
        let ghost qv = q@;
        types.insert(q, qt);
        let r = Config { schema, upstream, enable_federation, types, unions, enums };
        proof {
            let pt = |t: Type| t.wf();
            r.types.lemma_all_values(pt);
            assert(r.types.as_map() =~= ts.insert("_Any"@, mid["_Any"@]).insert(qv, qt));
            assert forall|k: Seq<char>| #[trigger] r.types.as_map().contains_key(k) implies pt(r.types.as_map()[k]) by {
                if k != qv && k != "_Any"@ {
                    assert(ts.contains_key(k));
                }
            }
            assert forall|i: int| 0 <= i < r.types.entries@.len() implies (#[trigger] r.types.entries@[i]).1.wf() by {
                assert(pt(r.types.entries@[i].1));
            }
            let pu = |u: Union| u.types.wf();
            r.unions.lemma_all_values(pu);
            assert forall|k: Seq<char>| #[trigger] r.unions.as_map().contains_key(k) implies pu(r.unions.as_map()[k]) by {
                if k != "_Entity"@ {
                    assert(c0.unions.as_map().contains_key(k));
                }
            }
            assert forall|i: int| 0 <= i < r.unions.entries@.len() implies (#[trigger] r.unions.entries@[i]).1.types.wf() by {
                assert(pu(r.unions.entries@[i].1));
            }
            assert(r.wf());
            assert(r.types.as_map().dom() =~= ts.dom().insert("_Any"@).insert(qv));
            assert(r.unions.as_map() =~= c0.unions.as_map().insert("_Entity"@, r.unions.as_map()["_Entity"@]));
            assert(with_entities(c0, r));
        }
        Ok(r)
    }
}

} // verus!
