//! Apollo Federation subgraph support: the check that each entity has one
//! resolver, and the `_service` query field with its `_Service` type.

use vstd::prelude::*;
use crate::config::{Config, Field, RootSchema, Type};
use crate::config::resolver::{ApolloFederation, Resolver};
use crate::config::transformer::entities::query_name;
use crate::strings::copy_str;
use crate::strmap::StrMap;
use crate::strset::StrSet;
use crate::valid::Cause;

verus! {

/// The names of the types with more than one resolver, in order.
pub open spec fn multi_resolver_names(ts: Seq<(String, Type)>) -> Seq<Seq<char>>
    decreases ts.len(),
{
    if ts.len() == 0 {
        Seq::empty()
    } else if ts.last().1.resolvers@.len() > 1 {
        multi_resolver_names(ts.drop_last()).push(ts.last().0@)
    } else {
        multi_resolver_names(ts.drop_last())
    }
}

/// The message for an entity with more than one resolver.
pub open spec fn single_resolver_message() -> Seq<char> {
    "Only single resolver for entity is currently supported"@
}

/// The `_service` field: a non-null `_Service` that the federation service
/// resolver answers.
pub open spec fn service_field(f: Field) -> bool {
    &&& f.type_of@ == "_Service"@
    &&& !f.list
    &&& f.required
    &&& !f.list_type_required
    &&& f.args.entries@.len() == 0
    &&& (f.doc matches Some(d) && d@ == "Apollo federation Query._service resolver"@)
    &&& !f.omit
    &&& f.resolvers@.len() == 1
    &&& f.resolvers@[0] == Resolver::ApolloFederation(ApolloFederation::Service)
}

/// The `sdl` field: a nullable `String` with nothing else set.
pub open spec fn sdl_field(f: Field) -> bool {
    &&& f.type_of@ == "String"@
    &&& !f.list
    &&& !f.required
    &&& !f.list_type_required
    &&& f.args.entries@.len() == 0
    &&& f.doc is None
    &&& !f.omit
    &&& f.resolvers@.len() == 0
}

/// The `_Service` type: the one field `sdl` and nothing else.
pub open spec fn service_type(t: Type) -> bool {
    &&& t.wf()
    &&& t.fields.as_map().dom() == set!["sdl"@]
    &&& sdl_field(t.fields.as_map()["sdl"@])
    &&& t.added_fields@.len() == 0
    &&& t.implements.items@.len() == 0
    &&& t.tag is None
    &&& t.resolvers@.len() == 0
    &&& t.doc is None
}

/// `t` is type `b` with the `_service` field added.
pub open spec fn with_service_field(b: Type, t: Type) -> bool {
    &&& t.wf()
    &&& t.fields.as_map().contains_key("_service"@)
    &&& service_field(t.fields.as_map()["_service"@])
    &&& t.fields.as_map() == b.fields.as_map().insert("_service"@, t.fields.as_map()["_service"@])
    &&& t.added_fields == b.added_fields
    &&& t.implements == b.implements
    &&& t.tag == b.tag
    &&& t.resolvers == b.resolvers
    &&& t.doc == b.doc
}

/// `r` is `c` with the type `_Service` added, and the field `_service` added
/// to the query type (the schema's, or `Query`, which then becomes the
/// schema's query type; a blank type when there is none).
pub open spec fn with_service(c: Config, r: Config) -> bool {
    let q = query_name(c);
    let ts = c.types.as_map();
    &&& r.wf()
    &&& (r.schema.query matches Some(s) && s@ == q)
    &&& r.schema.mutation == c.schema.mutation
    &&& r.schema.subscription == c.schema.subscription
    &&& r.upstream == c.upstream
    &&& r.enable_federation == c.enable_federation
    &&& r.unions == c.unions
    &&& r.enums == c.enums
    &&& r.types.as_map().dom() == ts.dom().insert("_Service"@).insert(q)
    &&& forall|k: Seq<char>| #[trigger] r.types.as_map().contains_key(k) && k != "_Service"@ && k != q
        ==> r.types.as_map()[k] == ts[k]
    &&& q != "_Service"@ ==> service_type(r.types.as_map()["_Service"@])
    &&& exists|b: Type| #[trigger] with_service_field(b, r.types.as_map()[q]) && if q == "_Service"@ {
        service_type(b)
    } else if ts.contains_key(q) {
        b == ts[q]
    } else {
        b.is_blank()
    }
}

/// Makes a configuration a federation subgraph: entities may have one
/// resolver each, and the query type answers `_service`. The entities
/// themselves are added by `EntityResolver`. Deriving the entities' `@key`
/// directives from their resolvers is not part of this library.
pub struct Subgraph;

impl Subgraph {
    /// Fails, with one cause for each type that has more than one resolver,
    /// in order, traced by the type's name; succeeds when no type has.
    pub fn check_single_resolvers(&self, config: &Config) -> (r: Result<(), Vec<Cause>>)
        ensures
            r is Ok <==> multi_resolver_names(config.types.entries@).len() == 0,
            r matches Err(e) ==> {
                let names = multi_resolver_names(config.types.entries@);
                &&& e@.len() == names.len()
                &&& forall|i: int| 0 <= i < e@.len() ==> {
                    &&& (#[trigger] e@[i]).error@ == single_resolver_message()
                    &&& e@[i].trace@.len() == 1
                    &&& e@[i].trace@[0]@ == names[i]
                }
            },
    {
        let types = &config.types.entries;
        let ghost ts = types@;
        let mut errs: Vec<Cause> = Vec::new();
        let n = types.len();
        let mut i: usize = 0;
        assert(ts.take(0) =~= Seq::<(String, Type)>::empty());
        while i < n
            invariant
                ts == types@,
                n == ts.len(),
                i <= n,
                errs@.len() == multi_resolver_names(ts.take(i as int)).len(),
                forall|j: int| 0 <= j < errs@.len() ==> {
                    &&& (#[trigger] errs@[j]).error@ == single_resolver_message()
                    &&& errs@[j].trace@.len() == 1
                    &&& errs@[j].trace@[0]@ == multi_resolver_names(ts.take(i as int))[j]
                },
            decreases n - i,
        {
            proof {
                assert(ts.take(i + 1).drop_last() =~= ts.take(i as int));
                assert(ts.take(i + 1).last() == ts[i as int]);
            }
            if types[i].1.resolvers.len() > 1 {
                let c = Cause::new(copy_str("Only single resolver for entity is currently supported"));
                proof {
                    reveal_strlit("Only single resolver for entity is currently supported");
                }
                errs.push(c.trace(types[i].0.as_str()));
            }
            i = i + 1;
        }
        assert(ts.take(n as int) =~= ts);
        if errs.len() == 0 {
            Ok(())
        } else {
            Err(errs)
        }
    }

    /// Adds the type `_Service`, with its one field `sdl` of type `String`,
    /// and the field `_service` of the query type, which the federation
    /// service resolver answers. The query type is the schema's, or
    /// `Query`, which then becomes the schema's query type.
    pub fn add_service(&self, config: Config) -> (r: Config)
        requires
            config.wf(),
        ensures
            with_service(config, r),
    {
        let ghost c0 = config;
        let ghost ts = config.types.as_map();
        proof {
            c0.types.lemma_all_values(|t: Type| t.wf());
        }
        let Config { schema, upstream, enable_federation, types, unions, enums } = config;
        let mut types = types;
        let sdl = Field {
            type_of: copy_str("String"),
            list: false,
            required: false,
            list_type_required: false,
            args: StrMap::new(),
            doc: None,
            omit: false,
            resolvers: Vec::new(),
        };
        let mut fields: StrMap<Field> = StrMap::new();
        fields.insert(copy_str("sdl"), sdl);
        let st = Type {
            fields,
            added_fields: Vec::new(),
            implements: StrSet::new(),
            tag: None,
            resolvers: Vec::new(),
            doc: None,
        };
        proof {
            reveal_strlit("String");
            let pf = |f: Field| f.args.wf();
            st.fields.lemma_all_values(pf);
            assert forall|i: int| 0 <= i < st.fields.entries@.len() implies (#[trigger] st.fields.entries@[i]).1.args.wf() by {
                assert(pf(st.fields.entries@[i].1));
            }
            assert(st.fields.as_map().dom() =~= set!["sdl"@]);
            assert(service_type(st));
        }
        let ghost st_v = st;
        types.insert(copy_str("_Service"), st);
        let ghost mid = types.as_map();
        assert(mid == ts.insert("_Service"@, st_v));
        let q: String = match &schema.query {
            Some(n) => n.clone(),
            None => copy_str("Query"),
        };
        let RootSchema { query: _, mutation, subscription } = schema;
        let schema = RootSchema { query: Some(q.clone()), mutation, subscription };
        let ghost pre = types;
        let found = types.remove(q.as_str());
        proof {
            if pre.has(q@) {
                assert(pre.as_map().contains_key(q@));
                assert(found == Some(mid[q@]));
            } else {
                assert(!mid.contains_key(q@));
            }
        }
        let mut qt = match found {
            Some(t) => t,
            None => Type::new(),
        };
        let ghost base = qt;
        proof {
            if q@ == "_Service"@ {
                assert(base == st_v);
            } else if ts.contains_key(q@) {
                assert(base == ts[q@]);
                assert(base.wf());
            } else {
                assert(base.is_blank());
            }
            base.fields.lemma_all_values(|f: Field| f.args.wf());
        }
        let mut resolvers: Vec<Resolver> = Vec::new();
        resolvers.push(Resolver::ApolloFederation(ApolloFederation::Service));
        let field = Field {
            type_of: copy_str("_Service"),
            list: false,
            required: true,
            list_type_required: false,
            args: StrMap::new(),
            doc: Some(copy_str("Apollo federation Query._service resolver")),
            omit: false,
            resolvers,
        };
        proof {
            reveal_strlit("Apollo federation Query._service resolver");
            assert(service_field(field));
        }
        qt.fields.insert(copy_str("_service"), field);
        proof {
            let pf = |f: Field| f.args.wf();
            qt.fields.lemma_all_values(pf);
            assert forall|k: Seq<char>| #[trigger] qt.fields.as_map().contains_key(k) implies pf(qt.fields.as_map()[k]) by {
                if k != "_service"@ {
                    assert(base.fields.as_map().contains_key(k));
                }
            }
            assert forall|i: int| 0 <= i < qt.fields.entries@.len() implies (#[trigger] qt.fields.entries@[i]).1.args.wf() by {
                assert(pf(qt.fields.entries@[i].1));
            }
            assert(qt.wf());
            assert(with_service_field(base, qt));
        }
        let ghost qv = q@;
        types.insert(q, qt);
        let r = Config { schema, upstream, enable_federation, types, unions, enums };
        proof {
            let pt = |t: Type| t.wf();
            r.types.lemma_all_values(pt);
            assert(r.types.as_map() =~= ts.insert("_Service"@, st_v).insert(qv, qt));
            assert forall|k: Seq<char>| #[trigger] r.types.as_map().contains_key(k) implies pt(r.types.as_map()[k]) by {
                if k != qv && k != "_Service"@ {
                    assert(ts.contains_key(k));
                }
            }
            assert forall|i: int| 0 <= i < r.types.entries@.len() implies (#[trigger] r.types.entries@[i]).1.wf() by {
                assert(pt(r.types.entries@[i].1));
            }
            assert(r.wf());
            assert(r.types.as_map().dom() =~= ts.dom().insert("_Service"@).insert(qv));
            assert(with_service_field(base, r.types.as_map()[qv]));
            assert(qv == query_name(c0));
            assert(r.schema.query matches Some(s) && s@ == qv);
            if qv != "_Service"@ {
                assert(r.types.as_map()["_Service"@] == st_v);
            }
            assert(forall|k: Seq<char>| #[trigger] r.types.as_map().contains_key(k) && k != "_Service"@ && k != qv
                ==> r.types.as_map()[k] == ts[k]);
            assert(if qv == "_Service"@ {
                service_type(base)
            } else if ts.contains_key(qv) {
                base == ts[qv]
            } else {
                base.is_blank()
            });
            assert(with_service(c0, r));
        }
        r
    }
}

} // verus!
