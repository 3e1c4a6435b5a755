//! Copies of configuration values. A copy holds the same strings and flags
//! as the original, and lists with the same items.

use vstd::prelude::*;
use crate::config::{Arg, Field};
use crate::config::resolver::{ApolloFederation, Call, EntityResolver, GraphQL, Grpc, GrpcBody, Http, Resolver};
use crate::config::url_query::{KeyValue, URLQuery};
use crate::config::static_config::merge::copy_strings;
use crate::strmap::StrMap;

verus! {

/// `b` holds what `a` holds.
pub open spec fn same_http(a: Http, b: Http) -> bool {
    &&& b.url == a.url
    &&& b.base_url == a.base_url
    &&& b.path == a.path
    &&& b.body == a.body
    &&& b.headers@ == a.headers@
    &&& b.query@ == a.query@
    &&& b.batch_key@ == a.batch_key@
}

/// `b` holds what `a` holds.
pub open spec fn same_grpc(a: Grpc, b: Grpc) -> bool {
    &&& b.url == a.url
    &&& b.method == a.method
    &&& b.body == a.body
    &&& b.headers@ == a.headers@
    &&& b.batch_key@ == a.batch_key@
}

/// `b` holds what `a` holds.
pub open spec fn same_graphql(a: GraphQL, b: GraphQL) -> bool {
    &&& b.url == a.url
    &&& b.name == a.name
    &&& b.headers@ == a.headers@
    &&& b.batch == a.batch
}

/// `b` is a copy of resolver `a`.
pub open spec fn same_resolver(a: Resolver, b: Resolver) -> bool
    decreases a,
{
    match a {
        Resolver::Http(x) => (b matches Resolver::Http(y) && same_http(x, y)),
        Resolver::Grpc(x) => (b matches Resolver::Grpc(y) && same_grpc(x, y)),
        Resolver::Graphql(x) => (b matches Resolver::Graphql(y) && same_graphql(x, y)),
        Resolver::Call(x) => (b matches Resolver::Call(y) && y.steps@ == x.steps@),
        Resolver::ApolloFederation(ApolloFederation::EntityResolver(e)) => (b matches Resolver::ApolloFederation(
            ApolloFederation::EntityResolver(f),
        ) && same_entries(e.resolver_by_type.entries@, f.resolver_by_type.entries@)),
        _ => b == a,
    }
}

/// `t` is a copy of the named resolvers `s`.
pub open spec fn same_entries(s: Seq<(String, Resolver)>, t: Seq<(String, Resolver)>) -> bool
    decreases s,
{
    if s.len() == 0 {
        t.len() == 0
    } else {
        &&& t.len() == s.len()
        &&& t.last().0 == s.last().0
        &&& same_resolver(s.last().1, t.last().1)
        &&& same_entries(s.drop_last(), t.drop_last())
    }
}

/// `t` is a copy of the resolvers `s`.
pub open spec fn same_resolvers(s: Seq<Resolver>, t: Seq<Resolver>) -> bool {
    &&& t.len() == s.len()
    &&& forall|k: int| 0 <= k < s.len() ==> same_resolver(#[trigger] s[k], t[k])
}

/// `b` is a copy of field `a`.
pub open spec fn same_field(a: Field, b: Field) -> bool {
    &&& b.type_of == a.type_of
    &&& b.list == a.list
    &&& b.required == a.required
    &&& b.list_type_required == a.list_type_required
    &&& b.args.entries@ == a.args.entries@
    &&& b.doc == a.doc
    &&& b.omit == a.omit
    &&& same_resolvers(a.resolvers@, b.resolvers@)
}

fn copy_grpc_body(o: &Option<GrpcBody>) -> (r: Option<GrpcBody>)
    ensures
        r == *o,
{
    match o {
        Some(GrpcBody::Text(t)) => Some(GrpcBody::Text(t.clone())),
        Some(GrpcBody::Value(v)) => Some(GrpcBody::Value(v.clone())),
        None => None,
    }
}

pub(crate) fn copy_opt(o: &Option<String>) -> (r: Option<String>)
    ensures
        r == *o,
{
    match o {
        Some(s) => Some(s.clone()),
        None => None,
    }
}

fn copy_key_values(v: &Vec<KeyValue>) -> (r: Vec<KeyValue>)
    ensures
        r@ == v@,
{
    let mut r: Vec<KeyValue> = Vec::new();
    let n = v.len();
    let mut i: usize = 0;
    while i < n
        invariant
            n == v@.len(),
            i <= n,
            r@ == v@.take(i as int),
        decreases n - i,
    {
        r.push(KeyValue { key: v[i].key.clone(), value: v[i].value.clone() });
        assert(r@ =~= v@.take(i + 1));
        i = i + 1;
    }
    assert(v@.take(n as int) =~= v@);
    r
}

fn copy_queries(v: &Vec<URLQuery>) -> (r: Vec<URLQuery>)
    ensures
        r@ == v@,
{
    let mut r: Vec<URLQuery> = Vec::new();
    let n = v.len();
    let mut i: usize = 0;
    while i < n
        invariant
            n == v@.len(),
            i <= n,
            r@ == v@.take(i as int),
        decreases n - i,
    {
        r.push(URLQuery { key: v[i].key.clone(), value: v[i].value.clone(), skip_empty: v[i].skip_empty });
        assert(r@ =~= v@.take(i + 1));
        i = i + 1;
    }
    assert(v@.take(n as int) =~= v@);
    r
}

/// A copy of the resolver.
pub fn copy_resolver(r: &Resolver) -> (o: Resolver)
    ensures
        same_resolver(*r, o),
    decreases r,
{
    match r {
        Resolver::Http(h) => Resolver::Http(
            Http {
                url: h.url.clone(),
                base_url: copy_opt(&h.base_url),
                path: h.path.clone(),
                body: copy_opt(&h.body),
                headers: copy_key_values(&h.headers),
                query: copy_queries(&h.query),
                batch_key: copy_strings(&h.batch_key),
            },
        ),
        Resolver::Grpc(g) => Resolver::Grpc(
            Grpc {
                url: g.url.clone(),
                method: g.method.clone(),
                body: copy_grpc_body(&g.body),
                headers: copy_key_values(&g.headers),
                batch_key: copy_strings(&g.batch_key),
            },
        ),
        Resolver::Graphql(g) => Resolver::Graphql(
            GraphQL { url: g.url.clone(), name: g.name.clone(), headers: copy_key_values(&g.headers), batch: g.batch },
        ),
        Resolver::Call(c) => Resolver::Call(Call { steps: copy_strings(&c.steps) }),
        Resolver::Js(j) => Resolver::Js(crate::config::resolver::JS { name: j.name.clone() }),
        Resolver::Expr(e) => Resolver::Expr(crate::config::resolver::Expr { body: e.body.clone() }),
        Resolver::ApolloFederation(af) => match af {
            ApolloFederation::Service => Resolver::ApolloFederation(ApolloFederation::Service),
            ApolloFederation::EntityResolver(e) => {
                proof {
                    assert(decreases_to!(*r => *af));
                    assert(decreases_to!(*af => *e));
                }
                let ghost s = e.resolver_by_type.entries@;
                let n = e.resolver_by_type.entries.len();
                let mut out: Vec<(String, Resolver)> = Vec::new();
                let mut i: usize = 0;
                assert(s.take(0) =~= Seq::<(String, Resolver)>::empty());
                while i < n
                    invariant
                        *r == Resolver::ApolloFederation(*af),
                        *af == ApolloFederation::EntityResolver(*e),
                        decreases_to!(*r => *e),
                        s == e.resolver_by_type.entries@,
                        n == s.len(),
                        i <= n,
                        same_entries(s.take(i as int), out@),
                    decreases n - i,
                {
                    proof {
                        assert(decreases_to!(e.resolver_by_type => e.resolver_by_type.entries));
                        assert(decreases_to!(e.resolver_by_type.entries => e.resolver_by_type.entries@));
                        assert(decreases_to!(e.resolver_by_type.entries@ => e.resolver_by_type.entries@[i as int]));
                        assert(decreases_to!(e.resolver_by_type.entries@[i as int] => e.resolver_by_type.entries@[i as int].1));
                    }
                    let c = copy_resolver(&e.resolver_by_type.entries[i].1);
                    let ghost before = out@;
                    out.push((e.resolver_by_type.entries[i].0.clone(), c));
                    proof {
                        assert(s.take(i + 1).drop_last() =~= s.take(i as int));
                        assert(out@.drop_last() =~= before);
                    }
                    i = i + 1;
                }
                assert(s.take(n as int) =~= s);
                Resolver::ApolloFederation(ApolloFederation::EntityResolver(EntityResolver { resolver_by_type: StrMap { entries: out } }))
            },
        },
    }
}

/// A copy of each resolver.
pub fn copy_resolvers(v: &Vec<Resolver>) -> (r: Vec<Resolver>)
    ensures
        same_resolvers(v@, r@),
{
    let mut r: Vec<Resolver> = Vec::new();
    let n = v.len();
    let mut i: usize = 0;
    while i < n
        invariant
            n == v@.len(),
            i <= n,
            r@.len() == i,
            forall|k: int| 0 <= k < i ==> same_resolver(#[trigger] v@[k], r@[k]),
        decreases n - i,
    {
        r.push(copy_resolver(&v[i]));
        i = i + 1;
    }
    r
}

fn copy_args(m: &StrMap<Arg>) -> (r: StrMap<Arg>)
    ensures
        r.entries@ == m.entries@,
{
    let mut out: Vec<(String, Arg)> = Vec::new();
    let n = m.entries.len();
    let mut i: usize = 0;
    while i < n
        invariant
            n == m.entries@.len(),
            i <= n,
            out@ == m.entries@.take(i as int),
        decreases n - i,
    {
        let a = &m.entries[i].1;
        out.push((m.entries[i].0.clone(), Arg { type_of: a.type_of.clone(), list: a.list, required: a.required, doc: copy_opt(&a.doc) }));
        assert(out@ =~= m.entries@.take(i + 1));
        i = i + 1;
    }
    assert(m.entries@.take(n as int) =~= m.entries@);
    StrMap { entries: out }
}

/// A copy of the field.
pub fn copy_field(f: &Field) -> (r: Field)
    ensures
        same_field(*f, r),
{
    Field {
        type_of: f.type_of.clone(),
        list: f.list,
        required: f.required,
        list_type_required: f.list_type_required,
        args: copy_args(&f.args),
        doc: copy_opt(&f.doc),
        omit: f.omit,
        resolvers: copy_resolvers(&f.resolvers),
    }
}

} // verus!
