//! Resolvers: how a field or an entity fetches its data, and whether the
//! fetch is batched.

use vstd::prelude::*;
use crate::strmap::StrMap;
use crate::config::url_query::{KeyValue, URLQuery};

verus! {

/// An `@http` resolver.
#[derive(Clone, Debug, Default, PartialEq, Eq)]
pub struct Http {
    pub url: String,
    pub base_url: Option<String>,
    pub path: String,
    pub body: Option<String>,
    pub headers: Vec<KeyValue>,
    pub query: Vec<URLQuery>,
    pub batch_key: Vec<String>,
}

/// The JSON body of a `@grpc` resolver: a JSON string, or any other JSON
/// value, held as its text.
#[derive(Clone, Debug, PartialEq, Eq)]
pub enum GrpcBody {
    /// A JSON string, held as the string's contents.
    Text(String),
    /// Another JSON value, held as its JSON text.
    Value(String),
}

/// A `@grpc` resolver.
#[derive(Clone, Debug, Default, PartialEq, Eq)]
pub struct Grpc {
    pub url: String,
    pub method: String,
    pub body: Option<GrpcBody>,
    pub headers: Vec<KeyValue>,
    pub batch_key: Vec<String>,
}

/// A `@graphQL` resolver.
#[derive(Clone, Debug, Default, PartialEq, Eq)]
pub struct GraphQL {
    pub url: String,
    pub name: String,
    pub headers: Vec<KeyValue>,
    pub batch: bool,
}

/// A `@call` resolver: the names of the fields it calls.
#[derive(Clone, Debug, Default, PartialEq, Eq)]
pub struct Call {
    pub steps: Vec<String>,
}

/// A `@js` resolver.
#[derive(Clone, Debug, Default, PartialEq, Eq)]
pub struct JS {
    pub name: String,
}

/// An `@expr` resolver.
#[derive(Clone, Debug, Default, PartialEq, Eq)]
pub struct Expr {
    pub body: String,
}

/// Resolvers of entity types, keyed by type name.
#[derive(Debug)]
pub struct EntityResolver {
    pub resolver_by_type: StrMap<Resolver>,
}

/// Resolvers that implement Apollo Federation.
#[derive(Debug)]
pub enum ApolloFederation {
    EntityResolver(EntityResolver),
    Service,
}

/// A way of resolving a field.
#[derive(Debug)]
pub enum Resolver {
    Http(Http),
    Grpc(Grpc),
    Graphql(GraphQL),
    Call(Call),
    Js(JS),
    Expr(Expr),
    ApolloFederation(ApolloFederation),
}

/// Whether a resolver fetches in batches.
pub open spec fn spec_batched(r: Resolver) -> bool
    decreases r,
{
    match r {
        Resolver::Http(http) => http.batch_key@.len() > 0,
        Resolver::Grpc(grpc) => grpc.batch_key@.len() > 0,
        Resolver::Graphql(graphql) => graphql.batch,
        Resolver::ApolloFederation(ApolloFederation::EntityResolver(e)) => any_batched(
            e.resolver_by_type.entries@,
        ),
        _ => false,
    }
}

/// Whether some resolver in the entries fetches in batches.
pub open spec fn any_batched(s: Seq<(String, Resolver)>) -> bool
    decreases s,
{
    if s.len() == 0 {
        false
    } else {
        spec_batched(s.last().1) || any_batched(s.drop_last())
    }
}

/// Whether every resolver of the list fetches in batches.
pub open spec fn all_batched(s: Seq<Resolver>) -> bool {
    forall|i: int| 0 <= i < s.len() ==> spec_batched(#[trigger] s[i])
}

proof fn lemma_any_batched_prefix(s: Seq<(String, Resolver)>, i: int)
    requires
        0 <= i <= s.len(),
    ensures
        any_batched(s.take(i)) <==> exists|j: int| 0 <= j < i && spec_batched(#[trigger] s[j].1),
    decreases i,
{
    if i > 0 {
        lemma_any_batched_prefix(s, i - 1);
        assert(s.take(i).drop_last() =~= s.take(i - 1));
        if spec_batched(s[i - 1].1) {
        }
    }
}

impl Resolver {
    /// Whether the resolver fetches in batches: an `@http` or `@grpc`
    /// resolver with a batch key, a `@graphQL` resolver marked batched, or an
    /// entity resolver one of whose resolvers fetches in batches.
    pub fn is_batched(&self) -> (r: bool)
        ensures
            r == spec_batched(*self),
        decreases self,
    {
        match self {
            Resolver::Http(http) => http.batch_key.len() > 0,
            Resolver::Grpc(grpc) => grpc.batch_key.len() > 0,
            Resolver::Graphql(graphql) => graphql.batch,
            Resolver::ApolloFederation(af) => match af {
                ApolloFederation::EntityResolver(e) => {
                    proof {
                        assert(decreases_to!(*self => *af));
                        assert(decreases_to!(*af => *e));
                    }
                    let n = e.resolver_by_type.entries.len();
                    let mut i: usize = 0;
                    while i < n
                        invariant
                            *self == Resolver::ApolloFederation(*af),
                            *af == ApolloFederation::EntityResolver(*e),
                            decreases_to!(*self => *e),
                            n == e.resolver_by_type.entries@.len(),
                            i <= n,
                            forall|j: int| 0 <= j < i ==> !spec_batched(
                                #[trigger] e.resolver_by_type.entries@[j].1,
                            ),
                        decreases n - i,
                    {
                        proof {
                            assert(decreases_to!(e.resolver_by_type => e.resolver_by_type.entries));
                            assert(decreases_to!(e.resolver_by_type.entries => e.resolver_by_type.entries@));
                            assert(decreases_to!(e.resolver_by_type.entries@ => e.resolver_by_type.entries@[i as int]));
                            assert(decreases_to!(e.resolver_by_type.entries@[i as int] => e.resolver_by_type.entries@[i as int].1));
                        }
                        if e.resolver_by_type.entries[i].1.is_batched() {
                            proof {
                                assert(spec_batched(e.resolver_by_type.entries@[i as int].1));
                                lemma_any_batched_prefix(e.resolver_by_type.entries@, n as int);
                                assert(e.resolver_by_type.entries@.take(n as int) =~= e.resolver_by_type.entries@);
                            }
                            return true;
                        }
                        i = i + 1;
                    }
                    proof {
                        lemma_any_batched_prefix(e.resolver_by_type.entries@, n as int);
                        assert(e.resolver_by_type.entries@.take(n as int) =~= e.resolver_by_type.entries@);
                    }
                    false
                },
                ApolloFederation::Service => false,
            },
            _ => false,
        }
    }
}

/// The resolvers of a field or a type.
#[derive(Debug)]
pub struct ResolverSet(pub Vec<Resolver>);

impl ResolverSet {
    /// Whether there is at least one resolver.
    pub fn has_resolver(&self) -> (r: bool)
        ensures
            r == (self.0@.len() > 0),
    {
        self.0.len() > 0
    }

    /// Whether there are resolvers and all of them fetch in batches.
    pub fn is_batched(&self) -> (r: bool)
        ensures
            r == (self.0@.len() > 0 && all_batched(self.0@)),
    {
        batched_all(&self.0)
    }
}

impl Default for ResolverSet {
    /// No resolvers.
    fn default() -> (r: ResolverSet)
        ensures
            r.0@.len() == 0,
    {
        ResolverSet(Vec::new())
    }
}

/// Whether a list of resolvers is non-empty and each of them fetches in
/// batches.
pub fn batched_all(v: &Vec<Resolver>) -> (r: bool)
    ensures
        r == (v@.len() > 0 && all_batched(v@)),
{
    if v.len() == 0 {
        return false;
    }
    let mut i: usize = 0;
    while i < v.len()
        invariant
            i <= v@.len(),
            forall|j: int| 0 <= j < i ==> spec_batched(#[trigger] v@[j]),
        decreases v@.len() - i,
    {
        if !v[i].is_batched() {
            return false;
        }
        i = i + 1;
    }
    true
}

} // verus!
