//! The paths of the server's endpoints.

use vstd::prelude::*;
use crate::strings::copy_str;

verus! {

/// The paths of the status and GraphQL endpoints.
#[derive(Clone, Debug, PartialEq, Eq)]
pub struct Routes {
    status: String,
    graphql: String,
}

impl Routes {
    /// The path of the status endpoint.
    pub closed spec fn status_spec(self) -> Seq<char> {
        self.status@
    }

    /// The path of the GraphQL endpoint.
    pub closed spec fn graphql_spec(self) -> Seq<char> {
        self.graphql@
    }

    /// The default paths: `/status` and `/graphql`.
    pub fn new() -> (r: Routes)
        ensures
            r.status_spec() == "/status"@,
            r.graphql_spec() == "/graphql"@,
    {
        Routes { status: copy_str("/status"), graphql: copy_str("/graphql") }
    }

    /// The same routes with another status path.
    pub fn with_status(self, status: &str) -> (r: Routes)
        ensures
            r.status_spec() == status@,
            r.graphql_spec() == self.graphql_spec(),
    {
        Routes { graphql: self.graphql, status: copy_str(status) }
    }

    /// The same routes with another GraphQL path.
    pub fn with_graphql(self, graphql: &str) -> (r: Routes)
        ensures
            r.status_spec() == self.status_spec(),
            r.graphql_spec() == graphql@,
    {
        Routes { status: self.status, graphql: copy_str(graphql) }
    }

    /// The path of the status endpoint.
    pub fn status(&self) -> (r: &String)
        ensures
            r@ == self.status_spec(),
    {
        &self.status
    }

    /// The path of the GraphQL endpoint.
    pub fn graphql(&self) -> (r: &String)
        ensures
            r@ == self.graphql_spec(),
    {
        &self.graphql
    }

    /// A copy of the routes.
    pub fn copy(&self) -> (r: Routes)
        ensures
            r.status_spec() == self.status_spec(),
            r.graphql_spec() == self.graphql_spec(),
    {
        Routes { status: self.status.clone(), graphql: self.graphql.clone() }
    }
}

impl Default for Routes {
    fn default() -> (r: Routes)
        ensures
            r.status_spec() == "/status"@,
            r.graphql_spec() == "/graphql"@,
    {
        Routes::new()
    }
}

} // verus!
