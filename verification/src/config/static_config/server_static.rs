//! The server settings and the defaults that apply where they are not set.

use vstd::prelude::*;
use crate::config::static_config::headers_static::HeadersStatic;
use crate::config::static_config::key_values::{keys_sorted, kv_map, merge_key_value_vecs};
use crate::config::static_config::merge::{merge_option, merged};
use crate::config::static_config::routes_static::Routes;
use crate::config::url_query::KeyValue;
use crate::strmap::StrMap;
use crate::strset::StrSet;

verus! {

/// The number of logical cores the process may use.
///
/// Calls `num_cpus::get`, whose documentation promises a result of at least
/// one; the value depends on the machine, so nothing more is claimed.
#[verifier::external_body]
fn cpu_count() -> (r: usize)
    ensures
        r >= 1,
{
    num_cpus::get()
}

/// Options of the script that listens on every HTTP request.
#[derive(Clone, Copy, Debug, PartialEq, Eq)]
pub struct ScriptOptionsStatic {
    pub timeout: Option<u64>,
}

impl ScriptOptionsStatic {
    /// Merges `other` into `self`: a timeout `other` sets wins.
    pub fn merge_right(self, other: Self) -> (r: Self)
        ensures
            r.timeout == merged(self.timeout, other.timeout),
    {
        ScriptOptionsStatic { timeout: merge_option(self.timeout, other.timeout) }
    }
}

/// The HTTP version the server speaks.
#[derive(Clone, Copy, Debug, PartialEq, Eq)]
pub enum HttpVersionStatic {
    HTTP1,
    HTTP2,
}

impl Default for HttpVersionStatic {
    fn default() -> (r: HttpVersionStatic)
        ensures
            r == HttpVersionStatic::HTTP1,
    {
        HttpVersionStatic::HTTP1
    }
}

/// The settings of the server.
#[derive(Clone, Debug, Default, PartialEq, Eq)]
pub struct ServerStatic {
    /// Just-in-time compilation of each request; on unless set.
    pub enable_jit: Option<bool>,
    /// Exposes query performance data; off unless set.
    pub apollo_tracing: Option<bool>,
    /// Combines several requests into one; off unless set.
    pub batch_requests: Option<bool>,
    /// Headers sent with every response.
    pub headers: Option<HeadersStatic>,
    /// The longest a query may run before it is stopped.
    pub global_response_timeout: Option<i64>,
    /// The host name the server binds; `127.0.0.1` unless set.
    pub hostname: Option<String>,
    /// Whether clients may fetch the schema; on unless set.
    pub introspection: Option<bool>,
    /// Whether the server acts as a federation subgraph; off unless set.
    pub enable_federation: Option<bool>,
    /// Whether the server pipeline flushes; on unless set.
    pub pipeline_flush: Option<bool>,
    /// The port the server listens on; 8000 unless set.
    pub port: Option<u16>,
    /// Whether incoming queries are checked against the schema; off unless set.
    pub query_validation: Option<bool>,
    /// Whether upstream responses are checked; off unless set.
    pub response_validation: Option<bool>,
    /// The script that listens on every HTTP request.
    pub script: Option<ScriptOptionsStatic>,
    /// Whether the showcase endpoint is on; off unless set.
    pub showcase: Option<bool>,
    /// Local variables: constants, secrets or shared values.
    pub vars: Vec<KeyValue>,
    /// The HTTP version; HTTP/1 unless set.
    pub version: Option<HttpVersionStatic>,
    /// The number of worker threads; the number of cores unless set.
    pub workers: Option<usize>,
    /// The paths of the endpoints.
    pub routes: Option<Routes>,
}

/// Two optional script options merged, field by field when both are set.
pub open spec fn scripts_merged(
    l: Option<ScriptOptionsStatic>,
    r: Option<ScriptOptionsStatic>,
    m: Option<ScriptOptionsStatic>,
) -> bool {
    match (l, r) {
        (Some(a), Some(b)) => m == Some(ScriptOptionsStatic { timeout: merged(a.timeout, b.timeout) }),
        _ => m == merged(l, r),
    }
}

/// Two optional header settings merged, field by field when both are set.
pub open spec fn headers_merged(l: Option<HeadersStatic>, r: Option<HeadersStatic>, m: Option<HeadersStatic>) -> bool {
    match (l, r) {
        (Some(a), Some(b)) => m matches Some(c) && c.merged_from(a, b),
        _ => m == merged(l, r),
    }
}

/// Merges two lists of variables: one pair per key, in increasing key
/// order, the right-hand value winning on a shared key.
pub fn merge_right_vars(left: Vec<KeyValue>, right: Vec<KeyValue>) -> (r: Vec<KeyValue>)
    ensures
        kv_map(r@) == kv_map(left@).union_prefer_right(kv_map(right@)),
        keys_sorted(r@),
{
    merge_key_value_vecs(&left, &right)
}

impl ServerStatic {
    /// The header settings, where set, hold a sorted set.
    pub open spec fn wf(self) -> bool {
        self.headers matches Some(h) ==> h.wf()
    }

    /// `self` is what merging `other` into `base` gives.
    pub open spec fn merged_from(self, base: ServerStatic, other: ServerStatic) -> bool {
        &&& self.enable_jit == merged(base.enable_jit, other.enable_jit)
        &&& self.apollo_tracing == merged(base.apollo_tracing, other.apollo_tracing)
        &&& self.batch_requests == merged(base.batch_requests, other.batch_requests)
        &&& headers_merged(base.headers, other.headers, self.headers)
        &&& self.global_response_timeout == merged(base.global_response_timeout, other.global_response_timeout)
        &&& self.hostname == merged(base.hostname, other.hostname)
        &&& self.introspection == merged(base.introspection, other.introspection)
        &&& self.enable_federation == merged(base.enable_federation, other.enable_federation)
        &&& self.pipeline_flush == merged(base.pipeline_flush, other.pipeline_flush)
        &&& self.port == merged(base.port, other.port)
        &&& self.query_validation == merged(base.query_validation, other.query_validation)
        &&& self.response_validation == merged(base.response_validation, other.response_validation)
        &&& scripts_merged(base.script, other.script, self.script)
        &&& self.showcase == merged(base.showcase, other.showcase)
        &&& kv_map(self.vars@) == kv_map(base.vars@).union_prefer_right(kv_map(other.vars@))
        &&& keys_sorted(self.vars@)
        &&& self.version == merged(base.version, other.version)
        &&& self.workers == merged(base.workers, other.workers)
        &&& self.routes == merged(base.routes, other.routes)
        &&& self.wf()
    }

    /// Merges `other` into `self`: a setting `other` makes wins, variables
    /// are joined by key, header lists appended and header sets joined.
    pub fn merge_right(self, other: Self) -> (r: Self)
        requires
            self.wf(),
            other.wf(),
        ensures
            r.merged_from(self, other),
    {
        let headers = match (self.headers, other.headers) {
            (Some(a), Some(b)) => Some(a.merge_right(b)),
            (a, b) => merge_option(a, b),
        };
        let script = match (self.script, other.script) {
            (Some(a), Some(b)) => Some(a.merge_right(b)),
            (a, b) => merge_option(a, b),
        };
        ServerStatic {
            enable_jit: merge_option(self.enable_jit, other.enable_jit),
            apollo_tracing: merge_option(self.apollo_tracing, other.apollo_tracing),
            batch_requests: merge_option(self.batch_requests, other.batch_requests),
            headers,
            global_response_timeout: merge_option(self.global_response_timeout, other.global_response_timeout),
            hostname: merge_option(self.hostname, other.hostname),
            introspection: merge_option(self.introspection, other.introspection),
            enable_federation: merge_option(self.enable_federation, other.enable_federation),
            pipeline_flush: merge_option(self.pipeline_flush, other.pipeline_flush),
            port: merge_option(self.port, other.port),
            query_validation: merge_option(self.query_validation, other.query_validation),
            response_validation: merge_option(self.response_validation, other.response_validation),
            script,
            showcase: merge_option(self.showcase, other.showcase),
            vars: merge_right_vars(self.vars, other.vars),
            version: merge_option(self.version, other.version),
            workers: merge_option(self.workers, other.workers),
            routes: merge_option(self.routes, other.routes),
        }
    }

    /// Whether query performance data is exposed; off unless set.
    pub fn enable_apollo_tracing(&self) -> (r: bool)
        ensures
            r == (self.apollo_tracing == Some(true)),
    {
        self.apollo_tracing.unwrap_or(false)
    }

    /// The longest a query may run; 0 unless set.
    pub fn get_global_response_timeout(&self) -> (r: i64)
        ensures
            r == (match self.global_response_timeout {
                Some(t) => t,
                None => 0,
            }),
    {
        self.global_response_timeout.unwrap_or(0)
    }

    /// The number of worker threads; unless set, the number of cores, which
    /// is at least one.
    pub fn get_workers(&self) -> (r: usize)
        ensures
            self.workers matches Some(w) ==> r == w,
            self.workers is None ==> r >= 1,
    {
        let cores = cpu_count();
        self.workers.unwrap_or(cores)
    }

    /// The port; 8000 unless set.
    pub fn get_port(&self) -> (r: u16)
        ensures
            r == (match self.port {
                Some(p) => p,
                None => 8000,
            }),
    {
        self.port.unwrap_or(8000)
    }

    /// Whether upstream responses are checked; off unless set.
    pub fn enable_http_validation(&self) -> (r: bool)
        ensures
            r == (self.response_validation == Some(true)),
    {
        self.response_validation.unwrap_or(false)
    }

    /// Whether `Cache-Control` headers are sent; off unless set.
    pub fn enable_cache_control(&self) -> (r: bool)
        ensures
            r == (self.headers matches Some(h) && h.cache_control == Some(true)),
    {
        match &self.headers {
            Some(h) => h.enable_cache_control(),
            None => false,
        }
    }

    /// Whether `set-cookie` headers are passed on; off unless set.
    pub fn enable_set_cookies(&self) -> (r: bool)
        ensures
            r == (self.headers matches Some(h) && h.set_cookies == Some(true)),
    {
        match &self.headers {
            Some(h) => h.set_cookies(),
            None => false,
        }
    }

    /// Whether clients may fetch the schema; on unless set.
    pub fn enable_introspection(&self) -> (r: bool)
        ensures
            r == (self.introspection != Some(false)),
    {
        self.introspection.unwrap_or(true)
    }

    /// Whether incoming queries are checked; off unless set.
    pub fn enable_query_validation(&self) -> (r: bool)
        ensures
            r == (self.query_validation == Some(true)),
    {
        self.query_validation.unwrap_or(false)
    }

    /// Whether requests are combined; off unless set.
    pub fn enable_batch_requests(&self) -> (r: bool)
        ensures
            r == (self.batch_requests == Some(true)),
    {
        self.batch_requests.unwrap_or(false)
    }

    /// Whether the showcase endpoint is on; off unless set.
    pub fn enable_showcase(&self) -> (r: bool)
        ensures
            r == (self.showcase == Some(true)),
    {
        self.showcase.unwrap_or(false)
    }

    /// The host name; `127.0.0.1` unless set.
    pub fn get_hostname(&self) -> (r: String)
        ensures
            self.hostname matches Some(h) ==> r == h,
            self.hostname is None ==> r@ == "127.0.0.1"@,
    {
        match &self.hostname {
            Some(h) => h.clone(),
            None => crate::strings::copy_str("127.0.0.1"),
        }
    }

    /// The variables as a map; a later pair overrides an earlier one with
    /// the same key.
    pub fn get_vars(&self) -> (r: StrMap<String>)
        ensures
            r.wf(),
            r.as_map() == kv_map(self.vars@),
    {
        let mut m: StrMap<String> = StrMap::new();
        let n = self.vars.len();
        let mut i: usize = 0;
        assert(kv_map(self.vars@.take(0)) =~= Map::empty());
        while i < n
            invariant
                n == self.vars@.len(),
                i <= n,
                m.wf(),
                m.as_map() == kv_map(self.vars@.take(i as int)),
            decreases n - i,
        {
            m.insert(self.vars[i].key.clone(), self.vars[i].value.clone());
            proof {
                assert(self.vars@.take(i + 1).drop_last() =~= self.vars@.take(i as int));
            }
            i = i + 1;
        }
        assert(self.vars@.take(n as int) =~= self.vars@);
        m
    }

    /// The custom response headers as pairs of name and value.
    pub fn get_response_headers(&self) -> (r: Vec<(String, String)>)
        ensures
            self.headers is None ==> r@.len() == 0,
            self.headers matches Some(h) ==> r@.len() == h.custom@.len() && forall|i: int|
                0 <= i < r@.len() ==> #[trigger] r@[i] == (h.custom@[i].key, h.custom@[i].value),
    {
        let mut r: Vec<(String, String)> = Vec::new();
        match &self.headers {
            None => {},
            Some(h) => {
                let n = h.custom.len();
                let mut i: usize = 0;
                while i < n
                    invariant
                        n == h.custom@.len(),
                        i <= n,
                        r@.len() == i,
                        forall|j: int| 0 <= j < i ==> #[trigger] r@[j] == (h.custom@[j].key, h.custom@[j].value),
                    decreases n - i,
                {
                    r.push((h.custom[i].key.clone(), h.custom[i].value.clone()));
                    i = i + 1;
                }
            },
        }
        r
    }

    /// The experimental headers allowed; none unless set.
    pub fn get_experimental_headers(&self) -> (r: StrSet)
        requires
            self.wf(),
        ensures
            r.wf(),
            r.as_set() == (match self.headers {
                Some(h) => match h.experimental {
                    Some(s) => s.as_set(),
                    None => Set::empty(),
                },
                None => Set::empty(),
            }),
    {
        match &self.headers {
            Some(h) => match &h.experimental {
                Some(s) => s.copy(),
                None => StrSet::new(),
            },
            None => StrSet::new(),
        }
    }

    /// The HTTP version; HTTP/1 unless set.
    pub fn get_version(self) -> (r: HttpVersionStatic)
        ensures
            r == (match self.version {
                Some(v) => v,
                None => HttpVersionStatic::HTTP1,
            }),
    {
        self.version.unwrap_or(HttpVersionStatic::HTTP1)
    }

    /// Whether the pipeline flushes; on unless set.
    pub fn get_pipeline_flush(&self) -> (r: bool)
        ensures
            r == (self.pipeline_flush != Some(false)),
    {
        self.pipeline_flush.unwrap_or(true)
    }

    /// Whether just-in-time compilation is on; on unless set.
    pub fn get_enable_jit(&self) -> (r: bool)
        ensures
            r == (self.enable_jit != Some(false)),
    {
        self.enable_jit.unwrap_or(true)
    }

    /// The endpoint paths; `/status` and `/graphql` unless set.
    pub fn get_routes(&self) -> (r: Routes)
        ensures
            self.routes matches Some(x) ==> r.status_spec() == x.status_spec() && r.graphql_spec() == x.graphql_spec(),
            self.routes is None ==> r.status_spec() == "/status"@ && r.graphql_spec() == "/graphql"@,
    {
        match &self.routes {
            Some(x) => x.copy(),
            None => Routes::new(),
        }
    }

    /// Whether the server acts as a federation subgraph; off unless set.
    pub fn get_enable_federation(&self) -> (r: bool)
        ensures
            r == (self.enable_federation == Some(true)),
    {
        self.enable_federation.unwrap_or(false)
    }
}

} // verus!
