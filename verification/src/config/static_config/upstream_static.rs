//! How the server talks to upstream services, and the defaults that apply
//! where that is not set.

use vstd::prelude::*;
use crate::config::static_config::merge::{merge_option, merge_sets, merged, set_wf, sets_merged};
use crate::strset::StrSet;

verus! {

/// The number of requests a batch holds unless set.
pub const DEFAULT_MAX_SIZE: usize = 100;

/// How requests to an upstream service are batched.
#[derive(Clone, Debug, PartialEq, Eq)]
pub struct Batch {
    pub delay: usize,
    pub headers: StrSet,
    pub max_size: Option<usize>,
}

impl Default for Batch {
    fn default() -> (r: Batch)
        ensures
            r.delay == 0,
            r.headers.wf(),
            r.headers.as_set() == Set::<Seq<char>>::empty(),
            r.max_size == Some(DEFAULT_MAX_SIZE),
    {
        Batch { max_size: Some(DEFAULT_MAX_SIZE), delay: 0, headers: StrSet::new() }
    }
}

impl Batch {
    /// Merges `other` into `self`: `other`'s delay and size win, header sets
    /// are joined.
    pub fn merge_right(self, other: Self) -> (r: Self)
        requires
            self.headers.wf(),
            other.headers.wf(),
        ensures
            r.delay == other.delay,
            r.headers.wf(),
            r.headers.as_set() == self.headers.as_set().union(other.headers.as_set()),
            r.max_size == merged(self.max_size, other.max_size),
    {
        let mut headers = self.headers;
        headers.extend(&other.headers);
        Batch { delay: other.delay, headers, max_size: merge_option(self.max_size, other.max_size) }
    }
}

/// A proxy the upstream requests go through.
#[derive(Clone, Debug, PartialEq, Eq)]
pub struct Proxy {
    pub url: String,
}

/// How the server talks to upstream services.
#[derive(Clone, Debug, Default, PartialEq, Eq)]
pub struct UpstreamStatic {
    pub on_request: Option<String>,
    pub allowed_headers: Option<StrSet>,
    pub batch: Option<Batch>,
    pub connect_timeout: Option<u64>,
    pub http_cache: Option<u64>,
    pub http2_only: Option<bool>,
    pub keep_alive_interval: Option<u64>,
    pub keep_alive_timeout: Option<u64>,
    pub keep_alive_while_idle: Option<bool>,
    pub pool_max_idle_per_host: Option<usize>,
    pub pool_idle_timeout: Option<u64>,
    pub proxy: Option<Proxy>,
    pub tcp_keep_alive: Option<u64>,
    pub timeout: Option<u64>,
    pub user_agent: Option<String>,
    pub verify_ssl: Option<bool>,
}

/// Two optional batch settings merged, field by field when both are set.
pub open spec fn batches_merged(l: Option<Batch>, r: Option<Batch>, m: Option<Batch>) -> bool {
    match (l, r) {
        (Some(a), Some(b)) => m matches Some(c) && {
            &&& c.delay == b.delay
            &&& c.headers.wf()
            &&& c.headers.as_set() == a.headers.as_set().union(b.headers.as_set())
            &&& c.max_size == merged(a.max_size, b.max_size)
        },
        _ => m == merged(l, r),
    }
}

/// The value of an optional setting, or its default.
pub open spec fn or_default<T>(o: Option<T>, d: T) -> T {
    match o {
        Some(v) => v,
        None => d,
    }
}

impl UpstreamStatic {
    /// Every set of header names it holds is sorted.
    pub open spec fn wf(self) -> bool {
        &&& set_wf(self.allowed_headers)
        &&& self.batch matches Some(b) ==> b.headers.wf()
    }

    /// `self` is what merging `other` into `base` gives.
    pub open spec fn merged_from(self, base: UpstreamStatic, other: UpstreamStatic) -> bool {
        &&& self.on_request == merged(base.on_request, other.on_request)
        &&& sets_merged(base.allowed_headers, other.allowed_headers, self.allowed_headers)
        &&& batches_merged(base.batch, other.batch, self.batch)
        &&& self.connect_timeout == merged(base.connect_timeout, other.connect_timeout)
        &&& self.http_cache == merged(base.http_cache, other.http_cache)
        &&& self.http2_only == merged(base.http2_only, other.http2_only)
        &&& self.keep_alive_interval == merged(base.keep_alive_interval, other.keep_alive_interval)
        &&& self.keep_alive_timeout == merged(base.keep_alive_timeout, other.keep_alive_timeout)
        &&& self.keep_alive_while_idle == merged(base.keep_alive_while_idle, other.keep_alive_while_idle)
        &&& self.pool_max_idle_per_host == merged(base.pool_max_idle_per_host, other.pool_max_idle_per_host)
        &&& self.pool_idle_timeout == merged(base.pool_idle_timeout, other.pool_idle_timeout)
        &&& self.proxy == merged(base.proxy, other.proxy)
        &&& self.tcp_keep_alive == merged(base.tcp_keep_alive, other.tcp_keep_alive)
        &&& self.timeout == merged(base.timeout, other.timeout)
        &&& self.user_agent == merged(base.user_agent, other.user_agent)
        &&& self.verify_ssl == merged(base.verify_ssl, other.verify_ssl)
        &&& self.wf()
    }

    /// Merges `other` into `self`: a setting `other` makes wins, sets of
    /// header names are joined.
    pub fn merge_right(self, other: Self) -> (r: Self)
        requires
            self.wf(),
            other.wf(),
        ensures
            r.merged_from(self, other),
    {
        let batch = match (self.batch, other.batch) {
            (Some(a), Some(b)) => Some(a.merge_right(b)),
            (a, b) => merge_option(a, b),
        };
        UpstreamStatic {
            on_request: merge_option(self.on_request, other.on_request),
            allowed_headers: merge_sets(self.allowed_headers, other.allowed_headers),
            batch,
            connect_timeout: merge_option(self.connect_timeout, other.connect_timeout),
            http_cache: merge_option(self.http_cache, other.http_cache),
            http2_only: merge_option(self.http2_only, other.http2_only),
            keep_alive_interval: merge_option(self.keep_alive_interval, other.keep_alive_interval),
            keep_alive_timeout: merge_option(self.keep_alive_timeout, other.keep_alive_timeout),
            keep_alive_while_idle: merge_option(self.keep_alive_while_idle, other.keep_alive_while_idle),
            pool_max_idle_per_host: merge_option(self.pool_max_idle_per_host, other.pool_max_idle_per_host),
            pool_idle_timeout: merge_option(self.pool_idle_timeout, other.pool_idle_timeout),
            proxy: merge_option(self.proxy, other.proxy),
            tcp_keep_alive: merge_option(self.tcp_keep_alive, other.tcp_keep_alive),
            timeout: merge_option(self.timeout, other.timeout),
            user_agent: merge_option(self.user_agent, other.user_agent),
            verify_ssl: merge_option(self.verify_ssl, other.verify_ssl),
        }
    }

    /// Idle connections are kept this long; 60 unless set.
    pub fn get_pool_idle_timeout(&self) -> (r: u64)
        ensures
            r == or_default(self.pool_idle_timeout, 60),
    {
        self.pool_idle_timeout.unwrap_or(60)
    }

    /// Idle connections kept per host; 60 unless set.
    pub fn get_pool_max_idle_per_host(&self) -> (r: usize)
        ensures
            r == or_default(self.pool_max_idle_per_host, 60),
    {
        self.pool_max_idle_per_host.unwrap_or(60)
    }

    /// Interval of keep-alive pings; 60 unless set.
    pub fn get_keep_alive_interval(&self) -> (r: u64)
        ensures
            r == or_default(self.keep_alive_interval, 60),
    {
        self.keep_alive_interval.unwrap_or(60)
    }

    /// Time to wait for a keep-alive answer; 60 unless set.
    pub fn get_keep_alive_timeout(&self) -> (r: u64)
        ensures
            r == or_default(self.keep_alive_timeout, 60),
    {
        self.keep_alive_timeout.unwrap_or(60)
    }

    /// Whether idle connections get keep-alive pings; off unless set.
    pub fn get_keep_alive_while_idle(&self) -> (r: bool)
        ensures
            r == or_default(self.keep_alive_while_idle, false),
    {
        self.keep_alive_while_idle.unwrap_or(false)
    }

    /// Time allowed to connect; 60 unless set.
    pub fn get_connect_timeout(&self) -> (r: u64)
        ensures
            r == or_default(self.connect_timeout, 60),
    {
        self.connect_timeout.unwrap_or(60)
    }

    /// Time allowed for a request; 60 unless set.
    pub fn get_timeout(&self) -> (r: u64)
        ensures
            r == or_default(self.timeout, 60),
    {
        self.timeout.unwrap_or(60)
    }

    /// TCP keep-alive interval; 5 unless set.
    pub fn get_tcp_keep_alive(&self) -> (r: u64)
        ensures
            r == or_default(self.tcp_keep_alive, 5),
    {
        self.tcp_keep_alive.unwrap_or(5)
    }

    /// The user agent sent upstream; `Tailcall/1.0` unless set.
    pub fn get_user_agent(&self) -> (r: String)
        ensures
            self.user_agent matches Some(u) ==> r == u,
            self.user_agent is None ==> r@ == "Tailcall/1.0"@,
    {
        match &self.user_agent {
            Some(u) => u.clone(),
            None => crate::strings::copy_str("Tailcall/1.0"),
        }
    }

    /// The size of the HTTP cache; 0 unless set.
    pub fn get_http_cache_size(&self) -> (r: u64)
        ensures
            r == or_default(self.http_cache, 0),
    {
        self.http_cache.unwrap_or(0)
    }

    /// The header names passed upstream; none unless set.
    pub fn get_allowed_headers(&self) -> (r: StrSet)
        requires
            self.wf(),
        ensures
            r.wf(),
            r.as_set() == (match self.allowed_headers {
                Some(s) => s.as_set(),
                None => Set::empty(),
            }),
    {
        match &self.allowed_headers {
            Some(s) => s.copy(),
            None => StrSet::new(),
        }
    }

    /// The batching delay; 0 unless set.
    pub fn get_delay(&self) -> (r: usize)
        ensures
            r == (match self.batch {
                Some(b) => b.delay,
                None => 0,
            }),
    {
        match &self.batch {
            Some(b) => b.delay,
            None => 0,
        }
    }

    /// The number of requests a batch holds; 100 unless set.
    pub fn get_max_size(&self) -> (r: usize)
        ensures
            r == (match self.batch {
                Some(b) => or_default(b.max_size, DEFAULT_MAX_SIZE),
                None => DEFAULT_MAX_SIZE,
            }),
    {
        match &self.batch {
            Some(b) => b.max_size.unwrap_or(DEFAULT_MAX_SIZE),
            None => DEFAULT_MAX_SIZE,
        }
    }

    /// Whether only HTTP/2 is used; off unless set.
    pub fn get_http_2_only(&self) -> (r: bool)
        ensures
            r == or_default(self.http2_only, false),
    {
        self.http2_only.unwrap_or(false)
    }

    /// The handler called on every request, if set.
    pub fn get_on_request(&self) -> (r: Option<String>)
        ensures
            r == self.on_request,
    {
        match &self.on_request {
            Some(s) => Some(s.clone()),
            None => None,
        }
    }

    /// Whether TLS certificates are verified; on unless set.
    pub fn get_verify_ssl(&self) -> (r: bool)
        ensures
            r == or_default(self.verify_ssl, true),
    {
        self.verify_ssl.unwrap_or(true)
    }
}

} // verus!
