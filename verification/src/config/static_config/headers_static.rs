//! Headers the server sends with its responses.

use vstd::prelude::*;
use crate::config::static_config::key_values::copy_key_values;
use crate::config::static_config::merge::{
    copy_strings, merge_option, merge_sets, merge_vec, merged, set_wf, sets_merged,
};
use crate::config::url_query::KeyValue;
use crate::strset::StrSet;

verus! {

/// Cross-Origin Resource Sharing settings of the server.
#[derive(Clone, Debug, Default, PartialEq, Eq)]
pub struct CorsStatic {
    pub allow_credentials: Option<bool>,
    pub allow_headers: Vec<String>,
    pub allow_methods: Vec<String>,
    pub allow_origins: Vec<String>,
    pub allow_private_network: Option<bool>,
    pub expose_headers: Vec<String>,
    pub max_age: Option<usize>,
    pub vary: Vec<String>,
}

impl CorsStatic {
    /// Merges `other` into `self`: a setting `other` makes wins, lists are
    /// appended.
    pub fn merge_right(self, other: Self) -> (r: Self)
        ensures
            r.allow_credentials == merged(self.allow_credentials, other.allow_credentials),
            r.allow_headers@ == self.allow_headers@ + other.allow_headers@,
            r.allow_methods@ == self.allow_methods@ + other.allow_methods@,
            r.allow_origins@ == self.allow_origins@ + other.allow_origins@,
            r.allow_private_network == merged(self.allow_private_network, other.allow_private_network),
            r.expose_headers@ == self.expose_headers@ + other.expose_headers@,
            r.max_age == merged(self.max_age, other.max_age),
            r.vary@ == self.vary@ + other.vary@,
    {
        CorsStatic {
            allow_credentials: merge_option(self.allow_credentials, other.allow_credentials),
            allow_headers: merge_vec(self.allow_headers, other.allow_headers),
            allow_methods: merge_vec(self.allow_methods, other.allow_methods),
            allow_origins: merge_vec(self.allow_origins, other.allow_origins),
            allow_private_network: merge_option(self.allow_private_network, other.allow_private_network),
            expose_headers: merge_vec(self.expose_headers, other.expose_headers),
            max_age: merge_option(self.max_age, other.max_age),
            vary: merge_vec(self.vary, other.vary),
        }
    }

    /// A copy of the settings.
    pub fn copy(&self) -> (r: Self)
        ensures
            r.allow_credentials == self.allow_credentials,
            r.allow_headers@ == self.allow_headers@,
            r.allow_methods@ == self.allow_methods@,
            r.allow_origins@ == self.allow_origins@,
            r.allow_private_network == self.allow_private_network,
            r.expose_headers@ == self.expose_headers@,
            r.max_age == self.max_age,
            r.vary@ == self.vary@,
    {
        CorsStatic {
            allow_credentials: self.allow_credentials,
            allow_headers: copy_strings(&self.allow_headers),
            allow_methods: copy_strings(&self.allow_methods),
            allow_origins: copy_strings(&self.allow_origins),
            allow_private_network: self.allow_private_network,
            expose_headers: copy_strings(&self.expose_headers),
            max_age: self.max_age,
            vary: copy_strings(&self.vary),
        }
    }
}

/// Two optional CORS settings merged, field by field when both are set.
pub open spec fn cors_merged(l: Option<CorsStatic>, r: Option<CorsStatic>, m: Option<CorsStatic>) -> bool {
    match (l, r) {
        (Some(a), Some(b)) => m matches Some(c) && {
            &&& c.allow_credentials == merged(a.allow_credentials, b.allow_credentials)
            &&& c.allow_headers@ == a.allow_headers@ + b.allow_headers@
            &&& c.allow_methods@ == a.allow_methods@ + b.allow_methods@
            &&& c.allow_origins@ == a.allow_origins@ + b.allow_origins@
            &&& c.allow_private_network == merged(a.allow_private_network, b.allow_private_network)
            &&& c.expose_headers@ == a.expose_headers@ + b.expose_headers@
            &&& c.max_age == merged(a.max_age, b.max_age)
            &&& c.vary@ == a.vary@ + b.vary@
        },
        _ => m == merged(l, r),
    }
}

/// Headers the server sends with its responses.
#[derive(Clone, Debug, Default, PartialEq, Eq)]
pub struct HeadersStatic {
    /// Whether `Cache-Control` headers are sent; `max-age` is the least
    /// value the upstream services sent.
    pub cache_control: Option<bool>,
    /// Headers sent with every response.
    pub custom: Vec<KeyValue>,
    /// `X-*` experimental headers allowed in the response.
    pub experimental: Option<StrSet>,
    /// Whether `set-cookie` headers are stored and sent with every response.
    pub set_cookies: Option<bool>,
    /// Cross-Origin Resource Sharing settings.
    pub cors: Option<CorsStatic>,
}

impl HeadersStatic {
    /// The set of experimental headers is sorted.
    pub open spec fn wf(self) -> bool {
        set_wf(self.experimental)
    }

    /// `self` is what merging `other` into `base` gives.
    pub open spec fn merged_from(self, base: HeadersStatic, other: HeadersStatic) -> bool {
        &&& self.cache_control == merged(base.cache_control, other.cache_control)
        &&& self.custom@ == base.custom@ + other.custom@
        &&& sets_merged(base.experimental, other.experimental, self.experimental)
        &&& self.set_cookies == merged(base.set_cookies, other.set_cookies)
        &&& cors_merged(base.cors, other.cors, self.cors)
        &&& self.wf()
    }

    /// Whether `Cache-Control` headers are sent; off unless set.
    pub fn enable_cache_control(&self) -> (r: bool)
        ensures
            r == (self.cache_control == Some(true)),
    {
        self.cache_control.unwrap_or(false)
    }

    /// Whether `set-cookie` headers are passed on; off unless set.
    pub fn set_cookies(&self) -> (r: bool)
        ensures
            r == (self.set_cookies == Some(true)),
    {
        self.set_cookies.unwrap_or(false)
    }

    /// A copy of the CORS settings.
    pub fn get_cors(&self) -> (r: Option<CorsStatic>)
        ensures
            r is Some == self.cors is Some,
            r matches Some(c) ==> {
                let d = self.cors.unwrap();
                &&& c.allow_credentials == d.allow_credentials
                &&& c.allow_headers@ == d.allow_headers@
                &&& c.allow_methods@ == d.allow_methods@
                &&& c.allow_origins@ == d.allow_origins@
                &&& c.allow_private_network == d.allow_private_network
                &&& c.expose_headers@ == d.expose_headers@
                &&& c.max_age == d.max_age
                &&& c.vary@ == d.vary@
            },
    {
        match &self.cors {
            Some(c) => Some(c.copy()),
            None => None,
        }
    }

    /// Merges `other` into `self`: a setting `other` makes wins, lists are
    /// appended and sets joined.
    pub fn merge_right(self, other: Self) -> (r: Self)
        requires
            self.wf(),
            other.wf(),
        ensures
            r.merged_from(self, other),
    {
        let cors = match (self.cors, other.cors) {
            (Some(a), Some(b)) => Some(a.merge_right(b)),
            (a, b) => merge_option(a, b),
        };
        HeadersStatic {
            cache_control: merge_option(self.cache_control, other.cache_control),
            custom: merge_vec(self.custom, other.custom),
            experimental: merge_sets(self.experimental, other.experimental),
            set_cookies: merge_option(self.set_cookies, other.set_cookies),
            cors,
        }
    }

    /// A copy of the headers.
    pub fn copy(&self) -> (r: Self)
        ensures
            r.cache_control == self.cache_control,
            r.custom@ == self.custom@,
            r.experimental is Some == self.experimental is Some,
            r.experimental matches Some(s) ==> s.seq() == self.experimental.unwrap().seq()
                && s.as_set() == self.experimental.unwrap().as_set(),
            self.wf() ==> r.wf(),
            r.set_cookies == self.set_cookies,
            r.cors is Some == self.cors is Some,
    {
        HeadersStatic {
            cache_control: self.cache_control,
            custom: copy_key_values(&self.custom),
            experimental: match &self.experimental {
                Some(s) => Some(s.copy()),
                None => None,
            },
            set_cookies: self.set_cookies,
            cors: self.get_cors(),
        }
    }
}

} // verus!
