//! Where telemetry is exported, and how two telemetry settings merge.

use vstd::prelude::*;
use crate::config::static_config::merge::{merge_option, merge_vec, merged};
use crate::config::url_query::KeyValue;

verus! {

/// The default path of the Prometheus endpoint.
pub fn path() -> (r: String)
    ensures
        r@ == "/metrics"@,
{
    crate::strings::copy_str("/metrics")
}

/// Telemetry written to standard output.
#[derive(Clone, Debug, PartialEq, Eq)]
pub struct StdoutExporter {
    pub pretty: bool,
}

/// Telemetry sent to an OpenTelemetry collector.
#[derive(Clone, Debug, PartialEq, Eq)]
pub struct OtlpExporterConfig {
    pub url: String,
    pub headers: Vec<KeyValue>,
}

/// The format of the Prometheus endpoint.
#[derive(Clone, Copy, Debug, PartialEq, Eq)]
pub enum PrometheusFormat {
    Text,
    Protobuf,
}

impl Default for PrometheusFormat {
    fn default() -> (r: PrometheusFormat)
        ensures
            r == PrometheusFormat::Text,
    {
        PrometheusFormat::Text
    }
}

/// Telemetry served on a Prometheus endpoint.
#[derive(Clone, Debug, PartialEq, Eq)]
pub struct PrometheusExporter {
    pub path: String,
    pub format: PrometheusFormat,
}

/// Telemetry reported to Apollo Studio.
#[derive(Clone, Debug, PartialEq, Eq)]
pub struct ApolloTelemetry {
    pub api_key: String,
    pub graph_ref: String,
    pub platform: Option<String>,
    pub user_version: Option<String>,
    pub version: Option<String>,
}

/// Where telemetry goes.
#[derive(Clone, Debug, PartialEq, Eq)]
pub enum TelemetryExporterConfig {
    Stdout(StdoutExporter),
    Otlp(OtlpExporterConfig),
    Prometheus(PrometheusExporter),
    Apollo(ApolloTelemetry),
}

impl TelemetryExporterConfig {
    /// Merging two exporters keeps the right-hand one.
    pub fn merge_right(self, other: Self) -> (r: Self)
        ensures
            r == other,
    {
        other
    }
}

/// The telemetry settings.
#[derive(Clone, Debug, Default, PartialEq, Eq)]
pub struct TelemetryStatic {
    pub export: Option<TelemetryExporterConfig>,
    pub request_headers: Vec<String>,
}

impl TelemetryStatic {
    /// Merges `other` into `self`: the exporter `other` sets wins, and the
    /// request headers of both are kept, `self`'s first.
    pub fn merge_right(self, other: Self) -> (r: Self)
        ensures
            r.export == merged(self.export, other.export),
            r.request_headers@ == self.request_headers@ + other.request_headers@,
    {
        let export = match (self.export, other.export) {
            (Some(left), Some(right)) => Some(left.merge_right(right)),
            (left, right) => merge_option(left, right),
        };
        TelemetryStatic { export, request_headers: merge_vec(self.request_headers, other.request_headers) }
    }
}

} // verus!
