//! Settings read from the configuration file, and how two of them merge:
//! what the right-hand one sets wins.

pub mod headers_static;
pub mod key_values;
pub mod link;
pub mod merge;
pub mod routes_static;
pub mod server_static;
pub mod telemetry_static;
pub mod apollo_check;
pub mod upstream_static;
