use std::str::FromStr;
use tailcall_config::config::auth::{BasicRuntime, HTPASSWD_TEST};
use tailcall_config::config::position::Pos;
use tailcall_config::config::source::{Source, SourceError};
use tailcall_config::config::static_config::headers_static::HeadersStatic;
use tailcall_config::config::static_config::routes_static::Routes;
use tailcall_config::config::static_config::server_static::{HttpVersionStatic, ServerStatic};
use tailcall_config::config::static_config::telemetry_static::path;
use tailcall_config::config::static_config::upstream_static::{Batch, UpstreamStatic};
use tailcall_config::config::transformer::max_value_map::MaxValueMap;
use tailcall_config::config::transformer::pair_set::PairSet;
use tailcall_config::config::url_query::KeyValue;
use tailcall_config::strset::StrSet;

#[test]
fn pos_trace_with_file() {
    let mut pos = Pos::new(0, 0, None, 5u8);
    assert_eq!(pos.to_pos_trace_err("default".to_string()), Some("default".to_string()));
    assert_eq!(pos.to_trace_err("fallback"), Some("fallback"));
    pos.set_position((12, 7, "config.graphql"));
    assert!(pos.pos_trace_is_supported());
    assert!(!pos.pos_trace_is_unsupported());
    assert_eq!(pos.to_trace_err("fallback"), None);
    assert_eq!(pos.to_pos_trace_err("default".to_string()), Some("config.graphql 12#7".to_string()));
    assert_eq!(*pos.inner(), 5u8);
}

#[test]
fn source_detects_extensions() {
    assert_eq!(Source::detect("foo.json"), Ok(Source::Json));
    assert_eq!(Source::detect("dir/foo.YML"), Ok(Source::Yml));
    assert_eq!(Source::detect("foo.yaml"), Ok(Source::Yml));
    assert_eq!(Source::detect("foo.gql"), Ok(Source::GraphQL));
    assert_eq!(Source::detect("foo.GraphQL"), Ok(Source::GraphQL));
    assert_eq!(
        Source::detect("foo.txt"),
        Err(SourceError::UnsupportedFileFormat("txt".to_string()))
    );
    assert_eq!(Source::detect("foo"), Err(SourceError::InvalidPath("foo".to_string())));
    assert_eq!(Source::Json.ext(), "json");
    assert_eq!(Source::Yml.ext(), "yml");
    assert_eq!(Source::GraphQL.ext(), "graphql");
    assert_eq!(Source::Yml.name(), "YML");
    assert_eq!(Source::default(), Source::GraphQL);
    assert_eq!(
        SourceError::UnsupportedFileFormat("txt".to_string()).message(),
        "Unsupported config extension: txt"
    );
    assert_eq!("JSON".parse::<Source>(), Ok(Source::Json));
}

#[test]
fn pair_set_finds_pairs_in_either_order() {
    let mut set = PairSet::new();
    assert!(!set.contains("a", "b"));
    set.insert("a".to_string(), "b".to_string());
    assert!(set.contains("a", "b"));
    assert!(set.contains("b", "a"));
    assert!(!set.contains("a", "c"));
}

#[test]
fn max_value_map_keeps_first_of_equal_values() {
    let mut m = MaxValueMap::new();
    assert!(m.is_empty());
    m.increment("x".to_string(), 3);
    m.increment("y".to_string(), 3);
    assert_eq!(m.get_max_pair(), Some((&"x".to_string(), &3)));
    m.increment("y".to_string(), 1);
    assert_eq!(m.get_max_pair(), Some((&"y".to_string(), &4)));
    assert_eq!(m.len(), 2);
    assert!(!m.is_empty());
}

#[test]
fn server_defaults() {
    let server = ServerStatic::default();
    assert!(!server.enable_apollo_tracing());
    assert_eq!(server.get_global_response_timeout(), 0);
    assert!(server.get_workers() >= 1);
    assert_eq!(server.get_port(), 8000);
    assert!(!server.enable_http_validation());
    assert!(!server.enable_cache_control());
    assert!(!server.enable_set_cookies());
    assert!(server.enable_introspection());
    assert!(!server.enable_query_validation());
    assert!(!server.enable_batch_requests());
    assert!(!server.enable_showcase());
    assert_eq!(server.get_hostname(), "127.0.0.1");
    assert!(server.get_vars().entries.is_empty());
    assert!(server.get_response_headers().is_empty());
    assert!(server.get_experimental_headers().items.is_empty());
    assert!(server.get_pipeline_flush());
    assert!(server.get_enable_jit());
    assert!(!server.get_enable_federation());
    let routes = server.get_routes();
    assert_eq!(routes.status(), "/status");
    assert_eq!(routes.graphql(), "/graphql");
    assert_eq!(server.get_version(), HttpVersionStatic::HTTP1);
}

#[test]
fn server_settings() {
    let mut experimental = StrSet::new();
    experimental.insert("X-Experimental".to_string());
    let server = ServerStatic {
        workers: Some(4),
        port: Some(9000),
        hostname: Some("0.0.0.0".to_string()),
        vars: vec![
            KeyValue { key: "b".to_string(), value: "1".to_string() },
            KeyValue { key: "a".to_string(), value: "2".to_string() },
            KeyValue { key: "b".to_string(), value: "3".to_string() },
        ],
        headers: Some(HeadersStatic {
            cache_control: Some(true),
            set_cookies: Some(true),
            custom: vec![KeyValue { key: "X-Foo".to_string(), value: "bar".to_string() }],
            experimental: Some(experimental),
            ..Default::default()
        }),
        introspection: Some(false),
        routes: Some(Routes::default().with_status("/health")),
        version: Some(HttpVersionStatic::HTTP2),
        ..Default::default()
    };
    assert_eq!(server.get_workers(), 4);
    assert_eq!(server.get_port(), 9000);
    assert_eq!(server.get_hostname(), "0.0.0.0");
    let vars = server.get_vars();
    assert_eq!(
        vars.entries,
        vec![("a".to_string(), "2".to_string()), ("b".to_string(), "3".to_string())]
    );
    assert!(server.enable_cache_control());
    assert!(server.enable_set_cookies());
    assert!(!server.enable_introspection());
    assert_eq!(server.get_response_headers(), vec![("X-Foo".to_string(), "bar".to_string())]);
    assert_eq!(server.get_experimental_headers().items, vec!["X-Experimental".to_string()]);
    assert_eq!(server.get_routes().status(), "/health");
    assert_eq!(server.get_routes().graphql(), "/graphql");
    assert_eq!(server.clone().get_version(), HttpVersionStatic::HTTP2);
}

#[test]
fn upstream_defaults_and_settings() {
    let upstream = UpstreamStatic::default();
    assert_eq!(upstream.get_pool_idle_timeout(), 60);
    assert_eq!(upstream.get_pool_max_idle_per_host(), 60);
    assert_eq!(upstream.get_keep_alive_interval(), 60);
    assert_eq!(upstream.get_keep_alive_timeout(), 60);
    assert!(!upstream.get_keep_alive_while_idle());
    assert_eq!(upstream.get_connect_timeout(), 60);
    assert_eq!(upstream.get_timeout(), 60);
    assert_eq!(upstream.get_tcp_keep_alive(), 5);
    assert_eq!(upstream.get_user_agent(), "Tailcall/1.0");
    assert_eq!(upstream.get_http_cache_size(), 0);
    assert!(upstream.get_allowed_headers().items.is_empty());
    assert_eq!(upstream.get_delay(), 0);
    assert_eq!(upstream.get_max_size(), 100);
    assert!(!upstream.get_http_2_only());
    assert_eq!(upstream.get_on_request(), None);
    assert!(upstream.get_verify_ssl());

    let set = UpstreamStatic {
        batch: Some(Batch { delay: 5, max_size: None, ..Default::default() }),
        timeout: Some(3),
        user_agent: Some("agent".to_string()),
        verify_ssl: Some(false),
        ..Default::default()
    };
    assert_eq!(set.get_delay(), 5);
    assert_eq!(set.get_max_size(), 100);
    assert_eq!(set.get_timeout(), 3);
    assert_eq!(set.get_user_agent(), "agent");
    assert!(!set.get_verify_ssl());
}

#[test]
fn batch_merge_joins_headers() {
    let mut h1 = StrSet::new();
    h1.insert("a".to_string());
    let mut h2 = StrSet::new();
    h2.insert("b".to_string());
    let left = Batch { delay: 1, headers: h1, max_size: Some(10) };
    let right = Batch { delay: 2, headers: h2, max_size: None };
    let merged = left.merge_right(right);
    assert_eq!(merged.delay, 2);
    assert_eq!(merged.max_size, Some(10));
    assert_eq!(merged.headers.items, vec!["a".to_string(), "b".to_string()]);
}

#[test]
fn telemetry_default_path() {
    assert_eq!(path(), "/metrics");
}

#[test]
fn basic_runtime_test_value() {
    assert_eq!(BasicRuntime::test_value().htpasswd, HTPASSWD_TEST);
}

#[test]
fn later_types_replace_earlier_ones_of_the_same_name() {
    let config = tailcall_config::config::Config::default().types(vec![
        ("A", tailcall_config::config::Type::default()),
        (
            "A",
            tailcall_config::config::Type::default()
                .fields(vec![("x", tailcall_config::config::Field::default().type_of("Int".to_string()))]),
        ),
        ("B", tailcall_config::config::Type::default()),
    ]);
    assert_eq!(config.types.entries.len(), 2);
    assert_eq!(config.types.get("A").unwrap().fields.entries.len(), 1);
    assert!(config.types.get("B").is_some());
}

#[test]
fn source_from_str_ignores_case() {
    assert_eq!(tailcall_config::config::source::Source::from_str("GQL"), Ok(tailcall_config::config::source::Source::GraphQL));
    assert!(tailcall_config::config::source::Source::from_str("toml").is_err());
}
