use tailcall_config::config::static_config::key_values::merge_key_value_vecs;
use tailcall_config::config::static_config::server_static::{
    merge_right_vars, ScriptOptionsStatic, ServerStatic,
};
use tailcall_config::config::static_config::telemetry_static::{
    OtlpExporterConfig, PrometheusExporter, PrometheusFormat, StdoutExporter,
    TelemetryExporterConfig, TelemetryStatic,
};
use tailcall_config::config::static_config::upstream_static::UpstreamStatic;
use tailcall_config::config::url_query::KeyValue;
use tailcall_config::strset::StrSet;

fn server_with_script_options(so: ScriptOptionsStatic) -> ServerStatic {
    ServerStatic { script: Some(so), ..Default::default() }
}

#[test]
fn script_options_merge_both() {
    let a = server_with_script_options(ScriptOptionsStatic { timeout: Some(100) });
    let b = server_with_script_options(ScriptOptionsStatic { timeout: Some(200) });
    let merged = a.merge_right(b);
    let expected = ScriptOptionsStatic { timeout: Some(200) };
    assert_eq!(merged.script, Some(expected));
}

#[test]
fn script_options_merge_first() {
    let a = server_with_script_options(ScriptOptionsStatic { timeout: Some(100) });
    let b = server_with_script_options(ScriptOptionsStatic { timeout: None });
    let merged = a.merge_right(b);
    let expected = ScriptOptionsStatic { timeout: Some(100) };
    assert_eq!(merged.script, Some(expected));
}

#[test]
fn script_options_merge_second() {
    let a = server_with_script_options(ScriptOptionsStatic { timeout: None });
    let b = server_with_script_options(ScriptOptionsStatic { timeout: Some(100) });
    let merged = a.merge_right(b);
    let expected = ScriptOptionsStatic { timeout: Some(100) };
    assert_eq!(merged.script, Some(expected));
}

#[test]
fn script_options_merge_second_default() {
    let a = server_with_script_options(ScriptOptionsStatic { timeout: Some(100) });
    let b = ServerStatic::default();
    let merged = a.merge_right(b);
    let expected = ScriptOptionsStatic { timeout: Some(100) };
    assert_eq!(merged.script, Some(expected));
}

#[test]
fn script_options_merge_first_default() {
    let a = ServerStatic::default();
    let b = server_with_script_options(ScriptOptionsStatic { timeout: Some(100) });
    let merged = a.merge_right(b);
    let expected = ScriptOptionsStatic { timeout: Some(100) };
    assert_eq!(merged.script, Some(expected));
}

fn get_default_left_vec() -> Vec<KeyValue> {
    [
        KeyValue { key: "left".to_string(), value: "From Left".to_string() },
        KeyValue { key: "1".to_string(), value: "1, Left".to_string() },
        KeyValue { key: "2".to_string(), value: "2, Left".to_string() },
    ]
    .to_vec()
}

fn get_default_right_vec() -> Vec<KeyValue> {
    [
        KeyValue { key: "right".to_string(), value: "From Right".to_string() },
        KeyValue { key: "1".to_string(), value: "1, Right".to_string() },
        KeyValue { key: "2".to_string(), value: "2, Right".to_string() },
    ]
    .to_vec()
}

fn get_sorted_expected_merge_value() -> Vec<KeyValue> {
    let mut res = [
        KeyValue { key: "right".to_string(), value: "From Right".to_string() },
        KeyValue { key: "left".to_string(), value: "From Left".to_string() },
        KeyValue { key: "1".to_string(), value: "1, Right".to_string() },
        KeyValue { key: "2".to_string(), value: "2, Right".to_string() },
    ]
    .to_vec();
    res.sort_by(|a, b| a.key.cmp(&b.key));
    res
}

#[test]
fn check_merge_vec_fn() {
    let left_vec = get_default_left_vec();
    let right_vec = get_default_right_vec();
    let expected_vec = get_sorted_expected_merge_value();

    let mut merge_vec = merge_key_value_vecs(&left_vec, &right_vec);
    merge_vec.sort_by(|a, b| a.key.cmp(&b.key));

    assert_eq!(merge_vec, expected_vec)
}

#[test]
fn check_merge_right_fn() {
    let left_vec = get_default_left_vec();
    let right_vec = get_default_right_vec();
    let expected_vec = get_sorted_expected_merge_value();

    let mut merge_vec = merge_right_vars(left_vec, right_vec);
    merge_vec.sort_by(|a, b| a.key.cmp(&b.key));

    assert_eq!(merge_vec, expected_vec)
}

#[test]
fn merge_right() {
    let exporter_none = TelemetryStatic { export: None, ..Default::default() };
    let exporter_stdout = TelemetryStatic {
        export: Some(TelemetryExporterConfig::Stdout(StdoutExporter { pretty: true })),
        ..Default::default()
    };
    let exporter_otlp_1 = TelemetryStatic {
        export: Some(TelemetryExporterConfig::Otlp(OtlpExporterConfig {
            url: "test-url".to_owned(),
            headers: vec![KeyValue { key: "header_a".to_owned(), value: "a".to_owned() }],
        })),
        request_headers: vec!["Api-Key-A".to_owned()],
    };
    let exporter_otlp_2 = TelemetryStatic {
        export: Some(TelemetryExporterConfig::Otlp(OtlpExporterConfig {
            url: "test-url-2".to_owned(),
            headers: vec![KeyValue { key: "header_b".to_owned(), value: "b".to_owned() }],
        })),
        request_headers: vec!["Api-Key-B".to_owned()],
    };
    let exporter_prometheus_1 = TelemetryStatic {
        export: Some(TelemetryExporterConfig::Prometheus(PrometheusExporter {
            path: "/metrics".to_owned(),
            format: PrometheusFormat::Text,
        })),
        ..Default::default()
    };
    let exporter_prometheus_2 = TelemetryStatic {
        export: Some(TelemetryExporterConfig::Prometheus(PrometheusExporter {
            path: "/prom".to_owned(),
            format: PrometheusFormat::Protobuf,
        })),
        ..Default::default()
    };

    assert_eq!(exporter_none.clone().merge_right(exporter_none.clone()), exporter_none);
    assert_eq!(exporter_stdout.clone().merge_right(exporter_none.clone()), exporter_stdout);
    assert_eq!(exporter_none.clone().merge_right(exporter_otlp_1.clone()), exporter_otlp_1);
    assert_eq!(exporter_stdout.clone().merge_right(exporter_otlp_1.clone()), exporter_otlp_1);
    assert_eq!(exporter_stdout.clone().merge_right(exporter_stdout.clone()), exporter_stdout);
    assert_eq!(
        exporter_otlp_1.clone().merge_right(exporter_otlp_2.clone()),
        TelemetryStatic {
            export: Some(TelemetryExporterConfig::Otlp(OtlpExporterConfig {
                url: "test-url-2".to_owned(),
                headers: vec![KeyValue { key: "header_b".to_owned(), value: "b".to_owned() }]
            })),
            request_headers: vec!["Api-Key-A".to_string(), "Api-Key-B".to_string(),]
        }
    );
    assert_eq!(
        exporter_prometheus_1.clone().merge_right(exporter_prometheus_2.clone()),
        exporter_prometheus_2
    );
}

fn header_set(headers: &[&str]) -> StrSet {
    let mut s = StrSet::new();
    for h in headers {
        s.insert(h.to_string());
    }
    s
}

fn setup_upstream_with_headers(headers: &[&str]) -> UpstreamStatic {
    UpstreamStatic { allowed_headers: Some(header_set(headers)), ..Default::default() }
}

#[test]
fn allowed_headers_merge_both() {
    let a = setup_upstream_with_headers(&["a", "b", "c"]);
    let b = setup_upstream_with_headers(&["d", "e", "f"]);
    let merged = a.merge_right(b);
    assert_eq!(merged.allowed_headers, Some(header_set(&["a", "b", "c", "d", "e", "f"])));
}

#[test]
fn allowed_headers_merge_first() {
    let a = setup_upstream_with_headers(&["a", "b", "c"]);
    let b = UpstreamStatic::default();
    let merged = a.merge_right(b);
    assert_eq!(merged.allowed_headers, Some(header_set(&["a", "b", "c"])));
}

#[test]
fn allowed_headers_merge_second() {
    let a = UpstreamStatic::default();
    let b = setup_upstream_with_headers(&["a", "b", "c"]);
    let merged = a.merge_right(b);
    assert_eq!(merged.allowed_headers, Some(header_set(&["a", "b", "c"])));
}
