use tailcall_config::config::static_config::apollo_check::{validate_apollo, validate_graph_ref};
use tailcall_config::config::static_config::telemetry_static::ApolloTelemetry;
use tailcall_config::valid::Cause;

fn failure(graph_ref: &str) -> Result<(), Vec<Cause>> {
    Err(vec![Cause::new(format!("`graph_ref` should be in the format <graph_id>@<variant> where `graph_id` and `variant` can only contain letters, numbers, '-' and '_'. Found {graph_ref}"))])
}

#[test]
fn test_validate_graph_ref() {
    let success = || Ok(());

    assert_eq!(validate_graph_ref("graph_id@variant"), success());
    assert_eq!(validate_graph_ref("gr@ph_id@variant"), failure("gr@ph_id@variant"));
    assert_eq!(validate_graph_ref("graph-Id@variant"), success());
    assert_eq!(validate_graph_ref("graph$id@variant1"), failure("graph$id@variant1"));
    assert_eq!(validate_graph_ref("gr@ph_id@variant"), failure("gr@ph_id@variant"));
}

#[test]
fn graph_ref_needs_both_parts() {
    assert_eq!(validate_graph_ref("@variant"), failure("@variant"));
    assert_eq!(validate_graph_ref("graph@"), failure("graph@"));
    assert_eq!(validate_graph_ref("graph"), failure("graph"));
    assert_eq!(validate_graph_ref(""), failure(""));
    assert_eq!(validate_graph_ref("g@v\n"), failure("g@v\n"));
    assert_eq!(validate_graph_ref("G9-_@v-9_"), Ok(()));
}

fn apollo(graph_ref: &str) -> ApolloTelemetry {
    ApolloTelemetry {
        api_key: "key".to_string(),
        graph_ref: graph_ref.to_string(),
        platform: None,
        user_version: None,
        version: None,
    }
}

#[test]
fn apollo_graph_ref_is_checked() {
    assert_eq!(validate_apollo(apollo("graph@current")), Ok(apollo("graph@current")));
    let err = validate_apollo(apollo("graph")).unwrap_err();
    assert_eq!(err.len(), 1);
    assert_eq!(err[0].trace, vec!["apollo.graph_ref".to_string()]);
    assert_eq!(
        err[0].message(),
        "[apollo.graph_ref] `graph_ref` should be in the format <graph_id>@<variant> where `graph_id` and `variant` can only contain letters, numbers, '-' and '_'. Found graph"
    );
}
