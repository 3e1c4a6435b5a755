use indexmap::IndexMap;
use tailcall_config::config::resolver::{Grpc, GrpcBody, Http, Resolver};
use tailcall_config::config::transformer::rename_args::{Location, RenameArgs};
use tailcall_config::config::url_query::URLQuery;
use tailcall_config::config::{Arg, Config, Field, Type};

fn arg(type_of: &str, required: bool) -> Arg {
    Arg { type_of: type_of.to_string(), list: false, required, doc: None }
}

fn with_args(mut field: Field, args: &[(&str, Arg)]) -> Field {
    for (name, a) in args {
        field.args.insert(name.to_string(), a.clone());
    }
    field
}

fn location(field_name: &str, new_argument_name: &str, ty_name: &str) -> Location {
    Location {
        field_name: field_name.to_string(),
        new_argument_name: new_argument_name.to_string(),
        ty_name: ty_name.to_string(),
    }
}

fn renames(entries: Vec<(&str, Location)>) -> RenameArgs {
    let mut map = IndexMap::new();
    for (k, v) in entries {
        map.insert(k.to_string(), v);
    }
    RenameArgs::new(map)
}

fn http_of(field: &Field) -> &Http {
    match &field.resolvers[0] {
        Resolver::Http(h) => h,
        _ => panic!("expected an http resolver"),
    }
}

#[test]
fn test_rename_args() {
    let user = with_args(
        Field::default()
            .type_of("JSON".to_string())
            .http(Http { path: "https://jsonplaceholder.typicode.com/users/{{.args.id}}".to_string(), ..Default::default() }),
        &[("id", arg("ID", true))],
    );
    let config = Config::default().types(vec![("Query", Type::default().fields(vec![("user", user)]))]);
    let arg_info1 = location("user", "userId", "Query");
    let transformed = renames(vec![("id", arg_info1.clone())]).transform(config).unwrap();
    let field = transformed.types.get("Query").unwrap().fields.get("user").unwrap();
    assert!(field.args.get("id").is_none());
    assert_eq!(field.args.get("userId").unwrap().type_of, "ID");
    assert!(field.args.get("userId").unwrap().required);
    assert_eq!(http_of(field).path, "https://jsonplaceholder.typicode.com/users/{{.args.userId}}");
}

#[test]
fn test_fail_query_parameter_rename() {
    let user = with_args(
        Field::default().type_of("JSON".to_string()).http(Http {
            path: "https://jsonplaceholder.typicode.com/users".to_string(),
            query: vec![URLQuery { key: "id".to_string(), value: "{{.args.id}}".to_string(), skip_empty: None }],
            ..Default::default()
        }),
        &[("id", arg("ID", true)), ("name", arg("String", false))],
    );
    let config = Config::default().types(vec![("Query", Type::default().fields(vec![("user", user)]))]);
    let result = renames(vec![("id", location("user", "userId", "Query"))]).transform(config);
    assert!(result.is_err());
    let errors = result.err().unwrap();
    assert_eq!(errors.len(), 1);
    assert_eq!(
        errors[0].error,
        "Cannot rename argument 'id' to 'userId' in field 'user' of type 'Query'. Renaming of query parameters is not allowed."
    );
    assert!(errors[0].trace.is_empty());
}

#[test]
fn test_body_param() {
    let hello = Field::default().type_of("String".to_string()).into_required();
    let create_post = with_args(
        Field::default().type_of("JSON".to_string()).into_required().http(Http {
            path: "/posts".to_string(),
            body: Some("{{.args.input}}".to_string()),
            ..Default::default()
        }),
        &[("input", arg("JSON", false))],
    );
    let config = Config::default().query("Query").types(vec![
        ("Query", Type::default().fields(vec![("hello", hello)])),
        ("Mutation", Type::default().fields(vec![("createPost", create_post)])),
    ]);
    let result = renames(vec![("input", location("createPost", "createPostInput", "Mutation"))])
        .transform(config)
        .unwrap();
    let field = result.types.get("Mutation").unwrap().fields.get("createPost").unwrap();
    assert!(field.args.get("input").is_none());
    assert_eq!(field.args.get("createPostInput").unwrap().type_of, "JSON");
    assert_eq!(http_of(field).path, "/posts");
    assert_eq!(http_of(field).body, Some("{{.args.createPostInput}}".to_string()));
    assert!(result.types.get("Query").unwrap().fields.get("hello").is_some());
}

#[test]
fn test_rename_args_conflict() {
    let user = with_args(
        Field::default().type_of("JSON".to_string()),
        &[("id", arg("ID", true)), ("name", arg("String", false)), ("userName", arg("String", false))],
    );
    let config = Config::default().types(vec![("Query", Type::default().fields(vec![("user", user)]))]);
    let result = renames(vec![("name", location("user", "userName", "Query"))]).transform(config);
    assert!(result.is_err());
    let errors = result.err().unwrap();
    assert_eq!(errors.len(), 1);
    assert_eq!(
        errors[0].error,
        "Cannot rename argument from 'name' to 'userName' as it already exists in field 'user' of type 'Query'."
    );
}

#[test]
fn rename_args_reports_missing_field_and_missing_argument() {
    let user = with_args(Field::default().type_of("JSON".to_string()), &[("id", arg("ID", true))]);
    let config = Config::default().types(vec![("Query", Type::default().fields(vec![("user", user)]))]);
    let result = renames(vec![
        ("id", location("missing", "x", "Query")),
        ("other", location("user", "y", "Query")),
        ("id", location("user", "userId", "Nope")),
    ])
    .transform(config);
    let errors = result.err().unwrap();
    assert_eq!(errors.len(), 2);
    assert_eq!(errors[0].error, "Cannot rename argument as Field 'id' not found in type 'Nope'.");
    assert_eq!(errors[1].error, "Cannot rename argument 'other' as it does not exist in field 'user' of type 'Query'.");
}

#[test]
fn rename_args_refuses_other_resolvers() {
    let mut user = with_args(Field::default().type_of("JSON".to_string()), &[("id", arg("ID", true))]);
    user.resolvers.push(Resolver::Js(Default::default()));
    let config = Config::default().types(vec![("Query", Type::default().fields(vec![("user", user)]))]);
    let errors = renames(vec![("id", location("user", "userId", "Query"))]).transform(config).err().unwrap();
    assert_eq!(
        errors[0].error,
        "Cannot rename argument 'id' to 'userId' in field 'user' of type 'Query'. Renaming is only supported for HTTP and gRPC resolvers."
    );
}

#[test]
fn rename_args_rewrites_grpc_body_and_chains_renames() {
    let mut user = with_args(Field::default().type_of("JSON".to_string()), &[("id", arg("ID", true))]);
    user.resolvers.push(Resolver::Grpc(Grpc { body: Some(GrpcBody::Text("{{.args.id}}".to_string())), ..Default::default() }));
    let config = Config::default().types(vec![("Query", Type::default().fields(vec![("user", user)]))]);
    let transformed = renames(vec![
        ("id", location("user", "userId", "Query")),
        ("userId", location("user", "uid", "Query")),
    ])
    .transform(config)
    .unwrap();
    let field = transformed.types.get("Query").unwrap().fields.get("user").unwrap();
    assert!(field.args.get("uid").is_some());
    assert_eq!(field.args.entries.len(), 1);
    match &field.resolvers[0] {
        Resolver::Grpc(g) => assert_eq!(g.body, Some(GrpcBody::Text("{{.args.uid}}".to_string()))),
        _ => panic!("expected a grpc resolver"),
    }
}

#[test]
fn rename_args_keeps_a_grpc_body_that_is_not_a_json_string() {
    let mut user = with_args(Field::default().type_of("JSON".to_string()), &[("id", arg("ID", true))]);
    let body = GrpcBody::Value("{\"id\": \"{{.args.id}}\"}".to_string());
    user.resolvers.push(Resolver::Grpc(Grpc { body: Some(body.clone()), ..Default::default() }));
    let config = Config::default().types(vec![("Query", Type::default().fields(vec![("user", user)]))]);
    let transformed = renames(vec![("id", location("user", "userId", "Query"))]).transform(config).unwrap();
    let field = transformed.types.get("Query").unwrap().fields.get("user").unwrap();
    assert!(field.args.get("userId").is_some());
    match &field.resolvers[0] {
        Resolver::Grpc(g) => assert_eq!(g.body, Some(body)),
        _ => panic!("expected a grpc resolver"),
    }
}
