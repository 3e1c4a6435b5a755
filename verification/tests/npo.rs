use tailcall_config::config::npo::identifier::{FieldName, Identifier, TypeName};
use tailcall_config::config::npo::output::Output;
use tailcall_config::config::npo::tracker::PathTracker;
use tailcall_config::config::npo::yield_map::YieldInner;
use tailcall_config::config::npo::NPOIdentifier;
use tailcall_config::config::resolver::{Http, Resolver};
use tailcall_config::config::{Config, Field, Type};

fn list_resolvers_config() -> Config {
    Config::default().query("Query").types(vec![
        (
            "Query",
            Type::default().fields(vec![(
                "f1",
                Field::default().type_of("F1".to_string()).into_list().http(Http::default()),
            )]),
        ),
        (
            "F1",
            Type::default().fields(vec![(
                "f2",
                Field::default().type_of("F2".to_string()).into_list().http(Http::default()),
            )]),
        ),
        (
            "F2",
            Type::default().fields(vec![("f3", Field::default().type_of("String".to_string()))]),
        ),
    ])
}

#[test]
fn identifier_finds_resolver_under_list() {
    let config = list_resolvers_config();
    let queries = Identifier::new(&config).identify();
    assert_eq!(queries.size(), 1);
    assert_eq!(queries.0, vec![vec!["f2", "f1"]]);
    assert_eq!(queries.to_query_string(), "query { f2 { f1 } }");
}

#[test]
fn identifier_without_query_finds_nothing() {
    let config = Config::default().types(vec![(
        "F1",
        Type::default().fields(vec![(
            "f2",
            Field::default().type_of("F2".to_string()).into_list().http(Http::default()),
        )]),
    )]);
    let queries = Identifier::new(&config).identify();
    assert_eq!(queries.size(), 0);
    assert_eq!(queries.to_query_string(), "");
}

#[test]
fn npo_identifier_finds_resolver_under_list() {
    let config = list_resolvers_config();
    let found = NPOIdentifier::new(&config).find();
    assert_eq!(found, vec![vec!["f2", "f1"]]);
}

#[test]
fn npo_identifier_skips_batched_resolver() {
    let config = Config::default().query("Query").types(vec![
        (
            "Query",
            Type::default().fields(vec![(
                "f1",
                Field::default().type_of("F1".to_string()).into_list().http(Http::default()),
            )]),
        ),
        (
            "F1",
            Type::default().fields(vec![(
                "f2",
                Field::default()
                    .type_of("F2".to_string())
                    .into_list()
                    .http(Http { batch_key: vec!["id".into()], ..Default::default() }),
            )]),
        ),
    ]);
    let found = NPOIdentifier::new(&config).find();
    assert!(found.is_empty());
}

#[test]
fn tracker_finds_query_path() {
    let config = list_resolvers_config();
    let paths = PathTracker::new(&config).find();
    assert_eq!(paths.size(), 1);
    assert_eq!(paths.0, vec![vec!["f1".to_string(), "f2".to_string()]]);
    assert_eq!(paths.to_query_string(), "query { f1 { f2 } }");
}

#[test]
fn tracker_finds_entity_paths() {
    let mut user = Type::default().fields(vec![(
        "posts",
        Field::default().type_of("Post".to_string()).into_list().http(Http::default()),
    )]);
    user.resolvers.push(Resolver::Http(Http { batch_key: vec!["id".into()], ..Default::default() }));
    let mut post = Type::default().fields(vec![("id", Field::default().type_of("Int".to_string()))]);
    post.resolvers.push(Resolver::Http(Http::default()));
    let mut config = Config::default();
    config.insert_type("User".to_string(), user);
    config.insert_type("Post".to_string(), post);
    let paths = PathTracker::new(&config).find();
    assert_eq!(
        paths.0,
        vec![
            vec!["__entities(representations: [{ __typename: \"Post\"}])".to_string()],
            vec![
                "__entities(representations: [{ __typename: \"User\"}])".to_string(),
                "posts".to_string()
            ],
        ]
    );
    assert_eq!(
        paths.to_query_string(),
        "query { __entities(representations: [{ __typename: \"Post\"}]) }\nquery { __entities(representations: [{ __typename: \"User\"}]) { posts } }"
    );
}

#[test]
fn output_query_paths_follow_every_walk() {
    let map = vec![
        (
            TypeName::new("Query"),
            vec![(FieldName::new("a"), TypeName::new("A")), (FieldName::new("b"), TypeName::new("B"))],
        ),
        (TypeName::new("A"), vec![(FieldName::new("c"), TypeName::new("C"))]),
    ];
    let output = Output::new(map, "Query");
    let paths: Vec<Vec<&str>> =
        output.query_paths().iter().map(|p| p.iter().map(|f| f.as_str()).collect()).collect();
    assert_eq!(paths, vec![vec!["a", "c"], vec!["b"]]);
}

#[test]
fn output_query_paths_stop_at_cycles() {
    let map = vec![
        (TypeName::new("Query"), vec![(FieldName::new("a"), TypeName::new("A"))]),
        (
            TypeName::new("A"),
            vec![(FieldName::new("self_ref"), TypeName::new("A")), (FieldName::new("end"), TypeName::new("Leaf"))],
        ),
    ];
    let output = YieldInner(map).into_yield("Query");
    let output = Output::new(output.map, output.root);
    let paths: Vec<Vec<&str>> =
        output.query_paths().iter().map(|p| p.iter().map(|f| f.as_str()).collect()).collect();
    assert_eq!(paths, vec![vec!["a", "self_ref", "end"], vec!["a", "end"]]);
}
