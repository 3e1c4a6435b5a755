use tailcall_config::config::npo::tracker::PathTracker;
use tailcall_config::config::resolver::{Http, Resolver};
use tailcall_config::config::{Config, Field, Type};

fn http() -> Http {
    Http::default()
}

fn batched() -> Http {
    Http { batch_key: vec!["id".into()], ..Default::default() }
}

fn n_plus_one(config: &Config) -> String {
    PathTracker::new(config).find().to_query_string()
}

fn chain(list_first: bool, batch_second: bool, second_resolver: bool) -> Config {
    let f1 = Field::default().type_of("F1".to_string()).http(http());
    let f1 = if list_first { f1.into_list() } else { f1 };
    let f2 = Field::default().type_of("F2".to_string()).into_list();
    let f2 = if second_resolver { f2.http(if batch_second { batched() } else { http() }) } else { f2 };
    Config::default().query("Query").types(vec![
        ("Query", Type::default().fields(vec![("f1", f1)])),
        ("F1", Type::default().fields(vec![("f2", f2)])),
        ("F2", Type::default().fields(vec![("f3", Field::default().type_of("String".to_string()))])),
    ])
}

fn deep(list_first: bool) -> Config {
    let f1 = Field::default().type_of("F1".to_string()).http(http());
    let f1 = if list_first { f1.into_list() } else { f1 };
    Config::default().query("Query").types(vec![
        ("Query", Type::default().fields(vec![("f1", f1)])),
        ("F1", Type::default().fields(vec![("f2", Field::default().type_of("F2".to_string()).into_list())])),
        ("F2", Type::default().fields(vec![("f3", Field::default().type_of("F3".to_string()).into_list())])),
        (
            "F3",
            Type::default().fields(vec![("f4", Field::default().type_of("String".to_string()).http(http()))]),
        ),
    ])
}

#[test]
fn test_resolvers() {
    assert_eq!(n_plus_one(&chain(true, false, true)), "query { f1 { f2 } }");
}

#[test]
fn test_batched_resolvers() {
    assert_eq!(n_plus_one(&chain(true, true, true)), "");
}

#[test]
fn test_nested_resolvers() {
    assert_eq!(n_plus_one(&deep(true)), "query { f1 { f2 { f3 { f4 } } } }");
}

#[test]
fn test_nested_resolvers_non_list_resolvers() {
    assert_eq!(n_plus_one(&deep(false)), "query { f1 { f2 { f3 { f4 } } } }");
}

#[test]
fn test_nested_resolvers_without_resolvers() {
    assert_eq!(n_plus_one(&chain(true, false, false)), "");
}

#[test]
fn test_cycles() {
    let config = Config::default().query("Query").types(vec![
        (
            "Query",
            Type::default().fields(vec![("f1", Field::default().type_of("F1".to_string()).into_list().http(http()))]),
        ),
        (
            "F1",
            Type::default().fields(vec![
                ("f1", Field::default().type_of("F1".to_string())),
                ("f2", Field::default().type_of("F2".to_string()).into_list()),
            ]),
        ),
        ("F2", Type::default().fields(vec![("f3", Field::default().type_of("String".to_string()))])),
    ]);
    assert_eq!(n_plus_one(&config), "");
}

#[test]
fn test_cycles_with_resolvers() {
    let config = Config::default().query("Query").types(vec![
        (
            "Query",
            Type::default().fields(vec![("f1", Field::default().type_of("F1".to_string()).into_list().http(http()))]),
        ),
        (
            "F1",
            Type::default().fields(vec![
                ("f1", Field::default().type_of("F1".to_string()).into_list()),
                ("f2", Field::default().type_of("String".to_string()).http(http())),
            ]),
        ),
    ]);
    assert_eq!(n_plus_one(&config), "query { f1 { f2 } }");
}

#[test]
fn test_nested_non_list() {
    let config = Config::default().query("Query").types(vec![
        ("Query", Type::default().fields(vec![("f", Field::default().type_of("F".to_string()).http(http()))])),
        (
            "F",
            Type::default().fields(vec![("g", Field::default().type_of("G".to_string()).into_list().http(http()))]),
        ),
        ("G", Type::default().fields(vec![("e", Field::default().type_of("String".to_string()))])),
    ]);
    assert_eq!(n_plus_one(&config), "");
}

#[test]
fn test_multiple_keys() {
    let mut user = Type::default().fields(vec![
        ("id", Field::default().type_of("Int".to_string())),
        ("posts", Field::default().type_of("Post".to_string()).into_list().http(http())),
    ]);
    user.resolvers.push(Resolver::Http(batched()));
    let mut config = Config::default();
    config.insert_type("User".to_string(), user);
    assert_eq!(
        n_plus_one(&config),
        "query { __entities(representations: [{ __typename: \"User\"}]) { posts } }"
    );
}

#[test]
fn test_multiple_type_usage() {
    let config = Config::default().query("Query").types(vec![
        (
            "Query",
            Type::default().fields(vec![
                ("user", Field::default().type_of("User".to_string()).http(http())),
                ("users", Field::default().type_of("User".to_string()).into_list().http(http())),
            ]),
        ),
        (
            "User",
            Type::default().fields(vec![("posts", Field::default().type_of("Post".to_string()).into_list().http(http()))]),
        ),
        ("Post", Type::default().fields(vec![("id", Field::default().type_of("Int".to_string()))])),
    ]);
    assert_eq!(n_plus_one(&config), "query { users { posts } }");
}

#[test]
fn test_entity_resolver() {
    let mut post = Type::default().fields(vec![("id", Field::default().type_of("Int".to_string()))]);
    post.resolvers.push(Resolver::Http(http()));
    let mut user = Type::default().fields(vec![("id", Field::default().type_of("Int".to_string()))]);
    user.resolvers.push(Resolver::Http(batched()));
    let mut config = Config::default();
    config.insert_type("Post".to_string(), post);
    config.insert_type("User".to_string(), user);
    assert_eq!(
        n_plus_one(&config),
        "query { __entities(representations: [{ __typename: \"Post\"}]) }"
    );
}

#[test]
fn test_nested_config() {
    let config = Config::default().query("Query").types(vec![
        (
            "Query",
            Type::default().fields(vec![("a", Field::default().type_of("A".to_string()).into_list().http(http()))]),
        ),
        (
            "A",
            Type::default().fields(vec![
                ("b", Field::default().type_of("B".to_string())),
                ("c", Field::default().type_of("String".to_string()).http(http())),
            ]),
        ),
        (
            "B",
            Type::default().fields(vec![("d", Field::default().type_of("String".to_string()).http(http()))]),
        ),
    ]);
    assert_eq!(n_plus_one(&config), "query { a { b { d } } }\nquery { a { c } }");
}

#[test]
fn test_multiple_deeply_nested() {
    let config = Config::default().query("Query").types(vec![
        (
            "Query",
            Type::default().fields(vec![
                ("x", Field::default().type_of("X".to_string()).into_list()),
                ("y", Field::default().type_of("Y".to_string()).into_list()),
            ]),
        ),
        ("X", Type::default().fields(vec![("z", Field::default().type_of("Z".to_string()))])),
        ("Y", Type::default().fields(vec![("z", Field::default().type_of("Z".to_string()).http(batched()))])),
        (
            "Z",
            Type::default().fields(vec![("w", Field::default().type_of("String".to_string()).http(http()))]),
        ),
    ]);
    assert_eq!(n_plus_one(&config), "query { x { z { w } } }\nquery { y { z { w } } }");
}

#[test]
fn test_cycles_with_resolver() {
    let config = Config::default().query("Query").types(vec![
        (
            "Query",
            Type::default().fields(vec![("f1", Field::default().type_of("F1".to_string()).into_list().http(http()))]),
        ),
        (
            "F1",
            Type::default().fields(vec![
                ("f1", Field::default().type_of("F1".to_string()).into_list()),
                ("f2", Field::default().type_of("String".to_string()).http(http())),
            ]),
        ),
    ]);
    assert_eq!(n_plus_one(&config), "query { f1 { f2 } }");
}
