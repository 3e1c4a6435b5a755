use tailcall_config::config::npo::identifier::Identifier;
use tailcall_config::config::resolver::Http;
use tailcall_config::config::{Config, Field, Type};

fn n_plus_one(config: &Config) -> String {
    let formatted = Identifier::new(config).identify().to_query_string();
    let mut formatted = formatted.split('\n').collect::<Vec<_>>();
    formatted.sort();
    formatted.join("\n")
}

fn batched() -> Http {
    Http { batch_key: vec!["id".into()], ..Default::default() }
}

fn simple_resolvers(second: Http) -> Config {
    Config::default().query("Query").types(vec![
        (
            "Query",
            Type::default().fields(vec![(
                "f1",
                Field::default().type_of("F1".to_string()).into_list().http(Http::default()),
            )]),
        ),
        (
            "F1",
            Type::default().fields(vec![("f2", Field::default().type_of("F2".to_string()).into_list().http(second))]),
        ),
        ("F2", Type::default().fields(vec![("f3", Field::default().type_of("String".to_string()))])),
    ])
}

fn nested_resolvers(first_list: bool) -> Config {
    let f1 = Field::default().type_of("F1".to_string()).http(Http::default());
    let f1 = if first_list { f1.into_list() } else { f1 };
    Config::default().query("Query").types(vec![
        ("Query", Type::default().fields(vec![("f1", f1)])),
        ("F1", Type::default().fields(vec![("f2", Field::default().type_of("F2".to_string()).into_list())])),
        ("F2", Type::default().fields(vec![("f3", Field::default().type_of("F3".to_string()).into_list())])),
        (
            "F3",
            Type::default().fields(vec![(
                "f4",
                Field::default().type_of("String".to_string()).http(Http::default()),
            )]),
        ),
    ])
}

fn cyclic_resolvers() -> Config {
    Config::default().query("Query").types(vec![
        (
            "Query",
            Type::default().fields(vec![(
                "f1",
                Field::default().type_of("F1".to_string()).into_list().http(Http::default()),
            )]),
        ),
        (
            "F1",
            Type::default().fields(vec![
                ("f1", Field::default().type_of("F1".to_string()).into_list()),
                ("f2", Field::default().type_of("String".to_string()).http(Http::default())),
            ]),
        ),
        ("F2", Type::default().fields(vec![("f3", Field::default().type_of("String".to_string()))])),
    ])
}

#[test]
fn identifier_test_nplusone_resolvers() {
    assert_eq!(n_plus_one(&simple_resolvers(Http::default())), "query { f2 { f1 } }");
}

#[test]
fn identifier_test_nplusone_batched_resolvers() {
    assert_eq!(n_plus_one(&simple_resolvers(batched())), "");
}

#[test]
fn identifier_test_nplusone_nested_resolvers() {
    assert_eq!(n_plus_one(&nested_resolvers(true)), "query { f4 { f3 { f2 { f1 } } } }");
}

#[test]
fn identifier_test_nplusone_nested_resolvers_non_list_resolvers() {
    assert_eq!(n_plus_one(&nested_resolvers(false)), "query { f4 { f3 { f2 { f1 } } } }");
}

#[test]
fn identifier_test_nplusone_nested_resolvers_without_resolvers() {
    let config = Config::default().query("Query").types(vec![
        (
            "Query",
            Type::default().fields(vec![(
                "f1",
                Field::default().type_of("F1".to_string()).into_list().http(Http::default()),
            )]),
        ),
        ("F1", Type::default().fields(vec![("f2", Field::default().type_of("F2".to_string()).into_list())])),
        ("F2", Type::default().fields(vec![("f3", Field::default().type_of("String".to_string()))])),
    ]);
    assert_eq!(n_plus_one(&config), "");
}

#[test]
fn identifier_test_nplusone_cycles() {
    let config = Config::default().query("Query").types(vec![
        (
            "Query",
            Type::default().fields(vec![(
                "f1",
                Field::default().type_of("F1".to_string()).into_list().http(Http::default()),
            )]),
        ),
        (
            "F1",
            Type::default().fields(vec![
                ("f1", Field::default().type_of("F1".to_string())),
                ("f2", Field::default().type_of("F2".to_string()).into_list()),
            ]),
        ),
        ("F2", Type::default().fields(vec![("f3", Field::default().type_of("String".to_string()))])),
    ]);
    assert_eq!(n_plus_one(&config), "");
}

#[test]
fn identifier_test_nplusone_cycles_with_resolvers() {
    assert_eq!(n_plus_one(&cyclic_resolvers()), "query { f2 { f1 { f1 } } }\nquery { f2 { f1 } }");
}

#[test]
fn identifier_test_nplusone_nested_non_list() {
    let config = Config::default().query("Query").types(vec![
        ("Query", Type::default().fields(vec![("f", Field::default().type_of("F".to_string()).http(Http::default()))])),
        (
            "F",
            Type::default().fields(vec![(
                "g",
                Field::default().type_of("G".to_string()).into_list().http(Http::default()),
            )]),
        ),
        ("G", Type::default().fields(vec![("e", Field::default().type_of("String".to_string()))])),
    ]);
    assert_eq!(n_plus_one(&config), "");
}

#[test]
fn test_npo_resolvers() {
    assert_eq!(n_plus_one(&simple_resolvers(Http::default())), "query { f2 { f1 } }");
}

#[test]
fn test_npo_nested_resolvers() {
    assert_eq!(n_plus_one(&nested_resolvers(true)), "query { f4 { f3 { f2 { f1 } } } }");
}

#[test]
fn test_npo_nested_resolvers_non_list_resolvers() {
    assert_eq!(n_plus_one(&nested_resolvers(false)), "query { f4 { f3 { f2 { f1 } } } }");
}

#[test]
fn test_npo_cycles_with_resolvers() {
    assert_eq!(n_plus_one(&cyclic_resolvers()), "query { f2 { f1 { f1 } } }\nquery { f2 { f1 } }");
}
