use tailcall_config::config::resolver::{ApolloFederation, Http, Resolver};
use tailcall_config::config::transformer::subgraph::Subgraph;
use tailcall_config::config::{Config, Field, Type};

fn http(path: &str) -> Resolver {
    Resolver::Http(Http { path: path.to_string(), ..Default::default() })
}

fn with_resolvers(n: usize) -> Type {
    let mut t = Type::default().fields(vec![("id", Field::default().type_of("Int".to_string()))]);
    for i in 0..n {
        t.resolvers.push(http(&format!("/r{}", i)));
    }
    t
}

#[test]
fn subgraph_rejects_entities_with_several_resolvers() {
    let config = Config::default().types(vec![
        ("A", with_resolvers(2)),
        ("B", with_resolvers(1)),
        ("C", with_resolvers(3)),
        ("D", with_resolvers(0)),
    ]);
    let errors = Subgraph.check_single_resolvers(&config).unwrap_err();
    assert_eq!(errors.len(), 2);
    assert_eq!(errors[0].error, "Only single resolver for entity is currently supported");
    assert_eq!(errors[0].trace, vec!["A".to_string()]);
    assert_eq!(errors[1].error, "Only single resolver for entity is currently supported");
    assert_eq!(errors[1].trace, vec!["C".to_string()]);
}

#[test]
fn subgraph_accepts_entities_with_one_resolver() {
    let config = Config::default().types(vec![("A", with_resolvers(1)), ("B", with_resolvers(0))]);
    assert!(Subgraph.check_single_resolvers(&config).is_ok());
}

fn check_service_field(query: &Type) {
    let field = query.fields.get("_service").unwrap();
    assert_eq!(field.type_of, "_Service");
    assert!(field.required);
    assert!(!field.list);
    assert_eq!(field.doc, Some("Apollo federation Query._service resolver".to_string()));
    assert_eq!(field.resolvers.len(), 1);
    assert!(matches!(field.resolvers[0], Resolver::ApolloFederation(ApolloFederation::Service)));
}

#[test]
fn subgraph_adds_service_type_and_query_field() {
    let config = Config::default().types(vec![("Foo", with_resolvers(0))]);
    let config = Subgraph.add_service(config);
    assert_eq!(config.schema.query, Some("Query".to_string()));
    let service = config.find_type("_Service").unwrap();
    assert_eq!(service.fields.len(), 1);
    let sdl = service.fields.get("sdl").unwrap();
    assert_eq!(sdl.type_of, "String");
    assert!(!sdl.required);
    assert!(!sdl.list);
    let query = config.find_type("Query").unwrap();
    assert_eq!(query.fields.len(), 1);
    check_service_field(query);
    assert!(config.find_type("Foo").is_some());
    assert_eq!(config.types.len(), 3);
}

#[test]
fn subgraph_extends_the_schema_query_type() {
    let config = Config::default()
        .query("Root")
        .types(vec![("Root", Type::default().fields(vec![("a", Field::default().type_of("Int".to_string()))]))]);
    let config = Subgraph.add_service(config);
    assert_eq!(config.schema.query, Some("Root".to_string()));
    let root = config.find_type("Root").unwrap();
    assert_eq!(root.fields.len(), 2);
    assert_eq!(root.fields.get("a").unwrap().type_of, "Int");
    check_service_field(root);
    assert!(config.find_type("Query").is_none());
    assert_eq!(config.types.len(), 2);
}
