use tailcall_config::config::resolver::{ApolloFederation, Http, Resolver};
use tailcall_config::config::transformer::entities::EntityResolver;
use tailcall_config::config::{Config, Field, Type};

fn entity(path: &str) -> Type {
    let mut t = Type::default().fields(vec![("id", Field::default().type_of("ID".to_string()))]);
    t.resolvers.push(Resolver::Http(Http { path: path.to_string(), ..Default::default() }));
    t
}

#[test]
fn entity_resolver_adds_union_scalar_and_field() {
    let config = Config::default().query("Root").types(vec![
        ("Root", Type::default().fields(vec![("users", Field::default().type_of("User".to_string()).into_list())])),
        ("User", entity("/users/{{.value.id}}")),
        ("Post", entity("/posts/{{.value.id}}")),
        ("Comment", Type::default()),
    ]);
    let r = EntityResolver.transform(config).unwrap();
    assert_eq!(r.schema.query, Some("Root".to_string()));
    let union = r.unions.get("_Entity").unwrap();
    assert_eq!(union.types.items, vec!["Post".to_string(), "User".to_string()]);
    assert!(union.doc.is_none());
    let any = r.types.get("_Any").unwrap();
    assert!(any.fields.entries.is_empty());
    let root = r.types.get("Root").unwrap();
    assert!(root.fields.get("users").is_some());
    let field = root.fields.get("_entities").unwrap();
    assert_eq!(field.type_of, "_Entity");
    assert!(field.list && field.required && !field.list_type_required && !field.omit);
    assert_eq!(field.doc, Some("Apollo federation Query._entities resolver".to_string()));
    let arg = field.args.get("representations").unwrap();
    assert_eq!(arg.type_of, "_Any");
    assert!(arg.list && arg.required);
    assert_eq!(field.resolvers.len(), 1);
    match &field.resolvers[0] {
        Resolver::ApolloFederation(ApolloFederation::EntityResolver(e)) => {
            assert_eq!(e.resolver_by_type.entries.len(), 2);
            match e.resolver_by_type.get("User").unwrap() {
                Resolver::Http(h) => assert_eq!(h.path, "/users/{{.value.id}}"),
                _ => panic!("expected an http resolver"),
            }
        }
        _ => panic!("expected an entity resolver"),
    }
    // the entity types keep their own resolvers
    assert_eq!(r.types.get("User").unwrap().resolvers.len(), 1);
}

#[test]
fn entity_resolver_creates_query_type() {
    let config = Config::default().types(vec![("User", entity("/users"))]);
    let r = EntityResolver.transform(config).unwrap();
    assert_eq!(r.schema.query, Some("Query".to_string()));
    let query = r.types.get("Query").unwrap();
    assert_eq!(query.fields.entries.len(), 1);
    assert!(query.fields.get("_entities").is_some());
}

#[test]
fn entity_resolver_without_resolvers_changes_nothing() {
    let config = Config::default().types(vec![("User", Type::default())]);
    let r = EntityResolver.transform(config).unwrap();
    assert!(r.schema.query.is_none());
    assert!(r.unions.entries.is_empty());
    assert_eq!(r.types.entries.len(), 1);
}
