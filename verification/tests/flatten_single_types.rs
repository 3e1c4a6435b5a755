use tailcall_config::config::resolver::Http;
use tailcall_config::config::transformer::flatten_single_types::FlattenSingleTypes;
use tailcall_config::config::{Config, Field, Type};

fn field(t: &str) -> Field {
    Field::default().type_of(t.to_string())
}

fn names(c: &Config) -> Vec<String> {
    c.types.entries.iter().map(|(k, _)| k.clone()).collect()
}

#[test]
fn flattens_chains_of_single_types() {
    let config = Config::default().query("Query").types(vec![
        ("Query", Type::default().fields(vec![("foo", field("Foo")), ("other", field("String"))])),
        ("Foo", Type::default().fields(vec![("bar", field("Bar"))])),
        ("Bar", Type::default().fields(vec![("a", field("Int"))])),
    ]);
    let r = FlattenSingleTypes.transform(config).unwrap();
    assert_eq!(names(&r), vec!["Query".to_string()]);
    let foo = r.types.get("Query").unwrap().fields.get("foo").unwrap();
    assert_eq!(foo.type_of, "Int");
    assert!(!foo.list && !foo.required);
}

#[test]
fn keeps_fields_with_resolvers_and_their_single_types() {
    let config = Config::default().query("Query").types(vec![
        ("Query", Type::default().fields(vec![("foo", field("Foo").http(Http::default())), ("x", field("Int"))])),
        ("Foo", Type::default().fields(vec![("a", field("Int"))])),
    ]);
    let r = FlattenSingleTypes.transform(config).unwrap();
    assert_eq!(names(&r), vec!["Foo".to_string(), "Query".to_string()]);
    assert_eq!(r.types.get("Query").unwrap().fields.get("foo").unwrap().type_of, "Foo");
}

#[test]
fn keeps_lists_of_lists() {
    let config = Config::default().query("Query").types(vec![
        ("Query", Type::default().fields(vec![("foos", field("Foo").into_list()), ("x", field("Int"))])),
        ("Foo", Type::default().fields(vec![("items", field("Int").into_list())])),
    ]);
    let r = FlattenSingleTypes.transform(config).unwrap();
    assert!(r.types.get("Foo").is_some());
    assert_eq!(r.types.get("Query").unwrap().fields.get("foos").unwrap().type_of, "Foo");
}

#[test]
fn merges_list_and_required_flags() {
    let mut ids = field("Int").into_list().into_required();
    ids.list_type_required = true;
    let config = Config::default().query("Query").types(vec![
        ("Query", Type::default().fields(vec![("foo", field("Foo").into_required()), ("x", field("Int"))])),
        ("Foo", Type::default().fields(vec![("ids", ids)])),
        ("Item", Type::default().fields(vec![("n", field("Int")), ("m", field("Int"))])),
        ("Holder", Type::default().fields(vec![("items", field("Wrap").into_list()), ("k", field("Int"))])),
        ("Wrap", Type::default().fields(vec![("item", field("Item").into_required())])),
    ]);
    let r = FlattenSingleTypes.transform(config).unwrap();
    let foo = r.types.get("Query").unwrap().fields.get("foo").unwrap();
    assert_eq!(foo.type_of, "Int");
    assert!(foo.list && foo.required && foo.list_type_required);
    let items = r.types.get("Holder").unwrap().fields.get("items").unwrap();
    assert_eq!(items.type_of, "Item");
    assert!(items.list && !items.required && !items.list_type_required);
    assert_eq!(names(&r), vec!["Holder".to_string(), "Item".to_string(), "Query".to_string()]);
}
