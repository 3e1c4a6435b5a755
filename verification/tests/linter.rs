use tailcall_config::config::transformer::linter::{resolve_enum, resolve_types_and_fields, Linter};
use tailcall_config::config::{Arg, Config, Enum, Field, Type};
use tailcall_config::strmap::StrMap;
use tailcall_config::strset::StrSet;

fn enum_of(values: &[&str]) -> Enum {
    let mut variants = StrSet::new();
    for v in values {
        variants.insert(v.to_string());
    }
    Enum { variants, doc: None }
}

#[test]
fn linter_renames_types_fields_and_args() {
    let mut field = Field::default().type_of("user_profile".to_string());
    field.args.insert(
        "filter".to_string(),
        Arg { type_of: "filter_input".to_string(), list: false, required: false, doc: None },
    );
    let config = Config::default().types(vec![
        ("query_root", Type::default().fields(vec![("current_user", field)])),
        ("user_profile", Type::default().fields(vec![("first_name", Field::default().type_of("String".to_string()))])),
    ]);
    let linted = resolve_types_and_fields(config).unwrap();
    let names: Vec<String> = linted.types.entries.iter().map(|(k, _)| k.clone()).collect();
    assert_eq!(names, vec!["QueryRoot".to_string(), "UserProfile".to_string()]);
    let root = linted.types.get("QueryRoot").unwrap();
    let current = root.fields.get("currentUser").unwrap();
    assert_eq!(current.type_of, "UserProfile");
    assert_eq!(current.args.get("filter").unwrap().type_of, "FilterInput");
    let profile = linted.types.get("UserProfile").unwrap();
    assert!(profile.fields.get("firstName").is_some());
}

#[test]
fn linter_reports_colliding_type_names() {
    let config = Config::default().types(vec![
        ("FooBar", Type::default()),
        ("foo_bar", Type::default()),
    ]);
    let errors = resolve_types_and_fields(config).unwrap_err();
    assert_eq!(errors.len(), 1);
    assert_eq!(errors[0].error, "Duplicate key: FooBar");
    assert_eq!(errors[0].message(), "[] Duplicate key: FooBar");
}

#[test]
fn linter_reports_colliding_field_names() {
    let config = Config::default().types(vec![(
        "Query",
        Type::default().fields(vec![
            ("first_name", Field::default()),
            ("firstName", Field::default()),
        ]),
    )]);
    let errors = Linter.transform(config).unwrap_err();
    assert_eq!(errors.len(), 1);
    assert_eq!(errors[0].error, "Duplicate key: firstName");
}

#[test]
fn linter_renames_enums_and_values() {
    let mut config = Config::default();
    let mut enums = StrMap::new();
    enums.insert("order_status".to_string(), enum_of(&["active", "closed"]));
    config.enums = enums;
    let linted = resolve_enum(config).unwrap();
    let en = linted.enums.get("OrderStatus").unwrap();
    assert_eq!(en.variants.items, vec!["ACTIVE".to_string(), "CLOSED".to_string()]);
}

#[test]
fn linter_reports_colliding_enum_values() {
    let mut config = Config::default();
    let mut enums = StrMap::new();
    enums.insert("Status".to_string(), enum_of(&["Active", "active"]));
    config.enums = enums;
    let errors = Linter.transform(config).unwrap_err();
    assert_eq!(errors.len(), 1);
    assert_eq!(errors[0].error, "Duplicate value: Variant { name: \"ACTIVE\", alias: None }");
}

#[test]
fn linter_reports_every_collision_in_order() {
    let config = Config::default().types(vec![
        (
            "X",
            Type::default().fields(vec![("first_name", Field::default()), ("firstName", Field::default())]),
        ),
        ("Y", Type::default().fields(vec![("last_name", Field::default()), ("lastName", Field::default())])),
    ]);
    let errors = Linter.transform(config).unwrap_err();
    let messages: Vec<String> = errors.iter().map(|e| e.error.clone()).collect();
    assert_eq!(messages, vec!["Duplicate key: firstName".to_string(), "Duplicate key: lastName".to_string()]);
}
