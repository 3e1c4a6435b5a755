use tailcall_config::config::transformer::rename_types::RenameTypes;
use tailcall_config::config::{Config, Field, Type};
use tailcall_config::strset::StrSet;

fn base_config() -> Config {
    Config::default().query("Query").types(vec![
        (
            "A",
            Type::default().fields(vec![
                ("id", Field::default().type_of("ID".to_string())),
                ("name", Field::default().type_of("String".to_string())),
            ]),
        ),
        (
            "Post",
            Type::default().fields(vec![
                ("id", Field::default().type_of("ID".to_string())),
                ("title", Field::default().type_of("String".to_string())),
            ]),
        ),
        (
            "Query",
            Type::default().fields(vec![("posts", Field::default().type_of("Post".to_string()).into_list())]),
        ),
    ])
}

#[test]
fn test_should_raise_error_when_type_not_found() {
    let config = base_config();
    let renames = RenameTypes::new(vec![
        ("Query".to_string(), "PostQuery".to_string()),
        ("A".to_string(), "User".to_string()),
        ("B".to_string(), "User".to_string()),
        ("C".to_string(), "User".to_string()),
    ]);
    let errors = renames.transform(config).unwrap_err();
    assert_eq!(errors.len(), 2);
    assert_eq!(errors[0].error, "Type 'B' not found in configuration.");
    assert_eq!(errors[1].error, "Type 'C' not found in configuration.");
    assert!(errors[0].trace.is_empty());
}

#[test]
fn test_should_raise_error_when_operation_type_name_is_different() {
    let config = Config::default().query("PostQuery").types(vec![
        ("Post", Type::default().fields(vec![("id", Field::default().type_of("ID".to_string()))])),
        (
            "PostQuery",
            Type::default().fields(vec![("posts", Field::default().type_of("Post".to_string()).into_list())]),
        ),
    ]);
    let result = RenameTypes::new(vec![("Query".to_string(), "PostQuery".to_string())]).transform(config);
    assert!(result.is_err());
}

#[test]
fn test_rename_type() {
    let config = base_config();
    let renamed = RenameTypes::new(vec![
        ("Query".to_string(), "PostQuery".to_string()),
        ("Post".to_string(), "Article".to_string()),
    ])
    .transform(config)
    .unwrap();
    assert_eq!(renamed.schema.query, Some("PostQuery".to_string()));
    let names: Vec<String> = renamed.types.entries.iter().map(|(k, _)| k.clone()).collect();
    assert_eq!(names, vec!["A".to_string(), "Article".to_string(), "PostQuery".to_string()]);
    let query = renamed.types.get("PostQuery").unwrap();
    assert_eq!(query.fields.get("posts").unwrap().type_of, "Article");
}

#[test]
fn test_inferface_rename() {
    let mut post = Type::default().fields(vec![("id", Field::default().type_of("ID".to_string()))]);
    let mut implements = StrSet::new();
    implements.insert("Node".to_string());
    post.implements = implements;
    let config = Config::default().query("Query").types(vec![
        ("Node", Type::default().fields(vec![("id", Field::default().type_of("ID".to_string()))])),
        ("Post", post),
        (
            "Query",
            Type::default().fields(vec![("posts", Field::default().type_of("Post".to_string()).into_list())]),
        ),
    ]);
    let renamed = RenameTypes::new(vec![("Node".to_string(), "NodeTest".to_string())]).transform(config).unwrap();
    let post = renamed.types.get("Post").unwrap();
    assert_eq!(post.implements.items, vec!["NodeTest".to_string()]);
    assert!(renamed.types.get("NodeTest").is_some());
    assert!(renamed.types.get("Node").is_none());
}
