use tailcall_config::config::transformer::union_input_type::UnionInputType;
use tailcall_config::config::{Arg, Config, Field, Type, Union};
use tailcall_config::strmap::StrMap;
use tailcall_config::strset::StrSet;

fn union_of(types: &[&str]) -> Union {
    let mut set = StrSet::new();
    for t in types {
        set.insert(t.to_string());
    }
    Union { types: set, doc: None }
}

fn arg(type_of: &str) -> Arg {
    Arg { type_of: type_of.to_string(), list: false, required: true, doc: Some("doc".to_string()) }
}

fn field_with_args(type_of: &str, args: &[(&str, &str)]) -> Field {
    let mut f = Field::default().type_of(type_of.to_string());
    for (name, ty) in args {
        f.args.insert(name.to_string(), arg(ty));
    }
    f
}

fn type_of_field(config: &Config, ty: &str, field: &str) -> String {
    config.types.get(ty).unwrap().fields.get(field).unwrap().type_of.clone()
}

fn arg_type(config: &Config, ty: &str, field: &str, arg: &str) -> String {
    config.types.get(ty).unwrap().fields.get(field).unwrap().args.get(arg).unwrap().type_of.clone()
}

fn type_names(config: &Config) -> Vec<String> {
    config.types.entries.iter().map(|(k, _)| k.clone()).collect()
}

fn field_names(config: &Config, ty: &str) -> Vec<String> {
    config.types.get(ty).unwrap().fields.entries.iter().map(|(k, _)| k.clone()).collect()
}

#[test]
fn test_union() {
    let mut config = Config::default().query("Query").types(vec![
        ("Query", Type::default().fields(vec![("foo", field_with_args("String", &[("x", "U")]))])),
        ("A", Type::default().fields(vec![("a", Field::default().type_of("String".to_string()))])),
        ("B", Type::default().fields(vec![("b", Field::default().type_of("Int".to_string()))])),
    ]);
    config.unions.insert("U".to_string(), union_of(&["A", "B"]));
    let config = UnionInputType.transform(config).unwrap();
    assert_eq!(type_names(&config), vec!["A", "B", "Query"]);
    assert_eq!(field_names(&config, "Query"), vec!["fooVar0", "fooVar1"]);
    assert_eq!(arg_type(&config, "Query", "fooVar0", "x"), "A");
    assert_eq!(arg_type(&config, "Query", "fooVar1", "x"), "B");
    let x = config.types.get("Query").unwrap().fields.get("fooVar1").unwrap().args.get("x").unwrap();
    assert!(x.required);
    assert_eq!(x.doc, Some("doc".to_string()));
    assert_eq!(type_of_field(&config, "Query", "fooVar1"), "String");
    assert_eq!(field_names(&config, "A"), vec!["a"]);
}

#[test]
fn test_union_in_type() {
    let mut config = Config::default().query("Query").types(vec![
        ("Query", Type::default().fields(vec![("foo", field_with_args("String", &[("input", "In")]))])),
        (
            "In",
            Type::default().fields(vec![
                ("s", Field::default().type_of("String".to_string())),
                ("u", Field::default().type_of("U".to_string())),
            ]),
        ),
        ("A", Type::default().fields(vec![("a", Field::default().type_of("String".to_string()))])),
        ("B", Type::default().fields(vec![("b", Field::default().type_of("Int".to_string()))])),
    ]);
    config.unions.insert("U".to_string(), union_of(&["A", "B"]));
    let config = UnionInputType.transform(config).unwrap();
    assert_eq!(type_names(&config), vec!["A", "B", "In", "In__u0", "In__u1", "Query"]);
    assert_eq!(type_of_field(&config, "In", "u"), "U");
    assert_eq!(type_of_field(&config, "In__u0", "u"), "A");
    assert_eq!(type_of_field(&config, "In__u1", "u"), "B");
    assert_eq!(type_of_field(&config, "In__u1", "s"), "String");
    assert_eq!(field_names(&config, "Query"), vec!["fooVar0", "fooVar1"]);
    assert_eq!(arg_type(&config, "Query", "fooVar0", "input"), "In__u0");
    assert_eq!(arg_type(&config, "Query", "fooVar1", "input"), "In__u1");
    assert_eq!(config.unions.get("U").unwrap().types.items, vec!["A", "B"]);
}

#[test]
fn two_union_arguments_give_every_combination() {
    let mut config = Config::default().query("Query").types(vec![(
        "Query",
        Type::default().fields(vec![("f", field_with_args("String", &[("a", "U"), ("b", "V")]))]),
    )]);
    config.unions.insert("U".to_string(), union_of(&["A", "B"]));
    config.unions.insert("V".to_string(), union_of(&["C", "D"]));
    let config = UnionInputType.transform(config).unwrap();
    assert_eq!(field_names(&config, "Query"), vec!["fVar0Var0", "fVar0Var1", "fVar1Var0", "fVar1Var1"]);
    assert_eq!(arg_type(&config, "Query", "fVar0Var1", "a"), "A");
    assert_eq!(arg_type(&config, "Query", "fVar0Var1", "b"), "D");
    assert_eq!(arg_type(&config, "Query", "fVar1Var0", "a"), "B");
    assert_eq!(arg_type(&config, "Query", "fVar1Var0", "b"), "C");
}

#[test]
fn arguments_without_unions_are_kept() {
    let config = Config::default().query("Query").types(vec![(
        "Query",
        Type::default().fields(vec![("f", field_with_args("String", &[("id", "Int")]))]),
    )]);
    let config = UnionInputType.transform(config).unwrap();
    assert_eq!(field_names(&config, "Query"), vec!["f"]);
    assert_eq!(arg_type(&config, "Query", "f", "id"), "Int");
}

#[test]
fn union_input_type_test_nested_unions() {
    let mut config = Config::default().query("Query").types(vec![(
        "Query",
        Type::default().fields(vec![("f", field_with_args("String", &[("x", "U")]))]),
    )]);
    config.unions.insert("U".to_string(), union_of(&["C", "V"]));
    config.unions.insert("V".to_string(), union_of(&["A", "B"]));
    let config = UnionInputType.transform(config).unwrap();
    assert_eq!(field_names(&config, "Query"), vec!["fVar0", "fVar1", "fVar2"]);
    assert_eq!(arg_type(&config, "Query", "fVar0", "x"), "A");
    assert_eq!(arg_type(&config, "Query", "fVar1", "x"), "B");
    assert_eq!(arg_type(&config, "Query", "fVar2", "x"), "C");
}

#[test]
fn every_type_is_kept_even_when_a_made_type_takes_its_name() {
    let mut config = Config::default().query("Query").types(vec![
        ("Query", Type::default().fields(vec![("foo", field_with_args("String", &[("input", "In")]))])),
        ("In", Type::default().fields(vec![("u", Field::default().type_of("U".to_string()))])),
        ("In__u0", Type::default().fields(vec![("old", Field::default().type_of("Int".to_string()))])),
    ]);
    config.unions.insert("U".to_string(), union_of(&["A", "B"]));
    let before = type_names(&config);
    let config = UnionInputType.transform(config).unwrap();
    for name in before {
        assert!(config.types.get(&name).is_some());
    }
    assert_eq!(field_names(&config, "In__u0"), vec!["u"]);
    assert_eq!(type_of_field(&config, "In__u0", "u"), "A");
}

#[test]
fn test_recurssive_input() {
    let mut config = Config::default().query("Query").types(vec![
        ("Query", Type::default().fields(vec![("foo", field_with_args("String", &[("input", "In")]))])),
        (
            "In",
            Type::default().fields(vec![
                ("next", Field::default().type_of("In".to_string())),
                ("u", Field::default().type_of("U".to_string())),
            ]),
        ),
    ]);
    config.unions.insert("U".to_string(), union_of(&["A", "B"]));
    let config = UnionInputType.transform(config).unwrap();
    assert_eq!(type_names(&config), vec!["In", "In__u0", "In__u1", "Query"]);
    assert_eq!(type_of_field(&config, "In__u0", "next"), "In");
    assert_eq!(type_of_field(&config, "In__u0", "u"), "A");
    assert_eq!(type_of_field(&config, "In__u1", "u"), "B");
    assert_eq!(field_names(&config, "Query"), vec!["fooVar0", "fooVar1"]);
    assert_eq!(arg_type(&config, "Query", "fooVar1", "input"), "In__u1");
}
