use tailcall_config::config::transformer::ambiguous_type::{default_resolution, AmbiguousType, Resolution};
use tailcall_config::config::{Arg, Config, Field, Type};
use tailcall_config::strmap::StrMap;
use tailcall_config::strset::StrSet;

fn set(names: &[&str]) -> StrSet {
    let mut s = StrSet::new();
    for n in names {
        s.insert(n.to_string());
    }
    s
}

fn field_with_args(ty: &str, args: &[(&str, &str)]) -> Field {
    let mut f = Field::default().type_of(ty.to_string());
    let mut m = StrMap::new();
    for (name, t) in args {
        m.insert(name.to_string(), Arg::new(t.to_string()));
    }
    f.args = m;
    f
}

fn two_way_config() -> Config {
    let query = Type::default().fields(vec![
        ("field1", field_with_args("Type1", &[("arg1", "Type1"), ("arg2", "Type2")])),
        ("field2", field_with_args("Type2", &[("arg1", "Type1"), ("arg2", "Type2")])),
    ]);
    Config::default().query("Query").types(vec![
        ("Query", query),
        ("Type1", Type::default().fields(vec![("name", Field::default().type_of("String".to_string()))])),
        ("Type2", Type::default().fields(vec![("id", Field::default().type_of("Int".to_string()))])),
    ])
}

fn type_names(config: &Config) -> Vec<String> {
    config.types.entries.iter().map(|(k, _)| k.clone()).collect()
}

#[test]
fn ambiguous_types_get_input_and_output_names() {
    let config = two_way_config();
    let inputs = set(&["Type1", "Type2"]);
    let outputs = set(&["Query", "Type1", "Type2"]);
    let config = AmbiguousType::new(default_resolution).transform(config, &inputs, &outputs).unwrap();
    assert_eq!(type_names(&config), vec!["Query", "Type1", "Type1Input", "Type2", "Type2Input"]);
    let query = config.find_type("Query").unwrap();
    let field1 = query.fields.get("field1").unwrap();
    assert_eq!(field1.type_of, "Type1");
    assert_eq!(field1.args.get("arg1").unwrap().type_of, "Type1Input");
    assert_eq!(field1.args.get("arg2").unwrap().type_of, "Type2Input");
    let field2 = query.fields.get("field2").unwrap();
    assert_eq!(field2.type_of, "Type2");
    assert_eq!(field2.args.get("arg1").unwrap().type_of, "Type1Input");
    let input1 = config.find_type("Type1Input").unwrap();
    assert_eq!(input1.fields.get("name").unwrap().type_of, "String");
    let output2 = config.find_type("Type2").unwrap();
    assert_eq!(output2.fields.get("id").unwrap().type_of, "Int");
}

#[test]
fn ambiguous_types_fail_when_names_are_the_same() {
    let config = two_way_config();
    let inputs = set(&["Type1", "Type2"]);
    let outputs = set(&["Query", "Type1", "Type2"]);
    let same = |v: &str| Resolution { input: v.to_string(), output: v.to_string() };
    let errors = AmbiguousType::new(same).transform(config, &inputs, &outputs).unwrap_err();
    assert_eq!(errors.len(), 2);
    assert_eq!(errors[0].error, "Unable to auto resolve Input: Type1 and Output: Type1 are same");
    assert_eq!(errors[0].trace, vec!["Type1".to_string()]);
    assert_eq!(errors[1].error, "Unable to auto resolve Input: Type2 and Output: Type2 are same");
    assert_eq!(errors[1].trace, vec!["Type2".to_string()]);
}

#[test]
fn ambiguous_types_without_conflicts_change_nothing() {
    let config = two_way_config();
    let inputs = set(&["Type1"]);
    let outputs = set(&["Query", "Type2"]);
    let config = AmbiguousType::new(default_resolution).transform(config, &inputs, &outputs).unwrap();
    assert_eq!(type_names(&config), vec!["Query", "Type1", "Type2"]);
    let field1 = config.find_type("Query").unwrap().fields.get("field1").unwrap();
    assert_eq!(field1.type_of, "Type1");
    assert_eq!(field1.args.get("arg1").unwrap().type_of, "Type1");
}

#[test]
fn ambiguous_type_arguments_of_output_types_are_resolved_too() {
    // `Filter` is used both ways; its field `by` takes an argument of the
    // output type `Key`, which gets input and output names as well.
    let config = Config::default().query("Query").types(vec![
        ("Query", Type::default().fields(vec![("f", field_with_args("Filter", &[("x", "Filter")]))])),
        ("Filter", Type::default().fields(vec![("by", field_with_args("Key", &[("k", "Key")]))])),
        ("Key", Type::default().fields(vec![("v", Field::default().type_of("Int".to_string()))])),
    ]);
    let inputs = set(&["Filter"]);
    let outputs = set(&["Query", "Filter", "Key"]);
    let config = AmbiguousType::new(default_resolution).transform(config, &inputs, &outputs).unwrap();
    assert_eq!(type_names(&config), vec!["Filter", "FilterInput", "Key", "KeyInput", "Query"]);
    let filter_input = config.find_type("FilterInput").unwrap();
    let by = filter_input.fields.get("by").unwrap();
    assert_eq!(by.type_of, "KeyInput");
    assert_eq!(by.args.get("k").unwrap().type_of, "KeyInput");
    let filter = config.find_type("Filter").unwrap();
    assert_eq!(filter.fields.get("by").unwrap().type_of, "Key");
    let f = config.find_type("Query").unwrap().fields.get("f").unwrap();
    assert_eq!(f.type_of, "Filter");
    assert_eq!(f.args.get("x").unwrap().type_of, "FilterInput");
}

#[test]
fn default_resolution_adds_input() {
    let r = default_resolution("User");
    assert_eq!(r.input, "UserInput");
    assert_eq!(r.output, "User");
    assert!(r.is_unique());
}
