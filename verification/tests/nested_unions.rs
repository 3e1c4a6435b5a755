use tailcall_config::config::transformer::nested_unions::NestedUnions;
use tailcall_config::config::{Config, Union};
use tailcall_config::strmap::StrMap;
use tailcall_config::strset::StrSet;

fn union_of(types: &[&str]) -> Union {
    let mut set = StrSet::new();
    for t in types {
        set.insert(t.to_string());
    }
    Union { types: set, doc: None }
}

#[test]
fn nested_unions_are_replaced_by_their_types() {
    let mut unions = StrMap::new();
    unions.insert("U1".to_string(), union_of(&["A", "U2"]));
    unions.insert("U2".to_string(), union_of(&["B", "U3"]));
    unions.insert("U3".to_string(), union_of(&["C", "D"]));
    let mut config = Config::default();
    config.unions = unions;
    let result = NestedUnions.transform(config).unwrap();
    let u1 = result.unions.get("U1").unwrap();
    assert_eq!(u1.types.items, vec!["A", "B", "C", "D"]);
    let u2 = result.unions.get("U2").unwrap();
    assert_eq!(u2.types.items, vec!["B", "C", "D"]);
    let u3 = result.unions.get("U3").unwrap();
    assert_eq!(u3.types.items, vec!["C", "D"]);
}

#[test]
fn recursive_unions_are_reported() {
    let mut unions = StrMap::new();
    unions.insert("Loop".to_string(), union_of(&["A", "Loop"]));
    unions.insert("Flat".to_string(), union_of(&["B"]));
    let mut config = Config::default();
    config.unions = unions;
    let errors = NestedUnions.transform(config).unwrap_err();
    assert_eq!(errors.len(), 1);
    assert_eq!(errors[0].error, "Recursive type Loop");
    assert_eq!(errors[0].trace, vec!["Loop".to_string()]);
    assert_eq!(errors[0].message(), "[Loop] Recursive type Loop");
}

#[test]
fn union_met_twice_in_one_walk_is_reported() {
    let mut unions = StrMap::new();
    unions.insert("U".to_string(), union_of(&["X", "Y"]));
    unions.insert("X".to_string(), union_of(&["D"]));
    unions.insert("Y".to_string(), union_of(&["D"]));
    unions.insert("D".to_string(), union_of(&["A"]));
    let mut config = Config::default();
    config.unions = unions;
    let errors = NestedUnions.transform(config).unwrap_err();
    assert_eq!(errors.len(), 1);
    assert_eq!(errors[0].error, "Recursive type D");
    assert_eq!(errors[0].trace, vec!["U".to_string()]);
}

#[test]
fn nested_unions_test_nested_unions() {
    let mut unions = StrMap::new();
    unions.insert("U".to_string(), union_of(&["T1", "T2", "V"]));
    unions.insert("V".to_string(), union_of(&["T3", "W"]));
    unions.insert("W".to_string(), union_of(&["T4", "T5"]));
    let mut config = Config::default();
    config.unions = unions;
    let config = NestedUnions.transform(config).unwrap();
    assert_eq!(config.unions.get("U").unwrap().types.items, vec!["T1", "T2", "T3", "T4", "T5"]);
    assert_eq!(config.unions.get("V").unwrap().types.items, vec!["T3", "T4", "T5"]);
    assert_eq!(config.unions.get("W").unwrap().types.items, vec!["T4", "T5"]);
}

#[test]
fn test_nested_unions_recursive() {
    let mut unions = StrMap::new();
    unions.insert("U".to_string(), union_of(&["T1", "V"]));
    unions.insert("V".to_string(), union_of(&["T2", "U"]));
    let mut config = Config::default();
    config.unions = unions;
    let errors = NestedUnions.transform(config).unwrap_err();
    let messages: Vec<String> = errors.iter().map(|e| e.message()).collect();
    assert_eq!(messages, vec!["[U] Recursive type V".to_string(), "[V] Recursive type U".to_string()]);
}

#[test]
fn flattened_unions_list_no_union() {
    let mut unions = StrMap::new();
    unions.insert("U".to_string(), union_of(&["T1", "V"]));
    unions.insert("V".to_string(), union_of(&["T2", "W"]));
    unions.insert("W".to_string(), union_of(&["T3"]));
    let mut config = Config::default();
    config.unions = unions;
    let config = NestedUnions.transform(config).unwrap();
    for (_, u) in config.unions.entries.iter() {
        for member in u.types.items.iter() {
            assert!(config.unions.get(member).is_none());
        }
    }
    assert_eq!(config.unions.get("U").unwrap().types.items, vec!["T1", "T2", "T3"]);
}
