use tailcall_config::config::transformer::comparable_type::ComparableTypes;
use tailcall_config::config::transformer::max_value_map::MaxValueMap;
use tailcall_config::strset::StrSet;

#[test]
fn test_insert() {
    let mut max_value_map = MaxValueMap::new();
    max_value_map.insert("a".to_string(), 10);
    max_value_map.insert("b".to_string(), 20);
    assert_eq!(max_value_map.get_max_pair(), Some((&"b".to_string(), &20)));
}

#[test]
fn test_increment() {
    let mut max_value_map = MaxValueMap::new();
    max_value_map.insert("a".to_string(), 10);
    max_value_map.increment("a".to_string(), 15);
    assert_eq!(max_value_map.get_max_pair(), Some((&"a".to_string(), &25)));
}

#[test]
fn test_get_max_pair_empty() {
    let max_value_map = MaxValueMap::new();
    assert_eq!(max_value_map.get_max_pair(), None);
}

fn set_of(names: &[&str]) -> StrSet {
    let mut s = StrSet::new();
    for n in names {
        s.insert(n.to_string());
    }
    s
}

fn comparable_types() -> ComparableTypes {
    let input_types = set_of(&["InputType1", "InputType2"]);
    let union_types = set_of(&["UnionType1", "UnionType2"]);
    ComparableTypes::new(input_types, union_types)
}

#[test]
fn comparable_type_test_is_input_type() {
    let comparable_types = comparable_types();
    assert!(comparable_types.is_input_type("InputType1"));
    assert!(!comparable_types.is_input_type("UnionType1"));
}

#[test]
fn comparable_type_test_is_union_type() {
    let comparable_types = comparable_types();
    assert!(comparable_types.is_union_type("UnionType1"));
    assert!(!comparable_types.is_union_type("InputType1"));
}

#[test]
fn comparable_type_test_are_input_type() {
    let comparable_types = comparable_types();
    assert!(comparable_types.are_input_type("InputType1", "InputType2"));
    assert!(!comparable_types.are_input_type("InputType1", "UnionType1"));
}

#[test]
fn comparable_type_test_are_union_type() {
    let comparable_types = comparable_types();
    assert!(comparable_types.are_union_type("UnionType1", "UnionType2"));
    assert!(!comparable_types.are_union_type("UnionType1", "InputType1"));
}

#[test]
fn comparable_type_test_comparable() {
    let comparable_types = comparable_types();
    assert!(comparable_types.comparable("InputType1", "InputType2"));
    assert!(comparable_types.comparable("UnionType1", "UnionType2"));
    assert!(comparable_types.comparable("ObjectType1", "ObjectType2"));
    assert!(!comparable_types.comparable("InputType1", "UnionType1"));
    assert!(!comparable_types.comparable("InputType1", "ObjectType1"));
    assert!(!comparable_types.comparable("ObjectType1", "UnionType1"));
}

#[test]
fn lowering_the_max_key_moves_the_max() {
    let mut m = MaxValueMap::new();
    m.insert("a".to_string(), 10);
    m.insert("b".to_string(), 5);
    assert_eq!(m.len(), 2);
    m.insert("a".to_string(), 1);
    assert_eq!(m.len(), 2);
    let (k, v) = m.get_max_pair().unwrap();
    assert_eq!((k.as_str(), *v), ("b", 5));
    m.increment("c".to_string(), 7);
    assert_eq!(m.len(), 3);
    let (k, v) = m.get_max_pair().unwrap();
    assert_eq!((k.as_str(), *v), ("c", 7));
    let d = MaxValueMap::default();
    assert!(d.is_empty());
}
