use tailcall_config::config::transformer::type_merger::{merge_round, merge_type, StatGenerator};
use tailcall_config::config::{AddField, Arg, Config, Field, Type, Union};
use tailcall_config::strset::StrSet;

fn field(t: &str) -> Field {
    Field::default().type_of(t.to_string())
}

#[test]
fn distance_counts_alike_fields_twice() {
    let t1 = Type::default().fields(vec![
        ("body", field("String")),
        ("id", field("Int")),
        ("title", field("Boolean")),
        ("userId", field("Float")),
    ]);
    let t2 = Type::default().fields(vec![("t1", field("T1")), ("title", field("Boolean")), ("userId", field("Float"))]);
    let config = Config::default().types(vec![("T1", t1), ("T2", t2)]);
    let stat_gen = StatGenerator::new(&config);
    let a = config.types.get("T1").unwrap();
    let b = config.types.get("T2").unwrap();
    let stat = stat_gen.calculate_distance(a, b);
    assert_eq!(stat.same_field_count, 4);
    assert_eq!(stat.total_field_count, 7);
    let back = stat_gen.calculate_distance(b, a);
    assert_eq!(back.same_field_count, 4);
    assert_eq!(back.total_field_count, 7);
}

#[test]
fn distance_compares_nested_types_in_place_of_the_field() {
    let config = Config::default().types(vec![
        ("A", Type::default().fields(vec![("x", field("B1")), ("y", field("Int"))])),
        ("C", Type::default().fields(vec![("x", field("B2")), ("y", field("Int"))])),
        ("B1", Type::default().fields(vec![("z", field("Int"))])),
        ("B2", Type::default().fields(vec![("z", field("Int")), ("w", field("String"))])),
    ]);
    let stat_gen = StatGenerator::new(&config);
    let stat = stat_gen.calculate_distance(config.types.get("A").unwrap(), config.types.get("C").unwrap());
    // y counts 2; x is replaced by B1 against B2: z counts 2 of 3 fields.
    assert_eq!(stat.same_field_count, 4);
    assert_eq!(stat.total_field_count, 5);
}

#[test]
fn distance_counts_a_compared_pair_as_alike() {
    let config = Config::default().types(vec![
        ("A", Type::default().fields(vec![("next", field("B"))])),
        ("B", Type::default().fields(vec![("next", field("A"))])),
    ]);
    let stat_gen = StatGenerator::new(&config);
    let stat = stat_gen.calculate_distance(config.types.get("A").unwrap(), config.types.get("B").unwrap());
    // A.next: A vs B recurses once into (A, B); there B.next vs A.next is the
    // pair (A, B) again, which counts as alike.
    assert_eq!(stat.same_field_count, 2);
    assert_eq!(stat.total_field_count, 2);
}

#[test]
fn merge_type_unions_fields_added_fields_and_interfaces() {
    let mut a = Type::default().fields(vec![("id", field("ID")), ("name", field("String"))]);
    a.added_fields.push(AddField { name: "x".to_string(), path: vec!["a".to_string(), "b".to_string()] });
    a.implements.insert("Node".to_string());
    let mut into = Type::default().fields(vec![("id", field("Int")), ("age", field("Int"))]);
    into.implements.insert("Entity".to_string());
    let r = merge_type(&a, into);
    assert_eq!(r.fields.entries.len(), 3);
    assert_eq!(r.fields.get("id").unwrap().type_of, "ID");
    assert_eq!(r.fields.get("age").unwrap().type_of, "Int");
    assert_eq!(r.fields.get("name").unwrap().type_of, "String");
    assert_eq!(r.added_fields, vec![AddField { name: "x".to_string(), path: vec!["a".to_string(), "b".to_string()] }]);
    assert_eq!(r.implements.items, vec!["Entity".to_string(), "Node".to_string()]);
}

fn merge_all(mut config: Config, thresh: f32) -> Config {
    let mut counter = 1;
    loop {
        let similar: Vec<Vec<bool>> = {
            let stat_gen = StatGenerator::new(&config);
            let types = &config.types.entries;
            types
                .iter()
                .map(|(_, a)| {
                    types
                        .iter()
                        .map(|(_, b)| {
                            let s = stat_gen.calculate_distance(a, b);
                            let sim = if s.total_field_count == 0 {
                                0.0
                            } else {
                                s.same_field_count as f32 / s.total_field_count as f32
                            };
                            sim >= thresh
                        })
                        .collect()
                })
                .collect()
        };
        let (next, c, merged) = merge_round(config, &similar, counter);
        config = next;
        counter = c;
        if !merged {
            return config;
        }
    }
}

#[test]
fn merge_round_merges_identical_types() {
    let fields = || {
        vec![
            ("f1", field("String")),
            ("f2", field("Int")),
            ("f3", field("Boolean")),
            ("f4", field("Float")),
            ("f5", field("ID")),
        ]
    };
    let config = Config::default().query("Query").types(vec![
        ("T1", Type::default().fields(fields())),
        ("T2", Type::default().fields(fields())),
        ("T3", Type::default().fields(fields())),
        ("T4", Type::default().fields(fields())),
        (
            "Query",
            Type::default().fields(vec![("q1", field("T1")), ("q2", field("T2")), ("q3", field("T3")), ("q4", field("T4"))]),
        ),
    ]);
    assert_eq!(config.types.entries.len(), 5);
    let merged = merge_all(config, 1.0);
    let names: Vec<String> = merged.types.entries.iter().map(|(k, _)| k.clone()).collect();
    assert_eq!(names, vec!["M1".to_string(), "Query".to_string()]);
    let query = merged.types.get("Query").unwrap();
    for q in ["q1", "q2", "q3", "q4"] {
        assert_eq!(query.fields.get(q).unwrap().type_of, "M1");
    }
    assert_eq!(merged.types.get("M1").unwrap().fields.entries.len(), 5);
}

#[test]
fn merge_round_without_alike_types_changes_nothing() {
    let config = Config::default().query("Query").types(vec![
        ("A", Type::default().fields(vec![("a", field("Int"))])),
        ("B", Type::default().fields(vec![("b", field("String"))])),
        ("Query", Type::default().fields(vec![("a", field("A")), ("b", field("B"))])),
    ]);
    let similar = vec![vec![false; 3]; 3];
    let (r, counter, merged) = merge_round(config, &similar, 7);
    assert!(!merged);
    assert_eq!(counter, 7);
    assert_eq!(r.types.entries.len(), 3);
}

#[test]
fn merge_round_names_groups_from_the_counter() {
    let config = Config::default().query("Query").types(vec![
        ("A", Type::default().fields(vec![("x", field("Int"))])),
        ("B", Type::default().fields(vec![("y", field("Int"))])),
        ("C", Type::default().fields(vec![("z", field("Int"))])),
        ("Query", Type::default().fields(vec![("a", field("A")), ("b", field("B")), ("c", field("C"))])),
    ]);
    // A is alike to C only; the query type is never grouped.
    let mut similar = vec![vec![false; 4]; 4];
    similar[0][2] = true;
    similar[0][3] = true;
    let (r, counter, merged) = merge_round(config, &similar, 41);
    assert!(merged);
    assert_eq!(counter, 42);
    let names: Vec<String> = r.types.entries.iter().map(|(k, _)| k.clone()).collect();
    assert_eq!(names, vec!["B".to_string(), "M41".to_string(), "Query".to_string()]);
    let m = r.types.get("M41").unwrap();
    assert!(m.fields.get("x").is_some() && m.fields.get("z").is_some());
    let query = r.types.get("Query").unwrap();
    assert_eq!(query.fields.get("a").unwrap().type_of, "M41");
    assert_eq!(query.fields.get("b").unwrap().type_of, "B");
    assert_eq!(query.fields.get("c").unwrap().type_of, "M41");
}

#[test]
fn merge_round_renames_arguments_interfaces_and_union_members() {
    let mut q = field("T2");
    q.args.insert("input".to_string(), Arg { type_of: "T1".to_string(), list: false, required: false, doc: None });
    let mut x = Type::default().fields(vec![("name", field("String"))]);
    x.implements.insert("T1".to_string());
    let mut config = Config::default().query("Query").types(vec![
        ("Query", Type::default().fields(vec![("q", q)])),
        ("T1", Type::default().fields(vec![("a", field("Int"))])),
        ("T2", Type::default().fields(vec![("a", field("Int"))])),
        ("X", x),
    ]);
    let mut members = StrSet::new();
    members.insert("T1".to_string());
    members.insert("Y".to_string());
    config.unions.insert("U".to_string(), Union { types: members, doc: None });
    let n = config.types.entries.len();
    let mut similar = vec![vec![false; n]; n];
    similar[1][2] = true;
    similar[2][1] = true;
    let (merged, counter, did) = merge_round(config, &similar, 1);
    assert!(did);
    assert_eq!(counter, 2);
    let names: Vec<String> = merged.types.entries.iter().map(|(k, _)| k.clone()).collect();
    assert_eq!(names, vec!["M1".to_string(), "Query".to_string(), "X".to_string()]);
    let q = merged.types.get("Query").unwrap().fields.get("q").unwrap();
    assert_eq!(q.type_of, "M1");
    assert_eq!(q.args.get("input").unwrap().type_of, "M1");
    assert_eq!(merged.types.get("X").unwrap().implements.items, vec!["M1".to_string()]);
    assert_eq!(merged.unions.get("U").unwrap().types.items, vec!["M1".to_string(), "Y".to_string()]);
}
