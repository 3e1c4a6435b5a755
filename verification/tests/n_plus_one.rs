use tailcall_config::config::n_plus_one::n_plus_one;
use tailcall_config::config::resolver::Http;
use tailcall_config::config::{Config, Field, Type};
use tailcall_config::strmap::StrMap;
use tailcall_config::strset::StrSet;

fn as_pairs(m: &StrMap<StrSet>) -> Vec<(String, Vec<String>)> {
    m.entries.iter().map(|(k, v)| (k.clone(), v.items.clone())).collect()
}

fn expected(paths: Vec<Vec<(&str, &str)>>) -> Vec<(String, Vec<String>)> {
    let mut out: Vec<(String, Vec<String>)> = Vec::new();
    for path in paths {
        for (k, v) in path {
            match out.iter_mut().find(|(key, _)| key == k) {
                Some((_, vals)) => {
                    if !vals.iter().any(|x| x == v) {
                        vals.push(v.to_string());
                    }
                }
                None => out.push((k.to_string(), vec![v.to_string()])),
            }
        }
    }
    for (_, vals) in out.iter_mut() {
        vals.sort();
    }
    out.sort();
    out
}

#[test]
fn n_plus_one_test_nplusone_resolvers() {
    let config = Config::default().query("Query").types(vec![
        (
            "Query",
            Type::default().fields(vec![(
                "f1",
                Field::default().type_of("F1".to_string()).into_list().http(Http::default()),
            )]),
        ),
        (
            "F1",
            Type::default().fields(vec![(
                "f2",
                Field::default().type_of("F2".to_string()).into_list().http(Http::default()),
            )]),
        ),
        (
            "F2",
            Type::default().fields(vec![("f3", Field::default().type_of("String".to_string()))]),
        ),
    ]);
    let actual = n_plus_one(&config);
    let expected_map = expected(vec![vec![("Query", "f1"), ("F1", "f2")]]);
    assert_eq!(as_pairs(&actual), expected_map);
}

#[test]
fn n_plus_one_test_nplusone_batched_resolvers() {
    let config = Config::default().query("Query").types(vec![
        (
            "Query",
            Type::default().fields(vec![(
                "f1",
                Field::default().type_of("F1".to_string()).into_list().http(Http::default()),
            )]),
        ),
        (
            "F1",
            Type::default().fields(vec![(
                "f2",
                Field::default()
                    .type_of("F2".to_string())
                    .into_list()
                    .http(Http { batch_key: vec!["id".into()], ..Default::default() }),
            )]),
        ),
        (
            "F2",
            Type::default().fields(vec![("f3", Field::default().type_of("String".to_string()))]),
        ),
    ]);
    let actual = n_plus_one(&config);
    let expected_map = expected(vec![]);
    assert_eq!(as_pairs(&actual), expected_map);
}

#[test]
fn n_plus_one_test_nplusone_nested_resolvers() {
    let config = Config::default().query("Query").types(vec![
        (
            "Query",
            Type::default().fields(vec![(
                "f1",
                Field::default().type_of("F1".to_string()).into_list().http(Http::default()),
            )]),
        ),
        (
            "F1",
            Type::default().fields(vec![("f2", Field::default().type_of("F2".to_string()).into_list())]),
        ),
        (
            "F2",
            Type::default().fields(vec![("f3", Field::default().type_of("F3".to_string()).into_list())]),
        ),
        (
            "F3",
            Type::default().fields(vec![(
                "f4",
                Field::default().type_of("String".to_string()).http(Http::default()),
            )]),
        ),
    ]);
    let actual = n_plus_one(&config);
    let expected_map =
        expected(vec![vec![("Query", "f1"), ("F1", "f2"), ("F2", "f3"), ("F3", "f4")]]);
    assert_eq!(as_pairs(&actual), expected_map);
}

#[test]
fn n_plus_one_test_nplusone_nested_resolvers_non_list_resolvers() {
    let config = Config::default().query("Query").types(vec![
        (
            "Query",
            Type::default().fields(vec![(
                "f1",
                Field::default().type_of("F1".to_string()).http(Http::default()),
            )]),
        ),
        (
            "F1",
            Type::default().fields(vec![("f2", Field::default().type_of("F2".to_string()).into_list())]),
        ),
        (
            "F2",
            Type::default().fields(vec![("f3", Field::default().type_of("F3".to_string()).into_list())]),
        ),
        (
            "F3",
            Type::default().fields(vec![(
                "f4",
                Field::default().type_of("String".to_string()).http(Http::default()),
            )]),
        ),
    ]);
    let expected_map =
        expected(vec![vec![("Query", "f1"), ("F1", "f2"), ("F2", "f3"), ("F3", "f4")]]);
    let actual = n_plus_one(&config);
    assert_eq!(as_pairs(&actual), expected_map);
}

#[test]
fn n_plus_one_test_nplusone_nested_resolvers_without_resolvers() {
    let config = Config::default().query("Query").types(vec![
        (
            "Query",
            Type::default().fields(vec![(
                "f1",
                Field::default().type_of("F1".to_string()).into_list().http(Http::default()),
            )]),
        ),
        (
            "F1",
            Type::default().fields(vec![("f2", Field::default().type_of("F2".to_string()).into_list())]),
        ),
        (
            "F2",
            Type::default().fields(vec![("f3", Field::default().type_of("String".to_string()))]),
        ),
    ]);
    let expected_map = expected(vec![]);
    let actual = n_plus_one(&config);
    assert_eq!(as_pairs(&actual), expected_map);
}

#[test]
fn n_plus_one_test_nplusone_cycles() {
    let config = Config::default().query("Query").types(vec![
        (
            "Query",
            Type::default().fields(vec![(
                "f1",
                Field::default().type_of("F1".to_string()).into_list().http(Http::default()),
            )]),
        ),
        (
            "F1",
            Type::default().fields(vec![
                ("f1", Field::default().type_of("F1".to_string())),
                ("f2", Field::default().type_of("F2".to_string()).into_list()),
            ]),
        ),
        (
            "F2",
            Type::default().fields(vec![("f3", Field::default().type_of("String".to_string()))]),
        ),
    ]);
    let actual = n_plus_one(&config);
    let expected_map = expected(vec![]);
    assert_eq!(as_pairs(&actual), expected_map);
}

#[test]
fn n_plus_one_test_nplusone_cycles_with_resolvers() {
    let config = Config::default().query("Query").types(vec![
        (
            "Query",
            Type::default().fields(vec![(
                "f1",
                Field::default().type_of("F1".to_string()).into_list().http(Http::default()),
            )]),
        ),
        (
            "F1",
            Type::default().fields(vec![
                ("f1", Field::default().type_of("F1".to_string()).into_list()),
                ("f2", Field::default().type_of("String".to_string()).http(Http::default())),
            ]),
        ),
        (
            "F2",
            Type::default().fields(vec![("f3", Field::default().type_of("String".to_string()))]),
        ),
    ]);
    let actual = n_plus_one(&config);
    let expected_map = expected(vec![
        vec![("Query", "f1"), ("F1", "f1"), ("F1", "f2")],
        vec![("Query", "f1"), ("F1", "f2")],
    ]);
    assert_eq!(as_pairs(&actual), expected_map);
}

#[test]
fn n_plus_one_test_nplusone_nested_non_list() {
    let f_field = Field::default().type_of("F".to_string()).http(Http::default());
    let config = Config::default().query("Query").types(vec![
        ("Query", Type::default().fields(vec![("f", f_field)])),
        (
            "F",
            Type::default().fields(vec![(
                "g",
                Field::default().type_of("G".to_string()).into_list().http(Http::default()),
            )]),
        ),
        (
            "G",
            Type::default().fields(vec![("e", Field::default().type_of("String".to_string()))]),
        ),
    ]);
    let actual = n_plus_one(&config);
    let expected_map = expected(Vec::<Vec<(&str, &str)>>::new());
    assert_eq!(as_pairs(&actual), expected_map);
}
