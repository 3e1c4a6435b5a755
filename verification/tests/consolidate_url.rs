use tailcall_config::config::resolver::{Http, Resolver};
use tailcall_config::config::transformer::consolidate_url::UrlTypeMapping;
use tailcall_config::config::{Config, Field, Type};

fn http(base_url: &str, path: &str) -> Http {
    Http { base_url: Some(base_url.to_string()), path: path.to_string(), ..Default::default() }
}

fn int_list() -> Field {
    Field::default().type_of("Int".to_string()).into_list()
}

fn query_config(urls: [&str; 3]) -> Config {
    Config::default().query("Query").types(vec![(
        "Query",
        Type::default().fields(vec![
            ("f1", int_list().http(http(urls[0], "/users"))),
            ("f2", int_list().http(http(urls[1], "/post"))),
            ("f3", int_list().http(http(urls[2], "/todos"))),
        ]),
    )])
}

fn consolidate(config: Config, threshold: f32) -> Config {
    let mut mapping = UrlTypeMapping::new();
    mapping.populate_url_frequency_map(&config);
    let min_frequency = (mapping.url_to_frequency_map.len() as f32 * threshold).ceil() as u32;
    mapping.consolidate(config, min_frequency)
}

fn base_urls(config: &Config, ty: &str) -> Vec<Option<String>> {
    let t = config.find_type(ty).unwrap();
    let mut out = Vec::new();
    for (_, field) in t.fields.entries.iter() {
        for r in field.resolvers.iter() {
            if let Resolver::Http(h) = r {
                out.push(h.base_url.clone());
            }
        }
    }
    out
}

#[test]
fn should_generate_upstream_base_url_when_all_http_directive_has_same_base_url() {
    let url = "https://jsonplaceholder.typicode.com";
    let config = query_config([url, url, url]);
    let transformed = consolidate(config, 0.5);
    assert_eq!(transformed.upstream.base_url, Some(url.to_string()));
    assert_eq!(base_urls(&transformed, "Query"), vec![None, None, None]);
}

#[test]
fn should_not_generate_upstream_base_url_when_all_http_directive_has_same_base_url() {
    let config = query_config([
        "https://jsonplaceholder-1.typicode.com",
        "https://jsonplaceholder-2.typicode.com",
        "https://jsonplaceholder-3.typicode.com",
    ]);
    let transformed = consolidate(config, 0.5);
    assert_eq!(transformed.upstream.base_url, None);
    assert_eq!(
        base_urls(&transformed, "Query"),
        vec![
            Some("https://jsonplaceholder-1.typicode.com".to_string()),
            Some("https://jsonplaceholder-2.typicode.com".to_string()),
            Some("https://jsonplaceholder-3.typicode.com".to_string()),
        ]
    );
}

#[test]
fn populate_counts_each_base_url() {
    let a = "http://a.com";
    let b = "http://b.com";
    let config = query_config([a, b, a]);
    let mut mapping = UrlTypeMapping::new();
    mapping.populate_url_frequency_map(&config);
    assert_eq!(mapping.url_to_frequency_map.len(), 2);
    let (url, count) = mapping.url_to_frequency_map.get_max_pair().unwrap();
    assert_eq!(url, a);
    assert_eq!(*count, 2);
    assert!(mapping.visited_type_set.contains("Query"));
    assert_eq!(mapping.visited_type_set.len(), 1);
}

#[test]
fn common_url_needs_min_frequency() {
    let a = "http://a.com";
    let config = query_config([a, "http://b.com", a]);
    let mut mapping = UrlTypeMapping::new();
    mapping.populate_url_frequency_map(&config);
    assert_eq!(mapping.find_common_url(2), Some(a.to_string()));
    assert_eq!(mapping.find_common_url(3), None);
}

#[test]
fn consolidate_keeps_other_urls_and_types() {
    let a = "http://a.com";
    let config = Config::default().query("Query").types(vec![
        (
            "Query",
            Type::default().fields(vec![
                ("f1", int_list().http(http(a, "/users"))),
                ("f2", int_list().http(http("http://b.com", "/post"))),
                ("f3", int_list()),
            ]),
        ),
        ("User", Type::default().fields(vec![("id", Field::default().type_of("ID".to_string()))])),
        ("Post", Type::default().fields(vec![("p", int_list().http(http(a, "/p")))])),
    ]);
    let transformed = consolidate(config, 0.5);
    assert_eq!(transformed.upstream.base_url, Some(a.to_string()));
    assert_eq!(base_urls(&transformed, "Query"), vec![None, Some("http://b.com".to_string())]);
    assert_eq!(base_urls(&transformed, "Post"), vec![None]);
    let query = transformed.find_type("Query").unwrap();
    let f1 = &query.fields.entries.iter().find(|(n, _)| n == "f1").unwrap().1;
    if let Resolver::Http(h) = &f1.resolvers[0] {
        assert_eq!(h.path, "/users");
    } else {
        panic!("expected an http resolver");
    }
    assert_eq!(transformed.types.entries.len(), 3);
}

#[test]
fn consolidate_without_urls_changes_nothing() {
    let config = Config::default().query("Query").types(vec![(
        "Query",
        Type::default().fields(vec![("f1", int_list())]),
    )]);
    let mut mapping = UrlTypeMapping::new();
    mapping.populate_url_frequency_map(&config);
    assert!(mapping.url_to_frequency_map.is_empty());
    let transformed = mapping.consolidate(config, 0);
    assert_eq!(transformed.upstream.base_url, None);
}

fn multi_url_config() -> Config {
    let a = "http://jsonplaceholder.typicode.com";
    Config::default().query("Query").types(vec![
        (
            "Query",
            Type::default().fields(vec![
                ("users", int_list().http(http(a, "/users"))),
                ("posts", int_list().http(http(a, "/posts"))),
                ("todos", int_list().http(http("http://todos.example.com", "/todos"))),
                ("albums", int_list().http(http("http://albums.example.com", "/albums"))),
            ]),
        ),
        ("User", Type::default().fields(vec![("photos", int_list().http(http("http://photos.example.com", "/photos")))])),
    ])
}

#[test]
fn should_generate_correct_upstream_when_multiple_base_urls_present() {
    let transformed = consolidate(multi_url_config(), 0.5);
    assert_eq!(transformed.upstream.base_url, Some("http://jsonplaceholder.typicode.com".to_string()));
    let mut remaining = base_urls(&transformed, "Query");
    remaining.sort();
    assert_eq!(
        remaining,
        vec![None, None, Some("http://albums.example.com".to_string()), Some("http://todos.example.com".to_string())]
    );
    assert_eq!(base_urls(&transformed, "User"), vec![Some("http://photos.example.com".to_string())]);
}

#[test]
fn should_not_generate_upstream_when_threshold_is_not_matched() {
    let transformed = consolidate(multi_url_config(), 0.9);
    assert_eq!(transformed.upstream.base_url, None);
    assert!(base_urls(&transformed, "Query").iter().all(|u| u.is_some()));
}

#[test]
fn tied_base_urls_keep_the_first_to_reach_the_count() {
    let a = "http://a.com";
    let b = "http://b.com";
    let config = Config::default().query("Query").types(vec![(
        "Query",
        Type::default().fields(vec![
            ("f1", int_list().http(http(a, "/1"))),
            ("f2", int_list().http(http(b, "/2"))),
            ("f3", int_list().http(http(b, "/3"))),
            ("f4", int_list().http(http(a, "/4"))),
        ]),
    )]);
    let mut mapping = UrlTypeMapping::new();
    mapping.populate_url_frequency_map(&config);
    let (url, count) = mapping.url_to_frequency_map.get_max_pair().unwrap();
    assert_eq!(url, b);
    assert_eq!(*count, 2);
    let transformed = mapping.consolidate(config, 2);
    assert_eq!(transformed.upstream.base_url, Some(b.to_string()));
    assert_eq!(
        base_urls(&transformed, "Query"),
        vec![Some(a.to_string()), None, None, Some(a.to_string())]
    );
}
