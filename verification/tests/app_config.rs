use anttp::routes::AppConfig;

fn entries(v: &[(&str, Option<&str>)]) -> Vec<(String, Option<String>)> {
    v.iter().map(|(k, val)| (k.to_string(), val.map(|s| s.to_string()))).collect()
}

fn routes(c: &AppConfig) -> Vec<(String, String)> {
    c.route_map().clone()
}

#[test]
fn default_config_keeps_the_path() {
    let c = AppConfig::default();
    assert!(c.route_map().is_empty());
    assert_eq!(c.resolve_route("blog/post".to_string(), "index.html".to_string()), ("blog/post".to_string(), false));
}

#[test]
fn route_matches_glob() {
    let c = AppConfig::from_route_entries(entries(&[("blog/*", Some("index.html"))]));
    assert_eq!(c.resolve_route("blog/post1".to_string(), "file".to_string()), ("index.html".to_string(), true));
    assert_eq!(c.resolve_route("blog/a/b".to_string(), "file".to_string()), ("index.html".to_string(), true));
    assert_eq!(c.resolve_route("about".to_string(), "file".to_string()), ("file".to_string(), false));
}

#[test]
fn first_valid_matching_route_wins() {
    let c = AppConfig::from_route_entries(entries(&[
        ("a[", Some("broken.html")),
        ("blog/*", Some("index.html")),
        ("*", Some("all.html")),
    ]));
    assert_eq!(c.resolve_route("blog/x".to_string(), "f".to_string()), ("index.html".to_string(), true));
    assert_eq!(c.resolve_route("other".to_string(), "f".to_string()), ("all.html".to_string(), true));
}

#[test]
fn only_invalid_globs_match_nothing() {
    let c = AppConfig::from_route_entries(entries(&[("a[", Some("broken.html"))]));
    assert_eq!(c.resolve_route("a[".to_string(), "f".to_string()), ("f".to_string(), false));
}

#[test]
fn pick_route_cases() {
    let targets = vec!["t0".to_string(), "t1".to_string()];
    assert_eq!(AppConfig::pick_route(&targets, None, "p".to_string(), "f".to_string()), ("p".to_string(), false));
    assert_eq!(AppConfig::pick_route(&targets, Some(vec![]), "p".to_string(), "f".to_string()), ("f".to_string(), false));
    assert_eq!(AppConfig::pick_route(&targets, Some(vec![1]), "p".to_string(), "f".to_string()), ("t1".to_string(), true));
    assert_eq!(AppConfig::pick_route(&targets, Some(vec![0, 1]), "p".to_string(), "f".to_string()), ("t0".to_string(), true));
}

#[test]
fn route_entries_keep_string_values_and_replace_keys() {
    let c = AppConfig::from_route_entries(entries(&[("a", Some("1")), ("b", None), ("c", Some("3")), ("a", Some("4"))]));
    assert_eq!(routes(&c), vec![("a".to_string(), "4".to_string()), ("c".to_string(), "3".to_string())]);
}

#[test]
fn from_json_reads_route_map() {
    let v: serde_json::Value =
        serde_json::from_str(r#"{"routeMap": {"blog/*": "index.html", "n": 5, "about": "about.html"}, "x": 1}"#).unwrap();
    let c = AppConfig::from_json(v);
    assert_eq!(
        routes(&c),
        vec![("about".to_string(), "about.html".to_string()), ("blog/*".to_string(), "index.html".to_string())]
    );
    assert_eq!(c.resolve_route("blog/1".to_string(), "f".to_string()), ("index.html".to_string(), true));
}

#[test]
fn from_json_without_route_map_is_empty() {
    for text in [r#"{"other": {}}"#, r#"{"routeMap": "x"}"#, r#"[1, 2]"#, r#"{"routeMap": {}}"#] {
        let v: serde_json::Value = serde_json::from_str(text).unwrap();
        assert!(AppConfig::from_json(v).route_map().is_empty());
    }
}
