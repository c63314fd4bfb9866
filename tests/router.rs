use path_router::route::Route;
use path_router::route_node_merge::RouteError;
use path_router::router::Router;
use std::collections::HashMap;

fn params(route: &Route) -> HashMap<String, String> {
    route.parameters.iter().cloned().collect()
}

fn expected(pairs: Vec<(&str, &str)>) -> HashMap<String, String> {
    pairs
        .into_iter()
        .map(|(k, v)| (k.to_string(), v.to_string()))
        .collect()
}

fn mapping(pairs: Vec<(&str, &str)>) -> Vec<(String, String)> {
    pairs
        .into_iter()
        .map(|(k, v)| (k.to_string(), v.to_string()))
        .collect()
}

#[test]
fn router_1() {
    let mut router = Router::new();
    router.insert_route("a", "/a").unwrap();
    router.insert_route("b", "/b/{x}").unwrap();
    router.insert_route("c", "/b/{y}/c").unwrap();
    router.insert_route("d", "/b/{z}/d").unwrap();

    let route = router.parse_route("/a").unwrap();
    assert_eq!(route.name, "a");
    assert_eq!(params(&route), expected(vec![]));

    let route = router.parse_route("/b/123").unwrap();
    assert_eq!(route.name, "b");
    assert_eq!(params(&route), expected(vec![("x", "123")]));

    let route = router.parse_route("/b/456/c").unwrap();
    assert_eq!(route.name, "c");
    assert_eq!(params(&route), expected(vec![("y", "456")]));

    let route = router.parse_route("/b/789/d").unwrap();
    assert_eq!(route.name, "d");
    assert_eq!(params(&route), expected(vec![("z", "789")]));
}

#[test]
fn router_2() {
    let mut router = Router::new();
    router.insert_route("aa", "a/{a}/a").unwrap();
    router.insert_route("a", "a").unwrap();
    router.insert_route("one", "/a").unwrap();
    router.insert_route("two", "/a/{x}/{y}").unwrap();
    router.insert_route("three", "/c/{x}").unwrap();
    router.insert_route("four", "/c/{y}/{z}/").unwrap();

    let route = router.parse_route("/a").unwrap();
    assert_eq!(route.name, "one");

    let route = router.parse_route("/a/1/2").unwrap();
    assert_eq!(route.name, "two");
    assert_eq!(params(&route), expected(vec![("x", "1"), ("y", "2")]));

    let path = router
        .stringify_route("two", &mapping(vec![("x", "1"), ("y", "2")]))
        .unwrap();
    assert_eq!(path, "/a/1/2");

    let route = router.parse_route("/c/3").unwrap();
    assert_eq!(route.name, "three");
    assert_eq!(params(&route), expected(vec![("x", "3")]));

    let route = router.parse_route("/c/3/4").unwrap();
    assert_eq!(route.name, "three");
    assert_eq!(params(&route), expected(vec![("x", "3/4")]));

    let path = router
        .stringify_route("three", &mapping(vec![("x", "3/4")]))
        .unwrap();
    assert_eq!(path, "/c/3%2F4");

    let route = router.parse_route("/c/3/4/").unwrap();
    assert_eq!(route.name, "four");
    assert_eq!(params(&route), expected(vec![("y", "3"), ("z", "4")]));
}

#[test]
fn router_round_trip() {
    let mut router = Router::new();
    router.insert_route("user", "/users/{id}/posts/{post}").unwrap();
    router.insert_route("users", "/users").unwrap();
    let values = mapping(vec![("id", "a b"), ("post", "7")]);
    let path = router.stringify_route("user", &values).unwrap();
    assert_eq!(path, "/users/a%20b/posts/7");
    let route = router.parse_route(&path).unwrap();
    assert_eq!(route.name, "user");
    assert_eq!(params(&route), expected(vec![("id", "a b"), ("post", "7")]));
}

#[test]
fn router_specificity() {
    let mut router = Router::new();
    router.insert_route("a", "/a").unwrap();
    router.insert_route("b", "/b/{x}").unwrap();
    router.insert_route("c", "/b/{x}/c").unwrap();
    router.insert_route("d", "/b/{x}/d").unwrap();
    let route = router.parse_route("/b/5/c").unwrap();
    assert_eq!(route.name, "c");
    assert_eq!(params(&route), expected(vec![("x", "5")]));
}

#[test]
fn router_scan_window() {
    let mut router = Router::new();
    router.set_maximum_parameter_value_length(3);
    router.insert_route("p", "/p/{x}/q").unwrap();
    let route = router.parse_route("/p/abc/q").unwrap();
    assert_eq!(route.name, "p");
    assert_eq!(params(&route), expected(vec![("x", "abc")]));
    assert!(router.parse_route("/p/abcd/q").is_none());
}

#[test]
fn router_ambiguity() {
    let mut router = Router::new();
    router.insert_route("a", "/x").unwrap();
    assert_eq!(router.insert_route("b", "/x"), Err(RouteError::AmbiguousRoute));
    assert_eq!(router.parse_route("/x").unwrap().name, "a");
}

#[test]
fn router_empty_template() {
    let mut router = Router::new();
    router.insert_route("root", "").unwrap();
    let route = router.parse_route("").unwrap();
    assert_eq!(route.name, "root");
    assert!(route.parameters.is_empty());
}

#[test]
fn router_literal_before_parameter() {
    let mut router = Router::new();
    router.insert_route("x", "/{x}").unwrap();
    router.insert_route("a", "/a").unwrap();
    let route = router.parse_route("/a").unwrap();
    assert_eq!(route.name, "a");
    assert!(route.parameters.is_empty());
    let route = router.parse_route("/b").unwrap();
    assert_eq!(route.name, "x");
    assert_eq!(params(&route), expected(vec![("x", "b")]));
}

#[test]
fn router_no_match() {
    let mut router = Router::new();
    router.insert_route("a", "/a").unwrap();
    assert!(router.parse_route("/b").is_none());
    assert!(router.parse_route("/a/").is_none());
    assert!(router.parse_route("").is_none());
}

#[test]
fn router_stringify_failures() {
    let mut router = Router::new();
    router.insert_route("a", "/a/{x}").unwrap();
    assert_eq!(router.stringify_route("b", &mapping(vec![("x", "1")])), None);
    assert_eq!(router.stringify_route("a", &mapping(vec![("y", "1")])), None);
}

#[test]
fn router_decodes_values() {
    let mut router = Router::new();
    router.insert_route("a", "/a/{x}").unwrap();
    let route = router.parse_route("/a/3%2F4").unwrap();
    assert_eq!(params(&route), expected(vec![("x", "3/4")]));
    let route = router.parse_route("/a/%FF").unwrap();
    assert_eq!(params(&route), expected(vec![("x", "%FF")]));
}

#[test]
fn router_reregistration_renders_latest() {
    let mut router = Router::new();
    router.insert_route("n", "/aa").unwrap();
    router.insert_route("n", "/b").unwrap();
    assert_eq!(router.stringify_route("n", &mapping(vec![])), Some("/b".to_string()));
    assert_eq!(router.parse_route("/aa").unwrap().name, "n");
    assert_eq!(router.parse_route("/b").unwrap().name, "n");
}

#[test]
fn router_reregistration_renders_with_new_parameter_names() {
    let mut router = Router::new();
    router.insert_route("n", "/a/{x}").unwrap();
    router.insert_route("n", "/a/{y}").unwrap();
    let route = router.parse_route("/a/1").unwrap();
    assert_eq!(params(&route), expected(vec![("x", "1")]));
    assert_eq!(
        router.stringify_route("n", &mapping(vec![("y", "1")])),
        Some("/a/1".to_string())
    );
}

#[test]
fn router_ambiguity_changes_nothing() {
    let mut router = Router::new();
    router.insert_route("a", "/x/{p}").unwrap();
    let before = format!("{:?}", router.root_node);
    assert_eq!(router.insert_route("b", "/x/{q}"), Err(RouteError::AmbiguousRoute));
    assert_eq!(format!("{:?}", router.root_node), before);
    assert_eq!(router.stringify_route("b", &mapping(vec![("q", "1")])), None);
}

#[test]
fn router_new_renders_nothing() {
    let router = Router::new();
    assert_eq!(router.stringify_route("a", &mapping(vec![])), None);
    assert!(router.parse_route("").is_none());
}
