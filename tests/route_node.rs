use path_router::route_node::RouteNode;
use path_router::route_node_merge::{route_node_insert, RouteError};
use path_router::route_node_parse::route_node_parse;
use path_router::route_node_stringify::route_node_stringify;
use std::cmp::Ordering;

fn node(anchor: &str, has_parameter: bool) -> RouteNode {
    let mut n = RouteNode::new();
    n.anchor = anchor.chars().collect();
    n.has_parameter = has_parameter;
    n
}

fn canonical(a: &RouteNode, b: &RouteNode) -> Ordering {
    if a.precedes(b) {
        Ordering::Less
    } else if b.precedes(a) {
        Ordering::Greater
    } else {
        Ordering::Equal
    }
}

fn permutations(items: &[&'static str]) -> Vec<Vec<&'static str>> {
    if items.len() <= 1 {
        return vec![items.to_vec()];
    }
    let mut all = Vec::new();
    for i in 0..items.len() {
        let mut rest = items.to_vec();
        let first = rest.remove(i);
        for mut tail in permutations(&rest) {
            tail.insert(0, first);
            all.push(tail);
        }
    }
    all
}

fn assert_sorted(n: &RouteNode) {
    for pair in n.children.windows(2) {
        assert!(pair[0].precedes(&pair[1]));
    }
    for child in &n.children {
        assert_sorted(child);
    }
}

#[test]
fn route_node_flow() {
    let mut root = RouteNode::new();

    route_node_insert(&mut root, "a", "/a").unwrap();
    route_node_insert(&mut root, "b", "/b/{x}").unwrap();
    route_node_insert(&mut root, "c", "/b/{x}/c").unwrap();
    route_node_insert(&mut root, "d", "/b/{x}/d").unwrap();

    // "/a" and "/b/..." share the prefix "/", which becomes one intermediate node.
    assert_eq!(root.children.len(), 1);

    let route = route_node_parse(&root, "/a", 20).unwrap();
    assert_eq!(route.0, "a");

    let route = route_node_parse(&root, "/b/x", 20).unwrap();
    assert_eq!(route.0, "b");

    let route = route_node_parse(&root, "/b/y/c", 20).unwrap();
    assert_eq!(route.0, "c");

    let route = route_node_parse(&root, "/b/z/d", 20).unwrap();
    assert_eq!(route.0, "d");
}

#[test]
fn route_ordering() {
    let nodes = vec![
        node("aa", false),
        node("xx", false),
        node("aa", true),
        node("x", false),
    ];
    let mut sorted = vec![
        node("x", false),
        node("aa", true),
        node("xx", false),
        node("aa", false),
    ];
    sorted.sort_by(canonical);
    assert_eq!(sorted, nodes);
}

#[test]
fn route_node_permutations() {
    let templates = ["/a", "/b/{x}", "/b/{x}/", "/b/{x}/c", "/b/{y}/d"];

    let mut previous: Option<RouteNode> = None;
    for order in permutations(&templates) {
        let mut root = RouteNode::new();
        for template in order {
            route_node_insert(&mut root, template, template).unwrap();
        }

        assert_eq!(root.children.len(), 1);

        if let Some(previous) = &previous {
            assert_eq!(&root, previous);
        }
        previous = Some(root);
    }
}

#[test]
fn route_node_children_stay_sorted() {
    let mut root = RouteNode::new();
    for template in ["/a", "/ab", "/{x}", "/b/{y}", "/b/{y}/c", "/ba", "{z}"] {
        route_node_insert(&mut root, template, template).unwrap();
    }
    assert_sorted(&root);
}

#[test]
fn route_node_ambiguous() {
    let mut root = RouteNode::new();
    route_node_insert(&mut root, "a", "/x").unwrap();
    assert_eq!(route_node_insert(&mut root, "b", "/x"), Err(RouteError::AmbiguousRoute));
    assert!(route_node_insert(&mut root, "a", "/x").is_ok());
}

#[test]
fn route_node_parse_values_in_order() {
    let mut root = RouteNode::new();
    route_node_insert(&mut root, "r", "/a/{x}/{y}").unwrap();
    let (name, names, values) = route_node_parse(&root, "/a/1/2", 20).unwrap();
    assert_eq!(name, "r");
    assert_eq!(names, vec!["x", "y"]);
    assert_eq!(values, vec!["1", "2"]);
    assert_eq!(route_node_parse(&root, "/b/1/2", 20), None);
}

#[test]
fn route_node_stringify_values() {
    let mut root = RouteNode::new();
    let leaf = route_node_insert(&mut root, "r", "/a/{x}/{y}").unwrap();
    route_node_insert(&mut root, "r", "/b").unwrap();
    let values = vec!["1".to_string(), "2".to_string()];
    assert_eq!(route_node_stringify(&leaf, &values), Some("/a/1/2".to_string()));
    assert_eq!(route_node_stringify(&leaf, &values[..1].to_vec()), None);
}

#[test]
fn route_node_keeps_existing_parameter_names() {
    let mut root = RouteNode::new();
    route_node_insert(&mut root, "n", "/a/{x}").unwrap();
    route_node_insert(&mut root, "n", "/a/{y}").unwrap();
    let (name, names, values) = route_node_parse(&root, "/a/1", 20).unwrap();
    assert_eq!(name, "n");
    assert_eq!(names, vec!["x"]);
    assert_eq!(values, vec!["1"]);
}
