use path_router::string_utility::parse_placeholders;
use path_router::template::{pairs_from_parts, parse_template_pairs};

fn owned(pairs: Vec<(&str, Option<&str>)>) -> Vec<(String, Option<String>)> {
    pairs
        .into_iter()
        .map(|(a, p)| (a.to_string(), p.map(|p| p.to_string())))
        .collect()
}

#[test]
fn parse_placeholders_test() {
    let parts = parse_placeholders("/a/{b}/{c}");
    assert_eq!(parts, vec!["/a/", "b", "/", "c", ""]);

    let parts = parse_placeholders("/a/{b}/{c}/");
    assert_eq!(parts, vec!["/a/", "b", "/", "c", "/"]);

    let parts = parse_placeholders("");
    assert_eq!(parts, vec![""])
}

#[test]
fn parse_template_pairs_test() {
    let pairs = parse_template_pairs("/a/{b}/{c}");
    assert_eq!(
        pairs,
        owned(vec![("/a/", None), ("/", Some("b")), ("", Some("c"))])
    );

    let pairs = parse_template_pairs("/a/{b}/{c}/");
    assert_eq!(
        pairs,
        owned(vec![("/a/", None), ("/", Some("b")), ("/", Some("c"))])
    );

    let pairs = parse_template_pairs("");
    assert_eq!(pairs, owned(vec![("", None)]))
}

#[test]
fn template_pairs_leading_placeholder() {
    let pairs = parse_template_pairs("{a}x{b}");
    assert_eq!(
        pairs,
        owned(vec![("", None), ("x", Some("a")), ("", Some("b"))])
    );
}

#[test]
fn pairs_from_given_parts() {
    let literals = vec!["/a/".to_string(), "/".to_string(), "".to_string()];
    let names = vec!["b".to_string(), "c".to_string()];
    assert_eq!(
        pairs_from_parts(&literals, &names),
        owned(vec![("/a/", None), ("/", Some("b")), ("", Some("c"))])
    );
}
