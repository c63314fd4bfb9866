use path_router::string::find_common_prefix_length;
use path_router::string_utility;

fn chars(s: &str) -> Vec<char> {
    s.chars().collect()
}

#[test]
fn common_prefix_length_1() {
    assert_eq!(find_common_prefix_length(&chars("ab"), &chars("abc")), 2)
}

#[test]
fn common_prefix_length_2() {
    assert_eq!(find_common_prefix_length(&chars("abc"), &chars("abc")), 3)
}

#[test]
fn common_prefix_length_3() {
    assert_eq!(find_common_prefix_length(&chars("bc"), &chars("abc")), 0,)
}

#[test]
fn common_prefix_length_test() {
    let find = string_utility::find_common_prefix_length;
    assert_eq!(find(&chars("ab"), &chars("abc")), 2);
    assert_eq!(find(&chars("abc"), &chars("abc")), 3);
    assert_eq!(find(&chars("bc"), &chars("abc")), 0,);
}

#[test]
fn common_prefix_length_empty_and_unicode() {
    assert_eq!(find_common_prefix_length(&chars(""), &chars("abc")), 0);
    assert_eq!(find_common_prefix_length(&chars("héllo"), &chars("hélp")), 3);
}
