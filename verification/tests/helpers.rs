use polyblog::helpers::{exclude, parse_tags_and_push};

fn merge(tuple: (&str, &str)) -> String {
    let mut merged = String::with_capacity(tuple.0.len() + tuple.1.len());
    merged.push_str(tuple.0);
    merged.push_str(tuple.1);
    merged
}

#[test]
fn exclude_test() {
    assert_eq!(merge(exclude("en", "")), "en");
    assert_eq!(merge(exclude("en", "en")), "");
    assert_eq!(merge(exclude("en jp", "")), "en jp");
    assert_eq!(merge(exclude("en jp", "en")), "jp");
    assert_eq!(merge(exclude("en jp", "jp")), "en");
    assert_eq!(merge(exclude("en jp zh", "en")), "jp zh");
    assert_eq!(merge(exclude("en jp zh", "jp")), "en zh");
    assert_eq!(merge(exclude("en jp zh", "zh")), "en jp");
}

#[test]
fn exclude_halves() {
    assert_eq!(merge(exclude("en jp zh", "jp")), "en zh");
    let halves = exclude("en jp", "en");
    assert_eq!(halves, ("", "jp"));
}

#[test]
fn tags_collect_in_order() {
    let mut list: Vec<&str> = Vec::new();
    let added = parse_tags_and_push(&mut list, "b a c", &[], false).unwrap();
    assert_eq!(added, vec!["b", "a", "c"]);
    assert_eq!(list, vec!["b", "a", "c"]);
}

#[test]
fn tags_ignore_list_skips() {
    let mut list: Vec<&str> = Vec::new();
    let added = parse_tags_and_push(&mut list, "* en ALL jp", &["*", "ALL"], false).unwrap();
    assert_eq!(added, vec!["en", "jp"]);
    assert_eq!(list, vec!["en", "jp"]);
}

#[test]
fn tags_duplicates_fail_when_asked() {
    let mut list: Vec<&str> = Vec::new();
    let err = parse_tags_and_push(&mut list, "a a", &[], true).unwrap_err();
    assert!(err.contains("was already defined"));
}

#[test]
fn tags_duplicates_kept_otherwise() {
    let mut list: Vec<&str> = Vec::new();
    let added = parse_tags_and_push(&mut list, "a a", &[], false).unwrap();
    assert_eq!(added, vec!["a", "a"]);
    assert_eq!(list, vec!["a"]);
}

#[test]
fn tags_blacklisted_character_fails() {
    let mut list: Vec<&str> = Vec::new();
    let err = parse_tags_and_push(&mut list, "a/b", &[], false).unwrap_err();
    assert!(err.contains("is an invalid tag"));
}
