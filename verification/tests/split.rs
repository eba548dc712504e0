use polyblog::post::{Post, SplitByLabel};
use polyblog::traits::{Delimiter, RangeExt};

const COMMENT: &str = "//";
const API_SET_LANGUAGE: &str = "api_set_lang:";

fn parse(buffer: &str) -> Vec<(String, String)> {
    let mut splitter = SplitByLabel::new(buffer, COMMENT);
    let mut out = Vec::new();
    while let Some((section, tokens, _label, _row)) = splitter.next() {
        out.push((section.to_string(), tokens.to_string()));
    }
    out
}

fn pair(a: &str, b: &str) -> (String, String) {
    (a.to_string(), b.to_string())
}

#[test]
fn integration_test() {
    let post = Post::new("hello", "//").unwrap();
    assert_eq!(post.views.len(), 1);
}

#[test]
fn split_only_delimiter() {
    let line = &format!("{}{} hello", COMMENT, API_SET_LANGUAGE);
    assert_eq!(vec![pair("", " hello")], parse(line));
}

#[test]
fn split_delimiter_start() {
    let line = &format!("{}{} hello\nasdf\n", COMMENT, API_SET_LANGUAGE);
    assert_eq!(vec![pair("", " hello\n"), pair("asdf\n", "")], parse(line));
}

#[test]
fn split_delimiter_end() {
    let line = &format!("stuff and things\n{}{} hello", COMMENT, API_SET_LANGUAGE);
    assert_eq!(vec![pair("stuff and things\n", " hello")], parse(line));
}

#[test]
fn split_empty() {
    let against: Vec<(String, String)> = Vec::new();
    assert_eq!(against, parse(""));
}

#[test]
fn split_no_delimiter() {
    let line = "lorem ipsem
// adsfkj
qwekrjl
qewrkjladjsf ldjas lf
";
    assert_eq!(vec![pair(line, "")], parse(line));
}

#[test]
fn split_test() {
    let body = "hello你\n你how\n are you tody 你好嗎";
    let n = body.chars().count();
    let mut lines = (2..n - 2).split(body);
    let mut seen = 0;
    while let Some(a) = lines.next() {
        assert!(a.1.of(body).is_empty());
        seen += 1;
    }
    assert!(seen > 0);

    // Splitting on `{...}` markup tiles the covered range with no gaps.
    let mut pieces = (1..n - 2).split_over(body, Delimiter::Markup);
    let mut covered = 1;
    while let Some(a) = pieces.next() {
        assert_eq!(a.0.start, covered);
        assert_eq!(a.0.end, a.1.start);
        covered = a.1.end;
    }
    assert_eq!(covered, n - 2);
}
