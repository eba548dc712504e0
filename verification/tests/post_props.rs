use polyblog::post::{Post, SplitByLabel};

// With no directive the whole text lands in a single all-languages
// view whose body reconstructs it exactly.
#[test]
fn no_directive_single_view() {
    let text = "hello\nworld\n// an ordinary comment\n";
    let post = Post::new(text, "//").unwrap();
    assert!(post.lang_list.is_empty());
    assert_eq!(post.views.len(), 1);
    assert!(post.views[0].lang.is_none());
    assert_eq!(post.views[0].body.concat(), text);
}

// Sections and directive lines tile the input exactly.
#[test]
fn split_partitions_text() {
    let text = "aaa\n//api_set_lang: en jp\nbbb\n//  api_set_lang: *\nccc";
    let mut splitter = SplitByLabel::new(text, "//");
    let mut rebuilt = String::new();
    while let Some((section, _tokens, label, _row)) = splitter.next() {
        rebuilt.push_str(section);
        rebuilt.push_str(label);
    }
    assert_eq!(rebuilt, text);
}

// Every non-reserved token registers exactly once, in first-seen
// order, even when its own segment applies to all languages.
#[test]
fn registry_first_seen_order() {
    let text = "//api_set_lang: * jp\nx\n//api_set_lang: en\ny\n//api_set_lang: jp\nz";
    let post = Post::new(text, "//").unwrap();
    assert_eq!(post.lang_list, vec!["jp", "en"]);
}

// A segment lands in a language's view exactly when its directive
// names the language or applies to all.
#[test]
fn view_membership() {
    let text = "//api_set_lang: * jp\nx\n//api_set_lang: en\ny\n//api_set_lang: jp\nz";
    let post = Post::new(text, "//").unwrap();
    assert_eq!(post.views.len(), 2);
    assert_eq!(post.views[0].lang, Some("jp"));
    assert_eq!(post.views[0].body.concat(), "x\nz");
    assert_eq!(post.views[1].lang, Some("en"));
    assert_eq!(post.views[1].body.concat(), "x\ny\n");
}

// A directive at the end of the text still registers its languages
// and yields a zero-length trailing segment.
#[test]
fn directive_at_end_registers() {
    let text = "a\n//api_set_lang: en\n";
    let post = Post::new(text, "//").unwrap();
    assert_eq!(post.lang_list, vec!["en"]);
    assert_eq!(post.views.len(), 1);
    assert_eq!(post.views[0].lang, Some("en"));
    assert_eq!(post.views[0].body.concat(), "a\n");
}

// Leading whitespace before the comment marker is ignored when
// matching a directive line.
#[test]
fn directive_after_leading_whitespace() {
    let text = "a\n   //api_set_lang: en\nb\n";
    let post = Post::new(text, "//").unwrap();
    assert_eq!(post.lang_list, vec!["en"]);
}

// A blacklisted character in a language token is a fatal error that
// reports the directive line.
#[test]
fn invalid_language_token_fails() {
    let text = "a\nb\n//api_set_lang: en/jp\nc\n";
    let err = Post::new(text, "//").unwrap_err();
    assert_eq!(err.row, 3);
    assert!(err.message.contains("is an invalid tag"));
    assert!(err.context.contains("api_set_lang"));
}

// An empty input yields one empty all-languages view.
#[test]
fn empty_input() {
    let post = Post::new("", "//").unwrap();
    assert!(post.lang_list.is_empty());
    assert_eq!(post.views.len(), 1);
    assert_eq!(post.views[0].body.concat(), "");
}

// Two directives with nothing in between produce an empty segment
// that changes no view body.
#[test]
fn adjacent_directives() {
    let text = "//api_set_lang: en\n//api_set_lang: jp\nbody\n";
    let post = Post::new(text, "//").unwrap();
    assert_eq!(post.lang_list, vec!["en", "jp"]);
    assert_eq!(post.views[0].lang, Some("en"));
    assert_eq!(post.views[0].body.concat(), "");
    assert_eq!(post.views[1].lang, Some("jp"));
    assert_eq!(post.views[1].body.concat(), "body\n");
}
