use polyblog::custom_errors::ParseError;

#[test]
fn error_writer_allocations() {
    let err = ParseError::new(1, "", String::from("the cat"));
    assert!(!err.render().is_empty());
    let err = ParseError::new(98, "\n\n", String::from("the cat"));
    assert!(!err.render().is_empty());
    let err = ParseError::new(10, "The caturday\n", String::from("the mat"));
    assert!(!err.render().is_empty());
    assert!(!err.with_filename("fat.adoc").render().is_empty());
}

#[test]
fn error_render_layout() {
    let err = ParseError::new(2, "bad line", String::from("what went wrong"));
    let text = err.render();
    assert_eq!(text, "  |\n2 | bad line\n  |\n  = what went wrong");
}

#[test]
fn error_render_with_filename() {
    let err = ParseError::new(2, "bad line", String::from("what went wrong"));
    let text = err.with_filename("post.adoc").render();
    assert_eq!(
        text,
        " --> post.adoc:2:2\n  |\n2 | bad line\n  |\n  = what went wrong"
    );
}
