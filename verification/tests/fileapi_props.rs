use polyblog::fileapi::FileApi;

#[test]
fn handler_path_is_joined() {
    let api = FileApi::from_filename("config/api", "adoc", ("d", "b"), true).unwrap();
    let cmd = api.comment();
    assert_eq!(cmd.program, "config/api/adoc");
    assert_eq!(cmd.args, vec!["comment".to_string()]);
    assert!(cmd.stdin.is_none());
    assert_eq!(cmd.env_domain, "d");
    assert_eq!(cmd.env_blog_relative, "b");
}

#[test]
fn handler_path_keeps_single_slash() {
    let api = FileApi::from_filename("config/api/", "adoc", ("d", "b"), true).unwrap();
    assert_eq!(api.comment().program, "config/api/adoc");
}

#[test]
fn missing_handler_is_an_error() {
    let err = FileApi::from_filename("config/api", "adoc", ("d", "b"), false).unwrap_err();
    assert!(err.contains("Cannot find API handler for"));
    assert!(err.contains("'adoc'"));
}

#[test]
fn compile_command_carries_body() {
    let api = FileApi::from_filename("api", "md", ("dom", "rel"), true).unwrap();
    let cmd = api.compile(&["part one\n", "part two\n"], "toc.html", "doc.html");
    assert_eq!(
        cmd.args,
        vec![
            "compile".to_string(),
            "toc.html".to_string(),
            "doc.html".to_string()
        ]
    );
    assert_eq!(
        cmd.stdin,
        Some(vec!["part one\n".to_string(), "part two\n".to_string()])
    );
}

#[test]
fn frontmatter_command_carries_body() {
    let api = FileApi::from_filename("api", "md", ("dom", "rel"), true).unwrap();
    let cmd = api.frontmatter(&["body\n"]);
    assert_eq!(cmd.args, vec!["frontmatter".to_string()]);
    assert_eq!(cmd.stdin, Some(vec!["body\n".to_string()]));
}
