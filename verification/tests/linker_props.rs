use polyblog::linker::{fmt_linker_args, output_target, LinkerConfig};

#[test]
fn output_target_joins() {
    assert_eq!(output_target("public", "2023/post-en.html"), "public/2023/post-en.html");
}

#[test]
fn linker_args_layout() {
    let config = LinkerConfig {
        domain: "https://example.net",
        blog_relative: "blog",
        link_cache: ".cache/link.csv",
        series_cache: ".cache/series.csv",
        templates_dir: "templates",
    };
    let args = fmt_linker_args(
        &config,
        "public/2023/post-en.html",
        ".cache/toc/en/post.html",
        ".cache/doc/en/post.html",
        0,
        "title:Hello\n",
        "en",
        "2023/post-en.html",
        ("", "jp"),
        &[("en", "2023/post-en.html"), ("jp", "2023/post-jp.html")],
    );
    assert_eq!(args.len(), 13);
    assert_eq!(args[0], "title:Hello\n");
    assert_eq!(args[1], "domain:https://example.net");
    assert_eq!(args[5], "language:en");
    assert_eq!(args[11], "other_view_langs:jp");
    assert_eq!(args[12], "relative_jp_view:2023/post-jp.html");
}
