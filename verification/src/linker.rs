//! The linker invocation: the serialised frontmatter followed by the
//! fixed `key:value` metadata arguments, and the final output path a
//! view is linked to.

use vstd::prelude::*;

use crate::text::push_char;

verus! {

/// The caller-supplied locations and names a linker invocation needs.
pub struct LinkerConfig<'a> {
    pub domain: &'a str,
    pub blog_relative: &'a str,
    pub link_cache: &'a str,
    pub series_cache: &'a str,
    pub templates_dir: &'a str,
}

/// `public_dir`, a separator, and the view's relative output location.
pub fn output_target(public_dir: &str, relative_output_loc: &str) -> (r: String)
    ensures
        r@ == public_dir@ + seq!['/'] + relative_output_loc@,
{
    let mut out = String::new();
    out.append(public_dir);
    push_char(&mut out, '/');
    out.append(relative_output_loc);
    proof {
        assert(out@ =~= public_dir@ + seq!['/'] + relative_output_loc@);
    }
    out
}

/// One `prefix:value` metadata argument.
fn keyval(prefix: &str, value: &str) -> (r: String)
    ensures
        r@ == prefix@ + value@,
{
    let mut out = String::new();
    out.append(prefix);
    out.append(value);
    out
}

/// The sibling-view arguments: one `relative_<lang>_view:<loc>` per
/// view of the post other than the one at `skip_index`.
pub open spec fn sibling_args(
    pd: Seq<(Seq<char>, Seq<char>)>,
    skip_index: int,
    upto: int,
) -> Seq<Seq<char>>
    decreases upto,
{
    if upto <= 0 {
        Seq::empty()
    } else {
        sibling_args(pd, skip_index, upto - 1) + if upto - 1 == skip_index {
            Seq::empty()
        } else {
            seq!["relative_"@ + pd[upto - 1].0 + "_view:"@ + pd[upto - 1].1]
        }
    }
}

/// The full linker argument list: the serialised frontmatter first,
/// then the fixed metadata `key:value` arguments, then one relative
/// link per sibling view.
pub open spec fn spec_linker_args(
    config_domain: Seq<char>,
    config_blog_relative: Seq<char>,
    config_link_cache: Seq<char>,
    config_series_cache: Seq<char>,
    config_templates_dir: Seq<char>,
    frontmatter_serialised: Seq<char>,
    lang: Seq<char>,
    toc_loc: Seq<char>,
    doc_loc: Seq<char>,
    local_target: Seq<char>,
    relative_target: Seq<char>,
    other_langs: (Seq<char>, Seq<char>),
    pd: Seq<(Seq<char>, Seq<char>)>,
    skip_index: int,
) -> Seq<Seq<char>> {
    seq![
        frontmatter_serialised,
        "domain:"@ + config_domain,
        "blog_relative:"@ + config_blog_relative,
        "link_cache:"@ + config_link_cache,
        "series_cache:"@ + config_series_cache,
        "language:"@ + lang,
        "local_templates_dir:"@ + config_templates_dir,
        "local_toc_path:"@ + toc_loc,
        "local_doc_path:"@ + doc_loc,
        "local_output_path:"@ + local_target,
        "relative_output_url:"@ + relative_target,
        "other_view_langs:"@ + other_langs.0 + other_langs.1,
    ] + sibling_args(pd, skip_index, pd.len() as int)
}

/// Builds the linker's argument list for one view: the serialised
/// frontmatter, the fixed metadata, and a relative link to each of the
/// post's other views.
pub fn fmt_linker_args(
    config: &LinkerConfig,
    local_target: &str,
    toc_loc: &str,
    doc_loc: &str,
    view_index: usize,
    frontmatter_serialised: &str,
    lang: &str,
    relative_target: &str,
    other_langs: (&str, &str),
    post_data: &[(&str, &str)],
) -> (r: Vec<String>)
    ensures
        r.deep_view() == spec_linker_args(
            config.domain@,
            config.blog_relative@,
            config.link_cache@,
            config.series_cache@,
            config.templates_dir@,
            frontmatter_serialised@,
            lang@,
            toc_loc@,
            doc_loc@,
            local_target@,
            relative_target@,
            (other_langs.0@, other_langs.1@),
            Seq::new(post_data@.len(), |i: int| (post_data@[i].0@, post_data@[i].1@)),
            view_index as int,
        ),
{
    let ghost pd = Seq::new(post_data@.len(), |i: int| (post_data@[i].0@, post_data@[i].1@));
    let mut args: Vec<String> = Vec::new();
    args.push(String::from_str(frontmatter_serialised));
    args.push(keyval("domain:", config.domain));
    args.push(keyval("blog_relative:", config.blog_relative));
    args.push(keyval("link_cache:", config.link_cache));
    args.push(keyval("series_cache:", config.series_cache));
    args.push(keyval("language:", lang));
    args.push(keyval("local_templates_dir:", config.templates_dir));
    args.push(keyval("local_toc_path:", toc_loc));
    args.push(keyval("local_doc_path:", doc_loc));
    args.push(keyval("local_output_path:", local_target));
    let mut other = String::new();
    other.append("other_view_langs:");
    other.append(other_langs.0);
    other.append(other_langs.1);
    args.push(keyval("relative_output_url:", relative_target));
    args.push(other);
    proof {
        assert(args.deep_view() =~= seq![
            frontmatter_serialised@,
            "domain:"@ + config.domain@,
            "blog_relative:"@ + config.blog_relative@,
            "link_cache:"@ + config.link_cache@,
            "series_cache:"@ + config.series_cache@,
            "language:"@ + lang@,
            "local_templates_dir:"@ + config.templates_dir@,
            "local_toc_path:"@ + toc_loc@,
            "local_doc_path:"@ + doc_loc@,
            "local_output_path:"@ + local_target@,
            "relative_output_url:"@ + relative_target@,
            "other_view_langs:"@ + other_langs.0@ + other_langs.1@,
        ] + sibling_args(pd, view_index as int, 0));
    }
    let ghost base = args.deep_view();
    let mut i: usize = 0;
    while i < post_data.len()
        invariant
            0 <= i <= post_data.len(),
            pd == Seq::new(post_data@.len(), |x: int| (post_data@[x].0@, post_data@[x].1@)),
            pd.len() == post_data@.len(),
            base.len() == 12,
            args.deep_view() =~= base + sibling_args(pd, view_index as int, i as int),
        decreases post_data.len() - i,
    {
        let ghost prev = args.deep_view();
        if i != view_index {
            let entry = post_data[i];
            let mut line = String::new();
            line.append("relative_");
            line.append(entry.0);
            line.append("_view:");
            line.append(entry.1);
            proof {
                assert(line@ =~= "relative_"@ + pd[i as int].0 + "_view:"@ + pd[i as int].1);
            }
            args.push(line);
            proof {
                assert(args.deep_view() =~= prev.push(line@));
            }
        }
        proof {
            assert(args.deep_view() =~= base + sibling_args(pd, view_index as int, i + 1));
        }
        i = i + 1;
    }
    proof {
        assert(args.deep_view() =~= spec_linker_args(
            config.domain@,
            config.blog_relative@,
            config.link_cache@,
            config.series_cache@,
            config.templates_dir@,
            frontmatter_serialised@,
            lang@,
            toc_loc@,
            doc_loc@,
            local_target@,
            relative_target@,
            (other_langs.0@, other_langs.1@),
            pd,
            view_index as int,
        ));
    }
    args
}

} // verus!
