//! The per-extension handler programs: one executable per file
//! extension answers the `comment`, `compile` and `frontmatter` verbs.
//! The library computes each invocation — program path, arguments,
//! environment and piped input — as a plain value; running the process
//! is the caller's side of the contract.

use vstd::prelude::*;

use crate::text::push_char;
use crate::traits::{escape_seq, ShellEscape};

verus! {

/// The two environment values every handler invocation carries.
pub type Env<'a> = (&'a str, &'a str);

/// The path the handler program has under the API directory:
/// `dir/extension`, with no doubled separator.
pub open spec fn join_path(dir: Seq<char>, ext: Seq<char>) -> Seq<char> {
    if dir.len() == 0 {
        ext
    } else if dir.last() == '/' {
        dir + ext
    } else {
        dir + seq!['/'] + ext
    }
}

/// One fully-determined handler invocation: what to run, with which
/// arguments and environment, and what to pipe to its input.
#[derive(Debug)]
pub struct ApiCommand {
    pub program: String,
    pub env_domain: String,
    pub env_blog_relative: String,
    pub args: Vec<String>,
    pub stdin: Option<Vec<String>>,
}

/// The handler program for one file extension, with the environment
/// its invocations carry.
#[derive(Debug)]
pub struct FileApi<'a> {
    pathbuf: String,
    env: Env<'a>,
}

impl<'a> FileApi<'a> {
    /// The handler program's path.
    pub closed spec fn spec_path(&self) -> Seq<char> {
        self.pathbuf@
    }

    pub closed spec fn spec_env(&self) -> (Seq<char>, Seq<char>) {
        (self.env.0@, self.env.1@)
    }

    /// Builds the handler for `extension` under `api_dir`; the caller
    /// reports with `handler_exists` whether the handler file is
    /// present, and a missing handler is an error.
    pub fn from_filename(api_dir: &str, extension: &str, env: Env<'a>, handler_exists: bool) -> (r:
        Result<FileApi<'a>, String>)
        ensures
            handler_exists ==> (r matches Ok(api) && api.spec_path() == join_path(
                api_dir@,
                extension@,
            ) && api.spec_env() == (env.0@, env.1@)),
            !handler_exists ==> (r matches Err(m) && m@ == "Cannot find API handler for "@
                + escape_seq(extension@) + " not found.\nCannot read the file "@ + escape_seq(
                join_path(api_dir@, extension@),
            )),
    {
        let mut command = String::new();
        command.append(api_dir);
        let dlen = api_dir.unicode_len();
        if !(dlen == 0 || api_dir.get_char(dlen - 1) == '/') {
            push_char(&mut command, '/');
        }
        command.append(extension);
        proof {
            assert(command@ =~= join_path(api_dir@, extension@));
        }
        if handler_exists {
            Ok(FileApi { pathbuf: command, env })
        } else {
            let mut m = String::from_str("Cannot find API handler for ");
            let esc_ext = extension.escape();
            m.append(esc_ext.as_str());
            m.append(" not found.\nCannot read the file ");
            let esc_cmd = command.escape();
            m.append(esc_cmd.as_str());
            Err(m)
        }
    }

    /// The invocation that asks the handler for its comment marker.
    pub fn comment(&self) -> (r: ApiCommand)
        ensures
            r.program@ == self.spec_path(),
            (r.env_domain@, r.env_blog_relative@) == self.spec_env(),
            r.args.deep_view() == seq!["comment"@],
            r.stdin is None,
    {
        let mut args: Vec<String> = Vec::new();
        args.push(String::from_str("comment"));
        proof {
            assert(args.deep_view() =~= seq!["comment"@]);
        }
        ApiCommand {
            program: self.pathbuf.clone(),
            env_domain: String::from_str(self.env.0),
            env_blog_relative: String::from_str(self.env.1),
            args,
            stdin: None,
        }
    }

    /// The invocation that compiles a view body (piped to the handler)
    /// into the two partial files.
    pub fn compile(&self, stdin: &[&str], toc_location: &str, body_location: &str) -> (r:
        ApiCommand)
        ensures
            r.program@ == self.spec_path(),
            (r.env_domain@, r.env_blog_relative@) == self.spec_env(),
            r.args.deep_view() == seq!["compile"@, toc_location@, body_location@],
            r.stdin matches Some(v) && v.deep_view() == stdin.deep_view(),
    {
        let mut args: Vec<String> = Vec::new();
        args.push(String::from_str("compile"));
        args.push(String::from_str(toc_location));
        args.push(String::from_str(body_location));
        proof {
            assert(args.deep_view() =~= seq!["compile"@, toc_location@, body_location@]);
        }
        ApiCommand {
            program: self.pathbuf.clone(),
            env_domain: String::from_str(self.env.0),
            env_blog_relative: String::from_str(self.env.1),
            args,
            stdin: Some(strs_to_strings(stdin)),
        }
    }

    /// The invocation that extracts the frontmatter text from a view
    /// body piped to the handler.
    pub fn frontmatter(&self, stdin: &[&str]) -> (r: ApiCommand)
        ensures
            r.program@ == self.spec_path(),
            (r.env_domain@, r.env_blog_relative@) == self.spec_env(),
            r.args.deep_view() == seq!["frontmatter"@],
            r.stdin matches Some(v) && v.deep_view() == stdin.deep_view(),
    {
        let mut args: Vec<String> = Vec::new();
        args.push(String::from_str("frontmatter"));
        proof {
            assert(args.deep_view() =~= seq!["frontmatter"@]);
        }
        ApiCommand {
            program: self.pathbuf.clone(),
            env_domain: String::from_str(self.env.0),
            env_blog_relative: String::from_str(self.env.1),
            args,
            stdin: Some(strs_to_strings(stdin)),
        }
    }
}

/// Owned copies of a list of borrowed strings.
fn strs_to_strings(xs: &[&str]) -> (r: Vec<String>)
    ensures
        r.deep_view() == xs.deep_view(),
{
    let n = xs.len();
    let mut r: Vec<String> = Vec::new();
    let mut i: usize = 0;
    proof {
        assert(r.deep_view() =~= xs.deep_view().take(0));
    }
    while i < n
        invariant
            0 <= i <= n,
            n == xs.len(),
            r.deep_view() =~= xs.deep_view().take(i as int),
        decreases n - i,
    {
        let ghost prev = r.deep_view();
        let s = String::from_str(xs[i]);
        proof {
            assert(xs.deep_view()[i as int] == xs@[i as int]@);
        }
        r.push(s);
        proof {
            assert(r.deep_view() =~= prev.push(s@));
            assert(r.deep_view() =~= xs.deep_view().take(i + 1));
        }
        i = i + 1;
    }
    proof {
        assert(xs.deep_view().take(n as int) =~= xs.deep_view());
    }
    r
}

} // verus!
