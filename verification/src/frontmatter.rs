//! The frontmatter parser: `key:value` lines validated into an ordered
//! table of unique keys, reserved date keys parsed as calendar
//! timestamps, tag and series labels checked, plus template-driven path
//! formatting, serialisation back to `key:value` text, and CSV cache
//! line generation.

use vstd::prelude::*;

use crate::custom_errors::{lemma_first_at_skip, lemma_line_len, line_len, lines_of, ParseError};
use crate::date::{
    cache_stamp, render_rfc2822, rfc2822_repr, spec_cache_stamp,
    spec_stamp_of_rfc2822, stamp_from_rfc2822, Stamp,
};
use crate::helpers::{parse_tags_and_push, ptp_fold, split_ws, words};
use crate::text::{
    find_char, first_at, is_ws, is_ws_char, lemma_first_at_bounds, push_char, str_eq,
};
use crate::traits::{escape_seq, Delimiter, RangeExt, ShellEscape};

verus! {

/// A frontmatter value: borrowed text, or a parsed calendar timestamp.
#[derive(Debug)]
pub enum Value<'a> {
    Utf8(&'a str),
    DateTime(Stamp),
}

/// The mathematical shape of a value.
pub enum ValModel {
    Text(Seq<char>),
    Date(Stamp),
}

/// The model of an executable value.
pub open spec fn val_model(v: Value) -> ValModel {
    match v {
        Value::Utf8(s) => ValModel::Text(s@),
        Value::DateTime(st) => ValModel::Date(st),
    }
}

/// Keys the user may not set: they are supplied by the formatter.
pub open spec fn is_reserved_key(k: Seq<char>) -> bool {
    k == "file_stem"@ || k == "lang"@ || k == "year"@ || k == "month"@ || k == "day"@
}

/// The two keys that hold calendar timestamps.
pub open spec fn is_date_key(k: Seq<char>) -> bool {
    k == "date-created"@ || k == "date-updated"@
}

/// Leading whitespace count of `s`.
pub open spec fn ws_prefix_len(s: Seq<char>) -> int
    decreases s.len(),
{
    if s.len() > 0 && is_ws_char(s[0]) {
        1 + ws_prefix_len(s.drop_first())
    } else {
        0
    }
}

/// Trailing whitespace count of `s`.
pub open spec fn ws_suffix_len(s: Seq<char>) -> int
    decreases s.len(),
{
    if s.len() > 0 && is_ws_char(s.last()) {
        1 + ws_suffix_len(s.drop_last())
    } else {
        0
    }
}

/// `s` with leading and trailing whitespace removed.
pub open spec fn trim_spec(s: Seq<char>) -> Seq<char> {
    let t1 = s.take(s.len() - ws_suffix_len(s));
    t1.skip(ws_prefix_len(t1))
}

proof fn lemma_ws_prefix_char(s: Seq<char>, k: int)
    requires
        0 <= k <= s.len(),
        forall|j: int| 0 <= j < k ==> is_ws_char(s[j]),
        k < s.len() ==> !is_ws_char(s[k]),
    ensures
        ws_prefix_len(s) == k,
    decreases k,
{
    if k > 0 {
        assert forall|j: int| 0 <= j < k - 1 implies is_ws_char(s.drop_first()[j]) by {
            assert(s.drop_first()[j] == s[j + 1]);
        }
        if k - 1 < s.drop_first().len() {
            assert(s.drop_first()[k - 1] == s[k]);
        }
        lemma_ws_prefix_char(s.drop_first(), k - 1);
    }
}

proof fn lemma_ws_suffix_char(s: Seq<char>, k: int)
    requires
        0 <= k <= s.len(),
        forall|j: int| s.len() - k <= j < s.len() ==> is_ws_char(s[j]),
        k < s.len() ==> !is_ws_char(s[s.len() - k - 1]),
    ensures
        ws_suffix_len(s) == k,
    decreases k,
{
    if k > 0 {
        assert(is_ws_char(s.last()));
        assert forall|j: int|
            s.drop_last().len() - (k - 1) <= j < s.drop_last().len() implies is_ws_char(
            s.drop_last()[j],
        ) by {
            assert(s.drop_last()[j] == s[j]);
        }
        if k - 1 < s.drop_last().len() {
            assert(s.drop_last()[s.drop_last().len() - (k - 1) - 1] == s[s.len() - k - 1]);
        }
        lemma_ws_suffix_char(s.drop_last(), k - 1);
    }
}

/// `s` with surrounding whitespace removed, as `str::trim` returns it.
pub fn trim_str<'a>(s: &'a str) -> (r: &'a str)
    ensures
        r@ == trim_spec(s@),
{
    let n = s.unicode_len();
    let mut j = n;
    while j > 0 && is_ws(s.get_char(j - 1))
        invariant
            0 <= j <= n,
            n == s@.len(),
            forall|x: int| j <= x < n ==> is_ws_char(s@[x]),
        decreases j,
    {
        j = j - 1;
    }
    proof {
        lemma_ws_suffix_char(s@, n - j);
    }
    let mut i: usize = 0;
    while i < j && is_ws(s.get_char(i))
        invariant
            0 <= i <= j <= n,
            n == s@.len(),
            forall|x: int| 0 <= x < i ==> is_ws_char(s@[x]),
        decreases j - i,
    {
        i = i + 1;
    }
    proof {
        let t1 = s@.take(j as int);
        assert forall|x: int| 0 <= x < i implies is_ws_char(t1[x]) by {
            assert(t1[x] == s@[x]);
        }
        if i < j {
            assert(t1[i as int] == s@[i as int]);
        }
        lemma_ws_prefix_char(t1, i as int);
        assert(t1.skip(i as int) =~= s@.subrange(i as int, j as int));
    }
    s.substring_char(i, j)
}

/// The message when a line has no colon.
pub open spec fn no_key_msg() -> Seq<char> {
    "No key found (i.e. no ':'). Correct syntax is 'key:value'"@
}

/// The message when a key holds whitespace.
pub open spec fn ws_key_msg() -> Seq<char> {
    "The key cannot contain whitespaces."@
}

/// The prefix of every malformed-date message.
pub open spec fn date_msg_prefix() -> Seq<char> {
    "Dates must conform to RFC 2822 dates (internet format).\n"@
}

/// What a malformed or unsupported date value fails with.
pub open spec fn date_err_msg(val: Seq<char>) -> Seq<char> {
    date_msg_prefix() + crate::date::stamp_err_msg(val)
}

/// The `(1-based row, content)` pairs of the non-empty lines of `ls`
/// from index `from` on.
pub open spec fn ne_from(ls: Seq<Seq<char>>, from: int) -> Seq<(int, Seq<char>)>
    decreases ls.len() - from,
{
    if from < 0 || from >= ls.len() {
        Seq::empty()
    } else {
        (if ls[from].len() > 0 {
            seq![(from + 1, ls[from])]
        } else {
            Seq::empty()
        }) + ne_from(ls, from + 1)
    }
}

/// The non-empty lines of the frontmatter text, with 1-based rows.
pub open spec fn nonempty_lines(t: Seq<char>) -> Seq<(int, Seq<char>)> {
    ne_from(lines_of(t), 0)
}

/// What is wrong with one line, if anything: no colon, or whitespace
/// in the key.
pub open spec fn v_step(l: Seq<char>) -> Option<Seq<char>> {
    let colon = first_at(l, ':', 0);
    if colon == l.len() {
        Some(no_key_msg())
    } else if exists|j: int| 0 <= j < colon && is_ws_char(l[j]) {
        Some(ws_key_msg())
    } else {
        None
    }
}

/// The first syntactically bad line, with its row and message.
pub open spec fn first_bad(ls: Seq<(int, Seq<char>)>) -> Option<(int, Seq<char>, Seq<char>)>
    decreases ls.len(),
{
    if ls.len() == 0 {
        None
    } else {
        match v_step(ls[0].1) {
            Some(m) => Some((ls[0].0, ls[0].1, m)),
            None => first_bad(ls.drop_first()),
        }
    }
}

/// Checks that every non-empty line is `key:value` with a
/// whitespace-free key, and counts those lines.
pub fn validate_and_count<'a>(frontmatter: &'a str) -> (r: Result<usize, ParseError<'a>>)
    requires
        frontmatter@.len() < usize::MAX,
    ensures
        match first_bad(nonempty_lines(frontmatter@)) {
            None => r matches Ok(n) && n == nonempty_lines(frontmatter@).len(),
            Some(e) => r matches Err(pe) && pe.row == e.0 && pe.context@ == e.1 && pe.message@
                == e.2,
        },
{
    let t = frontmatter;
    let n = t.unicode_len();
    let ghost ls = lines_of(t@);
    let mut pos: usize = 0;
    let mut i: usize = 0;
    let mut count: usize = 0;
    proof {
        assert(t@.skip(0) =~= t@);
    }
    while pos < n
        invariant
            0 <= pos <= n,
            i <= pos,
            count <= i,
            n == t@.len(),
            n < usize::MAX,
            t == frontmatter,
            ls == lines_of(t@),
            i + lines_of(t@.skip(pos as int)).len() == ls.len(),
            lines_of(t@).take(i as int) + lines_of(t@.skip(pos as int)) =~= ls,
            count + ne_from(ls, i as int).len() == nonempty_lines(t@).len(),
            first_bad(nonempty_lines(t@)) == first_bad(ne_from(ls, i as int)),
        decreases n - pos,
    {
        let e = find_char(t, pos, '\n');
        proof {
            lemma_first_at_bounds(t@, '\n', pos as int);
            lemma_first_at_skip(t@, '\n', pos as int);
            lemma_line_len(t@.skip(pos as int));
        }
        let content_end = if e > pos && t.get_char(e - 1) == '\r' {
            e - 1
        } else {
            e
        };
        let next = if e < n {
            e + 1
        } else {
            n
        };
        let line = t.substring_char(pos, content_end);
        let ghost suffix = t@.skip(pos as int);
        let ghost ll = line_len(suffix);
        proof {
            assert(suffix.skip(ll) =~= t@.skip(next as int));
            let raw = suffix.subrange(0, ll);
            let no_nl: Seq<char> = if raw.last() == '\n' {
                raw.drop_last()
            } else {
                raw
            };
            let content: Seq<char> = if no_nl.len() > 0 && no_nl.last() == '\r' {
                no_nl.drop_last()
            } else {
                no_nl
            };
            assert(content =~= t@.subrange(pos as int, content_end as int));
            assert(lines_of(suffix) == seq![content] + lines_of(t@.skip(next as int)));
            assert(ls[i as int] == content);
            assert(line@ == ls[i as int]);
            assert(lines_of(t@).take(i + 1) + lines_of(t@.skip(next as int)) =~= ls);
        }
        if line.unicode_len() > 0 {
            // This is a non-empty line: head of the remaining model.
            proof {
                assert(ne_from(ls, i as int) == seq![(i + 1, ls[i as int])] + ne_from(ls, i + 1));
            }
            let colon = find_char(line, 0, ':');
            proof {
                lemma_first_at_bounds(line@, ':', 0);
            }
            if colon == line.unicode_len() {
                return Err(ParseError::new(i + 1, line, msg_string_no_key()));
            }
            let mut j: usize = 0;
            let mut has_ws = false;
            while j < colon
                invariant
                    0 <= j <= colon,
                    colon <= line@.len(),
                    has_ws == exists|x: int| 0 <= x < j && is_ws_char(line@[x]),
                decreases colon - j,
            {
                if is_ws(line.get_char(j)) {
                    has_ws = true;
                }
                j = j + 1;
            }
            if has_ws {
                return Err(ParseError::new(i + 1, line, msg_string_ws_key()));
            }
            proof {
                assert(v_step(line@) is None);
                assert(ne_from(ls, i as int).drop_first() =~= ne_from(ls, i + 1));
            }
            count = count + 1;
        } else {
            proof {
                assert(ne_from(ls, i as int) =~= ne_from(ls, i + 1));
            }
        }
        i = i + 1;
        pos = next;
    }
    proof {
        assert(lines_of(t@.skip(n as int)) =~= Seq::<Seq<char>>::empty());
        assert(i == ls.len());
        assert(ne_from(ls, i as int) =~= Seq::<(int, Seq<char>)>::empty());
    }
    Ok(count)
}

fn msg_string_no_key() -> (r: String)
    ensures
        r@ == no_key_msg(),
{
    String::from_str("No key found (i.e. no ':'). Correct syntax is 'key:value'")
}

fn msg_string_ws_key() -> (r: String)
    ensures
        r@ == ws_key_msg(),
{
    String::from_str("The key cannot contain whitespaces.")
}

/// Appending the defaults leaves both date keys present and preserves
/// key uniqueness.
pub proof fn lemma_with_defaults_keys(m: Seq<(Seq<char>, ValModel)>, created: Stamp, updated: Stamp)
    ensures
        has_key(with_defaults(m, created, updated), "date-created"@),
        has_key(with_defaults(m, created, updated), "date-updated"@),
{
    let m1 = if has_key(m, "date-created"@) {
        m
    } else {
        m.push(("date-created"@, ValModel::Date(created)))
    };
    let m2 = with_defaults(m, created, updated);
    if has_key(m, "date-created"@) {
        let x = choose|x: int| 0 <= x < m.len() && (#[trigger] m[x]).0 == "date-created"@;
        assert(m1[x].0 == "date-created"@);
    } else {
        assert(m1[m.len() as int].0 == "date-created"@);
    }
    let xc = choose|x: int| 0 <= x < m1.len() && (#[trigger] m1[x]).0 == "date-created"@;
    if has_key(m1, "date-updated"@) {
        let x = choose|x: int| 0 <= x < m1.len() && (#[trigger] m1[x]).0 == "date-updated"@;
        assert(m2[x].0 == "date-updated"@);
        assert(m2[xc].0 == "date-created"@);
    } else {
        assert(m2[m1.len() as int].0 == "date-updated"@);
        assert(m2[xc].0 == "date-created"@);
    }
}

/// Is there an entry with this key?
pub open spec fn has_key(m: Seq<(Seq<char>, ValModel)>, k: Seq<char>) -> bool {
    exists|i: int| 0 <= i < m.len() && (#[trigger] m[i]).0 == k
}

/// The value of the first entry with this key, if any.
pub open spec fn spec_lookup(m: Seq<(Seq<char>, ValModel)>, k: Seq<char>) -> Option<ValModel>
    decreases m.len(),
{
    if m.len() == 0 {
        None
    } else if m[0].0 == k {
        Some(m[0].1)
    } else {
        spec_lookup(m.drop_first(), k)
    }
}

/// The reserved-key error message.
pub open spec fn reserved_msg(key: Seq<char>) -> Seq<char> {
    "Key "@ + escape_seq(key) + " "@ + "is reserved"@
}

/// The duplicate-key error message.
pub open spec fn dup_key_msg(key: Seq<char>) -> Seq<char> {
    "Key "@ + escape_seq(key) + " "@ + "was already defined. Cannot have duplicates."@
}

/// The parser's running state: the key/value table, and the tag and
/// series labels seen so far.
pub type FmState = (Seq<(Seq<char>, ValModel)>, Seq<Seq<char>>, Seq<Seq<char>>);

/// How one `key:value` line changes the parser state, or the error it
/// stops with.
pub open spec fn fm_step(st: FmState, row: int, l: Seq<char>) -> Result<
    FmState,
    (int, Seq<char>, Seq<char>),
> {
    let colon = first_at(l, ':', 0);
    let key = l.take(colon);
    let val = if colon < l.len() {
        trim_spec(l.skip(colon + 1))
    } else {
        Seq::empty()
    };
    if is_reserved_key(key) {
        Err((row, l, reserved_msg(key)))
    } else if has_key(st.0, key) {
        Err((row, l, dup_key_msg(key)))
    } else if is_date_key(key) {
        match spec_stamp_of_rfc2822(val) {
            Some(stp) => Ok((st.0.push((key, ValModel::Date(stp))), st.1, st.2)),
            None => Err((row, l, date_err_msg(val))),
        }
    } else {
        let m2 = st.0.push((key, ValModel::Text(val)));
        if key == "tags"@ {
            match ptp_fold(words(val), (st.1, Seq::empty()), Seq::empty(), true) {
                Ok(r2) => Ok((m2, r2.0, st.2)),
                Err(e) => Err((row, l, e.1)),
            }
        } else if key == "series"@ {
            match ptp_fold(words(val), (st.2, Seq::empty()), Seq::empty(), true) {
                Ok(r2) => Ok((m2, st.1, r2.0)),
                Err(e) => Err((row, l, e.1)),
            }
        } else {
            Ok((m2, st.1, st.2))
        }
    }
}

/// The parser state after every non-empty line, or its first error.
pub open spec fn fm_fold(ls: Seq<(int, Seq<char>)>, st: FmState) -> Result<
    FmState,
    (int, Seq<char>, Seq<char>),
>
    decreases ls.len(),
{
    if ls.len() == 0 {
        Ok(st)
    } else {
        match fm_step(st, ls[0].0, ls[0].1) {
            Ok(st2) => fm_fold(ls.drop_first(), st2),
            Err(e) => Err(e),
        }
    }
}

/// Appends the `date-created` and `date-updated` defaults where the
/// text did not supply them.
pub open spec fn with_defaults(
    m: Seq<(Seq<char>, ValModel)>,
    created: Stamp,
    updated: Stamp,
) -> Seq<(Seq<char>, ValModel)> {
    let m1 = if has_key(m, "date-created"@) {
        m
    } else {
        m.push(("date-created"@, ValModel::Date(created)))
    };
    if has_key(m1, "date-updated"@) {
        m1
    } else {
        m1.push(("date-updated"@, ValModel::Date(updated)))
    }
}

/// The whole construction: validation, the line fold, then defaults.
pub open spec fn spec_frontmatter(t: Seq<char>, created: Stamp, updated: Stamp) -> Result<
    Seq<(Seq<char>, ValModel)>,
    (int, Seq<char>, Seq<char>),
> {
    let ls = nonempty_lines(t);
    match first_bad(ls) {
        Some(e) => Err(e),
        None => match fm_fold(ls, (Seq::empty(), Seq::empty(), Seq::empty())) {
            Ok(st) => Ok(with_defaults(st.0, created, updated)),
            Err(e) => Err(e),
        },
    }
}

/// One view's frontmatter: an insertion-ordered table of unique keys
/// and their values, with both date keys always present.
#[derive(Debug)]
pub struct Frontmatter<'a> {
    keys: Vec<&'a str>,
    values: Vec<Value<'a>>,
}

impl<'a> Frontmatter<'a> {
    /// The table as a sequence of `(key, value)` pairs.
    pub closed spec fn model(&self) -> Seq<(Seq<char>, ValModel)> {
        Seq::new(self.keys@.len(), |i: int| (self.keys@[i]@, val_model(self.values@[i])))
    }

    /// The table's invariant: parallel lists, unique keys, both date
    /// keys present, exactly the date keys holding well-formed stamps.
    pub closed spec fn wf(&self) -> bool {
        &&& self.keys@.len() == self.values@.len()
        &&& has_key(self.model(), "date-created"@)
        &&& has_key(self.model(), "date-updated"@)
        &&& (forall|i: int, j: int|
            0 <= i < j < self.model().len() ==> (#[trigger] self.model()[i]).0 != (
            #[trigger] self.model()[j]).0)
        &&& (forall|i: int|
            0 <= i < self.model().len() ==> (is_date_key((#[trigger] self.model()[i]).0)
                <==> self.model()[i].1 is Date))
        &&& (forall|i: int|
            0 <= i < self.model().len() ==> match (#[trigger] self.model()[i]).1 {
                ValModel::Date(st) => st.wf(),
                ValModel::Text(_) => true,
            })
    }

    /// Parses the frontmatter text into a validated table, with the
    /// supplied timestamps as defaults for the date keys.
    #[verifier::rlimit(100)]
    pub fn new(frontmatter: &'a str, created: Stamp, updated: Stamp) -> (r: Result<
        Frontmatter<'a>,
        ParseError<'a>,
    >)
        requires
            created.wf(),
            updated.wf(),
            frontmatter@.len() < usize::MAX,
        ensures
            r is Ok <==> spec_frontmatter(frontmatter@, created, updated) is Ok,
            r matches Ok(fm) ==> fm.wf() && fm.model() == spec_frontmatter(
                frontmatter@,
                created,
                updated,
            )->Ok_0,
            r matches Err(e) ==> {
                let err = spec_frontmatter(frontmatter@, created, updated)->Err_0;
                &&& e.row == err.0
                &&& e.context@ == err.1
                &&& e.message@ == err.2
            },
    {
        let t = frontmatter;
        match validate_and_count(t) {
            Err(e) => {
                return Err(e);
            },
            Ok(_) => {},
        }
        let ghost ls = lines_of(t@);
        let ghost ne_all = nonempty_lines(t@);
        let ghost st0: FmState = (Seq::empty(), Seq::empty(), Seq::empty());
        let n = t.unicode_len();
        let mut keys: Vec<&'a str> = Vec::new();
        let mut values: Vec<Value<'a>> = Vec::new();
        let mut tag_list: Vec<&'a str> = Vec::new();
        let mut series_list: Vec<&'a str> = Vec::new();
        let mut pos: usize = 0;
        let mut i: usize = 0;
        proof {
            assert(t@.skip(0) =~= t@);
            assert(keys.deep_view() =~= Seq::<Seq<char>>::empty());
            assert(Seq::new(keys@.len(), |x: int| (keys@[x]@, val_model(values@[x]))) =~= Seq::<
                (Seq<char>, ValModel),
            >::empty());
            assert(tag_list.deep_view() =~= Seq::<Seq<char>>::empty());
            assert(series_list.deep_view() =~= Seq::<Seq<char>>::empty());
        }
        while pos < n
            invariant
                0 <= pos <= n,
                i <= pos,
                n == t@.len(),
                n < usize::MAX,
                t == frontmatter,
                created.wf(),
                updated.wf(),
                ls == lines_of(t@),
                ne_all == nonempty_lines(t@),
                st0 == (
                    Seq::<(Seq<char>, ValModel)>::empty(),
                    Seq::<Seq<char>>::empty(),
                    Seq::<Seq<char>>::empty(),
                ),
                first_bad(ne_all) is None,
                i + lines_of(t@.skip(pos as int)).len() == ls.len(),
                lines_of(t@).take(i as int) + lines_of(t@.skip(pos as int)) =~= ls,
                first_bad(ne_from(ls, i as int)) is None,
                keys.len() == values.len(),
                fm_fold(ne_all, st0) == fm_fold(
                    ne_from(ls, i as int),
                    (
                        Seq::new(keys@.len(), |x: int| (keys@[x]@, val_model(values@[x]))),
                        tag_list.deep_view(),
                        series_list.deep_view(),
                    ),
                ),
                forall|x: int|
                    0 <= x < values@.len() ==> match val_model(#[trigger] values@[x]) {
                        ValModel::Date(st) => st.wf(),
                        ValModel::Text(_) => true,
                    },
                forall|x: int|
                    0 <= x < keys@.len() ==> (is_date_key(#[trigger] keys@[x]@) <==> val_model(
                        values@[x],
                    ) is Date),
                forall|x: int, y: int| 0 <= x < y < keys@.len() ==> keys@[x]@ != keys@[y]@,
            decreases n - pos,
        {
            let ghost cur: FmState = (
                Seq::new(keys@.len(), |x: int| (keys@[x]@, val_model(values@[x]))),
                tag_list.deep_view(),
                series_list.deep_view(),
            );
            let e = find_char(t, pos, '\n');
            proof {
                lemma_first_at_bounds(t@, '\n', pos as int);
                lemma_first_at_skip(t@, '\n', pos as int);
                lemma_line_len(t@.skip(pos as int));
            }
            let content_end = if e > pos && t.get_char(e - 1) == '\r' {
                e - 1
            } else {
                e
            };
            let next = if e < n {
                e + 1
            } else {
                n
            };
            let line = t.substring_char(pos, content_end);
            let ghost suffix = t@.skip(pos as int);
            let ghost ll = line_len(suffix);
            proof {
                assert(suffix.skip(ll) =~= t@.skip(next as int));
                let raw = suffix.subrange(0, ll);
                let no_nl: Seq<char> = if raw.last() == '\n' {
                    raw.drop_last()
                } else {
                    raw
                };
                let content: Seq<char> = if no_nl.len() > 0 && no_nl.last() == '\r' {
                    no_nl.drop_last()
                } else {
                    no_nl
                };
                assert(content =~= t@.subrange(pos as int, content_end as int));
                assert(lines_of(suffix) == seq![content] + lines_of(t@.skip(next as int)));
                assert(ls[i as int] == content);
                assert(line@ == ls[i as int]);
                assert(lines_of(t@).take(i + 1) + lines_of(t@.skip(next as int)) =~= ls);
            }
            if line.unicode_len() > 0 {
                let ghost head = (i + 1, ls[i as int]);
                proof {
                    assert(ne_from(ls, i as int) == seq![head] + ne_from(ls, i + 1));
                    assert((seq![head] + ne_from(ls, i + 1)).drop_first() =~= ne_from(ls, i + 1));
                    assert(v_step(line@) is None);
                }
                let colon = find_char(line, 0, ':');
                proof {
                    lemma_first_at_bounds(line@, ':', 0);
                }
                let line_len_c = line.unicode_len();
                let key = line.substring_char(0, colon);
                let val = trim_str(line.substring_char(colon + 1, line_len_c));
                proof {
                    assert(key@ =~= line@.take(colon as int));
                    assert(line@.subrange(colon + 1, line_len_c as int) =~= line@.skip(colon + 1));
                }
                if str_eq(key, "file_stem") || str_eq(key, "lang") || str_eq(key, "year")
                    || str_eq(key, "month") || str_eq(key, "day") {
                    let mut m = String::from_str("Key ");
                    let esc = key.escape();
                    m.append(esc.as_str());
                    m.append(" ");
                    m.append("is reserved");
                    return Err(ParseError::new(i + 1, line, m));
                }
                if crate::helpers::vec_contains_str(&keys, key) {
                    proof {
                        let x = choose|x: int| 0 <= x < keys.deep_view().len() && keys.deep_view()[x]
                            == key@;
                        assert(cur.0[x].0 == key@);
                        assert(has_key(cur.0, key@));
                    }
                    let mut m = String::from_str("Key ");
                    let esc = key.escape();
                    m.append(esc.as_str());
                    m.append(" ");
                    m.append("was already defined. Cannot have duplicates.");
                    return Err(ParseError::new(i + 1, line, m));
                }
                proof {
                    assert forall|x: int|
                        0 <= x < cur.0.len() implies (#[trigger] cur.0[x]).0 != key@ by {
                        assert(keys.deep_view()[x] == keys@[x]@);
                    }
                    assert(!has_key(cur.0, key@));
                }
                let is_created = str_eq(key, "date-created");
                let is_updated = str_eq(key, "date-updated");
                if is_created || is_updated {
                    match stamp_from_rfc2822(val) {
                        Ok(stp) => {
                            keys.push(key);
                            values.push(Value::DateTime(stp));
                            proof {
                                assert(Seq::new(
                                    keys@.len(),
                                    |x: int| (keys@[x]@, val_model(values@[x])),
                                ) =~= cur.0.push((key@, ValModel::Date(stp))));
                                assert forall|x: int, y: int|
                                    0 <= x < y < keys@.len() implies keys@[x]@ != keys@[y]@ by {
                                    if y == keys@.len() - 1 {
                                        assert(cur.0[x].0 == keys@[x]@);
                                    }
                                }
                            }
                        },
                        Err(msg) => {
                            let mut m = String::from_str(
                                "Dates must conform to RFC 2822 dates (internet format).\n",
                            );
                            m.append(msg.as_str());
                            return Err(ParseError::new(i + 1, line, m));
                        },
                    }
                } else {
                    keys.push(key);
                    values.push(Value::Utf8(val));
                    proof {
                        assert(Seq::new(keys@.len(), |x: int| (keys@[x]@, val_model(values@[x])))
                            =~= cur.0.push((key@, ValModel::Text(val@))));
                        assert forall|x: int, y: int|
                            0 <= x < y < keys@.len() implies keys@[x]@ != keys@[y]@ by {
                            if y == keys@.len() - 1 {
                                assert(cur.0[x].0 == keys@[x]@);
                            }
                        }
                    }
                    if str_eq(key, "tags") {
                        let empty_ignore: [&str; 0] = [];
                        proof {
                            assert(empty_ignore.deep_view() =~= Seq::<Seq<char>>::empty());
                        }
                        match parse_tags_and_push(&mut tag_list, val, &empty_ignore, true) {
                            Ok(_) => {},
                            Err(m) => {
                                return Err(ParseError::new(i + 1, line, m));
                            },
                        }
                    } else if str_eq(key, "series") {
                        let empty_ignore: [&str; 0] = [];
                        proof {
                            assert(empty_ignore.deep_view() =~= Seq::<Seq<char>>::empty());
                        }
                        match parse_tags_and_push(&mut series_list, val, &empty_ignore, true) {
                            Ok(_) => {},
                            Err(m) => {
                                return Err(ParseError::new(i + 1, line, m));
                            },
                        }
                    }
                }
            } else {
                proof {
                    assert(ne_from(ls, i as int) =~= ne_from(ls, i + 1));
                }
            }
            i = i + 1;
            pos = next;
        }
        proof {
            assert(lines_of(t@.skip(n as int)) =~= Seq::<Seq<char>>::empty());
            assert(i == ls.len());
            assert(ne_from(ls, i as int) =~= Seq::<(int, Seq<char>)>::empty());
        }
        let ghost folded: FmState = (
            Seq::new(keys@.len(), |x: int| (keys@[x]@, val_model(values@[x]))),
            tag_list.deep_view(),
            series_list.deep_view(),
        );
        if !crate::helpers::vec_contains_str(&keys, "date-created") {
            proof {
                assert forall|x: int|
                    0 <= x < folded.0.len() implies (#[trigger] folded.0[x]).0
                    != "date-created"@ by {
                    assert(keys.deep_view()[x] == keys@[x]@);
                }
            }
            keys.push("date-created");
            values.push(Value::DateTime(created));
        } else {
            proof {
                let x = choose|x: int| 0 <= x < keys.deep_view().len() && keys.deep_view()[x]
                    == "date-created"@;
                assert(folded.0[x].0 == "date-created"@);
            }
        }
        let ghost m1 = Seq::new(keys@.len(), |x: int| (keys@[x]@, val_model(values@[x])));
        proof {
            if !has_key(folded.0, "date-created"@) {
                assert(m1 =~= folded.0.push(("date-created"@, ValModel::Date(created))));
            } else {
                assert(m1 =~= folded.0);
            }
        }
        if !crate::helpers::vec_contains_str(&keys, "date-updated") {
            proof {
                assert forall|x: int|
                    0 <= x < m1.len() implies (#[trigger] m1[x]).0 != "date-updated"@ by {
                    assert(keys.deep_view()[x] == keys@[x]@);
                }
            }
            keys.push("date-updated");
            values.push(Value::DateTime(updated));
        } else {
            proof {
                let x = choose|x: int| 0 <= x < keys.deep_view().len() && keys.deep_view()[x]
                    == "date-updated"@;
                assert(m1[x].0 == "date-updated"@);
            }
        }
        let fm = Frontmatter { keys, values };
        proof {
            if !has_key(m1, "date-updated"@) {
                assert(fm.model() =~= m1.push(("date-updated"@, ValModel::Date(updated))));
            } else {
                assert(fm.model() =~= m1);
            }
            assert(fm.model() == with_defaults(folded.0, created, updated));
            lemma_with_defaults_keys(folded.0, created, updated);
        }
        Ok(fm)
    }

    /// Looks the key up by a linear scan of the table.
    pub fn lookup<'b>(&'b self, key: &str) -> (r: Option<&'b Value<'a>>)
        requires
            self.wf(),
        ensures
            match spec_lookup(self.model(), key@) {
                None => r is None,
                Some(vm) => r matches Some(v) && val_model(*v) == vm,
            },
    {
        let n = self.keys.len();
        let mut i: usize = 0;
        proof {
            assert(self.model().skip(0) =~= self.model());
        }
        while i < n
            invariant
                0 <= i <= n,
                n == self.keys@.len(),
                self.keys@.len() == self.values@.len(),
                spec_lookup(self.model(), key@) == spec_lookup(
                    self.model().skip(i as int),
                    key@,
                ),
            decreases n - i,
        {
            proof {
                assert(self.model().skip(i as int)[0] == self.model()[i as int]);
                assert(self.model().skip(i as int).drop_first() =~= self.model().skip(i + 1));
            }
            if str_eq(self.keys[i], key) {
                return Some(&self.values[i]);
            }
            i = i + 1;
        }
        proof {
            assert(self.model().skip(n as int) =~= Seq::<(Seq<char>, ValModel)>::empty());
        }
        None
    }
}

/// A key is present exactly when the scan finds a value.
pub proof fn lemma_lookup_has_key(m: Seq<(Seq<char>, ValModel)>, k: Seq<char>)
    ensures
        spec_lookup(m, k) is Some <==> has_key(m, k),
        spec_lookup(m, k) matches Some(v) ==> exists|i: int|
            0 <= i < m.len() && (#[trigger] m[i]).0 == k && m[i].1 == v,
    decreases m.len(),
{
    if m.len() > 0 {
        lemma_lookup_has_key(m.drop_first(), k);
        if m[0].0 != k {
            if spec_lookup(m.drop_first(), k) is Some {
                let v = spec_lookup(m.drop_first(), k)->0;
                let i = choose|i: int|
                    0 <= i < m.drop_first().len() && (#[trigger] m.drop_first()[i]).0 == k
                        && m.drop_first()[i].1 == v;
                assert(m[i + 1].0 == k && m[i + 1].1 == v);
            }
            if has_key(m, k) {
                let i = choose|i: int| 0 <= i < m.len() && (#[trigger] m[i]).0 == k;
                assert(m.drop_first()[i - 1].0 == k);
                assert(has_key(m.drop_first(), k));
            }
        }
    }
}

/// The placeholder keys the formatter itself supplies.
pub open spec fn is_special_key(k: Seq<char>) -> bool {
    k == "year"@ || k == "month"@ || k == "day"@ || k == "lang"@ || k == "file_stem"@
}

/// The creation stamp of the table; under the invariant the key is
/// always present and date-typed.
pub open spec fn created_stamp(m: Seq<(Seq<char>, ValModel)>) -> Stamp {
    match spec_lookup(m, "date-created"@) {
        Some(ValModel::Date(st)) => st,
        _ => Stamp { year: 0, month: 1, day: 1, hour: 0, minute: 0, second: 0 },
    }
}

/// The title text, or empty when absent.
pub open spec fn spec_title(m: Seq<(Seq<char>, ValModel)>) -> Seq<char> {
    match spec_lookup(m, "title"@) {
        Some(ValModel::Text(s)) => s,
        _ => Seq::empty(),
    }
}

/// What one placeholder key resolves to.
pub open spec fn spec_resolve(
    m: Seq<(Seq<char>, ValModel)>,
    key: Seq<char>,
    file_stem: Seq<char>,
    lang: Seq<char>,
) -> Seq<char> {
    if key == "year"@ {
        crate::text::dec_seq(created_stamp(m).year as int)
    } else if key == "month"@ {
        crate::text::dec_seq_pad(created_stamp(m).month as int, 2)
    } else if key == "day"@ {
        crate::text::dec_seq_pad(created_stamp(m).day as int, 2)
    } else if key == "lang"@ {
        lang
    } else if key == "file_stem"@ {
        file_stem
    } else {
        match spec_lookup(m, key) {
            Some(ValModel::Text(s)) => s,
            _ => Seq::empty(),
        }
    }
}

/// The template rendered against the table: literal text interleaved
/// with resolved `{...}` placeholders, in template order.
pub open spec fn spec_format(
    m: Seq<(Seq<char>, ValModel)>,
    template: Seq<char>,
    file_stem: Seq<char>,
    lang: Seq<char>,
) -> Seq<char>
    decreases template.len(),
    via spec_format_dec
{
    if template.len() == 0 {
        Seq::empty()
    } else {
        let d = crate::traits::delim_spec(Delimiter::Markup, template);
        let literal = template.take(d.0);
        let delim = template.subrange(d.0, d.1);
        let key = if delim.len() == 0 {
            delim
        } else {
            delim.subrange(1, delim.len() - 1)
        };
        literal + spec_resolve(m, key, file_stem, lang) + spec_format(
            m,
            template.skip(d.1),
            file_stem,
            lang,
        )
    }
}

#[via_fn]
proof fn spec_format_dec(
    m: Seq<(Seq<char>, ValModel)>,
    template: Seq<char>,
    file_stem: Seq<char>,
    lang: Seq<char>,
) {
    crate::traits::lemma_delim_spec_bounds(Delimiter::Markup, template);
}

/// No placeholder of the template names a date-typed table entry other
/// than through `year`, `month` or `day`.
pub open spec fn format_ok(m: Seq<(Seq<char>, ValModel)>, template: Seq<char>) -> bool
    decreases template.len(),
    via format_ok_dec
{
    if template.len() == 0 {
        true
    } else {
        let d = crate::traits::delim_spec(Delimiter::Markup, template);
        let delim = template.subrange(d.0, d.1);
        let key = if delim.len() == 0 {
            delim
        } else {
            delim.subrange(1, delim.len() - 1)
        };
        &&& (is_special_key(key) || !(spec_lookup(m, key) matches Some(ValModel::Date(_))))
        &&& format_ok(m, template.skip(d.1))
    }
}

#[via_fn]
proof fn format_ok_dec(m: Seq<(Seq<char>, ValModel)>, template: Seq<char>) {
    crate::traits::lemma_delim_spec_bounds(Delimiter::Markup, template);
}

/// The RFC 2822 rendering of a value, or the text itself.
pub open spec fn val_repr(v: ValModel) -> Seq<char> {
    match v {
        ValModel::Text(s) => s,
        ValModel::Date(st) => rfc2822_repr(
            st.year as int,
            st.month as int,
            st.day as int,
            st.hour as int,
            st.minute as int,
            st.second as int,
        ),
    }
}

/// The `key:value` lines of the whole table, in insertion order,
/// newline-terminated, dates rendered as RFC 2822.
pub open spec fn spec_serialise(m: Seq<(Seq<char>, ValModel)>) -> Seq<char>
    decreases m.len(),
{
    if m.len() == 0 {
        Seq::empty()
    } else {
        spec_serialise(m.drop_last()) + m.last().0 + seq![':'] + val_repr(m.last().1) + seq!['\n']
    }
}

/// The CSV lines one label list produces: per label, the label, the
/// creation time, the file stem, the language, and the title.
pub open spec fn spec_cache_lines(
    m: Seq<(Seq<char>, ValModel)>,
    list_key: Seq<char>,
    file_stem: Seq<char>,
    lang: Seq<char>,
) -> Seq<Seq<char>> {
    let src = match spec_lookup(m, list_key) {
        Some(ValModel::Text(s)) => s,
        _ => Seq::empty(),
    };
    let ws = words(src);
    Seq::new(
        ws.len(),
        |i: int|
            ws[i] + seq![','] + spec_cache_stamp(created_stamp(m)) + seq![','] + file_stem + seq![
                ',',
            ] + lang + seq![','] + spec_title(m),
    )
}

impl<'a> Frontmatter<'a> {
    /// A number below one hundred as exactly two decimal digits.
    fn pad_two(num: u32) -> (r: String)
        requires
            num < 100,
        ensures
            r@ == crate::text::dec_seq_pad(num as int, 2),
    {
        let mut padded = String::new();
        crate::text::append_dec_pad(&mut padded, num as u64, 2);
        padded
    }

    /// Appends what one placeholder key resolves to.
    fn resolve_into(&self, out: &mut String, key: &str, file_stem: &str, lang: &str)
        requires
            self.wf(),
            is_special_key(key@) || !(spec_lookup(self.model(), key@) matches Some(
                ValModel::Date(_),
            )),
        ensures
            final(out)@ == old(out)@ + spec_resolve(self.model(), key@, file_stem@, lang@),
    {
        let ghost m = self.model();
        if str_eq(key, "year") || str_eq(key, "month") || str_eq(key, "day") {
            proof {
                lemma_lookup_has_key(m, "date-created"@);
            }
            match self.lookup("date-created") {
                Some(v) => {
                    match v {
                        Value::DateTime(x) => {
                            if str_eq(key, "year") {
                                crate::text::append_dec(out, x.year as u64);
                            } else if str_eq(key, "month") {
                                out.append(Self::pad_two(x.month).as_str());
                            } else {
                                out.append(Self::pad_two(x.day).as_str());
                            }
                        },
                        Value::Utf8(_) => {
                            proof {
                                let i = choose|i: int|
                                    0 <= i < m.len() && (#[trigger] m[i]).0 == "date-created"@
                                        && m[i].1 == val_model(*v);
                                assert(false);
                            }
                        },
                    }
                },
                None => {
                    proof {
                        assert(false);
                    }
                },
            }
        } else if str_eq(key, "lang") {
            out.append(lang);
        } else if str_eq(key, "file_stem") {
            out.append(file_stem);
        } else {
            match self.lookup(key) {
                Some(v) => {
                    match v {
                        Value::Utf8(s) => {
                            out.append(s);
                        },
                        Value::DateTime(_) => {
                            proof {
                                assert(false);
                            }
                        },
                    }
                },
                None => {},
            }
        }
    }

    /// Renders the template, substituting `{...}` placeholders from the
    /// table, the date components, and the supplied stem and language.
    #[verifier::rlimit(100)]
    pub fn format(&self, template: &str, file_stem: &str, lang: &str) -> (r: String)
        requires
            self.wf(),
            format_ok(self.model(), template@),
        ensures
            r@ == spec_format(self.model(), template@, file_stem@, lang@),
    {
        let ghost m = self.model();
        let tlen = template.unicode_len();
        let range: core::ops::Range<usize> = 0..tlen;
        let mut pieces = range.split_over(template, Delimiter::Markup);
        let mut output = String::new();
        proof {
            assert(template@.subrange(0, tlen as int) =~= template@);
            assert(template@.skip(0) =~= template@);
        }
        loop
            invariant
                self.wf(),
                m == self.model(),
                tlen == template@.len(),
                pieces.delimit_by == Delimiter::Markup,
                pieces.index <= tlen,
                pieces.buffer@ == template@.skip(pieces.index as int),
                format_ok(m, pieces.buffer@),
                output@ + spec_format(m, pieces.buffer@, file_stem@, lang@) == spec_format(
                    m,
                    template@,
                    file_stem@,
                    lang@,
                ),
            ensures
                pieces.buffer@.len() == 0,
                output@ + spec_format(m, pieces.buffer@, file_stem@, lang@) == spec_format(
                    m,
                    template@,
                    file_stem@,
                    lang@,
                ),
            decreases pieces.buffer@.len(),
        {
            let ghost buf = pieces.buffer@;
            let ghost base = pieces.index as int;
            proof {
                crate::traits::lemma_delim_spec_bounds(Delimiter::Markup, buf);
            }
            match pieces.next() {
                None => {
                    break ;
                },
                Some((content, markup)) => {
                    let ghost d = crate::traits::delim_spec(Delimiter::Markup, buf);
                    let literal = content.of(template);
                    proof {
                        assert(template@.subrange(base, base + d.0) =~= buf.take(d.0));
                    }
                    output.append(literal);
                    let key = if markup.start == markup.end {
                        template.substring_char(markup.start, markup.end)
                    } else {
                        template.substring_char(markup.start + 1, markup.end - 1)
                    };
                    proof {
                        let delim = buf.subrange(d.0, d.1);
                        if d.0 == d.1 {
                            assert(key@ =~= delim);
                        } else {
                            assert(delim.len() > 0);
                            assert(key@ =~= delim.subrange(1, delim.len() - 1));
                        }
                    }
                    self.resolve_into(&mut output, key, file_stem, lang);
                    proof {
                        assert(pieces.buffer@ =~= template@.skip(pieces.index as int));
                        assert(buf.skip(d.1) == pieces.buffer@);
                    }
                },
            }
        }
        proof {
            assert(spec_format(m, pieces.buffer@, file_stem@, lang@) == Seq::<char>::empty());
            assert(output@ =~= spec_format(m, template@, file_stem@, lang@));
        }
        output
    }

    /// The next `{...}` placeholder of the buffer, as a character
    /// range; an empty range at the end when there is none.
    pub fn find_markup(buffer: &str) -> (r: core::ops::Range<usize>)
        ensures
            r.start == crate::traits::delim_spec(Delimiter::Markup, buffer@).0,
            r.end == crate::traits::delim_spec(Delimiter::Markup, buffer@).1,
    {
        let d = crate::traits::find_delimiter(Delimiter::Markup, buffer);
        d.0..d.1
    }

    /// The creation time as `YYYY-MM-DD HH:MM:SS` and the title (empty
    /// when absent).
    fn title_and_created(&self) -> (r: (String, &'a str))
        requires
            self.wf(),
        ensures
            r.0@ == spec_cache_stamp(created_stamp(self.model())),
            r.1@ == spec_title(self.model()),
    {
        let ghost m = self.model();
        proof {
            lemma_lookup_has_key(m, "date-created"@);
        }
        let created = match self.lookup("date-created") {
            Some(v) => match v {
                Value::DateTime(dt) => cache_stamp(dt),
                Value::Utf8(_) => {
                    proof {
                        let i = choose|i: int|
                            0 <= i < m.len() && (#[trigger] m[i]).0 == "date-created"@ && m[i].1
                                == val_model(*v);
                        assert(false);
                    }
                    String::new()
                },
            },
            None => {
                proof {
                    assert(false);
                }
                String::new()
            },
        };
        let title = match self.lookup("title") {
            Some(v) => match v {
                Value::Utf8(s) => *s,
                Value::DateTime(_) => {
                    proof {
                        reveal_strlit("title");
                        reveal_strlit("date-created");
                        reveal_strlit("date-updated");
                        assert("title"@.len() == 5);
                        assert("date-created"@.len() == 12);
                        assert("date-updated"@.len() == 12);
                        assert("date-created"@[0] == 'd' && "title"@[0] == 't');
                        lemma_lookup_has_key(m, "title"@);
                        let i = choose|i: int|
                            0 <= i < m.len() && (#[trigger] m[i]).0 == "title"@ && m[i].1
                                == val_model(*v);
                        assert(!is_date_key("title"@));
                        assert(false);
                    }
                    ""
                },
            },
            None => "",
        };
        proof {
            reveal_strlit("");
            assert(""@ =~= Seq::<char>::empty());
        }
        (created, title)
    }

    /// The CSV lines for the given label text: one line per label.
    fn cache_lines(&self, labels: &str, file_stem: &str, lang: &str) -> (r: Vec<String>)
        requires
            self.wf(),
        ensures
            r.deep_view() == Seq::new(
                words(labels@).len(),
                |i: int|
                    words(labels@)[i] + seq![','] + spec_cache_stamp(created_stamp(self.model()))
                        + seq![','] + file_stem@ + seq![','] + lang@ + seq![','] + spec_title(
                        self.model(),
                    ),
            ),
    {
        let ghost m = self.model();
        let (created, title) = self.title_and_created();
        let toks = split_ws(labels);
        let mut lines: Vec<String> = Vec::new();
        let ghost target = Seq::new(
            words(labels@).len(),
            |i: int|
                words(labels@)[i] + seq![','] + spec_cache_stamp(created_stamp(m)) + seq![',']
                    + file_stem@ + seq![','] + lang@ + seq![','] + spec_title(m),
        );
        let mut i: usize = 0;
        proof {
            assert(lines.deep_view() =~= target.take(0));
        }
        while i < toks.len()
            invariant
                0 <= i <= toks.len(),
                toks.deep_view() == words(labels@),
                created@ == spec_cache_stamp(created_stamp(m)),
                title@ == spec_title(m),
                target == Seq::new(
                    words(labels@).len(),
                    |x: int|
                        words(labels@)[x] + seq![','] + spec_cache_stamp(created_stamp(m)) + seq![
                            ',',
                        ] + file_stem@ + seq![','] + lang@ + seq![','] + spec_title(m),
                ),
                lines.deep_view() =~= target.take(i as int),
            decreases toks.len() - i,
        {
            let ghost prev = lines.deep_view();
            let mut line = String::new();
            line.append(toks[i]);
            push_char(&mut line, ',');
            line.append(created.as_str());
            push_char(&mut line, ',');
            line.append(file_stem);
            push_char(&mut line, ',');
            line.append(lang);
            push_char(&mut line, ',');
            line.append(title);
            proof {
                assert(toks.deep_view()[i as int] == toks@[i as int]@);
                assert(line@ =~= target[i as int]);
            }
            lines.push(line);
            proof {
                assert(lines.deep_view() =~= prev.push(line@));
                assert(lines.deep_view() =~= target.take(i + 1));
            }
            i = i + 1;
        }
        proof {
            assert(target.take(toks.len() as int) =~= target);
        }
        lines
    }

    /// One CSV line per tag: `tag,created,stem,lang,title`.
    pub fn format_to_tag_cache(&self, file_stem: &str, lang: &str) -> (r: Vec<String>)
        requires
            self.wf(),
        ensures
            r.deep_view() == spec_cache_lines(self.model(), "tags"@, file_stem@, lang@),
    {
        let tags = match self.lookup("tags") {
            Some(v) => match v {
                Value::Utf8(s) => *s,
                Value::DateTime(_) => "",
            },
            None => "",
        };
        proof {
            reveal_strlit("");
            assert(""@ =~= Seq::<char>::empty());
        }
        let r = self.cache_lines(tags, file_stem, lang);
        proof {
            assert(r.deep_view() =~= spec_cache_lines(self.model(), "tags"@, file_stem@, lang@));
        }
        r
    }

    /// One CSV line per series label: `label,created,stem,lang,title`.
    pub fn format_to_series_cache(&self, file_stem: &str, lang: &str) -> (r: Vec<String>)
        requires
            self.wf(),
        ensures
            r.deep_view() == spec_cache_lines(self.model(), "series"@, file_stem@, lang@),
    {
        let series = match self.lookup("series") {
            Some(v) => match v {
                Value::Utf8(s) => *s,
                Value::DateTime(_) => "",
            },
            None => "",
        };
        proof {
            reveal_strlit("");
            assert(""@ =~= Seq::<char>::empty());
        }
        let r = self.cache_lines(series, file_stem, lang);
        proof {
            assert(r.deep_view() =~= spec_cache_lines(self.model(), "series"@, file_stem@, lang@));
        }
        r
    }

    /// Rebuilds the `key:value` text of the whole table, one line per
    /// key in insertion order, dates rendered as RFC 2822.
    pub fn serialise(&self) -> (r: String)
        requires
            self.wf(),
        ensures
            r@ == spec_serialise(self.model()),
    {
        let ghost m = self.model();
        let len = self.keys.len();
        let mut out = String::new();
        let mut i: usize = 0;
        proof {
            assert(m.take(0) =~= Seq::<(Seq<char>, ValModel)>::empty());
        }
        while i < len
            invariant
                0 <= i <= len,
                len == self.keys@.len(),
                self.wf(),
                m == self.model(),
                self.keys@.len() == self.values@.len(),
                out@ == spec_serialise(m.take(i as int)),
            decreases len - i,
        {
            out.append(self.keys[i]);
            push_char(&mut out, ':');
            let v = &self.values[i];
            match v {
                Value::Utf8(s) => {
                    out.append(s);
                },
                Value::DateTime(dt) => {
                    proof {
                        assert(m[i as int].1 == val_model(self.values@[i as int]));
                    }
                    let rendered = render_rfc2822(dt);
                    out.append(rendered.as_str());
                },
            }
            push_char(&mut out, '\n');
            proof {
                assert(m.take(i + 1).drop_last() =~= m.take(i as int));
                assert(m.take(i + 1).last() == m[i as int]);
                assert(out@ =~= spec_serialise(m.take(i + 1)));
            }
            i = i + 1;
        }
        proof {
            assert(m.take(len as int) =~= m);
        }
        out
    }
}

/// The key of one `key:value` line.
pub open spec fn line_key(l: Seq<char>) -> Seq<char> {
    l.take(first_at(l, ':', 0))
}

proof fn lemma_lookup_push_hit(m: Seq<(Seq<char>, ValModel)>, k: Seq<char>, v: ValModel)
    requires
        !has_key(m, k),
    ensures
        spec_lookup(m.push((k, v)), k) == Some(v),
    decreases m.len(),
{
    if m.len() > 0 {
        assert(m[0].0 != k);
        assert(m.push((k, v)).drop_first() =~= m.drop_first().push((k, v)));
        assert forall|i: int| 0 <= i < m.drop_first().len() implies (#[trigger] m.drop_first()[
            i
        ]).0 != k by {
            assert(m[i + 1].0 == m.drop_first()[i].0);
        }
        lemma_lookup_push_hit(m.drop_first(), k, v);
    }
}

proof fn lemma_lookup_push_miss(m: Seq<(Seq<char>, ValModel)>, p: (Seq<char>, ValModel), k: Seq<char>)
    requires
        p.0 != k,
    ensures
        spec_lookup(m.push(p), k) == spec_lookup(m, k),
    decreases m.len(),
{
    if m.len() > 0 {
        assert(m.push(p).drop_first() =~= m.drop_first().push(p));
        lemma_lookup_push_miss(m.drop_first(), p, k);
    } else {
        assert(m.push(p)[0] == p);
        assert(m.push(p).drop_first() =~= Seq::<(Seq<char>, ValModel)>::empty());
        assert(spec_lookup(Seq::<(Seq<char>, ValModel)>::empty(), k) is None);
        assert(spec_lookup(m, k) is None);
    }
}

proof fn lemma_fm_fold_no_dates(ls: Seq<(int, Seq<char>)>, st: FmState)
    requires
        forall|i: int|
            0 <= i < ls.len() ==> !is_date_key(line_key((#[trigger] ls[i]).1)),
        !has_key(st.0, "date-created"@),
        !has_key(st.0, "date-updated"@),
    ensures
        fm_fold(ls, st) matches Ok(st2) ==> !has_key(st2.0, "date-created"@) && !has_key(
            st2.0,
            "date-updated"@,
        ),
    decreases ls.len(),
{
    if ls.len() > 0 {
        match fm_step(st, ls[0].0, ls[0].1) {
            Ok(st2) => {
                let key = line_key(ls[0].1);
                assert(!is_date_key(key));
                assert forall|k2: Seq<char>|
                    is_date_key(k2) && !has_key(st.0, k2) implies !has_key(
                    st2.0,
                    k2,
                ) by {
                    if has_key(st2.0, k2) {
                        let i = choose|i: int|
                            0 <= i < st2.0.len() && (#[trigger] st2.0[i]).0 == k2;
                        if i < st.0.len() {
                            assert(st.0[i].0 == k2);
                        } else {
                            assert(st2.0[i].0 == key);
                        }
                    }
                }
                assert forall|i: int|
                    0 <= i < ls.drop_first().len() implies !is_date_key(
                    line_key((#[trigger] ls.drop_first()[i]).1),
                ) by {
                    assert(ls.drop_first()[i] == ls[i + 1]);
                }
                lemma_fm_fold_no_dates(ls.drop_first(), st2);
            },
            Err(_) => {},
        }
    }
}

/// Frontmatter default dates: when no non-empty line sets
/// `date-created` or `date-updated`, construction leaves both keys
/// present and equal to the supplied fallback timestamps.
pub proof fn lemma_default_dates(t: Seq<char>, created: Stamp, updated: Stamp)
    requires
        forall|i: int|
            0 <= i < nonempty_lines(t).len() ==> !is_date_key(
                line_key((#[trigger] nonempty_lines(t)[i]).1),
            ),
    ensures
        spec_frontmatter(t, created, updated) matches Ok(m) ==> spec_lookup(m, "date-created"@)
            == Some(ValModel::Date(created)) && spec_lookup(m, "date-updated"@) == Some(
            ValModel::Date(updated),
        ),
{
    reveal_strlit("date-created");
    reveal_strlit("date-updated");
    assert("date-created"@.len() == 12);
    assert("date-updated"@.len() == 12);
    assert("date-created"@[5] == 'c' && "date-updated"@[5] == 'u');
    let ls = nonempty_lines(t);
    let st0: FmState = (Seq::empty(), Seq::empty(), Seq::empty());
    if first_bad(ls) is None {
        lemma_fm_fold_no_dates(ls, st0);
        match fm_fold(ls, st0) {
            Ok(st) => {
                let m = st.0;
                let m1 = m.push(("date-created"@, ValModel::Date(created)));
                assert(!has_key(m1, "date-updated"@)) by {
                    if has_key(m1, "date-updated"@) {
                        let i = choose|i: int|
                            0 <= i < m1.len() && (#[trigger] m1[i]).0 == "date-updated"@;
                        if i < m.len() {
                            assert(m[i].0 == "date-updated"@);
                        }
                    }
                }
                let m2 = m1.push(("date-updated"@, ValModel::Date(updated)));
                lemma_lookup_push_hit(m, "date-created"@, ValModel::Date(created));
                lemma_lookup_push_miss(
                    m1,
                    ("date-updated"@, ValModel::Date(updated)),
                    "date-created"@,
                );
                lemma_lookup_push_hit(m1, "date-updated"@, ValModel::Date(updated));
            },
            Err(_) => {},
        }
    }
}

/// Builds the `Key '<key>' <msg>` error.
pub fn error_invalid<'a>(row: usize, line: &'a str, key: &'a str, msg: &'a str) -> (r: Result<
    (),
    ParseError<'a>,
>)
    requires
        row >= 1,
    ensures
        r matches Err(e) && e.row == row && e.context@ == line@ && e.message@ == "Key "@
            + escape_seq(key@) + " "@ + msg@,
{
    let mut m = String::from_str("Key ");
    let esc = key.escape();
    m.append(esc.as_str());
    m.append(" ");
    m.append(msg);
    Err(ParseError::new(row, line, m))
}

} // verus!
