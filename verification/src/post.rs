//! The multilingual source splitter: one pass over the source lines
//! finds `api_set_lang:` comment directives, partitions the text into
//! language-tagged segments, and projects one view per language.

use vstd::prelude::*;

use crate::custom_errors::{lemma_first_at_skip, lemma_line_len, line_len, ParseError};
use crate::helpers::{parse_tags_and_push, ptp_fold, split_ws, vec_contains_str, words};
use crate::text::{find_char, first_at, is_ws_char, lemma_first_at_bounds, matches_at, str_eq};
use crate::traits::VecExt;

verus! {

/// The directive keyword that changes which languages the following
/// lines belong to.
pub open spec fn api_set_lang() -> Seq<char> {
    "api_set_lang:"@
}

/// Whitespace that stays within a line: any whitespace but a newline.
pub open spec fn is_line_ws(c: char) -> bool {
    is_ws_char(c) && c != '\n'
}

/// Count of leading in-line whitespace characters of `l`.
pub open spec fn line_ws_len(l: Seq<char>) -> int
    decreases l.len(),
{
    if l.len() > 0 && is_line_ws(l[0]) {
        1 + line_ws_len(l.drop_first())
    } else {
        0
    }
}

pub proof fn lemma_line_ws_len_char(l: Seq<char>, k: int)
    requires
        0 <= k <= l.len(),
        forall|j: int| 0 <= j < k ==> is_line_ws(l[j]),
        k < l.len() ==> !is_line_ws(l[k]),
    ensures
        line_ws_len(l) == k,
    decreases k,
{
    if k > 0 {
        assert forall|j: int| 0 <= j < k - 1 implies is_line_ws(l.drop_first()[j]) by {
            assert(l.drop_first()[j] == l[j + 1]);
        }
        if k - 1 < l.drop_first().len() {
            assert(l.drop_first()[k - 1] == l[k]);
        }
        lemma_line_ws_len_char(l.drop_first(), k - 1);
    }
}

/// Number of newline characters in `t`.
pub open spec fn count_nl(t: Seq<char>) -> int
    decreases t.len(),
{
    if t.len() == 0 {
        0
    } else {
        count_nl(t.drop_last()) + if t.last() == '\n' {
            1int
        } else {
            0int
        }
    }
}

pub proof fn lemma_count_nl_concat(a: Seq<char>, b: Seq<char>)
    ensures
        count_nl(a + b) == count_nl(a) + count_nl(b),
    decreases b.len(),
{
    if b.len() == 0 {
        assert(a + b =~= a);
    } else {
        assert((a + b).drop_last() =~= a + b.drop_last());
        lemma_count_nl_concat(a, b.drop_last());
    }
}

pub proof fn lemma_count_nl_bounds(t: Seq<char>)
    ensures
        0 <= count_nl(t) <= t.len(),
        (forall|j: int| 0 <= j < t.len() ==> t[j] != '\n') ==> count_nl(t) == 0,
    decreases t.len(),
{
    if t.len() > 0 {
        lemma_count_nl_bounds(t.drop_last());
    }
}

/// Where a line is a language directive, the character offsets (within
/// the line) of the comment marker and of the text after the keyword:
/// leading whitespace, then the comment marker as an exact prefix, then
/// whitespace, then the keyword.
pub open spec fn directive_parts(l: Seq<char>, c: Seq<char>) -> Option<(int, int)> {
    let a = line_ws_len(l);
    if matches_at(l, a, c) {
        let b = a + c.len() + line_ws_len(l.skip(a + c.len()));
        if matches_at(l, b, api_set_lang()) {
            Some((a, b + api_set_lang().len()))
        } else {
            None
        }
    } else {
        None
    }
}

/// The first directive line of `t`: absolute character offsets of its
/// comment marker, of its token text, and of the end of the line
/// (past its newline).
pub open spec fn find_directive(t: Seq<char>, c: Seq<char>) -> Option<(int, int, int)>
    decreases t.len(),
    via find_directive_dec
{
    if t.len() == 0 {
        None
    } else {
        let ll = line_len(t);
        match directive_parts(t.subrange(0, ll), c) {
            Some((a, ts)) => Some((a, ts, ll)),
            None => match find_directive(t.skip(ll), c) {
                Some((a2, ts2, e2)) => Some((ll + a2, ll + ts2, ll + e2)),
                None => None,
            },
        }
    }
}

#[via_fn]
proof fn find_directive_dec(t: Seq<char>, c: Seq<char>) {
    lemma_line_len(t);
}

pub proof fn lemma_find_directive_bounds(t: Seq<char>, c: Seq<char>)
    ensures
        find_directive(t, c) matches Some(f) ==> {
            &&& 0 <= f.0 < f.1 <= f.2 <= t.len()
            &&& 1 <= f.2
        },
    decreases t.len(),
{
    reveal_strlit("api_set_lang:");
    if t.len() > 0 {
        lemma_line_len(t);
        let ll = line_len(t);
        let l = t.subrange(0, ll);
        if directive_parts(l, c) is Some {
            lemma_line_ws_len_bounds(l);
            lemma_line_ws_len_bounds(l.skip(line_ws_len(l) + c.len() as int));
        } else {
            lemma_find_directive_bounds(t.skip(ll), c);
        }
    }
}

pub proof fn lemma_line_ws_len_bounds(l: Seq<char>)
    ensures
        0 <= line_ws_len(l) <= l.len(),
    decreases l.len(),
{
    if l.len() > 0 && is_line_ws(l[0]) {
        lemma_line_ws_len_bounds(l.drop_first());
    }
}

/// One item of the raw split: the text before the directive's marker,
/// the token text after the keyword, the whole directive from marker to
/// end of line, and the 1-based line number of the directive line.
pub struct SplitPiece {
    pub section: Seq<char>,
    pub tokens: Seq<char>,
    pub label: Seq<char>,
    pub row: int,
}

/// The raw split of `t`: one piece per directive line, each carrying
/// the text since the previous directive, and a final plain piece for
/// trailing text after the last directive.  `row0` is the 1-based line
/// number of the first line of `t`.
pub open spec fn spec_split_from(t: Seq<char>, c: Seq<char>, row0: int) -> Seq<SplitPiece>
    decreases t.len(),
    via spec_split_from_dec
{
    if t.len() == 0 {
        Seq::empty()
    } else {
        match find_directive(t, c) {
            None => seq![
                SplitPiece {
                    section: t,
                    tokens: Seq::empty(),
                    label: Seq::empty(),
                    row: row0,
                },
            ],
            Some((m, ts, e)) => {
                let piece = SplitPiece {
                    section: t.subrange(0, m),
                    tokens: t.subrange(ts, e),
                    label: t.subrange(m, e),
                    row: row0 + count_nl(t.subrange(0, m)),
                };
                seq![piece] + spec_split_from(t.skip(e), c, row0 + count_nl(t.subrange(0, e)))
            },
        }
    }
}

#[via_fn]
proof fn spec_split_from_dec(t: Seq<char>, c: Seq<char>, row0: int) {
    lemma_find_directive_bounds(t, c);
}

/// Scans one line for the directive pattern; offsets are absolute
/// character indices into `text`, the line being `[cur, le)`.
fn directive_on_line(text: &str, cur: usize, le: usize, comment: &str) -> (r: Option<
    (usize, usize),
>)
    requires
        cur <= le <= text@.len(),
    ensures
        ({
            let l = text@.subrange(cur as int, le as int);
            match directive_parts(l, comment@) {
                Some((a, ts)) => r == Some(((cur + a) as usize, (cur + ts) as usize)),
                None => r is None,
            }
        }),
{
    let ghost l = text@.subrange(cur as int, le as int);
    let a = line_ws_end(text, cur, le);
    proof {
        lemma_line_ws_len_bounds(l);
    }
    let clen = comment.unicode_len();
    if !(clen <= le - a && crate::text::starts_with_at(text, a, comment)) {
        proof {
            lemma_matches_at_subrange(text@, cur as int, le as int, a as int, comment@);
        }
        return None;
    }
    proof {
        lemma_matches_at_subrange(text@, cur as int, le as int, a as int, comment@);
    }
    let b = line_ws_end(text, a + clen, le);
    proof {
        assert(l.skip(a - cur + clen) =~= text@.subrange((a + clen) as int, le as int));
        lemma_line_ws_len_bounds(l.skip(a - cur + clen));
    }
    let alen = "api_set_lang:".unicode_len();
    if alen <= le - b && crate::text::starts_with_at(text, b, "api_set_lang:") {
        proof {
            lemma_matches_at_subrange(text@, cur as int, le as int, b as int, api_set_lang());
        }
        Some((a, b + alen))
    } else {
        proof {
            lemma_matches_at_subrange(text@, cur as int, le as int, b as int, api_set_lang());
        }
        None
    }
}

/// Is the character at index `i` in-line whitespace?
fn line_ws_at(text: &str, i: usize) -> (r: bool)
    requires
        i < text@.len(),
    ensures
        r == is_line_ws(text@[i as int]),
{
    let ch = text.get_char(i);
    crate::text::is_ws(ch) && ch != '\n'
}

/// First index at or after `from` (up to `to`) that is not in-line
/// whitespace.
fn line_ws_end(text: &str, from: usize, to: usize) -> (r: usize)
    requires
        from <= to <= text@.len(),
    ensures
        from <= r <= to,
        r - from == line_ws_len(text@.subrange(from as int, to as int)),
{
    let ghost l = text@.subrange(from as int, to as int);
    let mut i = from;
    while i < to && line_ws_at(text, i)
        invariant
            from <= i <= to,
            to <= text@.len(),
            l == text@.subrange(from as int, to as int),
            forall|j: int| 0 <= j < i - from ==> is_line_ws(l[j]),
        decreases to - i,
    {
        i = i + 1;
    }
    proof {
        if i < to {
            assert(l[i - from] == text@[i as int]);
        }
        lemma_line_ws_len_char(l, i - from);
    }
    i
}

pub proof fn lemma_matches_at_subrange(t: Seq<char>, lo: int, hi: int, at: int, p: Seq<char>)
    requires
        0 <= lo <= hi <= t.len(),
        lo <= at <= hi,
    ensures
        matches_at(t.subrange(lo, hi), at - lo, p) <==> (at + p.len() <= hi && matches_at(
            t,
            at,
            p,
        )),
{
    let l = t.subrange(lo, hi);
    if at + p.len() <= hi {
        assert(l.subrange(at - lo, at - lo + p.len()) =~= t.subrange(at, at + p.len()));
    }
}

/// Walks `text` splitting it at language-directive lines.
#[derive(Debug)]
pub struct SplitByLabel<'a, 'b> {
    pub text: &'a str,
    pub comment: &'b str,
    pub pos: usize,
    pub row: usize,
}

impl<'a, 'b> SplitByLabel<'a, 'b> {
    /// The walk's bookkeeping: position within bounds and `row` the
    /// 1-based line number at the current position.
    pub open spec fn wf(&self) -> bool {
        &&& self.pos <= self.text@.len()
        &&& self.text@.len() < usize::MAX
        &&& self.row == 1 + count_nl(self.text@.take(self.pos as int))
    }

    /// The pieces still to be yielded.
    pub open spec fn remaining(&self) -> Seq<SplitPiece> {
        spec_split_from(self.text@.skip(self.pos as int), self.comment@, self.row as int)
    }

    pub fn new(buffer: &'a str, comment: &'b str) -> (r: SplitByLabel<'a, 'b>)
        requires
            buffer@.len() < usize::MAX,
        ensures
            r.wf(),
            r.text == buffer,
            r.comment == comment,
            r.pos == 0,
            r.remaining() == spec_split_from(buffer@, comment@, 1),
    {
        proof {
            assert(buffer@.take(0) =~= Seq::<char>::empty());
            assert(buffer@.skip(0) =~= buffer@);
        }
        SplitByLabel { text: buffer, comment, pos: 0, row: 1 }
    }

    /// The next `(section, tokens, directive line, row)` item, or
    /// `None` once the text is exhausted: the head of `remaining()`.
    #[verifier::rlimit(100)]
    pub fn next(&mut self) -> (r: Option<(&'a str, &'a str, &'a str, usize)>)
        requires
            old(self).wf(),
        ensures
            final(self).wf(),
            final(self).text == old(self).text,
            final(self).comment == old(self).comment,
            old(self).remaining().len() == 0 ==> r is None && *final(self) == *old(self),
            old(self).remaining().len() > 0 ==> {
                let head = old(self).remaining()[0];
                &&& r matches Some(p)
                &&& p.0@ == head.section
                &&& p.1@ == head.tokens
                &&& p.2@ == head.label
                &&& p.3 == head.row
                &&& final(self).remaining() == old(self).remaining().drop_first()
            },
    {
        let text = self.text;
        let n = text.unicode_len();
        let start = self.pos;
        let ghost t = text@.skip(start as int);
        let ghost c = self.comment@;
        if start >= n {
            proof {
                assert(t =~= Seq::<char>::empty());
            }
            return None;
        }
        let mut cur = start;
        let mut rows_passed: usize = 0;
        while cur < n
            invariant
                start <= cur <= n,
                n == text@.len(),
                n < usize::MAX,
                t == text@.skip(start as int),
                c == self.comment@,
                self.text == text,
                self.text == old(self).text,
                self.comment == old(self).comment,
                self.pos == start,
                self.pos == old(self).pos,
                self.row == old(self).row,
                self.row == 1 + count_nl(text@.take(start as int)),
                rows_passed == count_nl(text@.subrange(start as int, cur as int)),
                rows_passed <= cur - start,
                find_directive(t, c) == match find_directive(
                    text@.skip(cur as int),
                    c,
                ) {
                    Some((m, ts, e)) => Some(
                        (
                            m + cur - start,
                            ts + cur - start,
                            e + cur - start,
                        ),
                    ),
                    None => None::<(int, int, int)>,
                },
            decreases n - cur,
        {
            let ghost tcur = text@.skip(cur as int);
            let nl = find_char(text, cur, '\n');
            proof {
                lemma_first_at_bounds(text@, '\n', cur as int);
                lemma_first_at_skip(text@, '\n', cur as int);
                lemma_line_len(tcur);
            }
            let le = if nl < n {
                nl + 1
            } else {
                n
            };
            proof {
                assert(line_len(tcur) == le - cur);
                assert(tcur.subrange(0, le - cur) =~= text@.subrange(cur as int, le as int));
            }
            match directive_on_line(text, cur, le, self.comment) {
                Some((m_abs, ts_abs)) => {
                    // The directive line closes the open section here.
                    proof {
                        assert(find_directive(tcur, c) == Some(
                            ((m_abs - cur) as int, (ts_abs - cur) as int, (le - cur) as int),
                        ));
                        lemma_find_directive_bounds(tcur, c);
                    }
                    let section = text.substring_char(start, m_abs);
                    let tokens = text.substring_char(ts_abs, le);
                    let label = text.substring_char(m_abs, le);
                    proof {
                        lemma_count_nl_bounds(text@.take(start as int));
                    }
                    let row = self.row + rows_passed;
                    let ghost head = old(self).remaining()[0];
                    proof {
                        let m = m_abs - start;
                        let ts = ts_abs - start;
                        let e = le - start;
                        assert(find_directive(t, c) == Some((m as int, ts as int, e as int)));
                        assert(t.subrange(0, m as int) =~= text@.subrange(
                            start as int,
                            m_abs as int,
                        ));
                        assert(t.subrange(ts as int, e as int) =~= text@.subrange(
                            ts_abs as int,
                            le as int,
                        ));
                        assert(t.subrange(m as int, e as int) =~= text@.subrange(
                            m_abs as int,
                            le as int,
                        ));
                        // Row of the directive: newlines in the section, all of
                        // which lie before the directive line's start.
                        assert(text@.subrange(start as int, m_abs as int) =~= text@.subrange(
                            start as int,
                            cur as int,
                        ) + text@.subrange(cur as int, m_abs as int));
                        lemma_count_nl_concat(
                            text@.subrange(start as int, cur as int),
                            text@.subrange(cur as int, m_abs as int),
                        );
                        assert forall|j: int| 0 <= j < m_abs - cur implies text@.subrange(
                            cur as int,
                            m_abs as int,
                        )[j] != '\n' by {
                            assert(text@.subrange(cur as int, m_abs as int)[j] == tcur[j]);
                            lemma_directive_line_interior(tcur, c, j);
                        }
                        lemma_count_nl_bounds(text@.subrange(cur as int, m_abs as int));
                        assert(count_nl(t.subrange(0, m as int)) == rows_passed);
                        // New position bookkeeping.
                        assert(text@.take(le as int) =~= text@.take(start as int) + text@.subrange(
                            start as int,
                            le as int,
                        ));
                        lemma_count_nl_concat(
                            text@.take(start as int),
                            text@.subrange(start as int, le as int),
                        );
                        assert(text@.subrange(start as int, le as int) =~= t.subrange(0, e as int));
                        assert(t.skip(e as int) =~= text@.skip(le as int));
                    }
                    proof {
                        lemma_count_nl_line(text@, cur as int, le as int, nl as int);
                        assert(t.subrange(0, (le - start) as int) =~= text@.subrange(
                            start as int,
                            le as int,
                        ));
                        assert(text@.subrange(start as int, le as int) =~= text@.subrange(
                            start as int,
                            cur as int,
                        ) + text@.subrange(cur as int, le as int));
                        lemma_count_nl_concat(
                            text@.subrange(start as int, cur as int),
                            text@.subrange(cur as int, le as int),
                        );
                        assert(count_nl(t.subrange(0, (le - start) as int)) == rows_passed + (
                        if nl < n {
                            1int
                        } else {
                            0int
                        }));
                        lemma_count_nl_bounds(text@.take(le as int));
                    }
                    self.pos = le;
                    self.row = self.row + rows_passed + (if nl < n {
                        1
                    } else {
                        0
                    });
                    proof {
                        assert(final(self).remaining() =~= old(self).remaining().drop_first());
                    }
                    return Some((section, tokens, label, row));
                },
                None => {
                    proof {
                        assert(directive_parts(tcur.subrange(0, le - cur), c) is None);
                        assert(tcur.skip(le - cur) =~= text@.skip(le as int));
                        assert(text@.subrange(start as int, le as int) =~= text@.subrange(
                            start as int,
                            cur as int,
                        ) + text@.subrange(cur as int, le as int));
                        lemma_count_nl_concat(
                            text@.subrange(start as int, cur as int),
                            text@.subrange(cur as int, le as int),
                        );
                        lemma_count_nl_line(text@, cur as int, le as int, nl as int);
                    }
                    rows_passed = if nl < n {
                        rows_passed + 1
                    } else {
                        rows_passed
                    };
                    cur = le;
                },
            }
        }
        // No directive: the rest of the text is one final plain piece.
        let section = text.substring_char(start, n);
        let row = self.row;
        proof {
            assert(find_directive(text@.skip(n as int), c) is None) by {
                assert(text@.skip(n as int) =~= Seq::<char>::empty());
            }
            assert(find_directive(t, c) is None);
            assert(t =~= text@.subrange(start as int, n as int));
            assert(text@.take(n as int) =~= text@.take(start as int) + text@.subrange(
                start as int,
                n as int,
            ));
            lemma_count_nl_concat(
                text@.take(start as int),
                text@.subrange(start as int, n as int),
            );
            lemma_count_nl_bounds(text@.take(n as int));
            reveal_strlit("");
        }
        self.pos = n;
        self.row = self.row + rows_passed;
        proof {
            assert(""@ =~= Seq::<char>::empty());
            assert(final(self).remaining() =~= Seq::<SplitPiece>::empty());
            assert(spec_split_from(t, c, old(self).row as int).drop_first()
                =~= Seq::<SplitPiece>::empty());
        }
        Some((section, "", "", row))
    }
}

/// The two reserved tokens that mean "applies to all languages".
pub open spec fn ignore_all() -> Seq<Seq<char>> {
    seq!["*"@, "ALL"@]
}

/// The words of a directive's token text that are not reserved tokens,
/// in order, duplicates kept.
pub open spec fn non_ignored(ws: Seq<Seq<char>>) -> Seq<Seq<char>>
    decreases ws.len(),
{
    if ws.len() == 0 {
        Seq::empty()
    } else if ignore_all().contains(ws[0]) {
        non_ignored(ws.drop_first())
    } else {
        seq![ws[0]] + non_ignored(ws.drop_first())
    }
}

/// Does the word list carry a reserved "all languages" token?
pub open spec fn has_all_spec(ws: Seq<Seq<char>>) -> bool {
    ws.contains("*"@) || ws.contains("ALL"@)
}

/// The language assignment a directive's token text sets for the
/// following segment: `None` for "applies to all".
pub open spec fn label_of(tokens: Seq<char>) -> Option<Seq<Seq<char>>> {
    let w = words(tokens);
    if has_all_spec(w) || non_ignored(w).len() == 0 {
        None
    } else {
        Some(non_ignored(w))
    }
}

/// The language assignment of segment `i`, set by the directive that
/// opened it; the first segment applies to all languages.
pub open spec fn seg_label(ps: Seq<SplitPiece>, i: int) -> Option<Seq<Seq<char>>> {
    if i == 0 {
        None
    } else {
        label_of(ps[i - 1].tokens)
    }
}

/// The segments of `t`: each piece's section under the assignment of
/// the directive before it, plus a zero-length trailing segment when
/// the text ends with a directive line.
pub open spec fn spec_segments(t: Seq<char>, c: Seq<char>) -> Seq<
    (Option<Seq<Seq<char>>>, Seq<char>),
> {
    let ps = spec_split_from(t, c, 1);
    let base = Seq::new(ps.len(), |i: int| (seg_label(ps, i), ps[i].section));
    if ps.len() > 0 && ps.last().label.len() > 0 {
        base.push((label_of(ps.last().tokens), Seq::empty()))
    } else {
        base
    }
}

/// The unique-language registry folded over the pieces in order, or
/// the first token error as `(row, directive line, message)`.
pub open spec fn reg_fold(ps: Seq<SplitPiece>, acc: Seq<Seq<char>>) -> Result<
    Seq<Seq<char>>,
    (int, Seq<char>, Seq<char>),
>
    decreases ps.len(),
{
    if ps.len() == 0 {
        Ok(acc)
    } else if ps[0].label.len() == 0 {
        reg_fold(ps.drop_first(), acc)
    } else {
        match ptp_fold(words(ps[0].tokens), (acc, Seq::empty()), ignore_all(), false) {
            Ok(st) => reg_fold(ps.drop_first(), st.0),
            Err(e) => Err((ps[0].row, ps[0].label, e.1)),
        }
    }
}

/// The canonical language list of `t`, in first-seen order, or the
/// first directive-token error.
pub open spec fn spec_lang_list(t: Seq<char>, c: Seq<char>) -> Result<
    Seq<Seq<char>>,
    (int, Seq<char>, Seq<char>),
> {
    reg_fold(spec_split_from(t, c, 1), Seq::empty())
}

/// Does a segment with this assignment belong to language `lang`?
pub open spec fn applies(label: Option<Seq<Seq<char>>>, lang: Seq<char>) -> bool {
    match label {
        None => true,
        Some(ls) => ls.contains(lang),
    }
}

/// The ordered bodies of the segments that belong to `lang`.
pub open spec fn view_body(
    segs: Seq<(Option<Seq<Seq<char>>>, Seq<char>)>,
    lang: Seq<char>,
) -> Seq<Seq<char>>
    decreases segs.len(),
{
    if segs.len() == 0 {
        Seq::empty()
    } else {
        view_body(segs.drop_last(), lang) + if applies(segs.last().0, lang) {
            seq![segs.last().1]
        } else {
            Seq::empty()
        }
    }
}

/// The bodies of all segments, in order.
pub open spec fn all_bodies(segs: Seq<(Option<Seq<Seq<char>>>, Seq<char>)>) -> Seq<Seq<char>> {
    Seq::new(segs.len(), |i: int| segs[i].1)
}

pub proof fn lemma_split_rows(t: Seq<char>, c: Seq<char>, row0: int)
    requires
        row0 >= 1,
    ensures
        forall|i: int|
            0 <= i < spec_split_from(t, c, row0).len() ==> (#[trigger] spec_split_from(
                t,
                c,
                row0,
            )[i]).row >= 1,
    decreases t.len(),
{
    if t.len() > 0 {
        lemma_find_directive_bounds(t, c);
        match find_directive(t, c) {
            None => {},
            Some((m, ts, e)) => {
                lemma_count_nl_bounds(t.subrange(0, m));
                lemma_count_nl_bounds(t.subrange(0, e));
                let rest = spec_split_from(t.skip(e), c, row0 + count_nl(t.subrange(0, e)));
                lemma_split_rows(t.skip(e), c, row0 + count_nl(t.subrange(0, e)));
                assert forall|i: int|
                    0 <= i < spec_split_from(t, c, row0).len() implies (#[trigger] spec_split_from(
                    t,
                    c,
                    row0,
                )[i]).row >= 1 by {
                    if i > 0 {
                        assert(spec_split_from(t, c, row0)[i] == rest[i - 1]);
                    }
                }
            },
        }
    }
}

pub proof fn lemma_ptp_added(ws: Seq<Seq<char>>, st: (Seq<Seq<char>>, Seq<Seq<char>>))
    ensures
        ptp_fold(ws, st, ignore_all(), false) matches Ok(st2) ==> st2.1 == st.1 + non_ignored(ws),
    decreases ws.len(),
{
    if ws.len() == 0 {
        assert(st.1 + non_ignored(ws) =~= st.1);
    } else {
        match crate::helpers::ptp_step(st, ws[0], ignore_all(), false) {
            Ok(st_next) => {
                lemma_ptp_added(ws.drop_first(), st_next);
                if ptp_fold(ws.drop_first(), st_next, ignore_all(), false) matches Ok(st2) {
                    if ignore_all().contains(ws[0]) {
                    } else {
                        assert(st_next.1 == st.1.push(ws[0]));
                        assert(st.1.push(ws[0]) + non_ignored(ws.drop_first()) =~= st.1 + (seq![
                            ws[0],
                        ] + non_ignored(ws.drop_first())));
                    }
                }
            },
            Err(_) => {},
        }
    }
}

/// Does the directive token text name "all languages"?
fn has_all_token(tokens: &str) -> (r: bool)
    ensures
        r == has_all_spec(words(tokens@)),
{
    let toks = split_ws(tokens);
    let mut i: usize = 0;
    while i < toks.len()
        invariant
            0 <= i <= toks.len(),
            toks.deep_view() == words(tokens@),
            forall|j: int|
                0 <= j < i ==> #[trigger] toks.deep_view()[j] != "*"@ && toks.deep_view()[j]
                    != "ALL"@,
        decreases toks.len() - i,
    {
        let t = toks[i];
        proof {
            assert(toks.deep_view()[i as int] == toks@[i as int]@);
        }
        if str_eq(t, "*") || str_eq(t, "ALL") {
            assert(words(tokens@)[i as int] == t@);
            return true;
        }
        i = i + 1;
    }
    proof {
        if words(tokens@).contains("*"@) {
            let j = choose|j: int| 0 <= j < words(tokens@).len() && words(tokens@)[j] == "*"@;
            assert(toks.deep_view()[j] == "*"@);
        }
        if words(tokens@).contains("ALL"@) {
            let j = choose|j: int| 0 <= j < words(tokens@).len() && words(tokens@)[j] == "ALL"@;
            assert(toks.deep_view()[j] == "ALL"@);
        }
    }
    false
}

/// One source file split into per-language views: the original text,
/// one view per registered language (or a single all-languages view),
/// and the unique language tags in first-seen order.
#[derive(Debug)]
pub struct Post<'a> {
    pub original: &'a str,
    pub views: Vec<PostView<'a>>,
    pub lang_list: Vec<&'a str>,
}

/// One language's reconstructed body: the ordered segments of the
/// source that belong to it.
#[derive(Debug)]
pub struct PostView<'a> {
    pub lang: Option<&'a str>,
    pub body: Vec<&'a str>,
}

impl<'a> Post<'a> {
    /// Splits `text` at `api_set_lang:` directive lines (comment-marked
    /// with `comment_marker`), registers every language token, and
    /// builds one view per language — or one all-languages view when no
    /// directive names a language.  Fails on the first directive token
    /// holding a blacklisted character.
    #[verifier::rlimit(100)]
    pub fn new(text: &'a str, comment_marker: &str) -> (r: Result<Post<'a>, ParseError<'a>>)
        requires
            text@.len() < usize::MAX,
        ensures
            r is Ok <==> spec_lang_list(text@, comment_marker@) is Ok,
            r matches Ok(post) ==> {
                let langs = spec_lang_list(text@, comment_marker@)->Ok_0;
                let segs = spec_segments(text@, comment_marker@);
                &&& post.original == text
                &&& post.lang_list.deep_view() == langs
                &&& (langs.len() == 0 ==> post.views.len() == 1 && post.views[0].lang is None
                    && post.views[0].body.deep_view() == all_bodies(segs))
                &&& (langs.len() > 0 ==> post.views.len() == langs.len() && (forall|k: int|
                    0 <= k < langs.len() ==> (#[trigger] post.views@[k].lang) is Some
                        && post.views@[k].lang->0@ == langs[k] && post.views@[k].body.deep_view()
                        == view_body(segs, langs[k])))
            },
            r matches Err(e) ==> {
                let err = spec_lang_list(text@, comment_marker@)->Err_0;
                &&& e.row == err.0
                &&& e.context@ == err.1
                &&& e.message@ == err.2
            },
    {
        let ghost c = comment_marker@;
        let ghost all_pieces = spec_split_from(text@, c, 1);
        let mut splitter = SplitByLabel::new(text, comment_marker);
        let mut unique_langs: Vec<&'a str> = Vec::new();
        let mut parts: Vec<&'a str> = Vec::new();
        let mut labels: Vec<Option<Vec<&'a str>>> = Vec::new();
        let mut cur_label: Option<Vec<&'a str>> = None;
        let mut last_was_directive = false;
        let ghost mut k: int = 0;
        proof {
            assert(all_pieces.skip(0) =~= all_pieces);
            assert(unique_langs.deep_view() =~= Seq::<Seq<char>>::empty());
            lemma_split_rows(text@, c, 1);
        }
        loop
            invariant
                splitter.wf(),
                splitter.text == text,
                splitter.comment == comment_marker,
                c == comment_marker@,
                all_pieces == spec_split_from(text@, c, 1),
                0 <= k <= all_pieces.len(),
                splitter.remaining() == all_pieces.skip(k),
                text@.len() < usize::MAX,
                parts.len() == k,
                labels.len() == k,
                forall|i: int|
                    0 <= i < k ==> #[trigger] parts.deep_view()[i] == all_pieces[i].section,
                forall|i: int|
                    0 <= i < k ==> #[trigger] labels.deep_view()[i] == seg_label(all_pieces, i),
                cur_label.deep_view() == seg_label(all_pieces, k),
                last_was_directive == (k > 0 && all_pieces[k - 1].label.len() > 0),
                k > 0 && all_pieces[k - 1].label.len() == 0 ==> k == all_pieces.len(),
                reg_fold(all_pieces, Seq::empty()) == reg_fold(
                    all_pieces.skip(k),
                    unique_langs.deep_view(),
                ),
                forall|i: int|
                    0 <= i < all_pieces.len() ==> (#[trigger] all_pieces[i]).row >= 1,
            ensures
                k == all_pieces.len(),
                parts.len() == k,
                labels.len() == k,
                forall|i: int|
                    0 <= i < k ==> #[trigger] parts.deep_view()[i] == all_pieces[i].section,
                forall|i: int|
                    0 <= i < k ==> #[trigger] labels.deep_view()[i] == seg_label(all_pieces, i),
                cur_label.deep_view() == seg_label(all_pieces, k),
                last_was_directive == (k > 0 && all_pieces[k - 1].label.len() > 0),
                reg_fold(all_pieces, Seq::empty()) == reg_fold(
                    all_pieces.skip(k),
                    unique_langs.deep_view(),
                ),
            decreases all_pieces.len() - k,
        {
            let ghost pre = splitter;
            let item = splitter.next();
            match item {
                None => {
                    proof {
                        assert(all_pieces.skip(k) =~= Seq::<SplitPiece>::empty());
                    }
                    break ;
                },
                Some((section, tokens, label, row)) => {
                    let ghost head = all_pieces[k];
                    proof {
                        assert(all_pieces.skip(k)[0] == all_pieces[k]);
                        assert(all_pieces.skip(k).drop_first() =~= all_pieces.skip(k + 1));
                    }
                    let ghost parts_prev = parts.deep_view();
                    let ghost labels_prev = labels.deep_view();
                    let prev_label = cur_label;
                    parts.push(section);
                    labels.push(prev_label);
                    proof {
                        assert(parts.deep_view() =~= parts_prev.push(section@));
                        assert(labels.deep_view() =~= labels_prev.push(prev_label.deep_view()));
                    }
                    if label.unicode_len() > 0 {
                        let ghost reg_prev = unique_langs.deep_view();
                        let ignore: [&str; 2] = ["*", "ALL"];
                        proof {
                            assert(ignore@.len() == 2);
                            assert(ignore.deep_view()[0] == "*"@);
                            assert(ignore.deep_view()[1] == "ALL"@);
                            assert(ignore.deep_view() =~= ignore_all());
                        }
                        match parse_tags_and_push(&mut unique_langs, tokens, &ignore, false) {
                            Err(msg) => {
                                proof {
                                    assert(reg_fold(all_pieces.skip(k), reg_prev) matches Err(e)
                                        && e.0 == head.row && e.1 == head.label && e.2 == msg@);
                                }
                                return Err(ParseError::new(row, label, msg));
                            },
                            Ok(added) => {
                                let has_all = has_all_token(tokens);
                                proof {
                                    lemma_ptp_added(words(tokens@), (reg_prev, Seq::empty()));
                                    assert(added.deep_view() =~= non_ignored(words(tokens@)));
                                    assert(added.deep_view().len() == added.len());
                                }
                                cur_label = if !has_all && added.len() > 0 {
                                    Some(added)
                                } else {
                                    None
                                };
                                last_was_directive = true;
                                proof {
                                    assert(cur_label.deep_view() == label_of(head.tokens));
                                }
                            },
                        }
                    } else {
                        cur_label = None;
                        last_was_directive = false;
                        proof {
                            // A plain piece ends the split: its suffix held no
                            // directive, so the split of that suffix is a
                            // single piece.
                            let s = pre.text@.skip(pre.pos as int);
                            assert(all_pieces.skip(k) == spec_split_from(s, c, pre.row as int));
                            lemma_find_directive_bounds(s, c);
                            if find_directive(s, c) is Some {
                                assert(head.label.len() > 0);
                            }
                            assert(find_directive(s, c) is None);
                            assert(all_pieces.skip(k).len() == 1);
                            assert(k + 1 == all_pieces.len());
                            assert(words(head.tokens) =~= Seq::<Seq<char>>::empty());
                            assert(cur_label.deep_view() == label_of(head.tokens));
                        }
                    }
                    proof {
                        k = k + 1;
                    }
                },
            }
        }
        if last_was_directive {
            let n = text.unicode_len();
            let ghost parts_prev = parts.deep_view();
            let ghost labels_prev = labels.deep_view();
            parts.push(text.substring_char(n, n));
            labels.push(cur_label);
            proof {
                assert(text@.subrange(n as int, n as int) =~= Seq::<char>::empty());
                assert(parts.deep_view() =~= parts_prev.push(Seq::<char>::empty()));
                assert(labels.deep_view() =~= labels_prev.push(
                    labels@[labels.len() - 1].deep_view(),
                ));
            }
        }
        let ghost segs = spec_segments(text@, c);
        proof {
            assert(parts.len() == segs.len());
            assert forall|i: int| 0 <= i < segs.len() implies parts.deep_view()[i] == segs[i].1
                && labels.deep_view()[i] == segs[i].0 by {}
        }

        let lang_count = unique_langs.len();
        let mut view_list: Vec<PostView<'a>> = Vec::new();
        if lang_count == 0 {
            let body = parts;
            proof {
                assert(body.deep_view() =~= all_bodies(segs));
            }
            view_list.push(PostView { lang: None, body });
        } else {
            let ghost langs = unique_langs.deep_view();
            let mut li: usize = 0;
            while li < lang_count
                invariant
                    0 <= li <= lang_count,
                    lang_count == unique_langs.len(),
                    langs == unique_langs.deep_view(),
                    langs.len() == lang_count,
                    view_list.len() == li,
                    parts.len() == labels.len(),
                    parts.len() == segs.len(),
                    forall|i: int|
                        0 <= i < segs.len() ==> #[trigger] parts.deep_view()[i] == segs[i].1,
                    forall|i: int|
                        0 <= i < segs.len() ==> #[trigger] labels.deep_view()[i] == segs[i].0,
                    forall|j: int|
                        0 <= j < li ==> (#[trigger] view_list@[j].lang) is Some
                            && view_list@[j].lang->0@ == langs[j] && view_list@[j].body.deep_view()
                            == view_body(segs, langs[j]),
                decreases lang_count - li,
            {
                let lang = unique_langs[li];
                proof {
                    assert(unique_langs.deep_view()[li as int] == unique_langs@[li as int]@);
                }
                let mut view: Vec<&'a str> = Vec::new();
                let mut i: usize = 0;
                proof {
                    assert(segs.take(0) =~= Seq::<(Option<Seq<Seq<char>>>, Seq<char>)>::empty());
                }
                while i < parts.len()
                    invariant
                        0 <= i <= parts.len(),
                        parts.len() == labels.len(),
                        parts.len() == segs.len(),
                        0 <= li < langs.len(),
                        lang@ == langs[li as int],
                        forall|x: int|
                            0 <= x < segs.len() ==> #[trigger] parts.deep_view()[x] == segs[x].1,
                        forall|x: int|
                            0 <= x < segs.len() ==> #[trigger] labels.deep_view()[x] == segs[x].0,
                        view.deep_view() == view_body(segs.take(i as int), lang@),
                    decreases parts.len() - i,
                {
                    let ghost view_prev = view.deep_view();
                    let keep = match &labels[i] {
                        Option::None => true,
                        Option::Some(ls) => vec_contains_str(ls, lang),
                    };
                    proof {
                        assert(labels.deep_view()[i as int] == labels@[i as int].deep_view());
                        assert(keep == applies(segs[i as int].0, lang@));
                        assert(segs.take(i + 1).drop_last() =~= segs.take(i as int));
                        assert(segs.take(i + 1).last() == segs[i as int]);
                    }
                    if keep {
                        let piece = parts[i];
                        proof {
                            assert(parts.deep_view()[i as int] == parts@[i as int]@);
                            assert(piece@ == segs[i as int].1);
                        }
                        view.push(piece);
                        proof {
                            assert(view.deep_view() =~= view_prev.push(segs[i as int].1));
                            assert(view.deep_view() =~= view_body(segs.take(i + 1), lang@));
                        }
                    } else {
                        proof {
                            assert(view.deep_view() =~= view_body(segs.take(i + 1), lang@));
                        }
                    }
                    i = i + 1;
                }
                proof {
                    assert(segs.take(segs.len() as int) =~= segs);
                }
                view_list.push(PostView { lang: Some(lang), body: view });
                li = li + 1;
            }
        }
        Ok(Post { original: text, views: view_list, lang_list: unique_langs })
    }
}

/// Concatenation of a sequence of texts, in order.
pub open spec fn concat_seqs(ss: Seq<Seq<char>>) -> Seq<char>
    decreases ss.len(),
{
    if ss.len() == 0 {
        Seq::empty()
    } else {
        ss[0] + concat_seqs(ss.drop_first())
    }
}

/// Exhaustive partition: concatenating every piece's section and
/// directive line, in order, reconstructs the text exactly — no gaps
/// and no overlaps, with directive lines included in the accounting.
pub proof fn lemma_exhaustive_partition(t: Seq<char>, c: Seq<char>, row0: int)
    ensures
        ({
            let ps = spec_split_from(t, c, row0);
            concat_seqs(Seq::new(ps.len(), |i: int| ps[i].section + ps[i].label)) == t
        }),
    decreases t.len(),
{
    let ps = spec_split_from(t, c, row0);
    let f = Seq::new(ps.len(), |i: int| ps[i].section + ps[i].label);
    if t.len() == 0 {
        assert(f =~= Seq::<Seq<char>>::empty());
        assert(concat_seqs(f) =~= t);
    } else {
        lemma_find_directive_bounds(t, c);
        match find_directive(t, c) {
            None => {
                assert(f[0] =~= t);
                assert(f.drop_first() =~= Seq::<Seq<char>>::empty());
                assert(concat_seqs(f) == f[0] + concat_seqs(f.drop_first()));
                assert(concat_seqs(Seq::<Seq<char>>::empty()) == Seq::<char>::empty());
                assert(f[0] + Seq::<char>::empty() =~= t);
            },
            Some((m, ts, e)) => {
                let row1 = row0 + count_nl(t.subrange(0, e));
                let rest = spec_split_from(t.skip(e), c, row1);
                lemma_exhaustive_partition(t.skip(e), c, row1);
                let fr = Seq::new(rest.len(), |i: int| rest[i].section + rest[i].label);
                assert(f.drop_first() =~= fr);
                assert(f[0] =~= t.subrange(0, e));
                assert(concat_seqs(f) == f[0] + concat_seqs(fr));
                assert(t.subrange(0, e) + t.skip(e) =~= t);
            },
        }
    }
}

/// No-directive idempotence: a text without any directive line has an
/// empty language registry and a single all-languages segment holding
/// the whole text, so the one view's body reconstructs it exactly.
pub proof fn lemma_no_directive_idempotence(t: Seq<char>, c: Seq<char>)
    requires
        find_directive(t, c) is None,
    ensures
        spec_lang_list(t, c) == Ok::<Seq<Seq<char>>, (int, Seq<char>, Seq<char>)>(Seq::empty()),
        concat_seqs(all_bodies(spec_segments(t, c))) == t,
{
    let ps = spec_split_from(t, c, 1);
    let segs = spec_segments(t, c);
    if t.len() == 0 {
        assert(ps =~= Seq::<SplitPiece>::empty());
        assert(segs =~= Seq::<(Option<Seq<Seq<char>>>, Seq<char>)>::empty());
        assert(all_bodies(segs) =~= Seq::<Seq<char>>::empty());
        assert(t =~= Seq::<char>::empty());
    } else {
        assert(ps.len() == 1 && ps[0].label.len() == 0 && ps[0].section == t);
        assert(ps.drop_first() =~= Seq::<SplitPiece>::empty());
        assert(reg_fold(ps, Seq::empty()) == reg_fold(ps.drop_first(), Seq::empty()));
        assert(reg_fold(Seq::<SplitPiece>::empty(), Seq::empty())
            == Ok::<Seq<Seq<char>>, (int, Seq<char>, Seq<char>)>(Seq::empty()));
        assert(segs.len() == 1 && segs[0].1 == t);
        assert(all_bodies(segs) =~= seq![t]);
        assert(all_bodies(segs).drop_first() =~= Seq::<Seq<char>>::empty());
        assert(concat_seqs(all_bodies(segs)) == all_bodies(segs)[0] + concat_seqs(
            all_bodies(segs).drop_first(),
        ));
        assert(concat_seqs(Seq::<Seq<char>>::empty()) == Seq::<char>::empty());
        assert(all_bodies(segs)[0] + Seq::<char>::empty() =~= t);
    }
}

/// Words not yet in `acc` appended in order of appearance.
pub open spec fn add_unseen(acc: Seq<Seq<char>>, ws: Seq<Seq<char>>) -> Seq<Seq<char>>
    decreases ws.len(),
{
    if ws.len() == 0 {
        acc
    } else {
        add_unseen(
            if acc.contains(ws[0]) {
                acc
            } else {
                acc.push(ws[0])
            },
            ws.drop_first(),
        )
    }
}

/// Every non-reserved token of every directive line of the split, in
/// order of appearance, duplicates kept.
pub open spec fn all_tokens(ps: Seq<SplitPiece>) -> Seq<Seq<char>>
    decreases ps.len(),
{
    if ps.len() == 0 {
        Seq::empty()
    } else {
        (if ps[0].label.len() == 0 {
            Seq::empty()
        } else {
            non_ignored(words(ps[0].tokens))
        }) + all_tokens(ps.drop_first())
    }
}

/// The first-seen deduplication of a word list.
pub open spec fn first_seen(ws: Seq<Seq<char>>) -> Seq<Seq<char>> {
    add_unseen(Seq::empty(), ws)
}

proof fn lemma_ptp_list(ws: Seq<Seq<char>>, st: (Seq<Seq<char>>, Seq<Seq<char>>))
    ensures
        ptp_fold(ws, st, ignore_all(), false) matches Ok(st2) ==> st2.0 == add_unseen(
            st.0,
            non_ignored(ws),
        ),
    decreases ws.len(),
{
    if ws.len() > 0 {
        match crate::helpers::ptp_step(st, ws[0], ignore_all(), false) {
            Ok(st_next) => {
                lemma_ptp_list(ws.drop_first(), st_next);
                if !ignore_all().contains(ws[0]) {
                    assert(non_ignored(ws) == seq![ws[0]] + non_ignored(ws.drop_first()));
                    assert((seq![ws[0]] + non_ignored(ws.drop_first())).drop_first()
                        =~= non_ignored(ws.drop_first()));
                }
            },
            Err(_) => {},
        }
    }
}

proof fn lemma_add_unseen_concat(acc: Seq<Seq<char>>, a: Seq<Seq<char>>, b: Seq<Seq<char>>)
    ensures
        add_unseen(add_unseen(acc, a), b) == add_unseen(acc, a + b),
    decreases a.len(),
{
    if a.len() == 0 {
        assert(a + b =~= b);
    } else {
        assert((a + b)[0] == a[0]);
        assert((a + b).drop_first() =~= a.drop_first() + b);
        if acc.contains(a[0]) {
            lemma_add_unseen_concat(acc, a.drop_first(), b);
        } else {
            lemma_add_unseen_concat(acc.push(a[0]), a.drop_first(), b);
        }
    }
}

proof fn lemma_reg_fold_tokens(ps: Seq<SplitPiece>, acc: Seq<Seq<char>>)
    ensures
        reg_fold(ps, acc) matches Ok(langs) ==> langs == add_unseen(acc, all_tokens(ps)),
    decreases ps.len(),
{
    if ps.len() > 0 {
        if ps[0].label.len() == 0 {
            lemma_reg_fold_tokens(ps.drop_first(), acc);
            assert(Seq::<Seq<char>>::empty() + all_tokens(ps.drop_first()) =~= all_tokens(
                ps.drop_first(),
            ));
        } else {
            match ptp_fold(words(ps[0].tokens), (acc, Seq::empty()), ignore_all(), false) {
                Ok(st) => {
                    lemma_ptp_list(words(ps[0].tokens), (acc, Seq::empty()));
                    lemma_reg_fold_tokens(ps.drop_first(), st.0);
                    lemma_add_unseen_concat(
                        acc,
                        non_ignored(words(ps[0].tokens)),
                        all_tokens(ps.drop_first()),
                    );
                },
                Err(_) => {},
            }
        }
    }
}

/// No duplicate entries.
pub open spec fn distinct(ws: Seq<Seq<char>>) -> bool {
    forall|i: int, j: int| 0 <= i < j < ws.len() ==> ws[i] != ws[j]
}

proof fn lemma_add_unseen_props(acc: Seq<Seq<char>>, ws: Seq<Seq<char>>)
    requires
        distinct(acc),
    ensures
        distinct(add_unseen(acc, ws)),
        forall|w: Seq<char>|
            #[trigger] add_unseen(acc, ws).contains(w) <==> acc.contains(w) || ws.contains(w),
    decreases ws.len(),
{
    if ws.len() > 0 {
        let acc2 = if acc.contains(ws[0]) {
            acc
        } else {
            acc.push(ws[0])
        };
        assert(distinct(acc2)) by {
            if !acc.contains(ws[0]) {
                assert forall|i: int, j: int| 0 <= i < j < acc2.len() implies acc2[i] != acc2[j] by {
                    if j == acc.len() {
                        assert(acc2[j] == ws[0]);
                        assert(acc.contains(acc[i]));
                    }
                }
            }
        }
        lemma_add_unseen_props(acc2, ws.drop_first());
        assert forall|w: Seq<char>|
            #[trigger] add_unseen(acc, ws).contains(w) <==> acc.contains(w) || ws.contains(
                w,
            ) by {
            if add_unseen(acc, ws).contains(w) {
                if acc2.contains(w) && !acc.contains(w) {
                    assert(w == ws[0]);
                    assert(ws.contains(w));
                }
                if ws.drop_first().contains(w) {
                    let j = choose|j: int|
                        0 <= j < ws.drop_first().len() && ws.drop_first()[j] == w;
                    assert(ws[j + 1] == w);
                    assert(ws.contains(w));
                }
            }
            if acc.contains(w) {
                assert(acc2.contains(w)) by {
                    let j = choose|j: int| 0 <= j < acc.len() && acc[j] == w;
                    assert(acc2[j] == w);
                }
            }
            if ws.contains(w) {
                let j = choose|j: int| 0 <= j < ws.len() && ws[j] == w;
                if j == 0 {
                    assert(acc2.contains(w)) by {
                        if !acc.contains(ws[0]) {
                            assert(acc2[acc.len() as int] == w);
                        } else {
                            assert(acc2 == acc);
                        }
                    }
                } else {
                    assert(ws.drop_first()[j - 1] == w);
                    assert(ws.drop_first().contains(w));
                }
            }
        }
    }
}

/// Language registry completeness: on success the language list is
/// exactly the first-seen deduplication of every non-reserved token of
/// every directive line — each such token appears exactly once, in
/// first-seen order, and nothing else appears.
pub proof fn lemma_registry_completeness(t: Seq<char>, c: Seq<char>)
    ensures
        spec_lang_list(t, c) matches Ok(langs) ==> {
            let toks = all_tokens(spec_split_from(t, c, 1));
            &&& langs == first_seen(toks)
            &&& distinct(langs)
            &&& (forall|w: Seq<char>| #[trigger] langs.contains(w) <==> toks.contains(w))
        },
{
    let ps = spec_split_from(t, c, 1);
    lemma_reg_fold_tokens(ps, Seq::empty());
    lemma_add_unseen_props(Seq::empty(), all_tokens(ps));
}

/// View membership correctness: a language's view body holds exactly
/// the bodies of the segments whose assignment is `None` or contains
/// that language, in segment order.
pub proof fn lemma_view_membership(
    segs: Seq<(Option<Seq<Seq<char>>>, Seq<char>)>,
    lang: Seq<char>,
)
    ensures
        view_body(segs, lang) == segs.filter(
            |s: (Option<Seq<Seq<char>>>, Seq<char>)| applies(s.0, lang),
        ).map_values(|s: (Option<Seq<Seq<char>>>, Seq<char>)| s.1),
    decreases segs.len(),
{
    reveal(Seq::filter);
    let pred = |s: (Option<Seq<Seq<char>>>, Seq<char>)| applies(s.0, lang);
    let proj = |s: (Option<Seq<Seq<char>>>, Seq<char>)| s.1;
    if segs.len() == 0 {
        assert(view_body(segs, lang) =~= segs.filter(pred).map_values(proj));
    } else {
        lemma_view_membership(segs.drop_last(), lang);
        if pred(segs.last()) {
            assert(segs.filter(pred) == segs.drop_last().filter(pred).push(segs.last()));
            assert(segs.filter(pred).map_values(proj) =~= segs.drop_last().filter(
                pred,
            ).map_values(proj).push(segs.last().1));
            assert(view_body(segs, lang) =~= segs.filter(pred).map_values(proj));
        } else {
            assert(view_body(segs, lang) =~= segs.filter(pred).map_values(proj));
        }
    }
}

proof fn lemma_directive_line_interior(tcur: Seq<char>, c: Seq<char>, j: int)
    requires
        find_directive(tcur, c) matches Some(f) && 0 <= j < f.0,
        tcur.len() > 0,
        directive_parts(tcur.subrange(0, line_len(tcur)), c) is Some,
    ensures
        tcur[j] != '\n',
{
    lemma_line_len(tcur);
    let ll = line_len(tcur);
    let l = tcur.subrange(0, ll);
    let a = line_ws_len(l);
    lemma_line_ws_len_bounds(l);
    lemma_line_ws_prefix(l, j);
    assert(tcur[j] == l[j]);
}

proof fn lemma_line_ws_prefix(l: Seq<char>, j: int)
    requires
        0 <= j < line_ws_len(l),
    ensures
        j < l.len() && is_line_ws(l[j]),
    decreases j,
{
    lemma_line_ws_len_bounds(l);
    if j > 0 {
        lemma_line_ws_prefix(l.drop_first(), j - 1);
        assert(l.drop_first()[j - 1] == l[j]);
    }
}

proof fn lemma_count_nl_line(t: Seq<char>, cur: int, le: int, nl: int)
    requires
        0 <= cur <= le <= t.len(),
        nl == first_at(t, '\n', cur),
        le == if nl < t.len() {
            nl + 1
        } else {
            t.len() as int
        },
    ensures
        count_nl(t.subrange(cur, le)) == if nl < t.len() {
            1int
        } else {
            0int
        },
{
    lemma_first_at_bounds(t, '\n', cur);
    let l = t.subrange(cur, le);
    if nl < t.len() {
        assert(l.last() == '\n');
        assert forall|j: int| 0 <= j < l.len() - 1 implies l.drop_last()[j] != '\n' by {
            assert(l.drop_last()[j] == t[cur + j]);
        }
        lemma_count_nl_bounds(l.drop_last());
    } else {
        assert forall|j: int| 0 <= j < l.len() implies l[j] != '\n' by {
            assert(l[j] == t[cur + j]);
        }
        lemma_count_nl_bounds(l);
    }
}

} // verus!
