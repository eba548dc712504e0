//! Label parsing shared by the post splitter and the frontmatter
//! parser, and the helper that removes one token from a space-joined
//! list while keeping the delimiters of the remainder intact.

use vstd::prelude::*;

use crate::text::{first_at, is_ws, is_ws_char, matches_at, str_eq};
use crate::traits::{escape_seq, ShellEscape, VecExt};

verus! {

/// Characters that may not occur in a tag, series label or language
/// token: they are structurally significant to the output paths, the
/// CSV caches and the serialised frontmatter.
pub open spec fn spec_is_blacklisted(c: char) -> bool {
    c == '/' || c == '\\' || c == ',' || c == ':'
}

pub fn is_blacklisted(c: char) -> (r: bool)
    ensures
        r == spec_is_blacklisted(c),
{
    c == '/' || c == '\\' || c == ',' || c == ':'
}

/// Does the token hold any blacklisted character?
pub open spec fn spec_has_blacklisted(w: Seq<char>) -> bool {
    exists|i: int| 0 <= i < w.len() && spec_is_blacklisted(w[i])
}

pub fn has_blacklisted(s: &str) -> (r: bool)
    ensures
        r == spec_has_blacklisted(s@),
{
    let n = s.unicode_len();
    let mut i: usize = 0;
    while i < n
        invariant
            0 <= i <= n,
            n == s@.len(),
            forall|j: int| 0 <= j < i ==> !spec_is_blacklisted(s@[j]),
        decreases n - i,
    {
        if is_blacklisted(s.get_char(i)) {
            return true;
        }
        i = i + 1;
    }
    false
}

/// Index of the first whitespace character of `t` at or after `from`;
/// `t.len()` when there is none.
pub open spec fn first_ws_at(t: Seq<char>, from: int) -> int
    decreases t.len() - from,
{
    if from < 0 {
        first_ws_at(t, 0)
    } else if from >= t.len() {
        t.len() as int
    } else if is_ws_char(t[from]) {
        from
    } else {
        first_ws_at(t, from + 1)
    }
}

pub proof fn lemma_first_ws_at_bounds(t: Seq<char>, from: int)
    requires
        0 <= from <= t.len(),
    ensures
        from <= first_ws_at(t, from) <= t.len(),
        first_ws_at(t, from) < t.len() ==> is_ws_char(t[first_ws_at(t, from)]),
        forall|j: int| from <= j < first_ws_at(t, from) ==> !is_ws_char(t[j]),
    decreases t.len() - from,
{
    if from < t.len() && !is_ws_char(t[from]) {
        lemma_first_ws_at_bounds(t, from + 1);
    }
}

/// The whitespace-separated words of `t`, in order.
pub open spec fn words(t: Seq<char>) -> Seq<Seq<char>>
    decreases t.len(),
    via words_dec
{
    if t.len() == 0 {
        Seq::empty()
    } else if is_ws_char(t[0]) {
        words(t.drop_first())
    } else {
        let k = first_ws_at(t, 0);
        seq![t.subrange(0, k)] + words(t.skip(k))
    }
}

#[via_fn]
proof fn words_dec(t: Seq<char>) {
    if t.len() > 0 && !is_ws_char(t[0]) {
        lemma_first_ws_at_bounds(t, 0);
    }
}

proof fn lemma_first_ws_char(t: Seq<char>, k: int)
    requires
        0 <= k <= t.len(),
        forall|j: int| 0 <= j < k ==> !is_ws_char(t[j]),
        k < t.len() ==> is_ws_char(t[k]),
    ensures
        first_ws_at(t, 0) == k,
{
    lemma_first_ws_char_from(t, 0, k);
}

proof fn lemma_first_ws_char_from(t: Seq<char>, from: int, k: int)
    requires
        0 <= from <= k <= t.len(),
        forall|j: int| from <= j < k ==> !is_ws_char(t[j]),
        k < t.len() ==> is_ws_char(t[k]),
    ensures
        first_ws_at(t, from) == k,
    decreases k - from,
{
    if from < k {
        lemma_first_ws_char_from(t, from + 1, k);
    }
}

/// The whitespace-separated tokens of `s`, as borrowed slices.
pub fn split_ws<'a>(s: &'a str) -> (toks: Vec<&'a str>)
    ensures
        toks.deep_view() == words(s@),
{
    let n = s.unicode_len();
    let mut toks: Vec<&'a str> = Vec::new();
    let mut pos: usize = 0;
    proof {
        assert(s@.skip(0) =~= s@);
        assert(toks.deep_view() =~= Seq::<Seq<char>>::empty());
    }
    while pos < n
        invariant
            0 <= pos <= n,
            n == s@.len(),
            toks.deep_view() + words(s@.skip(pos as int)) =~= words(s@),
        decreases n - pos,
    {
        let ghost prev = toks.deep_view();
        let c = s.get_char(pos);
        if is_ws(c) {
            proof {
                assert(s@.skip(pos as int).drop_first() =~= s@.skip(pos + 1));
            }
            pos = pos + 1;
        } else {
            let mut j = pos + 1;
            while j < n && !is_ws(s.get_char(j))
                invariant
                    pos < j <= n,
                    n == s@.len(),
                    forall|x: int| pos <= x < j ==> !is_ws_char(s@[x]),
                decreases n - j,
            {
                j = j + 1;
            }
            let tok = s.substring_char(pos, j);
            toks.push(tok);
            proof {
                let suffix = s@.skip(pos as int);
                assert(!is_ws_char(suffix[0]));
                assert forall|x: int| 0 <= x < j - pos implies !is_ws_char(suffix[x]) by {
                    assert(suffix[x] == s@[pos + x]);
                }
                if j < n {
                    assert(suffix[j - pos] == s@[j as int]);
                }
                lemma_first_ws_char(suffix, j - pos);
                assert(suffix.subrange(0, j - pos) =~= s@.subrange(pos as int, j as int));
                assert(suffix.skip(j - pos) =~= s@.skip(j as int));
                assert(toks.deep_view() =~= prev + seq![tok@]);
            }
            pos = j;
        }
    }
    proof {
        assert(words(s@.skip(n as int)) =~= Seq::<Seq<char>>::empty());
        assert(toks.deep_view() =~= words(s@));
    }
    toks
}

/// Is `w` one of the sequences in `xs`?
pub fn slice_contains_str(xs: &[&str], w: &str) -> (r: bool)
    ensures
        r == xs.deep_view().contains(w@),
{
    let n = xs.len();
    let mut i: usize = 0;
    while i < n
        invariant
            0 <= i <= n,
            n == xs.len(),
            forall|j: int| 0 <= j < i ==> xs.deep_view()[j] != w@,
        decreases n - i,
    {
        if str_eq(xs[i], w) {
            assert(xs.deep_view()[i as int] == w@);
            return true;
        }
        i = i + 1;
    }
    false
}

pub fn vec_contains_str(xs: &Vec<&str>, w: &str) -> (r: bool)
    ensures
        r == xs.deep_view().contains(w@),
{
    slice_contains_str(xs.as_slice(), w)
}

/// One step of label parsing: how one word changes the running unique
/// list and this call's added list, or the message it fails with.
pub open spec fn ptp_step(
    st: (Seq<Seq<char>>, Seq<Seq<char>>),
    w: Seq<char>,
    ignore: Seq<Seq<char>>,
    fail_on_duplicates: bool,
) -> Result<(Seq<Seq<char>>, Seq<Seq<char>>), Seq<char>> {
    if ignore.contains(w) {
        Ok(st)
    } else if spec_has_blacklisted(w) {
        Err(escape_seq(w) + blacklist_msg())
    } else if !st.0.contains(w) {
        Ok((st.0.push(w), st.1.push(w)))
    } else if fail_on_duplicates {
        Err(escape_seq(w) + duplicate_msg())
    } else {
        Ok((st.0, st.1.push(w)))
    }
}

/// Label parsing over a word list, word by word from the left.
pub open spec fn ptp_fold(
    ws: Seq<Seq<char>>,
    st: (Seq<Seq<char>>, Seq<Seq<char>>),
    ignore: Seq<Seq<char>>,
    fail_on_duplicates: bool,
) -> Result<(Seq<Seq<char>>, Seq<Seq<char>>), ((Seq<Seq<char>>, Seq<Seq<char>>), Seq<char>)>
    decreases ws.len(),
{
    if ws.len() == 0 {
        Ok(st)
    } else {
        match ptp_step(st, ws[0], ignore, fail_on_duplicates) {
            Ok(st2) => ptp_fold(ws.drop_first(), st2, ignore, fail_on_duplicates),
            Err(m) => Err((st, m)),
        }
    }
}

pub open spec fn blacklist_msg() -> Seq<char> {
    " is an invalid tag. ['/', '\\\\', ',', ':'] are the blacklisted characters"@
}

pub open spec fn duplicate_msg() -> Seq<char> {
    " was already defined. Cannot have duplicates"@
}

/// Splits `line` on whitespace and folds each token not in
/// `ignore_list` into `list`, rejecting tokens holding blacklisted
/// characters and, when asked, duplicates; returns the tokens this call
/// accepted, in order and with duplicates kept.
pub fn parse_tags_and_push<'a>(
    list: &mut Vec<&'a str>,
    line: &'a str,
    ignore_list: &[&str],
    fail_on_duplicates: bool,
) -> (r: Result<Vec<&'a str>, String>)
    ensures
        ({
            let outcome = ptp_fold(
                words(line@),
                (old(list).deep_view(), Seq::empty()),
                ignore_list.deep_view(),
                fail_on_duplicates,
            );
            match r {
                Ok(added) => outcome matches Ok(st) && final(list).deep_view() == st.0
                    && added.deep_view() == st.1,
                Err(msg) => outcome matches Err(e) && final(list).deep_view() == e.0.0 && msg@
                    == e.1,
            }
        }),
{
    let toks = split_ws(line);
    let mut added: Vec<&'a str> = Vec::new();
    let mut i: usize = 0;
    let ghost w_all = words(line@);
    let ghost ig = ignore_list.deep_view();
    let ghost st0 = (old(list).deep_view(), Seq::<Seq<char>>::empty());
    proof {
        assert(added.deep_view() =~= Seq::<Seq<char>>::empty());
        assert(w_all.skip(0) =~= w_all);
    }
    while i < toks.len()
        invariant
            0 <= i <= toks.len(),
            toks.deep_view() == w_all,
            w_all == words(line@),
            st0 == (old(list).deep_view(), Seq::<Seq<char>>::empty()),
            ptp_fold(w_all, st0, ig, fail_on_duplicates) == ptp_fold(
                w_all.skip(i as int),
                (list.deep_view(), added.deep_view()),
                ig,
                fail_on_duplicates,
            ),
            ig == ignore_list.deep_view(),
        decreases toks.len() - i,
    {
        let tag = toks[i];
        let ghost st_now = (list.deep_view(), added.deep_view());
        proof {
            assert(w_all.skip(i as int)[0] == w_all[i as int]);
            assert(w_all[i as int] == tag@);
            assert(w_all.skip(i as int).drop_first() =~= w_all.skip(i + 1));
        }
        if slice_contains_str(ignore_list, tag) {
        } else if has_blacklisted(tag) {
            let mut msg = tag.escape();
            msg.append(" is an invalid tag. ['/', '\\\\', ',', ':'] are the blacklisted characters");
            proof {
                assert(ptp_step(st_now, tag@, ig, fail_on_duplicates) == Err::<
                    (Seq<Seq<char>>, Seq<Seq<char>>),
                    Seq<char>,
                >(escape_seq(tag@) + blacklist_msg()));
                assert(ptp_fold(w_all.skip(i as int), st_now, ig, fail_on_duplicates) == Err::<
                    (Seq<Seq<char>>, Seq<Seq<char>>),
                    ((Seq<Seq<char>>, Seq<Seq<char>>), Seq<char>),
                >((st_now, escape_seq(tag@) + blacklist_msg())));
                assert(msg@ == escape_seq(tag@) + blacklist_msg());
            }
            return Err(msg);
        } else if !vec_contains_str(list, tag) {
            list.push_and_check(tag);
            added.push_and_check(tag);
            proof {
                assert(list.deep_view() =~= st_now.0.push(tag@));
                assert(added.deep_view() =~= st_now.1.push(tag@));
            }
        } else if fail_on_duplicates {
            let mut msg = tag.escape();
            msg.append(" was already defined. Cannot have duplicates");
            proof {
                assert(ptp_step(st_now, tag@, ig, fail_on_duplicates) == Err::<
                    (Seq<Seq<char>>, Seq<Seq<char>>),
                    Seq<char>,
                >(escape_seq(tag@) + duplicate_msg()));
                assert(ptp_fold(w_all.skip(i as int), st_now, ig, fail_on_duplicates) == Err::<
                    (Seq<Seq<char>>, Seq<Seq<char>>),
                    ((Seq<Seq<char>>, Seq<Seq<char>>), Seq<char>),
                >((st_now, escape_seq(tag@) + duplicate_msg())));
                assert(msg@ == escape_seq(tag@) + duplicate_msg());
            }
            return Err(msg);
        } else {
            added.push_and_check(tag);
            proof {
                assert(added.deep_view() =~= st_now.1.push(tag@));
            }
        }
        i = i + 1;
    }
    proof {
        assert(w_all.skip(toks.len() as int) =~= Seq::<Seq<char>>::empty());
    }
    Ok(added)
}

/// Index of the first occurrence of `p` in `t` at or after `from`, or
/// `-1` when `p` does not occur.
pub open spec fn first_match(t: Seq<char>, p: Seq<char>, from: int) -> int
    decreases t.len() - from + 1,
{
    if from < 0 {
        first_match(t, p, 0)
    } else if from + p.len() > t.len() {
        -1
    } else if matches_at(t, from, p) {
        from
    } else {
        first_match(t, p, from + 1)
    }
}

pub proof fn lemma_first_match_bounds(t: Seq<char>, p: Seq<char>, from: int)
    requires
        0 <= from,
    ensures
        first_match(t, p, from) == -1 || (from <= first_match(t, p, from) && first_match(t, p, from)
            + p.len() <= t.len() && matches_at(t, first_match(t, p, from), p)),
        forall|j: int|
            from <= j < first_match(t, p, from) ==> !matches_at(t, j, p),
        first_match(t, p, from) == -1 ==> forall|j: int| from <= j ==> !matches_at(t, j, p),
    decreases t.len() - from + 1,
{
    if from + p.len() > t.len() {
        assert forall|j: int| from <= j implies !matches_at(t, j, p) by {}
    } else if !matches_at(t, from, p) {
        lemma_first_match_bounds(t, p, from + 1);
    }
}

/// First occurrence of `pat` in `s` as a character index, if any.
pub fn find_sub(s: &str, pat: &str) -> (r: Option<usize>)
    ensures
        r matches Some(i) ==> i == first_match(s@, pat@, 0),
        r is None ==> first_match(s@, pat@, 0) == -1,
{
    let n = s.unicode_len();
    let m = pat.unicode_len();
    if m > n {
        return None;
    }
    if m == 0 {
        proof {
            assert(s@.subrange(0, 0) =~= pat@);
        }
        return Some(0);
    }
    let mut i: usize = 0;
    while i <= n - m
        invariant
            0 <= i <= n - m + 1,
            1 <= m <= n,
            n == s@.len(),
            m == pat@.len(),
            first_match(s@, pat@, 0) == first_match(s@, pat@, i as int),
        decreases n - m - i + 1,
    {
        if crate::text::starts_with_at(s, i, pat) {
            return Some(i);
        }
        i = i + 1;
    }
    None
}

/// Where `exclude` cuts `s` around the first occurrence of `p`: the end
/// of the left half and the start of the right half.
pub open spec fn spec_exclude_cuts(t: Seq<char>, p: Seq<char>) -> (int, int) {
    let found = first_match(t, p, 0);
    let before = if found == -1 {
        0
    } else {
        found
    };
    let left_close = if t.len() > p.len() && before + p.len() == t.len() {
        before - 1
    } else {
        before
    };
    let right_start = if p.len() > 0 && before + p.len() != t.len() {
        before + p.len() + 1
    } else {
        before + p.len()
    };
    (left_close, right_start)
}

/// The inputs on which `exclude` is defined: both cut points must fall
/// inside the string, as they do whenever `p` is one of the
/// space-joined tokens of `t` or is empty.
pub open spec fn exclude_defined(t: Seq<char>, p: Seq<char>) -> bool {
    &&& 0 <= spec_exclude_cuts(t, p).0 <= t.len()
    &&& 0 <= spec_exclude_cuts(t, p).1 <= t.len()
}

/// Removes one token (and one neighbouring space delimiter) from a
/// space-joined string, returning the text on each side.
pub fn exclude<'a>(space_delimited_str: &'a str, to_skip: &'a str) -> (r: (&'a str, &'a str))
    requires
        exclude_defined(space_delimited_str@, to_skip@),
    ensures
        r.0@ == space_delimited_str@.subrange(
            0,
            spec_exclude_cuts(space_delimited_str@, to_skip@).0,
        ),
        r.1@ == space_delimited_str@.subrange(
            spec_exclude_cuts(space_delimited_str@, to_skip@).1,
            space_delimited_str@.len() as int,
        ),
{
    let len = space_delimited_str.unicode_len();
    let skip_len = to_skip.unicode_len();
    proof {
        lemma_first_match_bounds(space_delimited_str@, to_skip@, 0);
    }
    let before_skip = match find_sub(space_delimited_str, to_skip) {
        Some(i) => i,
        None => 0,
    };
    let left_close = if len > skip_len && before_skip + skip_len == len {
        before_skip - 1
    } else {
        before_skip
    };
    let right_start = if skip_len > 0 && before_skip + skip_len != len {
        before_skip + skip_len + 1
    } else {
        before_skip + skip_len
    };
    let left = space_delimited_str.substring_char(0, left_close);
    let right = space_delimited_str.substring_char(right_start, len);
    (left, right)
}

} // verus!
