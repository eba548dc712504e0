//! Extension traits: capacity-checked pushes, bool-to-option, shell quoting,
//! and the character-range utilities used for zero-copy slicing and
//! delimiter-based splitting of borrowed text.

use vstd::prelude::*;

use crate::text::first_at;

verus! {

pub trait VecExt<T>: View<V = Seq<T>> {
    /// Push that the caller has budgeted capacity for.
    fn push_and_check(&mut self, to_push: T)
        ensures
            final(self)@ == old(self)@.push(to_push),
    ;
}

impl<T> VecExt<T> for Vec<T> {
    fn push_and_check(&mut self, to_push: T) {
        self.push(to_push);
    }
}

pub trait BoolExt {
    spec fn spec_bool(&self) -> bool;

    /// `Some(item)` when the flag holds, `None` otherwise.
    fn to_some<T>(self, item: T) -> (r: Option<T>)
        ensures
            r == if self.spec_bool() {
                Some(item)
            } else {
                None::<T>
            },
    ;
}

impl BoolExt for bool {
    open spec fn spec_bool(&self) -> bool {
        *self
    }

    fn to_some<T>(self, item: T) -> (r: Option<T>) {
        if self {
            Some(item)
        } else {
            None
        }
    }
}

/// The body of `s` quoted for a POSIX shell: wrapped in single quotes,
/// with every embedded single quote turned into `'\''`.
pub open spec fn escape_seq(s: Seq<char>) -> Seq<char> {
    seq!['\''] + escape_inner(s) + seq!['\'']
}

pub open spec fn escape_inner(s: Seq<char>) -> Seq<char>
    decreases s.len(),
{
    if s.len() == 0 {
        Seq::empty()
    } else {
        escape_inner(s.drop_last()) + if s.last() == '\'' {
            seq!['\'', '\\', '\'', '\'']
        } else {
            seq![s.last()]
        }
    }
}

pub trait ShellEscape: View<V = Seq<char>> {
    /// Single-quote for a shell, escaping embedded single quotes.
    fn escape(&self) -> (r: String)
        ensures
            r@ == escape_seq(self@),
    ;
}

pub(crate) fn escape_str(substr: &str) -> (r: String)
    ensures
        r@ == escape_seq(substr@),
{
    let n = substr.unicode_len();
    let mut output = String::new();
    crate::text::push_char(&mut output, '\'');
    let mut i: usize = 0;
    while i < n
        invariant
            0 <= i <= n,
            n == substr@.len(),
            output@ == seq!['\''] + escape_inner(substr@.take(i as int)),
        decreases n - i,
    {
        let c = substr.get_char(i);
        if c == '\'' {
            crate::text::push_char(&mut output, '\'');
            crate::text::push_char(&mut output, '\\');
            crate::text::push_char(&mut output, '\'');
            crate::text::push_char(&mut output, '\'');
        } else {
            crate::text::push_char(&mut output, c);
        }
        proof {
            assert(substr@.take(i + 1 as int).drop_last() =~= substr@.take(i as int));
            assert(substr@.take(i + 1 as int).last() == c);
            if c == '\'' {
                assert(output@ =~= seq!['\''] + escape_inner(substr@.take(i + 1 as int)));
            } else {
                assert(output@ =~= seq!['\''] + escape_inner(substr@.take(i + 1 as int)));
            }
        }
        i = i + 1;
    }
    crate::text::push_char(&mut output, '\'');
    proof {
        assert(substr@.take(n as int) =~= substr@);
        assert(output@ =~= escape_seq(substr@));
    }
    output
}

impl ShellEscape for str {
    fn escape(&self) -> (r: String) {
        escape_str(self)
    }
}

impl ShellEscape for String {
    fn escape(&self) -> (r: String) {
        escape_str(self.as_str())
    }
}

/// How `RangeSplitInclusive` finds the next delimiter in a buffer.
#[derive(Clone, Copy, PartialEq, Eq, Structural)]
pub enum Delimiter {
    /// An empty delimiter just after the next newline; the newline itself
    /// stays with the content piece.
    Line,
    /// A `{...}` placeholder: from the first `{` through the first `}`
    /// after it.
    Markup,
}

/// Where `d` places the next delimiter in `t`: a half-open character
/// range `(start, end)`, `(len, len)` when no delimiter is found.
pub open spec fn delim_spec(d: Delimiter, t: Seq<char>) -> (int, int) {
    let len = t.len() as int;
    match d {
        Delimiter::Line => {
            let i = first_at(t, '\n', 0);
            if i < len {
                (i + 1, i + 1)
            } else {
                (len, len)
            }
        },
        Delimiter::Markup => {
            let i = first_at(t, '{', 0);
            if i < len {
                let j = first_at(t, '}', i);
                if j < len {
                    (i, j + 1)
                } else {
                    (len, len)
                }
            } else {
                (len, len)
            }
        },
    }
}

pub proof fn lemma_delim_spec_bounds(d: Delimiter, t: Seq<char>)
    ensures
        0 <= delim_spec(d, t).0 <= delim_spec(d, t).1 <= t.len(),
        t.len() > 0 ==> delim_spec(d, t).1 > 0,
        d == Delimiter::Markup && delim_spec(d, t).0 < delim_spec(d, t).1 ==> delim_spec(d, t).1
            - delim_spec(d, t).0 >= 2,
{
    crate::text::lemma_first_at_bounds(t, '\n', 0);
    crate::text::lemma_first_at_bounds(t, '{', 0);
    let i = first_at(t, '{', 0);
    if 0 <= i <= t.len() {
        crate::text::lemma_first_at_bounds(t, '}', i);
        if i < t.len() {
            let j = first_at(t, '}', i);
            if j < t.len() {
                assert(t[i] == '{' && t[j] == '}');
                assert(j != i);
            }
        }
    }
}

/// Finds the next delimiter of kind `d` in `buffer`, as a character range.
pub fn find_delimiter(d: Delimiter, buffer: &str) -> (r: (usize, usize))
    ensures
        (r.0 as int, r.1 as int) == delim_spec(d, buffer@),
{
    let len = buffer.unicode_len();
    proof {
        crate::text::lemma_first_at_bounds(buffer@, '\n', 0);
        crate::text::lemma_first_at_bounds(buffer@, '{', 0);
    }
    match d {
        Delimiter::Line => {
            let i = crate::text::find_char(buffer, 0, '\n');
            if i < len {
                (i + 1, i + 1)
            } else {
                (len, len)
            }
        },
        Delimiter::Markup => {
            let i = crate::text::find_char(buffer, 0, '{');
            if i < len {
                let j = crate::text::find_char(buffer, i, '}');
                proof {
                    crate::text::lemma_first_at_bounds(buffer@, '}', i as int);
                }
                if j < len {
                    (i, j + 1)
                } else {
                    (len, len)
                }
            } else {
                (len, len)
            }
        },
    }
}

/// A forward-only walk over `buffer` yielding `(content, delimiter)`
/// character ranges that index the string the walk was started from.
pub struct RangeSplitInclusive<'a> {
    pub buffer: &'a str,
    pub delimit_by: Delimiter,
    pub index: usize,
}

impl<'a> RangeSplitInclusive<'a> {
    /// The next `(content, delimiter)` pair, or `None` once the buffer
    /// is exhausted.  Content runs from the current position to the
    /// delimiter's start; the walk resumes just past the delimiter.
    pub fn next(&mut self) -> (r: Option<(core::ops::Range<usize>, core::ops::Range<usize>)>)
        requires
            old(self).index + old(self).buffer@.len() <= usize::MAX,
        ensures
            final(self).index + final(self).buffer@.len() <= old(self).index + old(
                self,
            ).buffer@.len(),
            old(self).buffer@.len() == 0 ==> r is None && *final(self) == *old(self),
            old(self).buffer@.len() > 0 ==> {
                let rel = delim_spec(old(self).delimit_by, old(self).buffer@);
                let start = old(self).index as int;
                &&& r matches Some(p)
                &&& p.0.start == start && p.0.end == start + rel.0
                &&& p.1.start == start + rel.0 && p.1.end == start + rel.1
                &&& final(self).index == start + rel.1
                &&& final(self).buffer@ == old(self).buffer@.subrange(
                    rel.1,
                    old(self).buffer@.len() as int,
                )
                &&& final(self).delimit_by == old(self).delimit_by
            },
            final(self).buffer@.len() <= old(self).buffer@.len(),
            old(self).buffer@.len() > 0 ==> final(self).buffer@.len() < old(self).buffer@.len()
                || delim_spec(old(self).delimit_by, old(self).buffer@).1 > 0,
{
    proof {
        lemma_delim_spec_bounds(self.delimit_by, self.buffer@);
    }
    let buffer_len = self.buffer.unicode_len();
    if buffer_len > 0 {
        let rel = find_delimiter(self.delimit_by, self.buffer);
        let start = self.index;
        self.index = start + rel.1;
        self.buffer = self.buffer.substring_char(rel.1, buffer_len);
        Some((start..start + rel.0, start + rel.0..start + rel.1))
    } else {
        None
    }
}
}

/// The trait behind zero-copy slicing: a character range that can cut a
/// slice out of the string it was derived from, grow, and split.
pub trait RangeExt {
    spec fn spec_start(&self) -> int;

    spec fn spec_end(&self) -> int;

    /// The slice of `original` this range covers.
    fn of<'a>(&self, original: &'a str) -> (ret: &'a str)
        requires
            0 <= self.spec_start() <= self.spec_end() <= original@.len(),
        ensures
            ret@ == original@.subrange(self.spec_start(), self.spec_end()),
    ;

    /// Grow (or move) the right edge to `till`.
    fn expand(&mut self, till: usize)
        ensures
            final(self).spec_start() == old(self).spec_start(),
            final(self).spec_end() == till as int,
    ;

    /// Walk the covered slice line by line; the newline stays with the
    /// content and the delimiter ranges are empty.
    fn split<'a>(&self, original: &'a str) -> (ret: RangeSplitInclusive<'a>)
        requires
            0 <= self.spec_start() <= self.spec_end() <= original@.len(),
        ensures
            ret.buffer@ == original@.subrange(self.spec_start(), self.spec_end()),
            ret.delimit_by == Delimiter::Line,
            ret.index == self.spec_start(),
    ;

    /// Walk the covered slice splitting on the given delimiter kind.
    fn split_over<'a>(&self, original: &'a str, delimit_by: Delimiter) -> (ret:
        RangeSplitInclusive<'a>)
        requires
            0 <= self.spec_start() <= self.spec_end() <= original@.len(),
        ensures
            ret.buffer@ == original@.subrange(self.spec_start(), self.spec_end()),
            ret.delimit_by == delimit_by,
            ret.index == self.spec_start(),
    ;
}

impl RangeExt for core::ops::Range<usize> {
    open spec fn spec_start(&self) -> int {
        self.start as int
    }

    open spec fn spec_end(&self) -> int {
        self.end as int
    }

    fn of<'a>(&self, original: &'a str) -> (ret: &'a str) {
        original.substring_char(self.start, self.end)
    }

    fn expand(&mut self, till: usize) {
        self.end = till;
    }

    fn split<'a>(&self, original: &'a str) -> (ret: RangeSplitInclusive<'a>) {
        RangeSplitInclusive {
            buffer: original.substring_char(self.start, self.end),
            delimit_by: Delimiter::Line,
            index: self.start,
        }
    }

    fn split_over<'a>(&self, original: &'a str, delimit_by: Delimiter) -> (ret:
        RangeSplitInclusive<'a>) {
        RangeSplitInclusive {
            buffer: original.substring_char(self.start, self.end),
            delimit_by,
            index: self.start,
        }
    }
}

} // verus!
