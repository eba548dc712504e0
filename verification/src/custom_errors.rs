//! Parse errors carrying a 1-based row, the offending source context and a
//! message, rendered in the style of a compiler diagnostic (numbered
//! context lines between vertical bars, then the message).

use vstd::prelude::*;

use crate::text::{
    append_dec, append_spaces, dec_seq, find_char, first_at, lemma_first_at_bounds, push_char,
    spaces,
};

verus! {

/// Character count of the first line of `t`, including its newline.
pub open spec fn line_len(t: Seq<char>) -> int
    decreases t.len(),
{
    if t.len() == 0 {
        0
    } else if t[0] == '\n' {
        1
    } else {
        1 + line_len(t.drop_first())
    }
}

pub proof fn lemma_line_len(t: Seq<char>)
    ensures
        t.len() > 0 ==> 1 <= line_len(t) <= t.len(),
        line_len(t) == if first_at(t, '\n', 0) < t.len() {
            first_at(t, '\n', 0) + 1
        } else {
            t.len() as int
        },
    decreases t.len(),
{
    if t.len() > 0 && t[0] != '\n' {
        lemma_line_len(t.drop_first());
        assert forall|j: int| 0 <= j < t.drop_first().len() implies t.drop_first()[j] == t[j + 1] by {}
        lemma_first_at_shift(t, '\n');
    }
}

proof fn lemma_first_at_shift(t: Seq<char>, c: char)
    requires
        t.len() > 0,
        t[0] != c,
    ensures
        first_at(t, c, 0) == 1 + first_at(t.drop_first(), c, 0),
    decreases t.len(),
{
    lemma_first_at_step(t, c, 1);
}

proof fn lemma_first_at_step(t: Seq<char>, c: char, from: int)
    requires
        1 <= from <= t.len(),
    ensures
        first_at(t, c, from) == 1 + first_at(t.drop_first(), c, from - 1),
    decreases t.len() - from,
{
    if from < t.len() && t[from] != c {
        lemma_first_at_step(t, c, from + 1);
    }
}

/// The lines of `t` as `str::lines` yields them: split on `'\n'`, each
/// line's trailing `'\r'` stripped, no entry for a trailing newline.
pub open spec fn lines_of(t: Seq<char>) -> Seq<Seq<char>>
    decreases t.len(),
    via lines_of_dec
{
    if t.len() == 0 {
        Seq::empty()
    } else {
        let ll = line_len(t);
        let raw = t.subrange(0, ll);
        let no_nl = if raw.last() == '\n' {
            raw.drop_last()
        } else {
            raw
        };
        let content = if no_nl.len() > 0 && no_nl.last() == '\r' {
            no_nl.drop_last()
        } else {
            no_nl
        };
        seq![content] + lines_of(t.skip(ll))
    }
}

#[via_fn]
proof fn lines_of_dec(t: Seq<char>) {
    lemma_line_len(t);
}

pub proof fn lemma_lines_of_len(t: Seq<char>)
    ensures
        lines_of(t).len() <= t.len(),
    decreases t.len(),
{
    if t.len() > 0 {
        lemma_line_len(t);
        lemma_lines_of_len(t.skip(line_len(t)));
    }
}

/// Does `t` end in a newline?
pub open spec fn has_trailing_nl(t: Seq<char>) -> bool {
    t.len() > 0 && t.last() == '\n'
}

/// The row count a rendered diagnostic spans: the context's lines, plus
/// one for a trailing newline, plus one when the context is empty.
pub open spec fn spec_line_count(t: Seq<char>) -> int {
    lines_of(t).len() + (if has_trailing_nl(t) {
        1int
    } else {
        0int
    }) + (if t.len() == 0 {
        1int
    } else {
        0int
    })
}

/// `x` left-aligned in a field of `width` spaces.
pub open spec fn padded(x: Seq<char>, width: int) -> Seq<char> {
    x + spaces(width - x.len())
}

/// The numbered context lines: for each line, its row number padded to
/// `width`, a ` | ` separator, the line, and a newline.
pub open spec fn numbered(lines: Seq<Seq<char>>, row: int, width: int) -> Seq<char>
    decreases lines.len(),
{
    if lines.len() == 0 {
        Seq::empty()
    } else {
        numbered(lines.drop_last(), row, width) + padded(dec_seq(row + lines.len() - 1), width)
            + seq![' ', '|', ' '] + lines.last() + seq!['\n']
    }
}

/// The full rendered diagnostic for a row, context and message.
pub open spec fn spec_render(row: int, ctx: Seq<char>, msg: Seq<char>) -> Seq<char> {
    let lc = spec_line_count(ctx);
    let lastrow = dec_seq(row + lc - 1);
    let width = lastrow.len() as int;
    let ls = if ctx.len() == 0 {
        seq![Seq::<char>::empty()]
    } else {
        lines_of(ctx)
    };
    spaces(width) + seq![' ', '|', '\n'] + numbered(ls, row, width) + (if has_trailing_nl(ctx) {
        padded(lastrow, width) + seq![' ', '|', ' ', '\n']
    } else {
        Seq::empty()
    }) + spaces(width) + seq![' ', '|', '\n'] + spaces(width) + seq![' ', '=', ' '] + msg
}

/// The rendered diagnostic preceded by a `--> file:first:last` header.
pub open spec fn spec_full_render(
    filename: Seq<char>,
    row: int,
    ctx: Seq<char>,
    msg: Seq<char>,
) -> Seq<char> {
    let lc = spec_line_count(ctx);
    let lastrow = dec_seq(row + lc - 1);
    let width = lastrow.len() as int;
    spaces(width) + seq!['-', '-', '>', ' '] + filename + seq![':'] + dec_seq(row) + seq![':']
        + lastrow + seq!['\n'] + spec_render(row, ctx, msg)
}

/// Appends `to_pad` and then spaces up to a field width of `len`.
pub fn pad(buffer: &mut String, len: usize, to_pad: &str)
    requires
        to_pad@.len() <= len,
    ensures
        final(buffer)@ == old(buffer)@ + padded(to_pad@, len as int),
{
    buffer.append(to_pad);
    let w = to_pad.unicode_len();
    append_spaces(buffer, len - w);
    proof {
        assert(final(buffer)@ =~= old(buffer)@ + padded(to_pad@, len as int));
    }
}

/// A fatal parse error: the 1-based row where it starts, the source
/// lines it covers, and a message.
#[derive(Debug)]
pub struct ParseError<'a> {
    pub row: usize,
    pub context: &'a str,
    pub message: String,
}

/// A parse error together with the name of the file it came from.
#[derive(Debug)]
pub struct FullParseError<'a, 'b> {
    pub filename: &'b str,
    pub error: ParseError<'a>,
}

impl<'a> ParseError<'a> {
    /// Builds an error; rows are 1-based.
    pub fn new(row: usize, context: &'a str, message: String) -> (r: ParseError<'a>)
        requires
            row >= 1,
        ensures
            r.row == row,
            r.context@ == context@,
            r.message@ == message@,
    {
        ParseError { row, context, message }
    }

    pub fn with_filename<'b>(self, filename: &'b str) -> (r: FullParseError<'a, 'b>)
        ensures
            r.filename@ == filename@,
            r.error.row == self.row,
            r.error.context@ == self.context@,
            r.error.message@ == self.message@,
    {
        FullParseError { filename, error: self }
    }

    /// Whether the context ends in a newline, and the row count the
    /// rendered diagnostic spans.
    pub fn line_count(&self) -> (r: (bool, usize))
        requires
            self.context@.len() + 2 <= usize::MAX,
        ensures
            r.0 == has_trailing_nl(self.context@),
            r.1 == spec_line_count(self.context@),
    {
        let ctx = self.context;
        let n = ctx.unicode_len();
        let has_tnl = n > 0 && ctx.get_char(n - 1) == '\n';
        let mut count: usize = 0;
        let mut pos: usize = 0;
        proof {
            lemma_lines_of_len(ctx@);
            assert(ctx@.skip(0) =~= ctx@);
        }
        while pos < n
            invariant
                0 <= pos <= n,
                n == ctx@.len(),
                count <= pos,
                count + lines_of(ctx@.skip(pos as int)).len() == lines_of(ctx@).len(),
            decreases n - pos,
        {
            let e = find_char(ctx, pos, '\n');
            proof {
                lemma_first_at_bounds(ctx@, '\n', pos as int);
                lemma_first_at_skip(ctx@, '\n', pos as int);
                lemma_line_len(ctx@.skip(pos as int));
            }
            let next = if e < n {
                e + 1
            } else {
                n
            };
            proof {
                assert(ctx@.skip(pos as int).skip(line_len(ctx@.skip(pos as int))) =~= ctx@.skip(
                    next as int,
                ));
            }
            count = count + 1;
            pos = next;
        }
        proof {
            assert(lines_of(ctx@.skip(n as int)) =~= Seq::<Seq<char>>::empty());
        }
        let extra: usize = if n == 0 {
            1
        } else {
            0
        };
        let tnl_extra: usize = if has_tnl {
            1
        } else {
            0
        };
        (has_tnl, count + tnl_extra + extra)
    }

    /// Renders the diagnostic: numbered context lines between vertical
    /// bars, then the message.
    #[verifier::rlimit(80)]
    pub fn render(&self) -> (r: String)
        requires
            self.row >= 1,
            self.row + self.context@.len() + 2 <= usize::MAX,
        ensures
            r@ == spec_render(self.row as int, self.context@, self.message@),
    {
        let ctx = self.context;
        let n = ctx.unicode_len();
        let (has_tnl, lc) = self.line_count();
        proof {
            lemma_lines_of_len(ctx@);
        }
        let last_row: usize = self.row + lc - 1;
        let mut last_row_string = String::new();
        append_dec(&mut last_row_string, last_row as u64);
        let width = last_row_string.as_str().unicode_len();

        let mut buffer = String::new();
        append_spaces(&mut buffer, width);
        buffer.append(" |\n");
        proof {
            reveal_strlit(" |\n");
            assert(buffer@ =~= spaces(width as int) + seq![' ', '|', '\n']);
        }

        // The numbered context lines; an empty context still yields one row.
        let ghost ls: Seq<Seq<char>> = if ctx@.len() == 0 {
            seq![Seq::<char>::empty()]
        } else {
            lines_of(ctx@)
        };
        let ghost header: Seq<char> = buffer@;
        if n == 0 {
            let mut row_string = String::new();
            append_dec(&mut row_string, self.row as u64);
            proof {
                lemma_dec_seq_monotone(self.row as int, last_row as int);
            }
            pad(&mut buffer, width, row_string.as_str());
            buffer.append(" | \n");
            proof {
                reveal_strlit(" | \n");
                assert(ls.drop_last() =~= Seq::<Seq<char>>::empty());
                reveal_with_fuel(numbered, 2);
                assert(numbered(ls, self.row as int, width as int) == padded(
                    dec_seq(self.row as int),
                    width as int,
                ) + seq![' ', '|', ' '] + Seq::<char>::empty() + seq!['\n']);
                assert(buffer@ =~= header + numbered(ls, self.row as int, width as int));
            }
        } else {
            let mut pos: usize = 0;
            let mut i: usize = 0;
            proof {
                assert(ctx@.skip(0) =~= ctx@);
                assert(lines_of(ctx@).take(0) =~= Seq::<Seq<char>>::empty());
            }
            while pos < n
                invariant
                    0 <= pos <= n,
                    i <= pos,
                    n == ctx@.len(),
                    self.row + self.context@.len() + 2 <= usize::MAX,
                    self.row >= 1,
                    ctx == self.context,
                    i + lines_of(ctx@.skip(pos as int)).len() == lines_of(ctx@).len(),
                    lines_of(ctx@).take(i as int) + lines_of(ctx@.skip(pos as int)) =~= lines_of(
                        ctx@,
                    ),
                    width as int == dec_seq(self.row + spec_line_count(ctx@) - 1).len(),
                    last_row == self.row + spec_line_count(ctx@) - 1,
                    buffer@ == header + numbered(
                        lines_of(ctx@).take(i as int),
                        self.row as int,
                        width as int,
                    ),
                decreases n - pos,
            {
                let e = find_char(ctx, pos, '\n');
                proof {
                    lemma_first_at_bounds(ctx@, '\n', pos as int);
                    lemma_first_at_skip(ctx@, '\n', pos as int);
                    lemma_line_len(ctx@.skip(pos as int));
                }
                let content_end = if e > pos && ctx.get_char(e - 1) == '\r' {
                    e - 1
                } else {
                    e
                };
                let next = if e < n {
                    e + 1
                } else {
                    n
                };
                let mut row_string = String::new();
                append_dec(&mut row_string, (self.row + i) as u64);
                proof {
                    lemma_lines_of_len(ctx@);
                    lemma_dec_seq_monotone((self.row + i) as int, last_row as int);
                }
                pad(&mut buffer, width, row_string.as_str());
                buffer.append(" | ");
                buffer.append(ctx.substring_char(pos, content_end));
                push_char(&mut buffer, '\n');
                proof {
                    reveal_strlit(" | ");
                    let suffix = ctx@.skip(pos as int);
                    let ll = line_len(suffix);
                    assert(suffix.skip(ll) =~= ctx@.skip(next as int));
                    let raw = suffix.subrange(0, ll);
                    let no_nl: Seq<char> = if raw.last() == '\n' {
                        raw.drop_last()
                    } else {
                        raw
                    };
                    let content: Seq<char> = if no_nl.len() > 0 && no_nl.last() == '\r' {
                        no_nl.drop_last()
                    } else {
                        no_nl
                    };
                    assert(content =~= ctx@.subrange(pos as int, content_end as int));
                    assert(lines_of(ctx@).take(i + 1).drop_last() =~= lines_of(ctx@).take(
                        i as int,
                    ));
                    assert(lines_of(ctx@).take(i + 1).last() == lines_of(ctx@)[i as int]);
                    assert(lines_of(ctx@)[i as int] =~= content);
                    assert(buffer@ =~= header + numbered(
                        lines_of(ctx@).take(i + 1),
                        self.row as int,
                        width as int,
                    ));
                }
                i = i + 1;
                pos = next;
            }
            proof {
                assert(lines_of(ctx@.skip(n as int)) =~= Seq::<Seq<char>>::empty());
                assert(lines_of(ctx@).take(i as int) =~= lines_of(ctx@));
            }
        }

        if has_tnl {
            pad(&mut buffer, width, last_row_string.as_str());
            buffer.append(" | \n");
            proof {
                reveal_strlit(" | \n");
            }
        }
        let ghost with_tail: Seq<char> = buffer@;
        append_spaces(&mut buffer, width);
        buffer.append(" |\n");
        append_spaces(&mut buffer, width);
        buffer.append(" = ");
        buffer.append(self.message.as_str());
        proof {
            reveal_strlit(" |\n");
            reveal_strlit(" = ");
            assert(buffer@ =~= spec_render(self.row as int, self.context@, self.message@));
        }
        buffer
    }
}

impl<'a, 'b> FullParseError<'a, 'b> {
    /// Renders the `--> file:first:last` header followed by the
    /// diagnostic itself.
    pub fn render(&self) -> (r: String)
        requires
            self.error.row >= 1,
            self.error.row + self.error.context@.len() + 2 <= usize::MAX,
        ensures
            r@ == spec_full_render(
                self.filename@,
                self.error.row as int,
                self.error.context@,
                self.error.message@,
            ),
    {
        let (_, lc) = self.error.line_count();
        proof {
            lemma_lines_of_len(self.error.context@);
        }
        let last_row: usize = self.error.row + lc - 1;
        let mut last_row_string = String::new();
        append_dec(&mut last_row_string, last_row as u64);
        let width = last_row_string.as_str().unicode_len();
        let mut row_string = String::new();
        append_dec(&mut row_string, self.error.row as u64);

        let mut buffer = String::new();
        append_spaces(&mut buffer, width);
        buffer.append("--> ");
        buffer.append(self.filename);
        push_char(&mut buffer, ':');
        buffer.append(row_string.as_str());
        push_char(&mut buffer, ':');
        buffer.append(last_row_string.as_str());
        push_char(&mut buffer, '\n');
        let tail = self.error.render();
        buffer.append(tail.as_str());
        proof {
            reveal_strlit("--> ");
            assert(buffer@ =~= spec_full_render(
                self.filename@,
                self.error.row as int,
                self.error.context@,
                self.error.message@,
            ));
        }
        buffer
    }
}

pub proof fn lemma_first_at_skip(t: Seq<char>, c: char, pos: int)
    requires
        0 <= pos <= t.len(),
    ensures
        first_at(t, c, pos) == pos + first_at(t.skip(pos), c, 0),
    decreases t.len() - pos,
{
    if pos < t.len() {
        if t[pos] == c {
        } else {
            lemma_first_at_skip(t, c, pos + 1);
            assert(t.skip(pos + 1) =~= t.skip(pos).drop_first());
            lemma_first_at_shift(t.skip(pos), c);
        }
    }
}

pub proof fn lemma_dec_seq_monotone(m: int, n: int)
    requires
        0 <= m <= n,
    ensures
        dec_seq(m).len() <= dec_seq(n).len(),
    decreases n,
{
    if n >= 10 {
        if m >= 10 {
            lemma_dec_seq_monotone(m / 10, n / 10);
        } else {
            lemma_dec_seq_len_pos(n / 10);
        }
    }
}

pub proof fn lemma_dec_seq_len_pos(n: int)
    ensures
        dec_seq(n).len() >= 1,
    decreases n,
{
    if n >= 10 {
        lemma_dec_seq_len_pos(n / 10);
    }
}

} // verus!
