//! Character classification, searching and number formatting over `&str`,
//! with character (not byte) indices throughout.

use vstd::prelude::*;

verus! {

/// The Unicode `White_Space` code points, as `char::is_whitespace` reports them.
pub open spec fn is_ws_char(c: char) -> bool {
    ||| c == ' '
    ||| c == '\t'
    ||| c == '\n'
    ||| c as int == 0x0B
    ||| c as int == 0x0C
    ||| c == '\r'
    ||| c as int == 0x85
    ||| c as int == 0xA0
    ||| c as int == 0x1680
    ||| (0x2000 <= c as int && c as int <= 0x200A)
    ||| c as int == 0x2028
    ||| c as int == 0x2029
    ||| c as int == 0x202F
    ||| c as int == 0x205F
    ||| c as int == 0x3000
}

pub fn is_ws(c: char) -> (b: bool)
    ensures
        b == is_ws_char(c),
{
    let u = c as u32;
    u == 0x20 || u == 0x09 || u == 0x0A || u == 0x0B || u == 0x0C || u == 0x0D || u == 0x85
        || u == 0xA0 || u == 0x1680 || (0x2000 <= u && u <= 0x200A) || u == 0x2028 || u == 0x2029
        || u == 0x202F || u == 0x205F || u == 0x3000
}

/// Index of the first occurrence of `c` in `t` at or after `from`;
/// `t.len()` when there is none.
pub open spec fn first_at(t: Seq<char>, c: char, from: int) -> int
    decreases t.len() - from,
{
    if from < 0 {
        first_at(t, c, 0)
    } else if from >= t.len() {
        t.len() as int
    } else if t[from] == c {
        from
    } else {
        first_at(t, c, from + 1)
    }
}

pub proof fn lemma_first_at_bounds(t: Seq<char>, c: char, from: int)
    requires
        0 <= from <= t.len(),
    ensures
        from <= first_at(t, c, from) <= t.len(),
        first_at(t, c, from) < t.len() ==> t[first_at(t, c, from)] == c,
        forall|j: int| from <= j < first_at(t, c, from) ==> t[j] != c,
    decreases t.len() - from,
{
    if from < t.len() && t[from] != c {
        lemma_first_at_bounds(t, c, from + 1);
    }
}

/// First index at or after `from` where `c` occurs in `s`, or `s@.len()`.
pub fn find_char(s: &str, from: usize, c: char) -> (r: usize)
    requires
        from <= s@.len(),
    ensures
        r == first_at(s@, c, from as int),
{
    let n = s.unicode_len();
    let mut i = from;
    while i < n
        invariant
            from <= i <= n,
            n == s@.len(),
            first_at(s@, c, from as int) == first_at(s@, c, i as int),
        decreases n - i,
    {
        if s.get_char(i) == c {
            return i;
        }
        i = i + 1;
    }
    n
}

/// Does `pat` occur in `s` starting at character index `at`?
pub open spec fn matches_at(t: Seq<char>, at: int, pat: Seq<char>) -> bool {
    0 <= at && at + pat.len() <= t.len() && t.subrange(at, at + pat.len()) == pat
}

pub fn starts_with_at(s: &str, at: usize, pat: &str) -> (r: bool)
    requires
        at <= s@.len(),
    ensures
        r == matches_at(s@, at as int, pat@),
{
    let n = s.unicode_len();
    let m = pat.unicode_len();
    if m > n - at {
        assert(!matches_at(s@, at as int, pat@));
        return false;
    }
    let mut i: usize = 0;
    while i < m
        invariant
            0 <= i <= m,
            at + m <= n,
            n == s@.len(),
            m == pat@.len(),
            forall|j: int| 0 <= j < i ==> s@[at + j] == pat@[j],
        decreases m - i,
    {
        if s.get_char(at + i) != pat.get_char(i) {
            assert(s@.subrange(at as int, at + pat@.len())[i as int] != pat@[i as int]);
            return false;
        }
        i = i + 1;
    }
    assert(s@.subrange(at as int, at + pat@.len()) =~= pat@);
    true
}

/// Character-for-character equality of two string slices.
pub fn str_eq(a: &str, b: &str) -> (r: bool)
    ensures
        r == (a@ == b@),
{
    let n = a.unicode_len();
    if n != b.unicode_len() {
        return false;
    }
    let r = starts_with_at(a, 0, b);
    proof {
        assert(a@.subrange(0, b@.len() as int) =~= a@);
    }
    r
}

/// The decimal digit character for `d`.
pub open spec fn digit_char(d: int) -> char {
    if d == 0 {
        '0'
    } else if d == 1 {
        '1'
    } else if d == 2 {
        '2'
    } else if d == 3 {
        '3'
    } else if d == 4 {
        '4'
    } else if d == 5 {
        '5'
    } else if d == 6 {
        '6'
    } else if d == 7 {
        '7'
    } else if d == 8 {
        '8'
    } else {
        '9'
    }
}

/// The decimal representation of a non-negative integer, without padding.
pub open spec fn dec_seq(n: int) -> Seq<char>
    decreases n,
{
    if n < 10 {
        seq![digit_char(n)]
    } else {
        dec_seq(n / 10) + seq![digit_char(n % 10)]
    }
}

/// `dec_seq(n)` left-padded with zeros to at least `width` characters.
pub open spec fn dec_seq_pad(n: int, width: int) -> Seq<char>
    decreases width,
{
    if dec_seq(n).len() >= width {
        dec_seq(n)
    } else {
        seq!['0'] + dec_seq_pad(n, width - 1)
    }
}

fn digit_to_char(d: u64) -> (c: char)
    requires
        d < 10,
    ensures
        c == digit_char(d as int),
{
    if d == 0 {
        '0'
    } else if d == 1 {
        '1'
    } else if d == 2 {
        '2'
    } else if d == 3 {
        '3'
    } else if d == 4 {
        '4'
    } else if d == 5 {
        '5'
    } else if d == 6 {
        '6'
    } else if d == 7 {
        '7'
    } else if d == 8 {
        '8'
    } else {
        '9'
    }
}

/// Appends the decimal representation of `n` to `out`.
pub fn append_dec(out: &mut String, n: u64)
    ensures
        final(out)@ == old(out)@ + dec_seq(n as int),
    decreases n,
{
    if n < 10 {
        push_char(out, digit_to_char(n));
    } else {
        append_dec(out, n / 10);
        push_char(out, digit_to_char(n % 10));
    }
}

/// Appends the decimal representation of `n`, zero-padded to `width`.
pub fn append_dec_pad(out: &mut String, n: u64, width: u64)
    ensures
        final(out)@ == old(out)@ + dec_seq_pad(n as int, width as int),
    decreases width,
{
    let len = dec_len(n);
    if len >= width {
        append_dec(out, n);
    } else {
        push_char(out, '0');
        append_dec_pad(out, n, width - 1);
        proof {
            assert(final(out)@ =~= old(out)@ + dec_seq_pad(n as int, width as int));
        }
    }
}

proof fn lemma_dec_seq_len(n: int)
    requires
        n >= 0,
    ensures
        dec_seq(n).len() <= n + 1,
    decreases n,
{
    if n >= 10 {
        lemma_dec_seq_len(n / 10);
    }
}

/// The number of decimal digits of `n`.
fn dec_len(n: u64) -> (r: u64)
    ensures
        r == dec_seq(n as int).len(),
    decreases n,
{
    if n < 10 {
        1
    } else {
        let r = dec_len(n / 10);
        proof {
            lemma_dec_seq_len(n as int / 10);
        }
        assert(dec_seq(n as int).len() == dec_seq(n as int / 10).len() + 1);
        r + 1
    }
}

/// Relies on `String::push`: appends one character to the string.
#[verifier::external_body]
pub(crate) fn push_char(s: &mut String, c: char)
    ensures
        final(s)@ == old(s)@.push(c),
{
    s.push(c)
}

/// A run of `n` spaces.
pub open spec fn spaces(n: int) -> Seq<char> {
    Seq::new(n as nat, |i: int| ' ')
}

/// Appends `n` spaces to `out`.
pub fn append_spaces(out: &mut String, n: usize)
    ensures
        final(out)@ == old(out)@ + spaces(n as int),
{
    let mut i: usize = 0;
    while i < n
        invariant
            0 <= i <= n,
            out@ == old(out)@ + spaces(i as int),
        decreases n - i,
    {
        push_char(out, ' ');
        proof {
            assert(old(out)@ + spaces(i + 1 as int) =~= (old(out)@ + spaces(i as int)).push(' '));
        }
        i = i + 1;
    }
}

} // verus!
