//! Calendar timestamps for frontmatter dates: a plain component
//! representation, RFC 2822 parsing and rendering through `chrono`, and
//! the `YYYY-MM-DD HH:MM:SS` form used by the cache index lines.

use chrono::{Datelike, TimeZone, Timelike};
use vstd::prelude::*;

use crate::text::{append_dec_pad, dec_seq_pad};

verus! {

/// Is `y` a leap year in the proleptic Gregorian calendar?
pub open spec fn spec_is_leap_year(y: int) -> bool {
    (y % 4 == 0 && y % 100 != 0) || y % 400 == 0
}

/// Days in month `m` of year `y`; `m` is 1-based.
pub open spec fn spec_days_in_month(y: int, m: int) -> int {
    if m == 2 {
        if spec_is_leap_year(y) {
            29
        } else {
            28
        }
    } else if m == 4 || m == 6 || m == 9 || m == 11 {
        30
    } else {
        31
    }
}

/// A UTC timestamp held as plain calendar components.
#[derive(Clone, Copy, Debug, PartialEq, Eq, Structural)]
pub struct Stamp {
    pub year: i64,
    pub month: u32,
    pub day: u32,
    pub hour: u32,
    pub minute: u32,
    pub second: u32,
}

impl Stamp {
    /// A valid calendar date and time whose year RFC 2822 can carry.
    pub open spec fn wf(&self) -> bool {
        &&& 0 <= self.year <= 9999
        &&& 1 <= self.month <= 12
        &&& 1 <= self.day <= spec_days_in_month(self.year as int, self.month as int)
        &&& self.hour <= 23
        &&& self.minute <= 59
        &&& self.second <= 59
    }

    /// Builds a stamp after checking that the components form a valid
    /// calendar date and time.
    pub fn new(year: i64, month: u32, day: u32, hour: u32, minute: u32, second: u32) -> (r: Option<
        Stamp,
    >)
        ensures
            r matches Some(st) ==> st.wf() && st == (Stamp { year, month, day, hour, minute, second }),
            r is None ==> !(Stamp { year, month, day, hour, minute, second }).wf(),
    {
        let st = Stamp { year, month, day, hour, minute, second };
        if 0 <= year && year <= 9999 && 1 <= month && month <= 12 && 1 <= day && day
            <= days_in_month(year, month) && hour <= 23 && minute <= 59 && second <= 59 {
            Some(st)
        } else {
            None
        }
    }
}

/// Days in month `m` of year `y`.
pub fn days_in_month(y: i64, m: u32) -> (r: u32)
    ensures
        r == spec_days_in_month(y as int, m as int),
{
    if m == 2 {
        if (y % 4 == 0 && y % 100 != 0) || y % 400 == 0 {
            29
        } else {
            28
        }
    } else if m == 4 || m == 6 || m == 9 || m == 11 {
        30
    } else {
        31
    }
}

/// The UTC calendar components an RFC 2822 date string denotes, or
/// `None` where the string is not a valid RFC 2822 date.
pub uninterp spec fn rfc2822_date(s: Seq<char>) -> Option<(int, int, int, int, int, int)>;

/// The RFC 2822 rendering of the given UTC calendar components.
pub uninterp spec fn rfc2822_repr(y: int, mo: int, d: int, h: int, mi: int, s: int) -> Seq<char>;

/// The reason chrono gives when an RFC 2822 date string fails to
/// parse; it depends on the text alone.
pub uninterp spec fn rfc2822_err(s: Seq<char>) -> Seq<char>;

/// Relies on chrono's `DateTime::parse_from_rfc2822`, `with_timezone`
/// and the `Datelike`/`Timelike` accessors: the result depends on the
/// text alone, and a parsed value is a valid calendar date with month
/// 1..=12, a day valid for that month, and hour/minute/second in range.
#[verifier::external_body]
fn parse_rfc2822(s: &str) -> (r: Result<(i64, u32, u32, u32, u32, u32), String>)
    ensures
        r matches Ok(t) ==> {
            &&& rfc2822_date(s@) == Some(
                (t.0 as int, t.1 as int, t.2 as int, t.3 as int, t.4 as int, t.5 as int),
            )
            &&& 1 <= t.1 <= 12
            &&& 1 <= t.2 <= spec_days_in_month(t.0 as int, t.1 as int)
            &&& t.3 <= 23
            &&& t.4 <= 59
            &&& t.5 <= 59
        },
        r matches Err(m) ==> rfc2822_date(s@) is None && m@ == rfc2822_err(s@),
{
    match chrono::DateTime::parse_from_rfc2822(s) {
        Ok(dt) => {
            let dt = dt.with_timezone(&chrono::Utc);
            Ok((dt.year() as i64, dt.month(), dt.day(), dt.hour(), dt.minute(), dt.second()))
        },
        Err(err) => Err(err.to_string()),
    }
}

/// Relies on chrono's `TimeZone::with_ymd_and_hms` and
/// `DateTime::to_rfc2822`: the rendering depends on the components
/// alone; a well-formed stamp is a valid date with a four-digit
/// non-negative year, which `to_rfc2822` renders without panicking.
#[verifier::external_body]
pub(crate) fn render_rfc2822(st: &Stamp) -> (r: String)
    requires
        st.wf(),
    ensures
        r@ == rfc2822_repr(
            st.year as int,
            st.month as int,
            st.day as int,
            st.hour as int,
            st.minute as int,
            st.second as int,
        ),
{
    chrono::Utc.with_ymd_and_hms(st.year as i32, st.month, st.day, st.hour, st.minute, st.second)
        .unwrap()
        .to_rfc2822()
}

/// The stamp an RFC 2822 date string denotes, normalized to UTC, where
/// the string parses and its year has at most four digits.
pub open spec fn spec_stamp_of_rfc2822(s: Seq<char>) -> Option<Stamp> {
    match rfc2822_date(s) {
        Some((y, mo, d, h, mi, sec)) => if 0 <= y <= 9999 {
            Some(
                Stamp {
                    year: y as i64,
                    month: mo as u32,
                    day: d as u32,
                    hour: h as u32,
                    minute: mi as u32,
                    second: sec as u32,
                },
            )
        } else {
            None
        },
        None => None,
    }
}

/// The reason `stamp_from_rfc2822` fails with: chrono's parse error,
/// or the year not fitting in four digits.
pub open spec fn stamp_err_msg(s: Seq<char>) -> Seq<char> {
    if rfc2822_date(s) is None {
        rfc2822_err(s)
    } else {
        "the year does not fit in four digits"@
    }
}

/// Parses an RFC 2822 date string into a UTC stamp; the error carries
/// the reason the parse failed.
pub fn stamp_from_rfc2822(s: &str) -> (r: Result<Stamp, String>)
    ensures
        r matches Ok(st) ==> spec_stamp_of_rfc2822(s@) == Some(st) && st.wf(),
        r matches Err(e) ==> spec_stamp_of_rfc2822(s@) is None && e@ == stamp_err_msg(s@),
{
    match parse_rfc2822(s) {
        Ok(t) => {
            if 0 <= t.0 && t.0 <= 9999 {
                Ok(Stamp { year: t.0, month: t.1, day: t.2, hour: t.3, minute: t.4, second: t.5 })
            } else {
                Err(String::from_str("the year does not fit in four digits"))
            }
        },
        Err(e) => Err(e),
    }
}

/// The `YYYY-MM-DD HH:MM:SS` rendering of a stamp, second precision,
/// zero-padded, no timezone suffix.
pub open spec fn spec_cache_stamp(st: Stamp) -> Seq<char> {
    dec_seq_pad(st.year as int, 4) + seq!['-'] + dec_seq_pad(st.month as int, 2) + seq!['-']
        + dec_seq_pad(st.day as int, 2) + seq![' '] + dec_seq_pad(st.hour as int, 2) + seq![':']
        + dec_seq_pad(st.minute as int, 2) + seq![':'] + dec_seq_pad(st.second as int, 2)
}

/// Renders a stamp as `YYYY-MM-DD HH:MM:SS`.
pub fn cache_stamp(st: &Stamp) -> (r: String)
    requires
        st.wf(),
    ensures
        r@ == spec_cache_stamp(*st),
{
    let mut out = String::new();
    append_dec_pad(&mut out, st.year as u64, 4);
    crate::text::push_char(&mut out, '-');
    append_dec_pad(&mut out, st.month as u64, 2);
    crate::text::push_char(&mut out, '-');
    append_dec_pad(&mut out, st.day as u64, 2);
    crate::text::push_char(&mut out, ' ');
    append_dec_pad(&mut out, st.hour as u64, 2);
    crate::text::push_char(&mut out, ':');
    append_dec_pad(&mut out, st.minute as u64, 2);
    crate::text::push_char(&mut out, ':');
    append_dec_pad(&mut out, st.second as u64, 2);
    proof {
        assert(out@ =~= spec_cache_stamp(*st));
    }
    out
}

} // verus!
