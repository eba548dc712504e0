use polyblog::date::Stamp;
use polyblog::frontmatter::{Frontmatter, Value};

fn stamp(year: i64, month: u32, day: u32) -> Stamp {
    Stamp { year, month, day, hour: 0, minute: 0, second: 0 }
}

const MAY9: &str = "date-created:Tue, 09 May 2023 00:00:00 +0000";
const MAY9_UPD: &str = "date-updated:Tue, 09 May 2023 00:00:00 +0000";

// Text naming neither date key gets both from the fallbacks.
#[test]
fn default_dates() {
    let created = stamp(2000, 1, 2);
    let updated = stamp(2001, 3, 4);
    let fm = Frontmatter::new("title:Hello\n", created, updated).unwrap();
    match fm.lookup("date-created") {
        Some(Value::DateTime(st)) => assert_eq!(*st, created),
        _ => panic!("date-created must be a datetime"),
    }
    match fm.lookup("date-updated") {
        Some(Value::DateTime(st)) => assert_eq!(*st, updated),
        _ => panic!("date-updated must be a datetime"),
    }
}

// Setting a reserved key is a fatal error.
#[test]
fn reserved_key_rejected() {
    let err = Frontmatter::new("lang:foo", stamp(2000, 1, 1), stamp(2000, 1, 1)).unwrap_err();
    assert_eq!(err.row, 1);
    assert!(err.message.contains("is reserved"));
}

// Tag cache lines: one CSV line per tag, ending in stem, lang, title.
#[test]
fn tag_cache_lines() {
    let text = format!("tags:a b c\ntitle:Hello\n{}\n{}\n", MAY9, MAY9_UPD);
    let fm = Frontmatter::new(&text, stamp(2000, 1, 1), stamp(2000, 1, 1)).unwrap();
    let lines = fm.format_to_tag_cache("post1", "en");
    assert_eq!(lines.len(), 3);
    for line in &lines {
        assert!(line.ends_with(",post1,en,Hello"));
    }
    assert_eq!(lines[0], "a,2023-05-09 00:00:00,post1,en,Hello");
    assert_eq!(lines[1], "b,2023-05-09 00:00:00,post1,en,Hello");
    assert_eq!(lines[2], "c,2023-05-09 00:00:00,post1,en,Hello");
}

#[test]
fn series_cache_lines() {
    let text = format!("series:s1 s2\ntitle:T\n{}\n", MAY9);
    let fm = Frontmatter::new(&text, stamp(2000, 1, 1), stamp(2000, 1, 1)).unwrap();
    let lines = fm.format_to_series_cache("post2", "jp");
    assert_eq!(lines.len(), 2);
    assert_eq!(lines[0], "s1,2023-05-09 00:00:00,post2,jp,T");
    assert_eq!(lines[1], "s2,2023-05-09 00:00:00,post2,jp,T");
}

// Template substitution with the date components, stem and language.
#[test]
fn template_substitution() {
    let text = format!("{}\n", MAY9);
    let fm = Frontmatter::new(&text, stamp(2000, 1, 1), stamp(2000, 1, 1)).unwrap();
    let out = fm.format("{year}/{file_stem}-{lang}.html", "abc", "en");
    assert_eq!(out, "2023/abc-en.html");
}

#[test]
fn template_month_day_padded() {
    let text = format!("{}\n", MAY9);
    let fm = Frontmatter::new(&text, stamp(2000, 1, 1), stamp(2000, 1, 1)).unwrap();
    let out = fm.format("{year}-{month}-{day}", "abc", "en");
    assert_eq!(out, "2023-05-09");
}

#[test]
fn template_plain_keys() {
    let fm = Frontmatter::new("title:Hi\n", stamp(2000, 1, 1), stamp(2000, 1, 1)).unwrap();
    assert_eq!(fm.format("{title} and {missing}!", "s", "l"), "Hi and !");
    assert_eq!(fm.format("no placeholders", "s", "l"), "no placeholders");
}

// Two lines with the same key are a fatal duplicate-key error.
#[test]
fn duplicate_key_rejected() {
    let err =
        Frontmatter::new("title:A\ntitle:B", stamp(2000, 1, 1), stamp(2000, 1, 1)).unwrap_err();
    assert_eq!(err.row, 2);
    assert!(err.message.contains("was already defined"));
}

#[test]
fn missing_colon_rejected() {
    let err = Frontmatter::new("nocolon\n", stamp(2000, 1, 1), stamp(2000, 1, 1)).unwrap_err();
    assert_eq!(err.row, 1);
    assert_eq!(
        err.message,
        "No key found (i.e. no ':'). Correct syntax is 'key:value'"
    );
}

#[test]
fn whitespace_in_key_rejected() {
    let err = Frontmatter::new("bad key:v\n", stamp(2000, 1, 1), stamp(2000, 1, 1)).unwrap_err();
    assert_eq!(err.message, "The key cannot contain whitespaces.");
}

#[test]
fn malformed_date_rejected() {
    let err = Frontmatter::new(
        "date-created:not a date\n",
        stamp(2000, 1, 1),
        stamp(2000, 1, 1),
    )
    .unwrap_err();
    assert!(err
        .message
        .starts_with("Dates must conform to RFC 2822 dates (internet format)."));
}

#[test]
fn duplicate_tag_rejected() {
    let err =
        Frontmatter::new("tags:a a\n", stamp(2000, 1, 1), stamp(2000, 1, 1)).unwrap_err();
    assert!(err.message.contains("was already defined"));
}

#[test]
fn blacklisted_tag_rejected() {
    let err =
        Frontmatter::new("tags:a,b\n", stamp(2000, 1, 1), stamp(2000, 1, 1)).unwrap_err();
    assert!(err.message.contains("is an invalid tag"));
}

// Serialising renders dates back as RFC 2822 and round-trips through
// a second parse.
#[test]
fn serialise_round_trip() {
    let fm = Frontmatter::new(
        "title:Hello\ndate-created:Tue, 09 May 2023 06:07:08 +0000\n",
        stamp(2000, 1, 2),
        stamp(2001, 3, 4),
    )
    .unwrap();
    let text = fm.serialise();
    assert_eq!(
        text,
        "title:Hello\ndate-created:Tue, 9 May 2023 06:07:08 +0000\ndate-updated:Sun, 4 Mar 2001 00:00:00 +0000\n"
    );
    let again = Frontmatter::new(&text, stamp(1999, 1, 1), stamp(1999, 1, 1)).unwrap();
    match again.lookup("date-created") {
        Some(Value::DateTime(st)) => {
            assert_eq!(st.year, 2023);
            assert_eq!(st.month, 5);
            assert_eq!(st.day, 9);
            assert_eq!(st.hour, 6);
        },
        _ => panic!("date-created must survive the round trip"),
    }
    match again.lookup("title") {
        Some(Value::Utf8(s)) => assert_eq!(*s, "Hello"),
        _ => panic!("title must survive the round trip"),
    }
}

// A date given in another timezone is normalized to UTC.
#[test]
fn date_normalized_to_utc() {
    let fm = Frontmatter::new(
        "date-created:Tue, 09 May 2023 02:00:00 +0200\n",
        stamp(2000, 1, 1),
        stamp(2000, 1, 1),
    )
    .unwrap();
    match fm.lookup("date-created") {
        Some(Value::DateTime(st)) => {
            assert_eq!(st.hour, 0);
            assert_eq!(st.day, 9);
        },
        _ => panic!("date-created must be a datetime"),
    }
}

#[test]
fn stamp_validation() {
    assert!(Stamp::new(2023, 2, 30, 0, 0, 0).is_none());
    assert!(Stamp::new(2024, 2, 29, 23, 59, 59).is_some());
    assert!(Stamp::new(2023, 2, 29, 0, 0, 0).is_none());
    assert!(Stamp::new(10000, 1, 1, 0, 0, 0).is_none());
}
