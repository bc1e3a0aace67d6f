//! The text utilities: word splitting, URL extraction, query decoding,
//! offsets and durations.

use chatcore::digits::{parse_u32, parse_u64, pad2, pad3, to_decimal, ParseError};
use chatcore::duration::{compact_duration, digital_duration, long_duration, partition, Duration};
use chatcore::offset::{Offset, PtDuration};
use chatcore::textfmt::{english_num, human_artists, join};
use chatcore::urls::{query_pairs, Urls};
use chatcore::words::{is_not_alphanum, str_eq, TrimmedWords, Words};

#[test]
fn test_offset() {
    assert_eq!(Offset::milliseconds(1_000), Offset::parse("1").unwrap());
    assert_eq!(Offset::milliseconds(1_000), Offset::parse("01").unwrap());
    assert_eq!(Offset::milliseconds(61_000), Offset::parse("01:01").unwrap());
    assert_eq!(Offset::milliseconds(61_123), Offset::parse("01:01.123").unwrap());
}

#[test]
fn test_trimmed_words() {
    let mut w = TrimmedWords::new("hello, do you feel alive?");
    let mut out: Vec<&str> = Vec::new();
    while let Some(word) = w.next() {
        out.push(word);
    }
    assert_eq!(out, vec!["hello", "do", "you", "feel", "alive"]);
}

#[test]
fn test_split_escape() {
    let mut w = Words::new("   foo bar   baz   ");
    let mut out: Vec<&str> = Vec::new();
    while let Some(word) = w.next() {
        out.push(word);
    }
    assert_eq!(out, vec!["foo", "bar", "baz"]);
}

#[test]
fn test_split_quoted() {
    let mut w = Words::new("   foo bar   \"baz  biz\" ");
    let mut out: Vec<&str> = Vec::new();
    while let Some(word) = w.next() {
        out.push(word);
    }
    assert_eq!(out, vec!["foo", "bar", "baz  biz"]);
}

#[test]
fn test_urls() {
    let mut u = Urls::new("here:https://google.se/test+this, and this:http://example.com");
    let mut out: Vec<&str> = Vec::new();
    while let Some(url) = u.next() {
        out.push(url);
    }
    assert_eq!(out, vec!["https://google.se/test+this", "http://example.com"]);
}

#[test]
fn urls_skips_rejected_candidates() {
    let mut u = Urls::new("http:// is no url, but https://example.com/x is");
    assert_eq!(u.next(), Some("https://example.com/x"));
    assert_eq!(u.next(), None);
}

#[test]
fn words_unclosed_quote_runs_to_end() {
    let mut w = Words::new("a \"unclosed rest");
    assert_eq!(w.next(), Some("a"));
    assert_eq!(w.next(), Some("unclosed rest"));
    assert_eq!(w.next(), None);
}

#[test]
fn words_rest_keeps_remainder() {
    let mut w = Words::new("edit hello Hello there");
    assert_eq!(w.next(), Some("edit"));
    assert_eq!(w.next(), Some("hello"));
    assert_eq!(w.rest(), " Hello there");
}

#[test]
fn query_pairs_decode() {
    let mut q = query_pairs("a=b%20c&plain&x=%2F");
    assert_eq!(q.next(), Some((b"a".to_vec(), Some(b"b c".to_vec()))));
    assert_eq!(q.next(), Some((b"plain".to_vec(), None)));
    assert_eq!(q.next(), Some((b"x".to_vec(), Some(b"/".to_vec()))));
    assert_eq!(q.next(), None);
}

#[test]
fn query_pairs_bad_escape_passes_through() {
    let mut q = query_pairs("k=%zz%4");
    assert_eq!(q.next(), Some((b"k".to_vec(), Some(b"%zz%4".to_vec()))));
    assert_eq!(q.next(), None);
}

#[test]
fn empty_inputs_yield_nothing() {
    assert_eq!(Words::new("").next(), None);
    assert_eq!(Words::new("   ").next(), None);
    assert_eq!(TrimmedWords::new("?!").next(), None);
    assert_eq!(Urls::new("no links here").next(), None);
    assert_eq!(query_pairs("").next(), None);
}

#[test]
fn query_pairs_empty_segments_still_count() {
    let mut q = query_pairs("&x");
    assert_eq!(q.next(), Some((b"".to_vec(), None)));
    assert_eq!(q.next(), Some((b"x".to_vec(), None)));
    assert_eq!(q.next(), None);
}

#[test]
fn parse_numbers() {
    assert_eq!(parse_u64("123"), Ok(123));
    assert_eq!(parse_u64(""), Err(ParseError::Empty));
    assert_eq!(parse_u64("12a"), Err(ParseError::NonDigit));
    assert_eq!(parse_u64("18446744073709551615"), Ok(u64::MAX));
    assert_eq!(parse_u64("18446744073709551616"), Err(ParseError::Overflow));
    assert_eq!(parse_u32("4294967296"), Err(ParseError::Overflow));
    assert_eq!(parse_u32("0042"), Ok(42));
}

#[test]
fn print_numbers() {
    assert_eq!(to_decimal(0), "0");
    assert_eq!(to_decimal(42), "42");
    assert_eq!(to_decimal(9876543210), "9876543210");
    assert_eq!(pad2(7), "07");
    assert_eq!(pad2(70), "70");
    assert_eq!(pad3(7), "007");
    assert_eq!(pad3(70), "070");
    assert_eq!(pad3(700), "700");
}

#[test]
fn partition_splits_seconds() {
    let p = partition(90061);
    assert_eq!(p.days, 1);
    assert_eq!(p.hours, 1);
    assert_eq!(p.minutes, 1);
    assert_eq!(p.seconds, 1);
}

#[test]
fn duration_formats() {
    let d = Duration::from_secs(3725);
    assert_eq!(compact_duration(&d), "01h 02m 05s");
    assert_eq!(long_duration(&d), "one hour, two minutes, five seconds");
    assert_eq!(digital_duration(&d), "01:02:05");
    let zero = Duration::from_secs(0);
    assert_eq!(compact_duration(&zero), "0s");
    assert_eq!(long_duration(&zero), "0 seconds");
    assert_eq!(digital_duration(&zero), "00:00");
    let secs = Duration::from_secs(59);
    assert_eq!(compact_duration(&secs), "59s");
    assert_eq!(digital_duration(&secs), "00:59");
}

#[test]
fn english_numbers() {
    assert_eq!(english_num(1), "one");
    assert_eq!(english_num(9), "nine");
    assert_eq!(english_num(12), "12");
    assert_eq!(english_num(0), "0");
}

#[test]
fn artists_use_oxford_comma() {
    assert_eq!(human_artists(&vec![]), None);
    assert_eq!(human_artists(&vec!["a".to_string()]), Some("a".to_string()));
    assert_eq!(
        human_artists(&vec!["a".to_string(), "b".to_string()]),
        Some("a, and b".to_string())
    );
    assert_eq!(
        human_artists(&vec!["a".to_string(), "b".to_string(), "c".to_string()]),
        Some("a, b, and c".to_string())
    );
}

#[test]
fn join_with_separator() {
    let parts = vec!["x".to_string(), "y".to_string(), "z".to_string()];
    assert_eq!(join(&parts, ", "), "x, y, z");
    assert_eq!(join(&vec!["x".to_string()], ", "), "x");
    assert_eq!(join(&vec![], ", "), "");
}

#[test]
fn offset_display() {
    assert_eq!(Offset::milliseconds(61_123).display_string(), "01:01.123");
    assert_eq!(Offset::milliseconds(61_000).display_string(), "01:01");
    assert_eq!(Offset::milliseconds(0).display_string(), "00:00");
    assert_eq!(Offset::milliseconds(61_123).as_milliseconds(), 61_123);
    assert_eq!(Offset::milliseconds(2_000).as_duration().as_secs(), 2);
}

#[test]
fn offset_parse_errors() {
    assert!(Offset::parse("").is_err());
    assert!(Offset::parse("1:x").is_err());
    assert!(Offset::parse("x").is_err());
}

#[test]
fn pt_duration_round_trip() {
    let d = PtDuration::parse("PT2H3M4S").unwrap();
    assert_eq!(d.as_std().as_secs(), 2 * 3600 + 3 * 60 + 4);
    assert_eq!(d.display_string(), "PT2H3M4S");
    let m = PtDuration::parse("PT5M").unwrap();
    assert_eq!(m.into_std().as_secs(), 300);
    let frac = PtDuration::parse("PT3.5S").unwrap();
    assert_eq!(frac.as_std().as_millis(), 3_005);
    assert!(PtDuration::parse("PTxS").is_err());
}

#[test]
fn alphanum_test_and_string_equality() {
    assert!(!is_not_alphanum('a'));
    assert!(!is_not_alphanum('Z'));
    assert!(!is_not_alphanum('7'));
    assert!(is_not_alphanum(','));
    assert!(str_eq("abc", "abc"));
    assert!(!str_eq("abc", "abd"));
    assert!(!str_eq("abc", "ab"));
}
