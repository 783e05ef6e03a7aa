//! Tests for the streaming header parser and the matchers.

use mailscan::collect::AddrCollection;
use mailscan::matcher::{CaseInsensitiveMatcher, FuzzyMatcher, Matcher, SubstringMatcher};
use mailscan::parser::{process_mail_header, HeaderParseResult, MalformedFieldPolicy};

/// Runs the parser over `text`, feeding it in one piece, and returns the
/// sorted (address, name, count) lines of the report.
fn scan_all(text: &[u8]) -> Vec<(String, String, u64)> {
    let matcher = SubstringMatcher::new(String::new());
    let mut collection = AddrCollection::new();
    let mut pos: usize = 0;
    let _ = process_mail_header(text, &mut pos, &matcher, MalformedFieldPolicy::Skip, &mut collection);
    let mut lines = collection.report();
    lines.sort();
    lines
}

#[test]
fn to_field_with_folding_one_shot() {
    let text = b"To: a@x.com,\n  b@y.com\n\n";
    let matcher = SubstringMatcher::new(String::new());
    let mut collection = AddrCollection::new();
    let mut pos: usize = 0;
    let r = process_mail_header(text, &mut pos, &matcher, MalformedFieldPolicy::Skip, &mut collection);
    assert!(matches!(r, HeaderParseResult::Done));
    let mut lines = collection.report();
    lines.sort();
    assert_eq!(lines.len(), 2);
    assert_eq!(lines[0].0, "a@x.com");
    assert_eq!(lines[0].2, 1);
    assert_eq!(lines[1].0, "b@y.com");
    assert_eq!(lines[1].2, 1);
}

#[test]
fn to_field_split_at_every_boundary() {
    // Splitting the same bytes at any boundary must yield the same addresses
    // and a final `Done`.
    let text: &[u8] = b"To: a@x.com,\n  b@y.com\n\n";
    let expected = scan_all(text);
    assert_eq!(expected.len(), 2);
    for split in 0..=text.len() {
        let matcher = SubstringMatcher::new(String::new());
        let mut collection = AddrCollection::new();
        let mut pos: usize = 0;
        let first = process_mail_header(&text[..split], &mut pos, &matcher, MalformedFieldPolicy::Skip, &mut collection);
        let done = match first {
            HeaderParseResult::Done => true,
            HeaderParseResult::NeedMore => {
                let second = process_mail_header(text, &mut pos, &matcher, MalformedFieldPolicy::Skip, &mut collection);
                matches!(second, HeaderParseResult::Done)
            }
        };
        assert!(done, "split at {} did not reach Done", split);
        let mut lines = collection.report();
        lines.sort();
        assert_eq!(lines, expected, "split at {} changed the addresses", split);
    }
}

#[test]
fn unterminated_field_keeps_asking_for_more() {
    let text = b"From: someone@example.com";
    let matcher = SubstringMatcher::new(String::new());
    let mut collection = AddrCollection::new();
    let mut pos: usize = 0;
    let r = process_mail_header(text, &mut pos, &matcher, MalformedFieldPolicy::Skip, &mut collection);
    assert!(matches!(r, HeaderParseResult::NeedMore));
    assert_eq!(pos, 0);
    // feeding the same bytes again must not change anything
    let r = process_mail_header(text, &mut pos, &matcher, MalformedFieldPolicy::Skip, &mut collection);
    assert!(matches!(r, HeaderParseResult::NeedMore));
    assert_eq!(pos, 0);
    assert_eq!(collection.report().len(), 0);
}

#[test]
fn uninteresting_lines_are_skipped() {
    let text = b"Subject: hello\nX-Junk: zzz\nTo: a@b.com\n\n";
    let lines = scan_all(text);
    assert_eq!(lines.len(), 1);
    assert_eq!(lines[0].0, "a@b.com");
    assert_eq!(lines[0].2, 1);
}

#[test]
fn malformed_field_is_skipped_and_scanning_continues() {
    // The CC: value cannot be address-parsed; the From: after it must still
    // be extracted.
    let text = b"CC: <<<@@@\nFrom: good@x.com\n\n";
    let lines = scan_all(text);
    assert_eq!(lines.len(), 1);
    assert_eq!(lines[0].0, "good@x.com");
}

#[test]
fn retry_policy_waits_on_a_malformed_field() {
    // Under the retry policy the scan stops before the malformed field and
    // keeps asking for more input instead of dropping it.
    let text = b"CC: <<<@@@\nFrom: good@x.com\n\n";
    let matcher = SubstringMatcher::new(String::new());
    let mut collection = AddrCollection::new();
    let mut pos: usize = 0;
    let r = process_mail_header(text, &mut pos, &matcher, MalformedFieldPolicy::Retry, &mut collection);
    assert!(matches!(r, HeaderParseResult::NeedMore));
    assert_eq!(pos, 0);
    assert_eq!(collection.report().len(), 0);
}

#[test]
fn display_names_are_extracted() {
    let text = b"From: Alice <a@x.com>\n\n";
    let lines = scan_all(text);
    assert_eq!(lines.len(), 1);
    assert_eq!(lines[0].0, "a@x.com");
    assert_eq!(lines[0].1, "Alice");
    assert_eq!(lines[0].2, 1);
}

#[test]
fn matcher_filters_addresses() {
    let text = b"To: a@x.com, b@y.com\n\n";
    let matcher = SubstringMatcher::new(String::from("y.com"));
    let mut collection = AddrCollection::new();
    let mut pos: usize = 0;
    let r = process_mail_header(text, &mut pos, &matcher, MalformedFieldPolicy::Skip, &mut collection);
    assert!(matches!(r, HeaderParseResult::Done));
    let lines = collection.report();
    assert_eq!(lines.len(), 1);
    assert_eq!(lines[0].0, "b@y.com");
}

#[test]
fn matcher_also_consults_the_display_name() {
    let text = b"From: Carol <c@z.org>\n\n";
    let matcher = SubstringMatcher::new(String::from("Carol"));
    let mut collection = AddrCollection::new();
    let mut pos: usize = 0;
    let _ = process_mail_header(text, &mut pos, &matcher, MalformedFieldPolicy::Skip, &mut collection);
    let lines = collection.report();
    assert_eq!(lines.len(), 1);
    assert_eq!(lines[0].0, "c@z.org");
}

#[test]
fn substring_matcher_basics() {
    let m = SubstringMatcher::new(String::from("abc"));
    assert!(m.matches("xxabcxx"));
    assert!(!m.matches("xxabxcx"));
    let everything = SubstringMatcher::new(String::new());
    assert!(everything.matches(""));
    assert!(everything.matches("anything"));
}

#[test]
fn case_insensitive_matcher_lowercases_both_sides() {
    // fails if the lowercase conversion handed its input back unchanged
    let m = CaseInsensitiveMatcher::<SubstringMatcher>::new(String::from("abc"));
    assert!(m.matches("xxABCxx"));
    let m2 = CaseInsensitiveMatcher::<SubstringMatcher>::new(String::from("ABC"));
    assert!(m2.matches("xxabcxx"));
    assert!(!m2.matches("xyz"));
}

#[test]
fn fuzzy_matcher_accepts_subsequences() {
    // fails if the fuzzy wrapper answered a constant
    let m = FuzzyMatcher::new(String::from("fbr"));
    assert!(m.matches("foo bar"));
    assert!(!m.matches("zzz"));
}
