use har_viewer::har::scanner::{find_entries_array, scan_entry_ranges};
use har_viewer::har::{entry_slice, progress_checkpoint, EntryRange, HarError};

#[test]
fn finds_entries_and_ranges() {
    let har = br#"{"log":{"entries":[{"id":1},{"id":2}]}}"#;
    let (start, end) = find_entries_array(har).expect("entries array");
    assert!(start < end);

    let ranges = scan_entry_ranges(har).expect("ranges");
    assert_eq!(ranges.len(), 2);
    assert_eq!(&har[ranges[0].start..ranges[0].end], br#"{"id":1}"#);
}

#[test]
fn handles_escaped_quotes_and_braces_inside_strings() {
    let har = br#"{"log":{"entries":[{"msg":"a { brace and \"quote\""},{"msg":"b"}]}}"#;
    let ranges = scan_entry_ranges(har).expect("ranges");
    assert_eq!(ranges.len(), 2);
}

#[test]
fn entries_array_position_is_exact() {
    let har = br#" { "log" : { "entries" : [ ] } } "#;
    let (start, end) = find_entries_array(har).expect("entries array");
    assert_eq!(har[start], b'[');
    assert_eq!(har[end - 1], b']');
    assert_eq!(end - start, 3);
    let ranges = scan_entry_ranges(har).expect("ranges");
    assert!(ranges.is_empty());
}

#[test]
fn other_members_are_skipped_before_log_and_entries() {
    let har = br#"{"version":"1.2","nested":{"entries":[{"x":1}]},"list":[1,[2],"]"],"n":-1.5e3,"t":true,"log":{"creator":{"name":"x"},"pages":[],"entries":[{"a":"}"} , {"b":[1,2]}]}}"#;
    let ranges = scan_entry_ranges(har).expect("ranges");
    assert_eq!(ranges.len(), 2);
    assert_eq!(&har[ranges[0].start..ranges[0].end], br#"{"a":"}"}"#);
    assert_eq!(&har[ranges[1].start..ranges[1].end], br#"{"b":[1,2]}"#);
}

#[test]
fn escaped_backslash_before_quote_ends_the_string() {
    let har = br#"{"log":{"entries":[{"p":"c:\\"},{"q":"{"}]}}"#;
    let ranges = scan_entry_ranges(har).expect("ranges");
    assert_eq!(ranges.len(), 2);
    assert_eq!(&har[ranges[0].start..ranges[0].end], br#"{"p":"c:\\"}"#);
}

#[test]
fn member_names_are_decoded_by_serde_json() {
    // `\u006c` is `l`: the member is named `log` once decoded.
    let har = br#"{"\u006cog":{"entries":[{"id":1}]}}"#;
    let ranges = scan_entry_ranges(har).expect("ranges");
    assert_eq!(ranges.len(), 1);
}

#[test]
fn invalid_escape_in_a_member_name_is_a_json_error() {
    let har = br#"{"lo\qg":{"entries":[]}}"#;
    let err = scan_entry_ranges(har).unwrap_err();
    assert!(matches!(err, HarError::Json(_)));
}

#[test]
fn missing_log_member_is_missing_entries() {
    let har = br#"{"other":1}"#;
    let err = find_entries_array(har).unwrap_err();
    assert!(matches!(err, HarError::MissingEntries));
}

#[test]
fn missing_entries_member_is_missing_entries() {
    let har = br#"{"log":{"pages":[]}}"#;
    let err = scan_entry_ranges(har).unwrap_err();
    assert!(matches!(err, HarError::MissingEntries));
}

#[test]
fn invalid_utf8_is_refused_first() {
    let har = b"{\"log\":{\"entries\":[\xff]}}";
    let err = find_entries_array(har).unwrap_err();
    assert!(matches!(err, HarError::InvalidUtf8));
}

#[test]
fn shape_errors_are_invalid_entries_shape() {
    for har in [
        &b"[1,2]"[..],
        &b""[..],
        &br#"{"log":[]}"#[..],
        &br#"{"log":{"entries":{}}}"#[..],
        &br#"{"log":{"entries":[{"a":1}"#[..],
        &br#"{"log":{"entries":[1,2]}}"#[..],
        &br#"{"log" 1}"#[..],
    ] {
        let err = scan_entry_ranges(har).unwrap_err();
        assert!(matches!(err, HarError::InvalidEntriesShape), "{:?}", err);
    }
}

#[test]
fn ranges_are_ordered_disjoint_objects() {
    let har = br#"{"log":{"entries":[{"a":{"b":{}}},{"c":"}}}"},{}]}}"#;
    let ranges = scan_entry_ranges(har).expect("ranges");
    assert_eq!(ranges.len(), 3);
    for window in ranges.windows(2) {
        assert!(window[0].end <= window[1].start);
    }
    for r in &ranges {
        assert_eq!(har[r.start], b'{');
        assert_eq!(har[r.end - 1], b'}');
        let inner = &har[r.start..r.end];
        let own = scan_entry_ranges(&[br#"{"log":{"entries":["#.as_slice(), inner, b"]}}"].concat())
            .expect("own ranges");
        assert_eq!(own.len(), 1);
        assert_eq!(own[0].end - own[0].start, inner.len());
    }
}

#[test]
fn entry_slice_checks_the_range() {
    let bytes = b"0123456789";
    assert_eq!(entry_slice(bytes, EntryRange { start: 2, end: 5 }).expect("slice"), b"234");
    assert_eq!(entry_slice(bytes, EntryRange { start: 10, end: 10 }).expect("slice"), b"");
    assert!(matches!(
        entry_slice(bytes, EntryRange { start: 5, end: 11 }),
        Err(HarError::InvalidRange)
    ));
    assert!(matches!(
        entry_slice(bytes, EntryRange { start: 6, end: 5 }),
        Err(HarError::InvalidRange)
    ));
}

#[test]
fn progress_is_reported_every_128_entries() {
    assert!(progress_checkpoint(0));
    assert!(!progress_checkpoint(1));
    assert!(!progress_checkpoint(127));
    assert!(progress_checkpoint(128));
    assert!(progress_checkpoint(256));
}

#[test]
fn ranges_are_the_array_elements() {
    let har = b"{\"log\":{\"entries\":[\n  {\"a\":\"x\"} ,\n\t{\"b\":{\"c\":[]}},{}\r\n ]}}";
    let text = std::str::from_utf8(har).expect("utf8");
    let ranges = scan_entry_ranges(har).expect("ranges");
    let elements: Vec<&str> = ranges.iter().map(|r| &text[r.start..r.end]).collect();
    assert_eq!(elements, vec!["{\"a\":\"x\"}", "{\"b\":{\"c\":[]}}", "{}"]);
    for r in &ranges {
        assert!(entry_slice(har, *r).is_ok());
    }
}
