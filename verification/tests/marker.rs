use webfuzzy::marker::{
    collapse_headers, collapse_spans, collapse_spans_str, find_spans, first_span_value, has_span,
    headers_have_span, inject_headers, inject_span, inject_span_str,
};

fn h(k: &str, v: &str) -> (String, String) {
    (k.to_string(), v.to_string())
}

#[test]
fn headers_have_span_any_key_or_value() {
    let m = b"\xC2\xA7";
    assert!(headers_have_span(&[h("X-§K§ey", "v")], m));
    assert!(headers_have_span(&[h("X-Key", "§v§")], m));
    assert!(!headers_have_span(&[h("X-Key", "v")], m));
    assert!(!headers_have_span(&[], m));
}

#[test]
fn inject_headers_key_and_value_independent() {
    let m = b"\xC2\xA7";
    // span in key only
    let out = inject_headers(&[h("§X§-Key", "static")], m, b"P");
    assert_eq!(out, vec![("P-Key".to_string(), "static".to_string())]);
    // span in value only
    let out = inject_headers(&[h("X-Key", "§v§al")], m, b"P");
    assert_eq!(out, vec![("X-Key".to_string(), "Pal".to_string())]);
    // spans in both key and value
    let out = inject_headers(&[h("§k§ey", "§v§")], m, b"P");
    assert_eq!(out, vec![("Pey".to_string(), "P".to_string())]);
    // no span passes through unchanged
    let out = inject_headers(&[h("X-Key", "v")], m, b"P");
    assert_eq!(out, vec![h("X-Key", "v")]);
    // multiple headers, only the spanned one changes
    let out = inject_headers(&[h("A", "1"), h("§B§", "2")], m, b"P");
    assert_eq!(out, vec![h("A", "1"), ("P".to_string(), "2".to_string())]);
}

#[test]
fn collapse_headers_removes_markers() {
    let m = b"\xC2\xA7";
    let out = collapse_headers(&[h("§X§-Key", "§orig§val")], m);
    assert_eq!(out, vec![("X-Key".to_string(), "origval".to_string())]);
    // no span -> unchanged
    let out = collapse_headers(&[h("X-Key", "v")], m);
    assert_eq!(out, vec![h("X-Key", "v")]);
}

#[test]
fn spans_run_from_marker_to_marker() {
    assert_eq!(find_spans(b"a|b|c|d|e", b"|"), vec![(1, 4), (5, 8)]);
    // a marker without a partner opens nothing
    assert_eq!(find_spans(b"|a||b", b"|"), vec![(0, 3)]);
    assert_eq!(find_spans(b"ab", b"|"), vec![]);
    assert_eq!(find_spans(b"", b"|"), vec![]);
    // longer markers, and an empty one that delimits nothing
    assert_eq!(find_spans(b"<<x<<y<<<<", b"<<"), vec![(0, 5), (6, 10)]);
    assert_eq!(find_spans(b"abc", b""), vec![]);
    assert_eq!(find_spans(b"ab", b"abcd"), vec![]);
}

#[test]
fn the_original_value_is_inside_the_first_span() {
    assert_eq!(first_span_value(b"id=|1|&x=|2|", b"|"), Some(&b"1"[..]));
    assert_eq!(first_span_value(b"id=||", b"|"), Some(&b""[..]));
    assert_eq!(first_span_value(b"id=|1", b"|"), None);
    assert!(has_span(b"|1|", b"|"));
    assert!(!has_span(b"|1", b"|"));
}

#[test]
fn the_payload_replaces_the_first_span_only() {
    assert_eq!(inject_span(b"a|b|c|d|e", b"|", b"XYZ"), b"aXYZcde".to_vec());
    assert_eq!(inject_span(b"a|b|", b"|", b""), b"a".to_vec());
    // a payload that holds markers is not looked into
    assert_eq!(inject_span(b"|b|c", b"|", b"|q|"), b"|q|c".to_vec());
    // no span: unchanged
    assert_eq!(inject_span(b"a|b", b"|", b"X"), b"a|b".to_vec());
    assert_eq!(inject_span_str("?id=§1§&y=§2§", "§", "é'"), "?id=é'&y=2");
}

#[test]
fn injecting_the_original_gives_the_baseline() {
    for template in ["?id=§1§", "§§", "a§b§c§d§", "no span", "§"] {
        let original = match first_span_value(template.as_bytes(), "§".as_bytes()) {
            Some(value) => value.to_vec(),
            None => b"anything".to_vec(),
        };
        assert_eq!(
            inject_span(template.as_bytes(), "§".as_bytes(), &original),
            collapse_spans(template.as_bytes(), "§".as_bytes())
        );
    }
}

#[test]
fn collapsing_removes_all_spans() {
    assert_eq!(collapse_spans(b"a|b|c|d|e", b"|"), b"abcde".to_vec());
    assert_eq!(collapse_spans_str("§§a§§", "§"), "a");
    let once = collapse_spans_str("x§1§y§2§z§", "§");
    assert_eq!(once, "x1y2z§");
    assert_eq!(collapse_spans_str(&once, "§"), once);
}

#[test]
fn longer_markers_may_form_new_spans() {
    let once = collapse_spans(b"aababb", b"ab");
    assert_eq!(once, b"ab".to_vec());
    // the marker in the outcome was put together by the removal of two others
    assert_eq!(collapse_spans(b"aabaabbabab", b"ab"), b"aab".to_vec());
}

#[test]
fn ill_formed_payloads_are_decoded_lossily_in_headers() {
    let out = inject_headers(&[h("§K§", "a§b§c")], "§".as_bytes(), &[0xff, b'x']);
    assert_eq!(out, vec![h("\u{fffd}x", "a\u{fffd}xc")]);
    // an ill-formed marker can still stand in no text
    assert!(!headers_have_span(&[h("abc", "def")], &[0xff]));
}

#[test]
fn a_marker_byte_inside_a_character_is_found_in_bytes() {
    // A7 is the second byte of the section sign: as bytes it delimits a span
    assert!(has_span("§§".as_bytes(), &[0xa7]));
    assert_eq!(
        collapse_headers(&[h("k", "§§")], &[0xa7]),
        vec![h("k", "\u{fffd}\u{fffd}")]
    );
}
