use webfuzzy::http_client::{
    build_uri, header_map, header_value, header_warnings, outgoing_headers, prepare_request,
    read_response, request_target, settle_uri, show_value, split_url, Elapsed, HttpRequest, RequestResult,
    ResponseFeatures,
};

fn h(k: &str, v: &str) -> (String, String) {
    (k.to_string(), v.to_string())
}

#[test]
fn query_payload_bytes_pass_through() {
    let uri = build_uri("http://example.com/test?foo=bar!').drop();--").unwrap();
    assert_eq!(
        uri.to_string(),
        "http://example.com/test?foo=bar!').drop();--"
    );
}

#[test]
fn query_illegal_bytes_are_encoded() {
    // space and non-ASCII (the § marker) must be pct-encoded to keep
    // the request line legal; existing %XX is preserved verbatim
    let uri = build_uri("http://example.com/test?foo=%C2%A7bar%C2%A7 baz%41%").unwrap();
    assert_eq!(
        uri.to_string(),
        "http://example.com/test?foo=%C2%A7bar%C2%A7%20baz%41%25"
    );
}

#[test]
fn fragment_hash_in_query_is_encoded_not_dropped() {
    let uri = build_uri("http://example.com/?a=1#x").unwrap();
    assert_eq!(uri.to_string(), "http://example.com/?a=1%23x");
}

#[test]
fn path_is_preserved_raw() {
    let uri = build_uri("http://example.com/a/../../../q?x=1").unwrap();
    assert_eq!(uri.to_string(), "http://example.com/a/../../../q?x=1");
}

#[test]
fn a_url_without_a_path_gets_one() {
    assert_eq!(build_uri("http://example.com").unwrap(), "http://example.com/");
    assert_eq!(
        build_uri("https://example.com:8443/x y").unwrap(),
        "https://example.com:8443/x%20y"
    );
}

#[test]
fn a_query_needs_no_path() {
    let uri = build_uri("http://example.com?x=1").unwrap();
    assert_eq!(uri, "http://example.com/?x=1");
    assert_eq!(uri.parse::<http::Uri>().unwrap().query(), Some("x=1"));
    // payloads are encoded there, and a slash in one ends nothing
    assert_eq!(
        build_uri("http://example.com?x=a b/../c?d").unwrap(),
        "http://example.com/?x=a%20b/../c?d"
    );
    assert_eq!(build_uri("https://example.com?").unwrap(), "https://example.com/?");
}

#[test]
fn a_hash_is_dropped_only_behind_the_host() {
    assert_eq!(build_uri("http://example.com#x").unwrap(), "http://example.com/");
    assert_eq!(build_uri("http://example.com#x?y=1").unwrap(), "http://example.com/");
    assert_eq!(build_uri("http://example.com#x/y").unwrap(), "http://example.com/");
    assert_eq!(build_uri("http://example.com/#x").unwrap(), "http://example.com/%23x");
    assert_eq!(build_uri("http://example.com?y=#1").unwrap(), "http://example.com/?y=%231");
}

#[test]
fn a_url_without_a_scheme_is_refused() {
    assert_eq!(
        build_uri("example.com/x"),
        Err("Invalid URL 'example.com/x': missing scheme".to_string())
    );
}

#[test]
fn a_url_with_a_bad_authority_is_refused() {
    let error = build_uri("http://exa mple.com/").unwrap_err();
    assert!(error.starts_with("Invalid URL 'http://exa mple.com/': "));
    let parsed = url::Url::parse("http://exa mple.com");
    assert!(error.ends_with(&parsed.unwrap_err().to_string()));
}

#[test]
fn a_target_that_is_no_uri_is_refused() {
    // a host that one parser takes and the other does not
    let url = "http://a\u{e4}.example/p q";
    let error = build_uri(url).unwrap_err();
    assert!(error.starts_with("Invalid URI 'http://a\u{e4}.example/p%20q': "));
}

#[test]
fn the_two_parsers_settle_the_outcome() {
    let url = "http://h/p q";
    assert_eq!(
        settle_uri(url, Ok(()), Ok("http://h/p%20q".to_string())),
        Ok("http://h/p%20q".to_string())
    );
    assert_eq!(
        settle_uri(url, Err("bad host".to_string()), Ok(String::new())),
        Err("Invalid URL 'http://h/p q': bad host".to_string())
    );
    assert_eq!(
        settle_uri(url, Ok(()), Err("bad uri".to_string())),
        Err("Invalid URI 'http://h/p%20q': bad uri".to_string())
    );
}

#[test]
fn a_url_is_split_at_its_first_marks() {
    let parts = split_url("http://h:1/a/b?c=d?e#f").unwrap();
    assert_eq!(parts.authority, "http://h:1");
    assert_eq!(parts.path, "/a/b");
    assert_eq!(parts.query, Some("c=d?e#f".to_string()));
    assert_eq!(request_target(&parts), "http://h:1/a/b?c=d?e%23f");
    // the authority ends at a query mark as well, but not at a hash
    let parts = split_url("http://h?x=/1").unwrap();
    assert_eq!(parts.authority, "http://h");
    assert_eq!(parts.path, "/");
    assert_eq!(parts.query, Some("x=/1".to_string()));
    let parts = split_url("http://h#a?b").unwrap();
    assert_eq!(parts.authority, "http://h#a");
    assert_eq!(parts.path, "/");
    assert_eq!(parts.query, Some("b".to_string()));
    assert!(split_url("http:/h").is_none());
}

#[test]
fn later_headers_win_in_the_map() {
    let map = header_map(&[h("a", "1"), h("b", "2"), h("a", "3")]);
    assert_eq!(map.len(), 2);
    assert_eq!(header_value(&map, "a"), Some("3".to_string()));
    assert_eq!(header_value(&map, "b"), Some("2".to_string()));
    assert_eq!(header_value(&map, "A"), None);
}

#[test]
fn headers_go_out_with_an_agent() {
    let out = outgoing_headers(&[h("X-A", "v")], "1.2.3");
    assert_eq!(out, vec![h("X-A", "v"), h("User-Agent", "webfuzzy/1.2.3")]);
    let out = outgoing_headers(&[h("User-Agent", "mine")], "1.2.3");
    assert_eq!(out, vec![h("User-Agent", "mine")]);
    // the name is compared as it is written
    let out = outgoing_headers(&[h("user-agent", "mine")], "1");
    assert_eq!(out.len(), 2);
}

#[test]
fn header_values_with_control_bytes_go_out_empty() {
    let headers = [h("X-A", "a\r\nb"), h("X-B", "tab\tok é"), h("X-C", "\u{7f}")];
    let out = outgoing_headers(&headers, "0");
    assert_eq!(out[0], h("X-A", ""));
    assert_eq!(out[1], h("X-B", "tab\tok é"));
    assert_eq!(out[2], h("X-C", ""));
    assert!(out.iter().all(|(_, v)| v.bytes().all(|b| b == 9 || (b >= 32 && b != 127))));
    assert_eq!(
        header_warnings(&headers),
        vec![
            "  [WARN] header X-A fallback (invalid bytes): \"a\r\nb\" -> \"a\r\nb\"".to_string(),
            "  [WARN] header X-C fallback (invalid bytes): \"\u{7f}\" -> \"\u{7f}\"".to_string(),
        ]
    );
}

fn prepare(
    url: &str,
    method: &str,
    headers: &[(String, String)],
    body: Option<&[u8]>,
) -> Result<HttpRequest, (HttpRequest, String)> {
    let prepared = prepare_request(url, method, headers, body, false);
    assert!(prepared.warnings.is_empty());
    match prepared.error {
        None => Ok(prepared.request),
        Some(error) => Err((prepared.request, error)),
    }
}

/// The text with a `0` for each digit.
fn digits_as_zeros(t: &str) -> String {
    t.chars().map(|c| if c.is_ascii_digit() { '0' } else { c }).collect()
}

#[test]
fn a_request_is_recorded_as_it_is_sent() {
    let request = prepare(
        "http://example.com/a b",
        "POST",
        &[h("A", "1"), h("A", "2")],
        Some(&[b'x', 0xff]),
    )
    .unwrap();
    assert_eq!(request.url, "http://example.com/a%20b");
    assert_eq!(request.method, "POST");
    assert_eq!(request.headers, vec![h("A", "2")]);
    assert_eq!(request.body, Some("x\u{fffd}".to_string()));
    assert_eq!(request.request_id.len(), 36);
    let notation = digits_as_zeros(&request.timestamp);
    assert!(notation.starts_with("0000-00-00T00:00:00"));
    assert!(notation.ends_with("+00:00"));
    let fraction = &notation["0000-00-00T00:00:00".len()..notation.len() - "+00:00".len()];
    assert!(["", ".000", ".000000", ".000000000"].contains(&fraction));
    let other = prepare("http://example.com/", "GET", &[], None).unwrap();
    assert_ne!(request.request_id, other.request_id);
    assert_eq!(other.body, None);
}

#[test]
fn a_request_without_a_uri_is_not_sent() {
    let (request, error) = prepare("nowhere", "GET", &[], None).unwrap_err();
    assert_eq!(request.url, "nowhere");
    assert_eq!(error, "Invalid URL 'nowhere': missing scheme");
}

#[test]
fn a_request_with_a_bad_method_or_header_name_is_not_sent() {
    let url = "http://example.com/a b";
    let (request, error) = prepare(url, "GE T", &[h("bad name", "v")], None).unwrap_err();
    assert_eq!(request.url, "http://example.com/a%20b");
    assert_eq!(error, "invalid HTTP method");
    let (_, error) = prepare(url, "", &[], None).unwrap_err();
    assert_eq!(error, "invalid HTTP method");
    for name in ["bad name", "", "a\r\nb", "ä", "a:b", "a(b)"] {
        let (_, error) = prepare(url, "GET", &[h("ok", "v"), h(name, "v")], None).unwrap_err();
        assert_eq!(error, "invalid HTTP header name");
    }
    assert!(prepare(url, "X-1!#$%&'*+-.^_`|~", &[h("!#$%&'*+-.^_`|~09azAZ", "v")], None).is_ok());
    let longest = "a".repeat(65535);
    assert!(prepare(url, "GET", &[h(&longest, "v")], None).is_ok());
    let too_long = "a".repeat(65536);
    assert!(prepare(url, "GET", &[h(&too_long, "v")], None).is_err());
}

#[test]
fn a_refused_request_is_warned_of_once_it_has_a_uri() {
    let headers = [h("X-A", "a\r\nb"), h("bad name", "v")];
    let warnings = header_warnings(&headers);
    assert_eq!(warnings.len(), 1);
    let refused = prepare_request("http://example.com/", "GET", &headers, None, true);
    assert_eq!(refused.error, Some("invalid HTTP header name".to_string()));
    assert_eq!(refused.warnings, warnings);
    let sent = prepare_request("http://example.com/", "GET", &headers[..1], None, true);
    assert_eq!(sent.error, None);
    assert_eq!(sent.warnings, warnings);
    let quiet = prepare_request("http://example.com/", "GET", &headers, None, false);
    assert!(quiet.warnings.is_empty());
    let nowhere = prepare_request("nowhere", "GET", &headers, None, true);
    assert_eq!(nowhere.error, Some("Invalid URL 'nowhere': missing scheme".to_string()));
    assert!(nowhere.warnings.is_empty());
}

#[test]
fn what_may_be_sent_is_what_http_builds() {
    for b in 0u8..128 {
        let text = (b as char).to_string();
        let built = http::Request::builder()
            .method("GET")
            .uri("http://example.com/")
            .header(text.as_str(), "v")
            .body(());
        let prepared = prepare("http://example.com/", "GET", &[h(&text, "v")], None);
        assert_eq!(built.is_ok(), prepared.is_ok());
        if let (Err(e), Err((_, why))) = (built, prepared) {
            assert_eq!(e.to_string(), why);
        }
        let built = http::Request::builder().method(text.as_str()).body(());
        let prepared = prepare("http://example.com/", &text, &[], None);
        assert_eq!(built.is_ok(), prepared.is_ok());
    }
}

fn raw(k: &str, v: &[u8]) -> (String, Vec<u8>) {
    (k.to_string(), v.to_vec())
}

#[test]
fn header_values_are_shown_as_http_shows_them() {
    for b in 0u8..=255 {
        if let Ok(value) = http::HeaderValue::from_bytes(&[b'a', b]) {
            assert_eq!(show_value(&[b'a', b]), value.to_str().unwrap_or(""));
        }
    }
    assert_eq!(show_value(b""), "");
}

fn elapsed(millis: u128) -> Elapsed {
    Elapsed { nanos: millis * 1_000_000 + 999_999 }
}

#[test]
fn a_response_is_read_off_the_wire() {
    let response = read_response(
        "id-1",
        404,
        &[raw("content-type", b"text/html"), raw("x", b"1"), raw("x", b"2\t"), raw("y", b"\xe9")],
        b"one two\nthree\xff",
        elapsed(12),
        elapsed(34),
    );
    assert_eq!(response.request_id, "id-1");
    assert_eq!(response.status_code, 404);
    assert_eq!(response.body, "one two\nthree\u{fffd}");
    assert_eq!(response.content_length, 16);
    assert_eq!(response.response_words, 3);
    assert_eq!(response.response_lines, 2);
    assert_eq!(header_value(&response.headers, "x"), Some("2\t".to_string()));
    assert_eq!(header_value(&response.headers, "y"), Some(String::new()));
    let features = ResponseFeatures::from(&response);
    assert_eq!(features.status_code, 404);
    assert_eq!(features.content_type, "text/html");
    assert_eq!(features.response_length, 16);
    assert_eq!(features.time_to_first_byte_ms, 12);
    assert_eq!(features.response_words, 3);
    assert_eq!(features.response_lines, 2);
    assert_eq!(features.content_length_minus_payload, 0);
    assert_eq!(features.payload, None);
    let bare = read_response("id-2", 200, &[], b"", elapsed(0), elapsed(0));
    assert_eq!(ResponseFeatures::from(&bare).content_type, "");
}

#[test]
fn milliseconds_are_cut_to_64_bits() {
    let long = Elapsed { nanos: ((1u128 << 64) + 5) * 1_000_000 };
    assert_eq!(long.as_millis(), 5);
    assert_eq!(long.whole_millis(), (1u128 << 64) + 5);
}

#[test]
fn a_result_holds_an_answer_or_an_error() {
    let request = HttpRequest {
        request_id: "r".to_string(),
        method: "GET".to_string(),
        url: "u".to_string(),
        headers: vec![],
        body: None,
        timestamp: "t".to_string(),
    };
    let response = read_response("r", 200, &[], b"ok", elapsed(1), elapsed(2));
    let answered = RequestResult::of(Ok((request.clone(), response)), 3, 4);
    assert_eq!(answered.sequence, 3);
    assert_eq!(answered.payload_byte_len, 4);
    assert_eq!(answered.response.unwrap().body, "ok");
    assert_eq!(answered.error, None);
    let failed = RequestResult::of(Err((request, "timeout".to_string())), 5, 6);
    assert!(failed.response.is_none());
    assert_eq!(failed.error, Some("timeout".to_string()));
}
