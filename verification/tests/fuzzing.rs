use webfuzzy::baseline::{conclude_baseline, prepare_url, skipped_baseline, BaselineTally, Consistency, Standing};
use webfuzzy::cli::Args;
use webfuzzy::clustering::perform_clustering;
use webfuzzy::fuzzing::{
    completion_lines, conclude_fuzzing, correlation_pairs, create_empty_result, extract_features,
    inject_payload, next_request, progress_message, requests_at_a_time, start_fuzzing, start_line, target_url, timing_reference,
    FuzzPlan, FuzzStart, FuzzTally,
};
use webfuzzy::http_client::{read_response, Elapsed, HttpRequest, HttpResponse, RequestResult};
use webfuzzy::observations::TtfbReference;

fn args(url: Option<&str>, headers: &[&str], data: Option<&str>) -> Args {
    Args {
        url: url.map(|u| u.to_string()),
        headers: headers.iter().map(|h| h.to_string()).collect(),
        data: data.map(|d| d.to_string()),
        method: "GET".to_string(),
        baseline_count: 10,
        wordlist: None,
        output: ".".to_string(),
        marker: "§".to_string(),
        threads: 1,
        timeout: 30,
        skip_baseline: false,
        verbose: false,
        max_clusters: 6,
        disable_timing: false,
    }
}

fn plan(args: &Args) -> FuzzPlan {
    let url = target_url(args).unwrap();
    match start_fuzzing(args, &url, 1) {
        FuzzStart::Go(plan) => plan,
        other => panic!("{:?}", other),
    }
}

fn request() -> HttpRequest {
    HttpRequest {
        request_id: "r".to_string(),
        method: "GET".to_string(),
        url: "u".to_string(),
        headers: vec![],
        body: None,
        timestamp: "t".to_string(),
    }
}

fn response(status: u16, body: &str, millis: u128) -> HttpResponse {
    let time = Elapsed { nanos: millis * 1_000_000 };
    read_response("r", status, &[], body.as_bytes(), time, time)
}

fn answered(status: u16, body: &str, sequence: usize, payload_byte_len: usize) -> RequestResult {
    RequestResult::of(Ok((request(), response(status, body, 7))), sequence, payload_byte_len)
}

fn failed(sequence: usize) -> RequestResult {
    RequestResult::of(Err((request(), "boom".to_string())), sequence, 1)
}

#[test]
fn fuzzing_needs_a_url() {
    assert_eq!(
        target_url(&args(None, &[], None)),
        Err("URL is required for fuzzing".to_string())
    );
    assert_eq!(target_url(&args(Some("http://h/"), &[], None)), Ok("http://h/".to_string()));
}

#[test]
fn fuzzing_needs_a_span() {
    let spanless = args(Some("http://h/§"), &["A: b"], Some("x"));
    match start_fuzzing(&spanless, "http://h/§", 3) {
        FuzzStart::Refused(why) => assert_eq!(
            why,
            "no payload span found in URL, body, or headers: wrap the original value in '§' pairs, e.g. ?id=§1§ or -H 'X-Api-Key: §key§'"
        ),
        other => panic!("{:?}", other),
    }
    for spanned in [
        args(Some("http://h/§1§"), &[], None),
        args(Some("http://h/"), &["§A§: b"], None),
        args(Some("http://h/"), &["A: §b§"], None),
        args(Some("http://h/"), &[], Some("§x§")),
    ] {
        let url = target_url(&spanned).unwrap();
        assert!(matches!(start_fuzzing(&spanned, &url, 1), FuzzStart::Go(_)));
    }
}

#[test]
fn without_payloads_there_is_nothing_to_do() {
    let spanless = args(Some("http://h/"), &[], None);
    assert!(matches!(start_fuzzing(&spanless, "http://h/", 0), FuzzStart::Nothing));
    let empty = create_empty_result();
    assert_eq!(empty.total_requests, 0);
    assert_eq!(empty.successful_requests, 0);
    assert_eq!(empty.failed_requests, 0);
    assert!(empty.status_codes.is_empty());
    assert!(empty.clustering_result.clusters.is_empty());
    assert!(empty.response_features.is_empty());
    assert!(empty.payload_length_correlation.is_none());
    assert!(empty.ttfb_baseline_ref.is_none());
}

#[test]
fn payloads_go_where_the_spans_are() {
    let plan = plan(&args(
        Some("http://h/?a=§1§&b=§2§"),
        &["X-§K§: a§b§c"],
        Some("q=§v§&r=§w§"),
    ));
    let request = inject_payload(&plan, b"'!");
    assert_eq!(request.url, "http://h/?a='!&b=2");
    assert_eq!(request.headers[0], ("X-'!".to_string(), "a'!c".to_string()));
    assert_eq!(request.body, Some(b"q='!&r=w".to_vec()));
    assert_eq!(request.payload_display, "'!");
    // ill-formed payloads reach the body byte by byte
    let request = inject_payload(&plan, &[0xff, 0]);
    assert_eq!(request.body, Some(b"q=\xff\0&r=w".to_vec()));
    assert_eq!(request.url, "http://h/?a=\u{fffd}\0&b=2");
    assert_eq!(request.payload_display, "\u{fffd}\0");
}

#[test]
fn the_original_as_payload_requests_the_baseline() {
    let args = args(Some("http://h/?a=§1§&b=§2§"), &[], None);
    assert_eq!(inject_payload(&plan(&args), b"1").url, prepare_url(&args));
}

#[test]
fn a_url_without_a_span_is_kept() {
    let plan = plan(&args(Some("http://h/§x"), &["A: §b§"], None));
    for payload in [&b"p"[..], &[0xff]] {
        assert_eq!(inject_payload(&plan, payload).url, "http://h/§x");
    }
}

#[test]
fn progress_shows_status_time_and_payload() {
    let payload = "0123456789012345678901234567890";
    assert_eq!(
        progress_message(&Some(response(200, "", 12)), "abc"),
        "200   12ms abc"
    );
    assert_eq!(
        progress_message(&Some(response(99, "", 12345)), payload),
        " 99 12345ms 012345678901234567890123456789..."
    );
    assert_eq!(progress_message(&None, payload), "012345678901234567890123456789... ERR");
}

#[test]
fn requests_are_tallied() {
    let mut tally = FuzzTally::new();
    tally.record(answered(200, "a", 0, 1));
    tally.record(failed(1));
    tally.record(answered(500, "b", 2, 1));
    tally.record(answered(200, "c", 3, 1));
    assert_eq!(tally.successful, 3);
    assert_eq!(tally.failed, 1);
    assert_eq!(tally.status_codes[&200], 2);
    assert_eq!(tally.status_codes[&500], 1);
    assert_eq!(
        completion_lines(&tally, 10, false),
        vec![
            "[+] Fuzzing complete: 3 successful, 1 failed requests (+ 10 baseline)",
            "[.] Analyzing features...",
        ]
    );
    assert_eq!(
        completion_lines(&tally, 0, true)[2],
        "[.] Timing analysis disabled - TTFB excluded from clustering"
    );
    assert_eq!(start_line(4), "Running outlier-based fuzzing with 4 payloads...");
}

#[test]
fn features_come_in_the_order_of_the_payloads() {
    let words = vec![b"w0".to_vec(), b"w1".to_vec(), vec![0xff], b"w3".to_vec()];
    let results = vec![answered(200, "three", 3, 9), failed(1), answered(404, "z\u{e9}", 2, 1)];
    let features = extract_features(&results, &words);
    assert_eq!(features.len(), 2);
    assert_eq!(features[0].status_code, 404);
    assert_eq!(features[0].payload, Some("\u{fffd}".to_string()));
    assert_eq!(features[0].response_length, 3);
    assert_eq!(features[0].content_length_minus_payload, 2);
    assert_eq!(features[1].payload, Some("w3".to_string()));
    assert_eq!(features[1].content_length_minus_payload, -4);
    assert_eq!(features[1].time_to_first_byte_ms, 7);
    assert_eq!(correlation_pairs(&results), vec![(9, 5), (1, 3)]);
}

#[test]
fn the_baseline_counts_towards_the_totals() {
    let mut own = FuzzTally::new();
    own.record(answered(200, "a", 0, 1));
    own.record(failed(1));
    own.record(answered(404, "b", 2, 1));
    let mut first = BaselineTally::new();
    first.record(request(), response(200, "x", 5), 0, 0);
    first.record(request(), response(503, "x", 6), 1, 0);
    let computed = Consistency { percent: "100.0".to_string(), standing: Standing::Above };
    let baseline = conclude_baseline(first, "50.0".to_string(), computed, &[false, false]);
    let timing = timing_reference(false, &baseline).unwrap();
    assert_eq!((timing.status, timing.count, timing.total_ms), (200, 2, 11));
    assert!(timing_reference(true, &baseline).is_none());
    assert!(timing_reference(false, &skipped_baseline()).is_none());
    let words = [b"p".to_vec(), b"q".to_vec(), b"r".to_vec()];
    let features = extract_features(&own.request_results, &words);
    assert_eq!(features.len() + own.failed, words.len());
    let clusters = perform_clustering(&features, &[None, None], 6, vec![]);
    let result = conclude_fuzzing(
        own,
        &baseline,
        features,
        clusters,
        Some("0.1234".to_string()),
        reference(),
        false,
    );
    assert_eq!(result.total_requests, 5);
    assert_eq!(result.successful_requests, 4);
    assert_eq!(result.failed_requests, 1);
    assert_eq!(result.status_codes[&200], 2);
    assert_eq!(result.status_codes[&404], 1);
    assert_eq!(result.status_codes[&503], 1);
    assert_eq!(result.clustering_result.noise_count, 2);
    assert_eq!(result.payload_length_correlation, Some("0.1234".to_string()));
    assert_eq!(result.ttfb_baseline_ref.unwrap().status, 200);
    assert_eq!(
        result.successful_requests + result.failed_requests,
        result.total_requests
    );
    // the status codes account for every answer
    assert_eq!(result.status_codes.values().sum::<usize>(), result.successful_requests);
}

fn reference() -> Option<TtfbReference> {
    Some(TtfbReference { status: 200, mean: "5.5".to_string(), sigma: "50.0".to_string() })
}

#[test]
fn one_answer_has_no_correlation() {
    let mut own = FuzzTally::new();
    own.record(answered(200, "a", 0, 1));
    own.record(failed(1));
    let features = extract_features(&own.request_results, &[b"p".to_vec(), b"q".to_vec()]);
    let clusters = perform_clustering(&features, &[None], 6, vec![]);
    let given = Some("1.0000".to_string());
    let result =
        conclude_fuzzing(own, &skipped_baseline(), features, clusters, given, reference(), true);
    assert_eq!(result.payload_length_correlation, None);
    assert!(result.ttfb_baseline_ref.is_none());
}

#[test]
fn every_word_gets_one_request_in_order() {
    let plan = plan(&args(Some("http://h/?a=§1§"), &["K: §v§"], Some("b=§w§")));
    let words = vec![b"x".to_vec(), vec![0xff], b"zz".to_vec()];
    let mut sent = 0;
    while let Some(request) = next_request(&plan, &words, sent) {
        let word = &words[sent];
        let text = String::from_utf8_lossy(word);
        assert_eq!(request.url, format!("http://h/?a={}", text));
        assert_eq!(request.headers[0], ("K".to_string(), text.to_string()));
        assert_eq!(request.body, Some([b"b=", &word[..]].concat()));
        assert_eq!(request.payload_byte_len, word.len());
        sent += 1;
    }
    assert_eq!(sent, words.len());
    assert!(next_request(&plan, &words, usize::MAX).is_none());
}

#[test]
fn at_least_one_request_is_under_way() {
    let mut some = args(None, &[], None);
    for (threads, limit) in [(0, 1), (1, 1), (2, 2), (50, 50)] {
        some.threads = threads;
        assert_eq!(requests_at_a_time(&some), limit);
    }
}
