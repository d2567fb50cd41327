use webfuzzy::baseline::{
    analyze_baseline_stability, baseline_requests, conclude_baseline, conclusion_lines, plan_baseline,
    prepare_url, settle_request, skipped_baseline, start_baseline, start_line, BaselineResult, BaselineStart, BaselineTally,
    Consistency, Standing,
};
use webfuzzy::cli::Args;
use webfuzzy::http_client::{read_response, Elapsed, HttpRequest, HttpResponse};

fn args(url: Option<&str>, headers: &[&str], data: Option<&str>) -> Args {
    Args {
        url: url.map(|u| u.to_string()),
        headers: headers.iter().map(|h| h.to_string()).collect(),
        data: data.map(|d| d.to_string()),
        method: "GET".to_string(),
        baseline_count: 10,
        wordlist: None,
        output: ".".to_string(),
        marker: "§".to_string(),
        threads: 5,
        timeout: 30,
        skip_baseline: false,
        verbose: false,
        max_clusters: 6,
        disable_timing: false,
    }
}

fn h(k: &str, v: &str) -> (String, String) {
    (k.to_string(), v.to_string())
}

fn request() -> HttpRequest {
    HttpRequest {
        request_id: "r".to_string(),
        method: "GET".to_string(),
        url: "u".to_string(),
        headers: vec![],
        body: None,
        timestamp: "t".to_string(),
    }
}

fn response(status: u16, length: usize, ttfb: u128) -> HttpResponse {
    let time = Elapsed { nanos: ttfb * 1_000_000 };
    read_response("r", status, &[], &vec![b'x'; length], time, time)
}

fn consistency(percent: &str, standing: Standing) -> Consistency {
    Consistency { percent: percent.to_string(), standing }
}

/// Whether each length is more than a tenth of the mean away from it, in
/// floating point.
fn far(lengths: &[usize]) -> Vec<bool> {
    let mean = lengths.iter().sum::<usize>() as f64 / lengths.len().max(1) as f64;
    lengths.iter().map(|&l| (l as f64 - mean).abs() > mean * 0.1).collect()
}

fn run(answers: &[(u16, usize, u128)], percent: &str, computed: Consistency) -> BaselineResult {
    let mut tally = BaselineTally::new();
    for (i, &(status, length, ttfb)) in answers.iter().enumerate() {
        let message =
            settle_request(&mut tally, Ok((request(), response(status, length, ttfb))), i, 1, true);
        assert_eq!(message, None);
    }
    let far = far(&tally.response_lengths);
    conclude_baseline(tally, percent.to_string(), computed, &far)
}

/// The outliers among some lengths, given what was computed of each.
fn outliers(lengths: &[usize], computed: &[bool]) -> Vec<usize> {
    let mut tally = BaselineTally::new();
    for (i, &length) in lengths.iter().enumerate() {
        tally.record(request(), response(200, length, 1), i, 0);
    }
    let other = consistency("0.0", Standing::Below);
    conclude_baseline(tally, "100.0".to_string(), other, computed).outliers
}

#[test]
fn the_baseline_sends_the_original_values() {
    let plan = plan_baseline(&args(
        Some("http://h/?id=§1§&x=§22§"),
        &["X-§K§: §v§"],
        Some("a=§b§"),
    ));
    assert_eq!(plan.url, "http://h/?id=1&x=22");
    assert!(!plan.url.contains('§'));
    assert!(plan.headers.iter().all(|(k, v)| !k.contains('§') && !v.contains('§')));
    assert_eq!(
        plan.headers,
        vec![h("X-K", "v"), h("Content-Type", "application/x-www-form-urlencoded")]
    );
    assert_eq!(plan.body, Some(b"a=b".to_vec()));
    assert_eq!(plan.payload_byte_len, 1);
    assert_eq!(prepare_url(&args(None, &[], None)), "");
}

#[test]
fn the_original_value_is_looked_for_in_order() {
    let len = |url: &str, headers: &[&str], data: Option<&str>| {
        plan_baseline(&args(Some(url), headers, data)).payload_byte_len
    };
    assert_eq!(len("http://h/§é§", &[], Some("§abc§")), 2);
    assert_eq!(len("http://h/", &[], Some("§abc§")), 3);
    assert_eq!(len("http://h/", &["A: §four§"], None), 0);
    assert_eq!(len("http://h/", &[], None), 0);
    // a span that collapsing has put together in a header gives no length
    let mut long = args(Some("http://h/"), &["A: aababbxyzaababb"], None);
    long.marker = "ab".to_string();
    let plan = plan_baseline(&long);
    assert_eq!(plan.headers, vec![h("A", "abxyzab")]);
    assert_eq!(plan.payload_byte_len, 0);
}

#[test]
fn answers_are_recorded_and_failures_are_not() {
    let mut tally = BaselineTally::new();
    settle_request(&mut tally, Ok((request(), response(200, 5, 9))), 0, 3, false);
    let quiet = settle_request(&mut tally, Err((request(), "boom".to_string())), 1, 3, false);
    assert_eq!(quiet, None);
    let loud = settle_request(&mut tally, Err((request(), "boom".to_string())), 2, 3, true);
    assert_eq!(loud, Some("  [!] baseline request 2 failed: boom".to_string()));
    assert_eq!(tally.request_results.len(), 1);
    assert_eq!(tally.request_results[0].payload_byte_len, 3);
    assert_eq!(tally.response_lengths, vec![5]);
    assert_eq!(tally.ttfbs, vec![9]);
    assert_eq!(tally.status_codes[&200], 1);
}

#[test]
fn one_status_and_like_lengths_are_stable() {
    let same: Vec<(u16, usize, u128)> = vec![(200, 100, 10); 10];
    let result = run(&same, "100.0", consistency("100.0", Standing::Above));
    assert!(result.stable);
    assert_eq!(result.request_count, 10);
    assert_eq!(result.average_ttfb_ms, 10);
    assert_eq!(result.outliers, Vec::<usize>::new());
    assert_eq!(
        analyze_baseline_stability(&result),
        vec!["Baseline is stable: 10 requests with 100.0% status code consistency and 100.0% response length consistency."]
    );
    // the standing is decided by the lengths, not by what was computed
    let unlike: Vec<(u16, usize, u128)> = vec![(200, 50, 10), (200, 150, 10)];
    let unlike = run(&unlike, "100.0", consistency("50.0", Standing::Above));
    assert_eq!(unlike.response_length_consistency.standing, Standing::Below);
    assert!(!unlike.stable);
    assert_eq!(
        analyze_baseline_stability(&unlike)[0],
        "Response lengths are inconsistent (50.0% consistency). The endpoint may have dynamic content."
    );
    // a coefficient of variation of exactly a tenth is a close call
    let tenth: Vec<(u16, usize, u128)> = vec![(200, 90, 10), (200, 110, 10)];
    let at = run(&tenth, "100.0", consistency("90.0", Standing::At));
    assert_eq!(at.response_length_consistency.standing, Standing::At);
    assert!(!at.stable);
    assert_eq!(analyze_baseline_stability(&at), Vec::<String>::new());
    assert!(run(&tenth, "100.0", consistency("90.0", Standing::Above)).stable);
    assert!(!run(&tenth, "100.0", consistency("90.0", Standing::Below)).stable);
    let above: Vec<(u16, usize, u128)> = vec![(200, 91, 10), (200, 110, 10)];
    assert!(run(&above, "100.0", consistency("90.5", Standing::Below)).stable);
}

#[test]
fn the_share_of_the_most_common_status_decides() {
    let mut answers = vec![(200, 100, 10); 19];
    answers.push((500, 100, 10));
    // 19 of 20 are at the threshold, 20 of 21 above it
    let result = run(&answers, "95.0", consistency("100.0", Standing::Above));
    assert_eq!(result.status_code_consistency.standing, Standing::At);
    assert!(!result.stable);
    answers.push((200, 100, 10));
    let result = run(&answers, "95.2", consistency("100.0", Standing::Above));
    assert_eq!(result.status_code_consistency.standing, Standing::Above);
    assert!(result.stable);
    answers.push((404, 100, 10));
    let result = run(&answers, "90.9", consistency("100.0", Standing::Above));
    assert_eq!(result.status_code_consistency.standing, Standing::Below);
    assert_eq!(
        analyze_baseline_stability(&result),
        vec!["Status codes are inconsistent (90.9% consistency). The endpoint may be returning different responses."]
    );
}

#[test]
fn few_answers_need_no_spread() {
    let none = run(&[], "0.0", consistency("?", Standing::Above));
    assert!(!none.stable);
    assert_eq!(none.response_length_consistency.percent, "0.0");
    assert_eq!(none.response_length_consistency.standing, Standing::Below);
    assert_eq!(none.status_code_consistency.standing, Standing::Below);
    assert_eq!(none.average_ttfb_ms, 0);
    let one = run(&[(200, 7, 3)], "100.0", consistency("?", Standing::Below));
    assert!(one.stable);
    assert_eq!(one.response_length_consistency.percent, "100.0");
}

#[test]
fn lengths_far_from_the_mean_are_outliers() {
    // mean 100: more than 10 away is far
    let lengths = [90, 110, 111, 89, 100];
    let answers: Vec<(u16, usize, u128)> = lengths.iter().map(|&l| (200, l, 1)).collect();
    let result = run(&answers, "100.0", consistency("90.6", Standing::Above));
    assert_eq!(result.outliers, vec![2, 3]);
    assert_eq!(
        analyze_baseline_stability(&result)[1],
        "Detected 2 response(s) with significant length deviation from the mean."
    );
    // a tenth exactly: rounding makes every one of these far
    assert_eq!(outliers(&[30, 30, 40], &far(&[30, 30, 40])), vec![0, 1, 2]);
    // what was computed decides the first two, which are close calls, alone
    assert_eq!(outliers(&[30, 30, 40], &[false, true, false]), vec![1, 2]);
    assert_eq!(outliers(&[100, 100, 50], &[true, false, false]), vec![0, 1, 2]);
    assert_eq!(outliers(&[100, 101], &[true, true]), Vec::<usize>::new());
    assert_eq!(outliers(&[7, 7, 7], &[true, true, true]), Vec::<usize>::new());
    assert_eq!(outliers(&[0, 0], &[true, true]), Vec::<usize>::new());
    let empty: Vec<(u16, usize, u128)> = vec![(200, 0, 1); 3];
    let empty = run(&empty, "100.0", consistency("0.0", Standing::Above));
    assert_eq!(empty.outliers, Vec::<usize>::new());
    assert_eq!(empty.response_length_consistency.standing, Standing::Below);
}

#[test]
fn times_are_averaged() {
    let result = run(
        &[(200, 1, 10), (200, 1, 11), (200, 1, 2999)],
        "100.0",
        consistency("100.0", Standing::Above),
    );
    assert_eq!(result.ttfbs, vec![10, 11, 2999]);
    assert_eq!(result.average_ttfb_ms, 1006);
    assert_eq!(
        conclusion_lines(&result),
        vec!["Baseline: Endpoint appears stable", "  Average TTFB: 1.006s"]
    );
}

#[test]
fn an_unstable_baseline_says_why() {
    let result = run(
        &[(200, 1, 0), (500, 9, 0)],
        "50.0",
        consistency("20.0", Standing::Below),
    );
    assert_eq!(
        conclusion_lines(&result),
        vec![
            "Baseline: Endpoint shows instability - results may vary",
            "  Status code consistency: 50.0%",
            "  Response length consistency: 20.0%",
            "  Average TTFB: 0ns",
        ]
    );
}

#[test]
fn a_skipped_baseline_sends_nothing() {
    let mut some = args(Some("http://h/?id=§1§"), &[], None);
    some.baseline_count = 7;
    assert_eq!(baseline_requests(&some), 7);
    match start_baseline(&some) {
        BaselineStart::Go(plan) => assert_eq!(plan.url, "http://h/?id=1"),
        BaselineStart::Skipped(_) => panic!("not skipped"),
    }
    some.skip_baseline = true;
    assert_eq!(baseline_requests(&some), 0);
    match start_baseline(&some) {
        BaselineStart::Go(_) => panic!("skipped"),
        BaselineStart::Skipped(result) => {
            assert!(result.stable);
            assert_eq!(result.request_count, 0);
        }
    }
}

#[test]
fn a_skipped_baseline_counts_as_stable() {
    let result = skipped_baseline();
    assert!(result.stable);
    assert_eq!(result.request_count, 0);
    assert!(result.status_codes.is_empty());
    assert_eq!(
        analyze_baseline_stability(&result),
        vec!["No baseline requests were made (baseline skipped)."]
    );
    assert_eq!(start_line(10), "Running baseline with 10 requests...");
}
