use webfuzzy::baseline::skipped_baseline;
use webfuzzy::clustering::perform_clustering;
use webfuzzy::fuzzing::{create_empty_result, FuzzingResult};
use webfuzzy::http_client::{read_response, Elapsed, ResponseFeatures};
use webfuzzy::observations::{analyze_clusters, TtfbReference};
use webfuzzy::reporting::{
    banner_lines, baseline_summary_lines, fuzzing_summary_lines,
    outlier_detail_lines, probe_lines, rule, summary_lines, StatusShare,
};
use webfuzzy::status::distribution;

fn feature(status: u16, length: usize, payload: Option<&str>) -> ResponseFeatures {
    ResponseFeatures {
        status_code: status,
        content_type: String::new(),
        response_length: length,
        time_to_first_byte_ms: length as u64 / 10,
        response_words: 1,
        response_lines: 1,
        content_length_minus_payload: 0,
        payload: payload.map(|p| p.to_string()),
    }
}

fn shares(result: &FuzzingResult) -> Vec<StatusShare> {
    distribution(&result.status_codes)
        .into_iter()
        .map(|(code, count)| StatusShare {
            code,
            count,
            percent: format!("{:.1}", count as f64 / result.total_requests as f64 * 100.0),
        })
        .collect()
}

fn fuzzed() -> FuzzingResult {
    let features = vec![
        feature(200, 100, Some("a")),
        feature(200, 200, None),
        feature(404, 50, Some("far")),
        feature(200, 33, None),
    ];
    let labels = [Some(0), Some(0), None, None];
    let mut result = create_empty_result();
    result.clustering_result = perform_clustering(&features, &labels, 6, vec![]);
    result.response_features = features;
    result.total_requests = 5;
    result.successful_requests = 4;
    result.failed_requests = 1;
    result.status_codes.insert(200, 3);
    result.status_codes.insert(404, 1);
    result
}

#[test]
fn clusters_are_described_line_by_line() {
    let mut result = fuzzed();
    result.clustering_result.reflection = vec![(404, "0.91".to_string())];
    let reference = Some(TtfbReference {
        status: 200,
        mean: "12.5".to_string(),
        sigma: "50.0".to_string(),
    });
    assert_eq!(
        analyze_clusters(&result.clustering_result, &reference),
        vec![
            "TTFB scaled against baseline jitter (mean 12.5 ms, std 50.0 ms).",
            "Reflection detected on status 404 (r = 0.91)",
            "Found 1 distinct response clusters.",
            "Cluster 0: 2 responses (status: 200)",
            "    length: mean 150, min 100, max 200 bytes",
            "    ttfb:   mean 15, min 10, max 20 ms",
            "    Sample payload: 'a'",
            "Found 2 outlier(s) that don't fit any cluster.",
        ]
    );
}

#[test]
fn a_single_cluster_without_outliers_is_consistent() {
    let features = vec![feature(200, 1, None), feature(200, 1, None)];
    let result = perform_clustering(&features, &[Some(0), Some(0)], 6, vec![]);
    assert_eq!(
        analyze_clusters(&result, &None),
        vec!["All responses belong to a single cluster - responses are consistent."]
    );
    let none = perform_clustering(&[], &[], 6, vec![]);
    assert_eq!(analyze_clusters(&none, &None), vec!["Found 0 distinct response clusters."]);
}

#[test]
fn a_run_is_summarised() {
    let result = fuzzed();
    let lines = fuzzing_summary_lines(&result, &shares(&result));
    assert_eq!(
        lines,
        vec![
            "",
            "[+] OUTLIER-BASED FUZZING",
            "  Total requests: 5",
            "  Successful: 4",
            "  Failed: 1",
            "  Payload-response correlation: N/A",
            "",
            "  Status code distribution:",
            "    200: 3 (60.0%)",
            "    404: 1 (20.0%)",
            "",
            "  Found 1 distinct response clusters.",
            "  Cluster 0: 2 responses (status: 200)",
            "      length: mean 150, min 100, max 200 bytes",
            "      ttfb:   mean 15, min 10, max 20 ms",
            "      Sample payload: 'a'",
            "  Found 2 outlier(s) that don't fit any cluster.",
            "",
            "  Outlier payloads (2 of 2):",
            "    'far'",
            "    ''",
        ]
    );
    let mut correlated = fuzzed();
    correlated.payload_length_correlation = Some("0.5000".to_string());
    let lines = fuzzing_summary_lines(&correlated, &shares(&correlated));
    assert_eq!(lines[5], "  Payload-response correlation: 0.5000");
}

#[test]
fn at_most_ten_outliers_are_listed() {
    let features: Vec<ResponseFeatures> =
        (0..12).map(|i| feature(200, i, Some(&"p".repeat(60 + i)))).collect();
    let mut result = create_empty_result();
    result.clustering_result = perform_clustering(&features, &[None; 12], 6, vec![]);
    result.response_features = features;
    result.total_requests = 12;
    let lines = fuzzing_summary_lines(&result, &[]);
    assert!(lines.contains(&"  Outlier payloads (10 of 12):".to_string()));
    let listed: Vec<&String> = lines.iter().filter(|l| l.starts_with("    'p")).collect();
    assert_eq!(listed.len(), 10);
    assert_eq!(outlier_detail_lines(&result).len(), 3 + 4 * 12);
    // a payload of 71 bytes is cut
    result.clustering_result.outliers = vec![11, 99];
    let lines = fuzzing_summary_lines(&result, &[]);
    assert_eq!(*lines.last().unwrap(), format!("    '{}...'", "p".repeat(70)));
}

#[test]
fn outliers_are_detailed() {
    let result = fuzzed();
    assert_eq!(
        outlier_detail_lines(&result),
        vec![
            "",
            "[+] OUTLIER DETAILS",
            "-------------------",
            "  Sequence 2 (payload: 'far')",
            "    Status: 404",
            "    Length: 50 bytes",
            "    TTFB: 5ms",
            "  Sequence 3 (payload: '')",
            "    Status: 200",
            "    Length: 33 bytes",
            "    TTFB: 3ms",
        ]
    );
    assert_eq!(outlier_detail_lines(&create_empty_result()), Vec::<String>::new());
}

#[test]
fn skipped_stages_are_said_to_be_skipped() {
    assert_eq!(
        baseline_summary_lines(&skipped_baseline()),
        vec!["", "[+] BASELINE ANALYSIS", "  Skipped"]
    );
    assert_eq!(
        summary_lines(&skipped_baseline(), &create_empty_result(), &[]),
        vec![
            "",
            "[+] WEBFUZZY RESULTS",
            "",
            "[+] BASELINE ANALYSIS",
            "  Skipped",
            "",
            "[+] OUTLIER-BASED FUZZING",
            "  Skipped",
            "",
        ]
    );
}

#[test]
fn a_baseline_is_summarised() {
    let mut baseline = skipped_baseline();
    baseline.request_count = 3;
    baseline.average_ttfb_ms = 1500;
    assert_eq!(
        baseline_summary_lines(&baseline),
        vec![
            "",
            "[+] BASELINE ANALYSIS",
            "  Requests: 3",
            "  Status code consistency: 100.0%",
            "  Response length consistency: 100.0%",
            "  Average TTFB: 1.5s",
            "  Status: Stable",
        ]
    );
    baseline.stable = false;
    assert_eq!(baseline_summary_lines(&baseline)[6], "  Status: Unstable");
}

#[test]
fn a_run_opens_with_a_banner_and_a_probe() {
    assert_eq!(
        banner_lines("http://h/", "GET", "0000beef"),
        vec![
            "Webfuzzy - Web Request Fuzzer".to_string(),
            "=".repeat(40),
            "Target: http://h/".to_string(),
            "Method: GET".to_string(),
            "Run ID: 0000beef".to_string(),
            String::new(),
        ]
    );
    let time = Elapsed { nanos: 7_900_000 };
    let headers = [("content-type".to_string(), b"text/html".to_vec())];
    let response = read_response("r", 201, &headers, "é".as_bytes(), time, time);
    assert_eq!(
        probe_lines("GET", "http://h/", &response),
        vec![
            "Initial request: GET http://h/",
            "Status: 201",
            "Content-Type: text/html",
            "Length: 2 bytes",
            "TTFB: 7ms",
            "",
        ]
    );
    let bare = read_response("r", 201, &[], b"", time, time);
    assert_eq!(probe_lines("GET", "u", &bare)[2], "Content-Type: unknown");
    assert_eq!(rule('-', 3), "---");
}
