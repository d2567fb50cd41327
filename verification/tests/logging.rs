use webfuzzy::baseline::skipped_baseline;
use webfuzzy::fuzzing::create_empty_result;
use webfuzzy::http_client::{HttpRequest, RequestResult};
use webfuzzy::logging::{name_file, AuditLogger, ScanInfo};

fn failed(sequence: usize) -> RequestResult {
    let request = HttpRequest {
        request_id: "r".to_string(),
        method: "GET".to_string(),
        url: "u".to_string(),
        headers: vec![],
        body: None,
        timestamp: "t".to_string(),
    };
    RequestResult::of(Err((request, "boom".to_string())), sequence, 0)
}

fn info() -> ScanInfo {
    ScanInfo {
        tool_version: "1".to_string(),
        run_id: "0000beef".to_string(),
        target_url: "http://h/".to_string(),
        method: "GET".to_string(),
        start_time: "t".to_string(),
        end_time: None,
        arguments: vec!["-u".to_string()],
    }
}

#[test]
fn files_are_named_after_second_and_run() {
    assert_eq!(
        name_file("20240102_030405", "0000beef", ".jsonl"),
        "audit_20240102_030405_0000beef.jsonl"
    );
    let logger = AuditLogger::new("0000beef");
    let name = logger.jsonl_path();
    assert!(name.starts_with("audit_"));
    assert!(name.ends_with("_0000beef.jsonl"));
    let stamp = &name["audit_".len()..name.len() - "_0000beef.jsonl".len()];
    assert_eq!(stamp.as_bytes()[stamp.len() - 7], b'_');
    assert!(stamp.chars().all(|c| c == '_' || c.is_ascii_digit()));
}

#[test]
fn runs_in_one_second_write_different_files() {
    let ids = ["0000beef", "0000bee0", "", "x", "_", "030405_x"];
    for a in ids {
        for b in ids {
            let same = name_file("20240102_030405", a, ".jsonl")
                == name_file("20240102_030405", b, ".jsonl");
            assert_eq!(same, a == b);
        }
    }
}

#[test]
fn the_document_holds_the_whole_run() {
    let mut logger = AuditLogger::new("0000beef");
    logger.add_requestresult(failed(0));
    logger.add_requestresult(failed(1));
    let mut fuzzing = create_empty_result();
    fuzzing.total_requests = 2;
    fuzzing.failed_requests = 2;
    let (name, log) = logger.save_audit_log(info(), skipped_baseline(), fuzzing, "1.2.3");
    assert!(name.ends_with("_0000beef.json"));
    assert_eq!(log.summary.total_requests, 2);
    assert!(log.summary.baseline_stable);
    assert_eq!(log.version, "1.2.3");
    assert_eq!(log.scan_info.run_id, "0000beef");
    assert_eq!(log.baseline.unwrap().request_count, 0);
    assert_eq!(
        log.findings,
        vec![
            "No baseline requests were made (baseline skipped).",
            "Found 0 distinct response clusters.",
        ]
    );
    assert_eq!(log.fuzzing.unwrap().failed_requests, 2);
    assert_eq!(logger.requests[1].sequence, 1);
}
