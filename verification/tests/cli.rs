use webfuzzy::cli::{run_id_of, Args, Config};

fn args(headers: &[&str], data: Option<&str>) -> Args {
    Args {
        url: Some("http://example.com/?id=§1§".to_string()),
        headers: headers.iter().map(|h| h.to_string()).collect(),
        data: data.map(|d| d.to_string()),
        method: "GET".to_string(),
        baseline_count: 10,
        wordlist: None,
        output: ".".to_string(),
        marker: "§".to_string(),
        threads: 5,
        timeout: 30,
        skip_baseline: false,
        verbose: false,
        max_clusters: 6,
        disable_timing: false,
    }
}

fn h(k: &str, v: &str) -> (String, String) {
    (k.to_string(), v.to_string())
}

#[test]
fn header_lines_are_split_at_the_first_colon() {
    let parsed = args(&["A: b:c ", "no colon", ":", " X-Y :\t"], None).parse_headers();
    assert_eq!(parsed, vec![h("A", "b:c"), h("", ""), h("X-Y", "")]);
}

#[test]
fn a_body_gets_a_content_type() {
    let parsed = args(&["A: b"], Some("x=1")).parse_headers();
    assert_eq!(
        parsed,
        vec![h("A", "b"), h("Content-Type", "application/x-www-form-urlencoded")]
    );
    let parsed = args(&["cOnTeNt-TyPe: text/plain"], Some("x=1")).parse_headers();
    assert_eq!(parsed, vec![h("cOnTeNt-TyPe", "text/plain")]);
    assert_eq!(args(&[], None).parse_headers(), vec![]);
}

#[test]
fn run_ids_are_eight_hex_digits() {
    assert_eq!(run_id_of(0), "00000000");
    assert_eq!(run_id_of(0xdeadbeef), "deadbeef");
    assert_ne!(run_id_of(1), run_id_of(16));
    let id = Config::generate_run_id();
    assert_eq!(id.len(), 8);
    assert!(id.chars().all(|c| c.is_ascii_digit() || ('a'..='f').contains(&c)));
}

#[test]
fn run_ids_differ_from_run_to_run() {
    let ids: Vec<String> = (0..8).map(|_| Config::generate_run_id()).collect();
    assert!(ids.iter().any(|id| *id != ids[0]));
}

#[test]
fn a_config_keeps_its_arguments() {
    let config = Config::new(args(&["A: b"], None));
    assert_eq!(config.args.headers, vec!["A: b".to_string()]);
    assert_eq!(config.run_id.len(), 8);
    let notation: String =
        config.started_at.chars().map(|c| if c.is_ascii_digit() { '0' } else { c }).collect();
    assert_eq!(notation, "0000-00-00T00:00:00.000Z");
}
