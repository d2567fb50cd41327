//! What a run prints, line by line.

use vstd::prelude::*;
use vstd::utf8::*;

use crate::baseline::BaselineResult;
use crate::fuzzing::FuzzingResult;
use crate::http_client;
use crate::http_client::{header_value, HttpResponse, ResponseFeatures};
use crate::observations;
use crate::observations::analyze_clusters;
use crate::status;
use crate::text;
use crate::text::{decimal, join3, push_line, push_lines, shorten, show_millis};

verus! {

/// How many outlier payloads the summary shows.
pub const SHOWN_OUTLIERS: usize = 10;

/// How many bytes of an outlier payload the summary shows.
pub const SUMMARY_WIDTH: usize = 70;

/// How many bytes of a payload the details show.
pub const DETAIL_WIDTH: usize = 40;

/// A status code, how often it came, and its share of all requests as a
/// percentage to one decimal.
#[derive(Debug, Clone)]
pub struct StatusShare {
    pub code: u16,
    pub count: usize,
    pub percent: String,
}

/// The codes and counts of the shares.
pub open spec fn counts_of(shares: Seq<StatusShare>) -> Seq<(u16, usize)> {
    shares.map_values(|s: StatusShare| (s.code, s.count))
}

/// The summary of the baseline.
pub open spec fn baseline_summary(baseline: BaselineResult) -> Seq<Seq<char>> {
    seq![""@, "[+] BASELINE ANALYSIS"@] + (if baseline.request_count == 0 {
        seq!["  Skipped"@]
    } else {
        seq![
            "  Requests: "@ + text::decimal_digits(baseline.request_count as nat),
            "  Status code consistency: "@ + baseline.status_code_consistency.percent@ + "%"@,
            "  Response length consistency: "@ + baseline.response_length_consistency.percent@
                + "%"@,
            "  Average TTFB: "@ + text::duration_text(baseline.average_ttfb_ms as nat),
            if baseline.stable {
                "  Status: Stable"@
            } else {
                "  Status: Unstable"@
            },
        ]
    })
}

/// `label`, followed by `value`.
fn labelled(label: &str, value: &str) -> (line: String)
    ensures
        line@ == label@ + value@,
{
    let mut line = label.to_owned();
    line.append(value);
    line
}

/// The lines that summarise the baseline.
pub fn baseline_summary_lines(baseline: &BaselineResult) -> (lines: Vec<String>)
    ensures
        text::texts(lines@) == baseline_summary(*baseline),
{
    let mut lines: Vec<String> = Vec::new();
    push_line(&mut lines, "".to_owned());
    push_line(&mut lines, "[+] BASELINE ANALYSIS".to_owned());
    if baseline.request_count == 0 {
        push_line(&mut lines, "  Skipped".to_owned());
    } else {
        push_line(
            &mut lines,
            labelled("  Requests: ", decimal(baseline.request_count as u128).as_str()),
        );
        push_line(
            &mut lines,
            join3(
                "  Status code consistency: ",
                baseline.status_code_consistency.percent.as_str(),
                "%",
            ),
        );
        push_line(
            &mut lines,
            join3(
                "  Response length consistency: ",
                baseline.response_length_consistency.percent.as_str(),
                "%",
            ),
        );
        push_line(
            &mut lines,
            labelled("  Average TTFB: ", show_millis(baseline.average_ttfb_ms).as_str()),
        );
        if baseline.stable {
            push_line(&mut lines, "  Status: Stable".to_owned());
        } else {
            push_line(&mut lines, "  Status: Unstable".to_owned());
        }
    }
    assert(text::texts(lines@) =~= baseline_summary(*baseline));
    lines
}

/// The line on a status code.
pub open spec fn share_line(share: StatusShare) -> Seq<char> {
    "    "@ + text::decimal_digits(share.code as nat) + ": "@ + text::decimal_digits(
        share.count as nat,
    ) + " ("@ + share.percent@ + "%)"@
}

/// The lines, indented.
pub open spec fn indented(lines: Seq<Seq<char>>) -> Seq<Seq<char>> {
    lines.map_values(|line: Seq<char>| "  "@ + line)
}

/// The payload of a response; nothing where it has none.
pub open spec fn payload_text(feature: ResponseFeatures) -> Seq<char> {
    match feature.payload {
        Some(payload) => payload@,
        None => seq![],
    }
}

/// One line for each position that is one of a response.
pub open spec fn payload_lines(features: Seq<ResponseFeatures>, at: Seq<usize>) -> Seq<Seq<char>>
    decreases at.len(),
{
    if at.len() == 0 {
        seq![]
    } else {
        let before = payload_lines(features, at.drop_last());
        if at.last() < features.len() {
            before.push(
                "    '"@ + text::shortened(
                    payload_text(features[at.last() as int]),
                    SUMMARY_WIDTH as nat,
                ) + "'"@,
            )
        } else {
            before
        }
    }
}

/// The first outliers that are shown.
pub open spec fn shown_outliers(outliers: Seq<usize>) -> Seq<usize> {
    if outliers.len() <= SHOWN_OUTLIERS {
        outliers
    } else {
        outliers.take(SHOWN_OUTLIERS as int)
    }
}

/// The lines on the outliers.
pub open spec fn outlier_lines(fuzzing: FuzzingResult) -> Seq<Seq<char>> {
    let noise = fuzzing.clustering_result.noise_count;
    let show = if noise <= SHOWN_OUTLIERS {
        noise
    } else {
        SHOWN_OUTLIERS
    };
    if noise > 0 {
        seq![
            ""@,
            "  Outlier payloads ("@ + text::decimal_digits(show as nat) + " of "@
                + text::decimal_digits(noise as nat) + "):"@,
        ] + payload_lines(
            fuzzing.response_features@,
            shown_outliers(fuzzing.clustering_result.outliers@),
        )
    } else {
        seq![]
    }
}

/// The summary of a fuzzing run, with the shares of the status codes.
pub open spec fn fuzzing_summary(fuzzing: FuzzingResult, shares: Seq<StatusShare>) -> Seq<
    Seq<char>,
> {
    seq![""@, "[+] OUTLIER-BASED FUZZING"@] + (if fuzzing.total_requests == 0 {
        seq!["  Skipped"@]
    } else {
        seq![
            "  Total requests: "@ + text::decimal_digits(fuzzing.total_requests as nat),
            "  Successful: "@ + text::decimal_digits(fuzzing.successful_requests as nat),
            "  Failed: "@ + text::decimal_digits(fuzzing.failed_requests as nat),
            "  Payload-response correlation: "@ + (match fuzzing.payload_length_correlation {
                Some(r) => r@,
                None => "N/A"@,
            }),
            ""@,
            "  Status code distribution:"@,
        ] + shares.map_values(|s: StatusShare| share_line(s)) + seq![""@] + indented(
            observations::cluster_report(
                fuzzing.clustering_result,
                fuzzing.ttfb_baseline_ref,
            ),
        ) + outlier_lines(fuzzing)
    })
}

/// The text of a payload; nothing where there is none.
fn payload_of(feature: &ResponseFeatures) -> (payload: String)
    ensures
        payload@ == payload_text(*feature),
{
    match &feature.payload {
        Some(payload) => payload.clone(),
        None => String::new(),
    }
}

/// The lines on the outliers.
fn show_outliers(fuzzing: &FuzzingResult) -> (lines: Vec<String>)
    ensures
        text::texts(lines@) == outlier_lines(*fuzzing),
{
    let mut lines: Vec<String> = Vec::new();
    let noise = fuzzing.clustering_result.noise_count;
    if noise == 0 {
        assert(text::texts(lines@) =~= outlier_lines(*fuzzing));
        return lines;
    }
    let show: usize = if noise <= SHOWN_OUTLIERS {
        noise
    } else {
        SHOWN_OUTLIERS
    };
    push_line(&mut lines, "".to_owned());
    let mut head = join3("  Outlier payloads (", decimal(show as u128).as_str(), " of ");
    head.append(decimal(noise as u128).as_str());
    head.append("):");
    push_line(&mut lines, head);
    let ghost first = text::texts(lines@);
    let outliers = &fuzzing.clustering_result.outliers;
    let features = &fuzzing.response_features;
    let ghost shown = shown_outliers(outliers@);
    let mut i: usize = 0;
    assert(first + payload_lines(features@, shown.take(0)) =~= first);
    while i < outliers.len() && i < SHOWN_OUTLIERS
        invariant
            i <= outliers@.len(),
            i <= SHOWN_OUTLIERS,
            shown == shown_outliers(outliers@),
            text::texts(lines@) == first + payload_lines(features@, shown.take(i as int)),
        decreases outliers.len() - i,
    {
        assert(shown.take(i + 1).drop_last() =~= shown.take(i as int));
        assert(shown[i as int] == outliers@[i as int]);
        let at = outliers[i];
        let ghost before = payload_lines(features@, shown.take(i as int));
        if at < features.len() {
            let payload = payload_of(&features[at]);
            push_line(
                &mut lines,
                join3("    '", shorten(payload.as_str(), SUMMARY_WIDTH).as_str(), "'"),
            );
        }
        assert(text::texts(lines@) =~= first + payload_lines(features@, shown.take(i + 1)));
        i += 1;
    }
    assert(shown.take(shown.len() as int) =~= shown);
    assert(text::texts(lines@) =~= outlier_lines(*fuzzing));
    lines
}

/// The lines, indented.
fn indent(lines: &[String]) -> (out: Vec<String>)
    ensures
        text::texts(out@) == indented(text::texts(lines@)),
{
    let mut out: Vec<String> = Vec::new();
    let mut i: usize = 0;
    while i < lines.len()
        invariant
            i <= lines.len(),
            text::texts(out@) == indented(text::texts(lines@)).take(i as int),
        decreases lines.len() - i,
    {
        push_line(&mut out, labelled("  ", lines[i].as_str()));
        assert(text::texts(out@) =~= indented(text::texts(lines@)).take(i + 1));
        i += 1;
    }
    assert(text::texts(out@) =~= indented(text::texts(lines@)));
    out
}

/// The lines that summarise a fuzzing run. The shares are those of the run's
/// status codes, the most common first.
pub fn fuzzing_summary_lines(fuzzing: &FuzzingResult, shares: &[StatusShare]) -> (lines: Vec<
    String,
>)
    requires
        status::is_distribution(counts_of(shares@), fuzzing.status_codes@),
    ensures
        text::texts(lines@) == fuzzing_summary(*fuzzing, shares@),
{
    let mut lines: Vec<String> = Vec::new();
    push_line(&mut lines, "".to_owned());
    push_line(&mut lines, "[+] OUTLIER-BASED FUZZING".to_owned());
    if fuzzing.total_requests == 0 {
        push_line(&mut lines, "  Skipped".to_owned());
        assert(text::texts(lines@) =~= fuzzing_summary(*fuzzing, shares@));
        return lines;
    }
    push_line(
        &mut lines,
        labelled("  Total requests: ", decimal(fuzzing.total_requests as u128).as_str()),
    );
    push_line(
        &mut lines,
        labelled("  Successful: ", decimal(fuzzing.successful_requests as u128).as_str()),
    );
    push_line(
        &mut lines,
        labelled("  Failed: ", decimal(fuzzing.failed_requests as u128).as_str()),
    );
    match &fuzzing.payload_length_correlation {
        Some(r) => push_line(
            &mut lines,
            labelled("  Payload-response correlation: ", r.as_str()),
        ),
        None => push_line(&mut lines, labelled("  Payload-response correlation: ", "N/A")),
    }
    push_line(&mut lines, "".to_owned());
    push_line(&mut lines, "  Status code distribution:".to_owned());
    let ghost first = text::texts(lines@);
    let ghost second = shares@.map_values(|s: StatusShare| share_line(s));
    let mut i: usize = 0;
    assert(first + second.take(0) =~= first);
    while i < shares.len()
        invariant
            i <= shares.len(),
            second == shares@.map_values(|s: StatusShare| share_line(s)),
            text::texts(lines@) == first + second.take(i as int),
        decreases shares.len() - i,
    {
        let mut line = join3("    ", decimal(shares[i].code as u128).as_str(), ": ");
        line.append(decimal(shares[i].count as u128).as_str());
        line.append(" (");
        line.append(shares[i].percent.as_str());
        line.append("%)");
        push_line(&mut lines, line);
        assert(text::texts(lines@) =~= first + second.take(i + 1));
        i += 1;
    }
    assert(text::texts(lines@) =~= first + second);
    push_line(&mut lines, "".to_owned());
    let observed = analyze_clusters(&fuzzing.clustering_result, &fuzzing.ttfb_baseline_ref);
    push_lines(&mut lines, indent(observed.as_slice()));
    push_lines(&mut lines, show_outliers(fuzzing));
    assert(text::texts(lines@) =~= fuzzing_summary(*fuzzing, shares@));
    lines
}

/// The lines that summarise a run.
pub fn summary_lines(
    baseline: &BaselineResult,
    fuzzing: &FuzzingResult,
    shares: &[StatusShare],
) -> (lines: Vec<String>)
    requires
        status::is_distribution(counts_of(shares@), fuzzing.status_codes@),
    ensures
        text::texts(lines@) == seq![""@, "[+] WEBFUZZY RESULTS"@] + baseline_summary(*baseline) + fuzzing_summary(*fuzzing, shares@) + seq![""@],
{
    let mut lines: Vec<String> = Vec::new();
    push_line(&mut lines, "".to_owned());
    push_line(&mut lines, "[+] WEBFUZZY RESULTS".to_owned());
    push_lines(&mut lines, baseline_summary_lines(baseline));
    push_lines(&mut lines, fuzzing_summary_lines(fuzzing, shares));
    push_line(&mut lines, "".to_owned());
    assert(text::texts(lines@) =~= seq![""@, "[+] WEBFUZZY RESULTS"@] + baseline_summary(*baseline) + fuzzing_summary(*fuzzing, shares@) + seq![""@]);
    lines
}

/// The lines on one outlier.
pub open spec fn detail_lines(at: usize, feature: ResponseFeatures) -> Seq<Seq<char>> {
    seq![
        "  Sequence "@ + text::decimal_digits(at as nat) + " (payload: '"@ + text::shortened(
            payload_text(feature),
            DETAIL_WIDTH as nat,
        ) + "')"@,
        "    Status: "@ + text::decimal_digits(feature.status_code as nat),
        "    Length: "@ + text::decimal_digits(feature.response_length as nat) + " bytes"@,
        "    TTFB: "@ + text::decimal_digits(feature.time_to_first_byte_ms as nat) + "ms"@,
    ]
}

/// The lines on the outliers, for each position that is one of a response.
pub open spec fn all_detail_lines(features: Seq<ResponseFeatures>, at: Seq<usize>) -> Seq<Seq<char>>
    decreases at.len(),
{
    if at.len() == 0 {
        seq![]
    } else {
        all_detail_lines(features, at.drop_last()) + (if at.last() < features.len() {
            detail_lines(at.last(), features[at.last() as int])
        } else {
            seq![]
        })
    }
}

/// A line of `n` times the same character.
pub open spec fn ruled(c: char, n: nat) -> Seq<char> {
    Seq::new(n, |i: int| c)
}

/// A line of `n` times the same character.
pub fn rule(c: char, n: usize) -> (line: String)
    ensures
        line@ == ruled(c, n as nat),
{
    let mut line = String::new();
    let mut i: usize = 0;
    assert(line@ =~= ruled(c, 0));
    while i < n
        invariant
            i <= n,
            line@ == ruled(c, i as nat),
        decreases n - i,
    {
        line.push(c);
        assert(line@ =~= ruled(c, (i + 1) as nat));
        i += 1;
    }
    line
}

/// The details of the outliers; nothing where there are none.
pub open spec fn outlier_details(fuzzing: FuzzingResult) -> Seq<Seq<char>> {
    if fuzzing.clustering_result.noise_count == 0 {
        seq![]
    } else {
        seq![""@, "[+] OUTLIER DETAILS"@, ruled('-', 19)] + all_detail_lines(
            fuzzing.response_features@,
            fuzzing.clustering_result.outliers@,
        )
    }
}

/// The lines on one outlier.
fn describe_outlier(at: usize, feature: &ResponseFeatures) -> (lines: Vec<String>)
    ensures
        text::texts(lines@) == detail_lines(at, *feature),
{
    let mut lines: Vec<String> = Vec::new();
    let payload = payload_of(feature);
    let mut head = join3("  Sequence ", decimal(at as u128).as_str(), " (payload: '");
    head.append(shorten(payload.as_str(), DETAIL_WIDTH).as_str());
    head.append("')");
    push_line(&mut lines, head);
    push_line(&mut lines, labelled("    Status: ", decimal(feature.status_code as u128).as_str()));
    push_line(
        &mut lines,
        join3("    Length: ", decimal(feature.response_length as u128).as_str(), " bytes"),
    );
    push_line(
        &mut lines,
        join3("    TTFB: ", decimal(feature.time_to_first_byte_ms as u128).as_str(), "ms"),
    );
    assert(text::texts(lines@) =~= detail_lines(at, *feature));
    lines
}

/// The lines with the details of the outliers.
pub fn outlier_detail_lines(fuzzing: &FuzzingResult) -> (lines: Vec<String>)
    ensures
        text::texts(lines@) == outlier_details(*fuzzing),
{
    let mut lines: Vec<String> = Vec::new();
    if fuzzing.clustering_result.noise_count == 0 {
        assert(text::texts(lines@) =~= outlier_details(*fuzzing));
        return lines;
    }
    push_line(&mut lines, "".to_owned());
    push_line(&mut lines, "[+] OUTLIER DETAILS".to_owned());
    push_line(&mut lines, rule('-', 19));
    let ghost first = text::texts(lines@);
    let outliers = &fuzzing.clustering_result.outliers;
    let features = &fuzzing.response_features;
    let mut i: usize = 0;
    assert(first + all_detail_lines(features@, outliers@.take(0)) =~= first);
    while i < outliers.len()
        invariant
            i <= outliers@.len(),
            text::texts(lines@) == first + all_detail_lines(features@, outliers@.take(i as int)),
        decreases outliers.len() - i,
    {
        assert(outliers@.take(i + 1).drop_last() =~= outliers@.take(i as int));
        let at = outliers[i];
        if at < features.len() {
            push_lines(&mut lines, describe_outlier(at, &features[at]));
        }
        assert(text::texts(lines@) =~= first + all_detail_lines(
            features@,
            outliers@.take(i + 1),
        ));
        i += 1;
    }
    assert(outliers@.take(outliers@.len() as int) =~= outliers@);
    assert(text::texts(lines@) =~= outlier_details(*fuzzing));
    lines
}

/// The lines that open a run.
pub fn banner_lines(url: &str, method: &str, run_id: &str) -> (lines: Vec<String>)
    ensures
        text::texts(lines@) == seq![
            "Webfuzzy - Web Request Fuzzer"@,
            ruled('=', 40),
            "Target: "@ + url@,
            "Method: "@ + method@,
            "Run ID: "@ + run_id@,
            ""@,
        ],
{
    let mut lines: Vec<String> = Vec::new();
    push_line(&mut lines, "Webfuzzy - Web Request Fuzzer".to_owned());
    push_line(&mut lines, rule('=', 40));
    push_line(&mut lines, labelled("Target: ", url));
    push_line(&mut lines, labelled("Method: ", method));
    push_line(&mut lines, labelled("Run ID: ", run_id));
    push_line(&mut lines, "".to_owned());
    assert(text::texts(lines@) =~= seq![
        "Webfuzzy - Web Request Fuzzer"@,
        ruled('=', 40),
        "Target: "@ + url@,
        "Method: "@ + method@,
        "Run ID: "@ + run_id@,
        ""@,
    ]);
    lines
}

/// What is shown of the answer to the first request.
pub open spec fn probe_report(
    method: Seq<char>,
    url: Seq<char>,
    response: HttpResponse,
) -> Seq<Seq<char>> {
    seq![
        "Initial request: "@ + method + " "@ + url,
        "Status: "@ + text::decimal_digits(response.status_code as nat),
        "Content-Type: "@ + (match http_client::last_value(
            text::pair_texts(response.headers@),
            "content-type"@,
        ) {
            Some(value) => value,
            None => "unknown"@,
        }),
        "Length: "@ + text::decimal_digits(encode_utf8(response.body@).len()) + " bytes"@,
        "TTFB: "@ + text::decimal_digits(
            (response.time_to_first_byte.nanos / 1_000_000) as nat,
        ) + "ms"@,
        ""@,
    ]
}

/// The lines on the answer to the first request.
pub fn probe_lines(method: &str, url: &str, response: &HttpResponse) -> (lines: Vec<String>)
    ensures
        text::texts(lines@) == probe_report(method@, url@, *response),
{
    let mut lines: Vec<String> = Vec::new();
    let mut head = join3("Initial request: ", method, " ");
    head.append(url);
    push_line(&mut lines, head);
    push_line(&mut lines, labelled("Status: ", decimal(response.status_code as u128).as_str()));
    match header_value(response.headers.as_slice(), "content-type") {
        Some(value) => push_line(&mut lines, labelled("Content-Type: ", value.as_str())),
        None => push_line(&mut lines, labelled("Content-Type: ", "unknown")),
    }
    let length = response.body.as_str().as_bytes().len();
    push_line(&mut lines, join3("Length: ", decimal(length as u128).as_str(), " bytes"));
    push_line(
        &mut lines,
        join3("TTFB: ", decimal(response.time_to_first_byte.whole_millis()).as_str(), "ms"),
    );
    push_line(&mut lines, "".to_owned());
    assert(text::texts(lines@) =~= probe_report(method@, url@, *response));
    lines
}

/// The summary of a baseline says that it was skipped where no request was
/// made; else it gives the number of requests, both consistencies, the average
/// time, and whether the endpoint is stable, one line each.
pub proof fn baselines_are_summarised(baseline: BaselineResult)
    ensures
        ({
            let lines = baseline_summary(baseline);
            &&& lines[0].len() == 0
            &&& lines[1] == "[+] BASELINE ANALYSIS"@
            &&& baseline.request_count == 0 ==> lines.len() == 3 && lines[2] == "  Skipped"@
            &&& baseline.request_count > 0 ==> {
                &&& lines.len() == 7
                &&& lines[2] == "  Requests: "@ + text::decimal_digits(
                    baseline.request_count as nat,
                )
                &&& lines[3] == "  Status code consistency: "@
                    + baseline.status_code_consistency.percent@ + "%"@
                &&& lines[4] == "  Response length consistency: "@
                    + baseline.response_length_consistency.percent@ + "%"@
                &&& lines[5] == "  Average TTFB: "@ + text::duration_text(
                    baseline.average_ttfb_ms as nat,
                )
                &&& lines[6] == "  Status: "@ + (if baseline.stable {
                    "Stable"@
                } else {
                    "Unstable"@
                })
            }
        }),
{
    reveal_strlit("");
    reveal_strlit("  Status: ");
    reveal_strlit("Stable");
    reveal_strlit("Unstable");
    reveal_strlit("  Status: Stable");
    reveal_strlit("  Status: Unstable");
    assert("  Status: Stable"@ =~= "  Status: "@ + "Stable"@);
    assert("  Status: Unstable"@ =~= "  Status: "@ + "Unstable"@);
}

/// The payloads at some positions are shown piece by piece, in order: each in
/// quotes and cut at seventy bytes, an empty one where a response has none, and
/// nothing for a position without a response.
pub proof fn payloads_are_shown_in_order(
    features: Seq<ResponseFeatures>,
    a: Seq<usize>,
    b: Seq<usize>,
    at: usize,
)
    ensures
        payload_lines(features, a + b) == payload_lines(features, a) + payload_lines(features, b),
        at >= features.len() ==> payload_lines(features, seq![at]).len() == 0,
        at < features.len() ==> payload_lines(features, seq![at]) == seq![
            "    '"@ + text::shortened(
                match features[at as int].payload {
                    Some(payload) => payload@,
                    None => Seq::<char>::empty(),
                },
                70,
            ) + "'"@,
        ],
    decreases b.len(),
{
    assert(seq![at].drop_last() =~= seq![]);
    assert(payload_lines(features, seq![at].drop_last()) =~= seq![]);
    if at < features.len() {
        assert(payload_lines(features, seq![at]) =~= seq![
            "    '"@ + text::shortened(payload_text(features[at as int]), 70) + "'"@,
        ]);
    }
    if b.len() == 0 {
        assert(a + b =~= a);
        assert(payload_lines(features, a) + payload_lines(features, b) =~= payload_lines(
            features,
            a,
        ));
    } else {
        payloads_are_shown_in_order(features, a, b.drop_last(), at);
        assert((a + b).drop_last() =~= a + b.drop_last());
        assert(payload_lines(features, a + b) =~= payload_lines(features, a) + payload_lines(
            features,
            b,
        ));
    }
}

/// The summary shows the payloads of the first ten outliers, or of all where
/// there are fewer, under a line that says how many of how many these are.
/// Without outliers it shows nothing of them.
pub proof fn ten_outliers_are_shown(fuzzing: FuzzingResult, first: Seq<usize>)
    requires
        first.is_prefix_of(fuzzing.clustering_result.outliers@),
        first.len() == (if fuzzing.clustering_result.outliers@.len() < 10 {
            fuzzing.clustering_result.outliers@.len()
        } else {
            10
        }),
    ensures
        ({
            let lines = outlier_lines(fuzzing);
            let noise = fuzzing.clustering_result.noise_count;
            &&& noise == 0 ==> lines.len() == 0
            &&& noise > 0 ==> {
                &&& lines[0].len() == 0
                &&& lines[1] == "  Outlier payloads ("@ + text::decimal_digits(
                    if noise < 10 {
                        noise as nat
                    } else {
                        10
                    },
                ) + " of "@ + text::decimal_digits(noise as nat) + "):"@
                &&& lines.skip(2) == payload_lines(fuzzing.response_features@, first)
            }
        }),
{
    reveal_strlit("");
    assert(shown_outliers(fuzzing.clustering_result.outliers@) =~= first);
    if fuzzing.clustering_result.noise_count > 0 {
        assert(outlier_lines(fuzzing).skip(2) =~= payload_lines(
            fuzzing.response_features@,
            first,
        ));
    }
}

/// The summary of a run says that it was skipped where there were no requests.
/// Else it gives the counts and the correlation, one line for each status code
/// in the given order, all that is reported of the clusters, set in, and the
/// outliers.
pub proof fn runs_are_summarised(fuzzing: FuzzingResult, shares: Seq<StatusShare>, i: int, j: int)
    ensures
        ({
            let lines = fuzzing_summary(fuzzing, shares);
            let report = observations::cluster_report(
                fuzzing.clustering_result,
                fuzzing.ttfb_baseline_ref,
            );
            let n = shares.len();
            let end = 9 + n + report.len();
            &&& lines[0].len() == 0
            &&& lines[1] == "[+] OUTLIER-BASED FUZZING"@
            &&& fuzzing.total_requests == 0 ==> lines.len() == 3 && lines[2] == "  Skipped"@
            &&& fuzzing.total_requests > 0 ==> {
                &&& lines[2] == "  Total requests: "@ + text::decimal_digits(
                    fuzzing.total_requests as nat,
                )
                &&& lines[3] == "  Successful: "@ + text::decimal_digits(
                    fuzzing.successful_requests as nat,
                )
                &&& lines[4] == "  Failed: "@ + text::decimal_digits(
                    fuzzing.failed_requests as nat,
                )
                &&& lines[5] == "  Payload-response correlation: "@ + (if fuzzing.payload_length_correlation is Some {
                    fuzzing.payload_length_correlation->0@
                } else {
                    "N/A"@
                })
                &&& lines[6].len() == 0
                &&& lines[7] == "  Status code distribution:"@
                &&& 0 <= i < n ==> lines[8 + i] == "    "@ + text::decimal_digits(
                    shares[i].code as nat,
                ) + ": "@ + text::decimal_digits(shares[i].count as nat) + " ("@
                    + shares[i].percent@ + "%)"@
                &&& lines[(8 + n) as int].len() == 0
                &&& 0 <= j < report.len() ==> lines[9 + n + j] == "  "@ + report[j]
                &&& lines.len() >= end
                &&& lines.skip(end as int) == outlier_lines(fuzzing)
            }
        }),
{
    let lines = fuzzing_summary(fuzzing, shares);
    let report = observations::cluster_report(
        fuzzing.clustering_result,
        fuzzing.ttfb_baseline_ref,
    );
    let n = shares.len();
    reveal_strlit("");
    if fuzzing.total_requests > 0 {
        assert(indented(report).len() == report.len());
        if 0 <= i < n {
            assert(lines[8 + i] == share_line(shares[i]));
        }
        if 0 <= j < report.len() {
            assert(lines[9 + n + j] == indented(report)[j]);
        }
        assert(lines.skip((9 + n + report.len()) as int) =~= outlier_lines(fuzzing));
    }
}

/// The details of outliers are given piece by piece, in order: for each its
/// position and its payload, cut at forty bytes, then its status, its length
/// and its time; nothing for a position without a response.
pub proof fn details_are_given_in_order(
    features: Seq<ResponseFeatures>,
    a: Seq<usize>,
    b: Seq<usize>,
    at: usize,
)
    ensures
        all_detail_lines(features, a + b) == all_detail_lines(features, a) + all_detail_lines(
            features,
            b,
        ),
        at >= features.len() ==> all_detail_lines(features, seq![at]).len() == 0,
        at < features.len() ==> {
            let lines = all_detail_lines(features, seq![at]);
            let feature = features[at as int];
            &&& lines.len() == 4
            &&& lines[0] == "  Sequence "@ + text::decimal_digits(at as nat) + " (payload: '"@
                + text::shortened(
                if feature.payload is Some {
                    feature.payload->0@
                } else {
                    Seq::<char>::empty()
                },
                40,
            ) + "')"@
            &&& lines[1] == "    Status: "@ + text::decimal_digits(feature.status_code as nat)
            &&& lines[2] == "    Length: "@ + text::decimal_digits(feature.response_length as nat)
                + " bytes"@
            &&& lines[3] == "    TTFB: "@ + text::decimal_digits(
                feature.time_to_first_byte_ms as nat,
            ) + "ms"@
        },
    decreases b.len(),
{
    assert(seq![at].drop_last() =~= seq![]);
    assert(all_detail_lines(features, seq![at].drop_last()) =~= seq![]);
    if at < features.len() {
        assert(all_detail_lines(features, seq![at]) =~= detail_lines(at, features[at as int]));
    }
    if b.len() == 0 {
        assert(a + b =~= a);
        assert(all_detail_lines(features, a) + all_detail_lines(features, b) =~= all_detail_lines(
            features,
            a,
        ));
    } else {
        details_are_given_in_order(features, a, b.drop_last(), at);
        assert((a + b).drop_last() =~= a + b.drop_last());
        assert(all_detail_lines(features, a + b) =~= all_detail_lines(features, a)
            + all_detail_lines(features, b));
    }
}

/// The details are those of all outliers, under a heading; without outliers
/// there are none.
pub proof fn every_outlier_has_details(fuzzing: FuzzingResult)
    ensures
        ({
            let lines = outlier_details(fuzzing);
            &&& fuzzing.clustering_result.noise_count == 0 ==> lines.len() == 0
            &&& fuzzing.clustering_result.noise_count > 0 ==> {
                &&& lines[0].len() == 0
                &&& lines[1] == "[+] OUTLIER DETAILS"@
                &&& lines[2].len() == 19
                &&& lines.skip(3) == all_detail_lines(
                    fuzzing.response_features@,
                    fuzzing.clustering_result.outliers@,
                )
            }
        }),
{
    reveal_strlit("");
    if fuzzing.clustering_result.noise_count > 0 {
        assert(outlier_details(fuzzing).skip(3) =~= all_detail_lines(
            fuzzing.response_features@,
            fuzzing.clustering_result.outliers@,
        ));
    }
}

/// A rule is as long as asked for, and made of one character.
pub proof fn rules_are_made_of_one_character(c: char, n: nat, i: int)
    ensures
        ruled(c, n).len() == n,
        0 <= i < n ==> ruled(c, n)[i] == c,
{
}

/// What is shown of the first answer: the request, and the status, the content
/// type where one is known, the bytes and the whole milliseconds.
pub proof fn the_first_answer_is_shown(
    method: Seq<char>,
    url: Seq<char>,
    response: HttpResponse,
)
    ensures
        ({
            let lines = probe_report(method, url, response);
            let content_type = http_client::last_value(
                text::pair_texts(response.headers@),
                "content-type"@,
            );
            &&& lines.len() == 6
            &&& lines[0] == "Initial request: "@ + method + " "@ + url
            &&& lines[1] == "Status: "@ + text::decimal_digits(response.status_code as nat)
            &&& content_type is None ==> lines[2] == "Content-Type: "@ + "unknown"@
            &&& content_type is Some ==> lines[2] == "Content-Type: "@ + content_type->0
            &&& lines[3] == "Length: "@ + text::decimal_digits(encode_utf8(response.body@).len())
                + " bytes"@
            &&& lines[4] == "TTFB: "@ + text::decimal_digits(
                (response.time_to_first_byte.nanos / 1_000_000) as nat,
            ) + "ms"@
            &&& lines[5].len() == 0
        }),
{
    reveal_strlit("");
}

} // verus!
