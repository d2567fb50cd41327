//! The record of a run.
//!
//! Files are written elsewhere; what they are called and what the final
//! snapshot holds is decided here.

use vstd::prelude::*;

use crate::baseline;
use crate::baseline::{analyze_baseline_stability, BaselineResult};
use crate::fuzzing::FuzzingResult;
use crate::http_client::RequestResult;
use crate::observations;
use crate::observations::analyze_clusters;
use crate::text;
use crate::text::{join3, push_lines};

verus! {

/// The document written at the end of a run: scan metadata (including the run
/// id), baseline, findings, and the full fuzzing result (features and clusters).
#[derive(Debug, Clone)]
pub struct AuditLog {
    pub summary: ScanSummary,
    pub version: String,
    pub scan_info: ScanInfo,
    pub baseline: Option<BaselineResult>,
    /// What was observed of the baseline and of the clusters.
    pub findings: Vec<String>,
    pub fuzzing: Option<FuzzingResult>,
}

/// What a run was asked to do, and when.
#[derive(Debug, Clone)]
pub struct ScanInfo {
    pub tool_version: String,
    /// Unique identifier for this execution (see `cli::Config::run_id`).
    pub run_id: String,
    pub target_url: String,
    pub method: String,
    pub start_time: String,
    pub end_time: Option<String>,
    pub arguments: Vec<String>,
}

/// What a run came to, in short.
#[derive(Debug, Clone)]
pub struct ScanSummary {
    pub total_requests: usize,
    pub baseline_stable: bool,
}

/// The record of one execution. The run id stands in every file name, so that
/// runs starting within the same second never overwrite each other's files.
#[derive(Debug, Clone)]
pub struct AuditLogger {
    /// The run id.
    pub file_id: String,
    /// Name of the real-time request log.
    pub log_name: String,
    pub requests: Vec<RequestResult>,
}

/// A `YYYYMMDD_HHMMSS` timestamp; the year may be longer, with a sign.
pub open spec fn is_second_stamp(stamp: Seq<char>) -> bool {
    let n = stamp.len();
    &&& text::year_ends_at(stamp, n - 11)
    &&& stamp[n - 7] == '_'
    &&& forall|i: int| n - 11 <= i < n && i != n - 7 ==> text::is_digit(#[trigger] stamp[i])
}

/// Calls `chrono::Utc::now` and formats it as `%Y%m%d_%H%M%S`. The text
/// depends on the clock, but it always has that notation; the year has a sign
/// where it is before 0 or past 9999.
#[verifier::external_body]
fn second_stamp() -> (stamp: String)
    ensures
        is_second_stamp(stamp@),
{
    chrono::Utc::now().format("%Y%m%d_%H%M%S").to_string()
}

/// The name of a file of the run `id`.
pub open spec fn file_name(stamp: Seq<char>, id: Seq<char>, extension: Seq<char>) -> Seq<char> {
    "audit_"@ + stamp + "_"@ + id + extension
}

/// The name of a file, given the timestamp in it.
pub fn name_file(stamp: &str, id: &str, extension: &str) -> (name: String)
    ensures
        name@ == file_name(stamp@, id@, extension@),
{
    let mut name = join3("audit_", stamp, "_");
    name.append(id);
    name.append(extension);
    name
}

impl AuditLogger {
    /// Begins the record of one execution. The request log is named after the
    /// second and the run id.
    pub fn new(run_id: &str) -> (logger: AuditLogger)
        ensures
            logger.file_id@ == run_id@,
            logger.requests@.len() == 0,
            exists|stamp: Seq<char>| #[trigger]
                is_second_stamp(stamp) && logger.log_name@ == file_name(
                    stamp,
                    run_id@,
                    ".jsonl"@,
                ),
    {
        let stamp = second_stamp();
        AuditLogger {
            file_id: run_id.to_owned(),
            log_name: name_file(stamp.as_str(), run_id, ".jsonl"),
            requests: Vec::new(),
        }
    }

    /// Adds what became of a request to the record.
    pub fn add_requestresult(&mut self, result: RequestResult)
        ensures
            final(self).requests@ == old(self).requests@.push(result),
            final(self).file_id == old(self).file_id,
            final(self).log_name == old(self).log_name,
    {
        self.requests.push(result);
    }

    /// Name of the real-time request log for this run.
    pub fn jsonl_path(&self) -> (name: String)
        ensures
            name@ == self.log_name@,
    {
        self.log_name.clone()
    }

    /// The document on the run, and the name of the file to hold it. The raw
    /// per-request record lives in the request log alone.
    pub fn save_audit_log(
        &self,
        scan_info: ScanInfo,
        baseline: BaselineResult,
        fuzzing: FuzzingResult,
        version: &str,
    ) -> (saved: (String, AuditLog))
        ensures
            exists|stamp: Seq<char>| #[trigger]
                is_second_stamp(stamp) && saved.0@ == file_name(stamp, self.file_id@, ".json"@),
            saved.1.summary.total_requests == self.requests@.len(),
            saved.1.summary.baseline_stable == baseline.stable,
            saved.1.version@ == version@,
            saved.1.scan_info == scan_info,
            saved.1.baseline == Some(baseline),
            text::texts(saved.1.findings@) == baseline::stability_report(baseline)
                + observations::cluster_report(
                fuzzing.clustering_result,
                fuzzing.ttfb_baseline_ref,
            ),
            saved.1.fuzzing == Some(fuzzing),
    {
        let summary = ScanSummary {
            total_requests: self.requests.len(),
            baseline_stable: baseline.stable,
        };
        let mut findings = analyze_baseline_stability(&baseline);
        push_lines(
            &mut findings,
            analyze_clusters(&fuzzing.clustering_result, &fuzzing.ttfb_baseline_ref),
        );
        let log = AuditLog {
            summary,
            version: version.to_owned(),
            scan_info,
            baseline: Some(baseline),
            findings,
            fuzzing: Some(fuzzing),
        };
        let stamp = second_stamp();
        (name_file(stamp.as_str(), self.file_id.as_str(), ".json"), log)
    }
}

/// The one underscore of a timestamp stands before the time.
proof fn one_underscore(stamp: Seq<char>)
    requires
        is_second_stamp(stamp),
    ensures
        forall|i: int| 0 <= i < stamp.len() && i != stamp.len() - 7 ==> #[trigger] stamp[i] != '_',
{
    assert forall|i: int| 0 <= i < stamp.len() && i != stamp.len() - 7 implies #[trigger] stamp[i]
        != '_' by {
        if i > 0 {
            assert(text::is_digit(stamp[i]));
        }
    }
}

/// The files of runs with different ids have different names, whatever the ids
/// are and whatever the clock says.
pub proof fn runs_never_share_a_file(
    stamp_a: Seq<char>,
    stamp_b: Seq<char>,
    id_a: Seq<char>,
    id_b: Seq<char>,
    extension: Seq<char>,
)
    requires
        is_second_stamp(stamp_a),
        is_second_stamp(stamp_b),
        id_a != id_b,
    ensures
        file_name(stamp_a, id_a, extension) != file_name(stamp_b, id_b, extension),
{
    let a = file_name(stamp_a, id_a, extension);
    let b = file_name(stamp_b, id_b, extension);
    let na = stamp_a.len() as int;
    let nb = stamp_b.len() as int;
    reveal_strlit("audit_");
    reveal_strlit("_");
    if a == b {
        assert forall|i: int| 0 <= i < na implies a[6 + i] == stamp_a[i] by {}
        assert forall|i: int| 0 <= i < nb implies b[6 + i] == stamp_b[i] by {}
        one_underscore(stamp_a);
        one_underscore(stamp_b);
        if na < nb {
            assert(b[6 + na - 7] == stamp_b[na - 7]);
            assert(a[6 + na - 7] == stamp_a[na - 7]);
        } else if nb < na {
            assert(b[6 + nb - 7] == stamp_b[nb - 7]);
            assert(a[6 + nb - 7] == stamp_a[nb - 7]);
        }
        assert(na == nb);
        let n = a.len() - extension.len();
        assert(a.subrange(6 + na + 1, n) =~= id_a);
        assert(b.subrange(6 + nb + 1, n) =~= id_b);
    }
}

/// A file is named after the tool's record, the second and the run, in this
/// order, and ends in what it holds; the request log and the document of one
/// run never share a name.
pub proof fn files_are_named_after_the_run(
    stamp: Seq<char>,
    other: Seq<char>,
    id: Seq<char>,
    extension: Seq<char>,
)
    requires
        is_second_stamp(stamp),
        is_second_stamp(other),
    ensures
        ({
            let name = file_name(stamp, id, extension);
            let n = stamp.len() as int;
            &&& name.len() == 6 + n + 1 + id.len() + extension.len()
            &&& name.take(6) == seq!['a', 'u', 'd', 'i', 't', '_']
            &&& name.subrange(6, 6 + n) == stamp
            &&& name[6 + n] == '_'
            &&& name.subrange(7 + n, 7 + n + id.len()) == id
            &&& name.skip(7 + n + id.len()) == extension
        }),
        file_name(stamp, id, ".jsonl"@) != file_name(other, id, ".json"@),
{
    let name = file_name(stamp, id, extension);
    let n = stamp.len() as int;
    reveal_strlit("audit_");
    reveal_strlit("_");
    reveal_strlit(".jsonl");
    reveal_strlit(".json");
    assert(name.take(6) =~= seq!['a', 'u', 'd', 'i', 't', '_']);
    assert(name.subrange(6, 6 + n) =~= stamp);
    assert(name.subrange(7 + n, 7 + n + id.len()) =~= id);
    assert(name.skip(7 + n + id.len()) =~= extension);
    let a = file_name(stamp, id, ".jsonl"@);
    let b = file_name(other, id, ".json"@);
    assert(a.last() == 'l');
    assert(b.last() == 'n');
}

} // verus!
