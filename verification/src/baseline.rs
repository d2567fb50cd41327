//! The baseline: the original request, sent several times.
//!
//! The requests themselves are sent elsewhere. What is sent, what is recorded
//! of the answers, and whether the endpoint counts as stable is decided here.

use std::collections::HashMap;
use vstd::prelude::*;
use vstd::utf8::*;

use crate::cli;
use crate::cli::Args;
use crate::http_client::{HttpRequest, HttpResponse, RequestResult};
use crate::marker;
use crate::marker::{collapse_headers, collapse_spans, collapse_spans_str, first_span_value};
use crate::numbers;
use crate::numbers::{mean_of, sum_of, widen};
use crate::positions;
use crate::spans_in_text;
use crate::status;
use crate::status::{highest_count, tally};
use crate::text;
use crate::text::{decimal, join3, push_line, show_millis};

verus! {

broadcast use vstd::std_specs::hash::group_hash_axioms;

/// How a share compares with its threshold.
#[derive(Debug, Clone, Copy, PartialEq, Eq, Structural)]
pub enum Standing {
    Below,
    At,
    Above,
}

/// How consistent the answers are in one respect: the percentage, to one
/// decimal, and how the share compares with the threshold for stability.
#[derive(Debug, Clone)]
pub struct Consistency {
    pub percent: String,
    pub standing: Standing,
}

/// The outcome of the baseline.
#[derive(Debug, Clone)]
pub struct BaselineResult {
    /// How many requests were answered.
    pub request_count: usize,
    pub stable: bool,
    /// The share of answers with the most common status code.
    pub status_code_consistency: Consistency,
    /// One minus the coefficient of variation of the response lengths.
    pub response_length_consistency: Consistency,
    pub average_ttfb_ms: u64,
    pub status_codes: HashMap<u16, usize>,
    pub response_lengths: Vec<usize>,
    pub ttfbs: Vec<u64>,
    /// Positions of the answers whose length is far from the mean, ascending.
    pub outliers: Vec<usize>,
    pub request_results: Vec<RequestResult>,
}

/// The request that the baseline repeats.
#[derive(Debug, Clone)]
pub struct BaselinePlan {
    pub url: String,
    pub headers: Vec<(String, String)>,
    pub body: Option<Vec<u8>>,
    pub payload_byte_len: usize,
}

/// The byte length of the original value inside the first span of a text.
pub open spec fn span_len(t: Seq<char>, m: Seq<char>) -> Option<nat> {
    match marker::first_value(encode_utf8(t), encode_utf8(m)) {
        Some(value) => Some(value.len()),
        None => None,
    }
}

/// The headers with every span collapsed.
pub open spec fn collapsed_pairs(
    headers: Seq<(Seq<char>, Seq<char>)>,
    m: Seq<char>,
) -> Seq<(Seq<char>, Seq<char>)> {
    headers.map_values(
        |p: (Seq<char>, Seq<char>)| (marker::collapsed(p.0, m), marker::collapsed(p.1, m)),
    )
}

/// The headers that the baseline sends.
pub open spec fn baseline_headers(args: Args) -> Seq<(Seq<char>, Seq<char>)> {
    collapsed_pairs(cli::asked_headers(args), args.marker@)
}

/// The URL that the baseline requests: nothing where none is given.
pub open spec fn baseline_url(args: Args) -> Seq<char> {
    match args.url {
        Some(url) => marker::collapsed(url@, args.marker@),
        None => marker::collapsed(seq![], args.marker@),
    }
}

/// The body that the baseline sends.
pub open spec fn baseline_body(args: Args) -> Option<Seq<u8>> {
    match args.data {
        Some(data) => Some(encode_utf8(marker::collapsed(data@, args.marker@))),
        None => None,
    }
}

/// The byte length of the original value that the baseline sends: the one in
/// the first span of the URL, else the one in the first span of the body, else
/// zero.
pub open spec fn baseline_payload_len(args: Args) -> nat {
    let m = args.marker@;
    let in_url = match args.url {
        Some(url) => span_len(url@, m),
        None => None,
    };
    let in_body = match args.data {
        Some(data) => span_len(data@, m),
        None => None,
    };
    match in_url {
        Some(n) => n,
        None => match in_body {
            Some(n) => n,
            None => 0,
        },
    }
}

/// The byte length of the original value inside the first span of a text.
fn original_len(t: &str, marker_bytes: &[u8], Ghost(m): Ghost<Seq<char>>) -> (n: Option<usize>)
    requires
        marker_bytes@ == encode_utf8(m),
    ensures
        n is Some <==> span_len(t@, m) is Some,
        n matches Some(k) ==> span_len(t@, m) == Some(k as nat),
{
    match first_span_value(t.as_bytes(), marker_bytes) {
        Some(value) => Some(value.len()),
        None => None,
    }
}

/// The baseline URL: every marker span (`§...§`) collapsed to its inner
/// content, so the original parameter value is sent without markers.
pub fn prepare_url(args: &Args) -> (url: String)
    ensures
        url@ == baseline_url(*args),
{
    match &args.url {
        Some(url) => collapse_spans_str(url.as_str(), args.marker.as_str()),
        None => {
            let nothing = String::new();
            collapse_spans_str(nothing.as_str(), args.marker.as_str())
        },
    }
}

impl BaselinePlan {
    /// The plan repeats the original request of the arguments.
    pub open spec fn repeats(self, args: Args) -> bool {
        &&& self.url@ == baseline_url(args)
        &&& text::pair_texts(self.headers@) == baseline_headers(args)
        &&& match self.body {
            Some(body) => baseline_body(args) == Some(body@),
            None => baseline_body(args) is None,
        }
        &&& self.payload_byte_len == baseline_payload_len(args)
    }
}

/// How often the original request is sent: not at all where the baseline is
/// skipped.
pub fn baseline_requests(args: &Args) -> (count: usize)
    ensures
        count == (if args.skip_baseline {
            0
        } else {
            args.baseline_count
        }),
{
    if args.skip_baseline {
        0
    } else {
        args.baseline_count
    }
}

/// Plans the original request: every marker span - in the URL, body, or header
/// keys and values - is collapsed to its inner content, so no markers are
/// sent.
pub fn plan_baseline(args: &Args) -> (plan: BaselinePlan)
    ensures
        plan.repeats(*args),
{
    let marker_bytes = args.marker.as_str().as_bytes();
    let ghost m = args.marker@;
    let asked = args.parse_headers();
    let headers = collapse_headers(asked.as_slice(), marker_bytes);
    proof {
        encode_utf8_valid_utf8(m);
        encode_utf8_decode_utf8(m);
        assert forall|i: int| 0 <= i < headers@.len() implies (
        #[trigger] text::pair_texts(headers@)[i]) == baseline_headers(*args)[i] by {
            assert(headers@[i].0@ == marker::collapsed(asked@[i].0@, m));
            assert(text::pair_texts(asked@)[i] == (asked@[i].0@, asked@[i].1@));
        }
        assert(text::pair_texts(headers@) =~= baseline_headers(*args));
    }
    let body: Option<Vec<u8>> = match &args.data {
        Some(data) => {
            proof {
                spans_in_text::built_alike_whole(data@, m, None);
                decode_utf8_encode_utf8(marker::collapsed(encode_utf8(data@), encode_utf8(m)));
            }
            Some(collapse_spans(data.as_str().as_bytes(), marker_bytes))
        },
        None => None,
    };
    let in_url: Option<usize> = match &args.url {
        Some(url) => original_len(url.as_str(), marker_bytes, Ghost(m)),
        None => None,
    };
    let in_body: Option<usize> = match &args.data {
        Some(data) => original_len(data.as_str(), marker_bytes, Ghost(m)),
        None => None,
    };
    let payload_byte_len: usize = match in_url {
        Some(n) => n,
        None => match in_body {
            Some(n) => n,
            None => 0,
        },
    };
    BaselinePlan { url: prepare_url(args), headers, body, payload_byte_len }
}

/// With a marker of one character, the baseline sends no span, neither in
/// the URL nor in the body nor in a header.
pub proof fn baseline_sends_no_span(args: Args)
    requires
        args.marker@.len() == 1,
    ensures
        !marker::spanned(baseline_url(args), args.marker@),
        baseline_body(args) matches Some(body) ==> !marker::spanned(
            body,
            encode_utf8(args.marker@),
        ),
        forall|i: int|
            0 <= i < baseline_headers(args).len() ==> !marker::spanned(
                (#[trigger] baseline_headers(args)[i]).0,
                args.marker@,
            ) && !marker::spanned(baseline_headers(args)[i].1, args.marker@),
{
    let m = args.marker@;
    let url = match args.url {
        Some(url) => url@,
        None => seq![],
    };
    marker::collapsed_text_has_no_span(url, m);
    if let Some(data) = args.data {
        marker::collapsed_text_has_no_span(data@, m);
        spans_in_text::built_alike_whole(marker::collapsed(data@, m), m, None);
    }
    let asked = cli::asked_headers(args);
    assert forall|i: int| 0 <= i < baseline_headers(args).len() implies !marker::spanned(
        (#[trigger] baseline_headers(args)[i]).0,
        m,
    ) && !marker::spanned(baseline_headers(args)[i].1, m) by {
        marker::collapsed_text_has_no_span(asked[i].0, m);
        marker::collapsed_text_has_no_span(asked[i].1, m);
    }
}

/// What was recorded of the answers so far.
#[derive(Debug, Clone)]
pub struct BaselineTally {
    pub status_codes: HashMap<u16, usize>,
    pub response_lengths: Vec<usize>,
    pub ttfbs: Vec<u64>,
    pub request_results: Vec<RequestResult>,
}

/// How many requests were answered with the given status code.
pub open spec fn answered(results: Seq<RequestResult>, code: u16) -> nat
    decreases results.len(),
{
    if results.len() == 0 {
        0
    } else {
        answered(results.drop_last(), code) + (match results.last().response {
            Some(response) => if response.status_code == code {
                1nat
            } else {
                0nat
            },
            None => 0nat,
        })
    }
}

/// The counts are those of the status codes of the answers.
pub open spec fn counts_answers(counts: Map<u16, usize>, results: Seq<RequestResult>) -> bool {
    &&& forall|code: u16| #[trigger] status::count_of(counts, code) == answered(results, code)
    &&& forall|code: u16| #[trigger] counts.contains_key(code) ==> counts[code] > 0
}

/// No more requests are answered with a code than there are requests.
pub proof fn answered_bound(results: Seq<RequestResult>, code: u16)
    ensures
        answered(results, code) <= results.len(),
    decreases results.len(),
{
    if results.len() > 0 {
        answered_bound(results.drop_last(), code);
    }
}

impl BaselineTally {
    /// One response length and one time to first byte for each answer, and a
    /// count for each status code among them.
    pub open spec fn wf(self) -> bool {
        let results = self.request_results@;
        &&& self.response_lengths@.len() == results.len()
        &&& self.ttfbs@.len() == results.len()
        &&& forall|i: int|
            #![trigger results[i]]
            0 <= i < results.len() ==> {
                &&& results[i].response is Some
                &&& results[i].error is None
                &&& self.response_lengths@[i] == encode_utf8(
                    results[i].response->0.body@,
                ).len()
                &&& self.ttfbs@[i] == results[i].response->0.time_to_first_byte.spec_millis()
            }
        &&& counts_answers(self.status_codes@, results)
    }

    /// Nothing recorded yet.
    pub fn new() -> (tally: BaselineTally)
        ensures
            tally.wf(),
            tally.request_results@.len() == 0,
    {
        BaselineTally {
            status_codes: HashMap::new(),
            response_lengths: Vec::new(),
            ttfbs: Vec::new(),
            request_results: Vec::new(),
        }
    }

    /// Records an answer.
    pub fn record(
        &mut self,
        request: HttpRequest,
        response: HttpResponse,
        sequence: usize,
        payload_byte_len: usize,
    )
        requires
            old(self).wf(),
            old(self).request_results@.len() < usize::MAX,
        ensures
            final(self).wf(),
            final(self).request_results@ == old(self).request_results@.push(
                (RequestResult {
                    request,
                    response: Some(response),
                    error: None,
                    sequence,
                    payload_byte_len,
                }),
            ),
    {
        let code = response.status_code;
        let ghost results = self.request_results@;
        let ghost counts = self.status_codes@;
        proof {
            answered_bound(results, code);
            assert(status::count_of(counts, code) == answered(results, code));
        }
        tally(&mut self.status_codes, code);
        self.response_lengths.push(response.body.as_str().as_bytes().len());
        self.ttfbs.push(response.time_to_first_byte.as_millis());
        self.request_results.push(
            RequestResult {
                request,
                response: Some(response),
                error: None,
                sequence,
                payload_byte_len,
            },
        );
        proof {
            let after = self.request_results@;
            assert(after.drop_last() =~= results);
            assert forall|c: u16| #[trigger]
                status::count_of(self.status_codes@, c) == answered(after, c) by {
                assert(status::count_of(counts, c) == answered(results, c));
            }
            assert forall|i: int| #![trigger after[i]] 0 <= i < after.len() implies {
                &&& after[i].response is Some
                &&& after[i].error is None
                &&& self.response_lengths@[i] == encode_utf8(after[i].response->0.body@).len()
                &&& self.ttfbs@[i] == after[i].response->0.time_to_first_byte.spec_millis()
            } by {
                if i < results.len() {
                    assert(after[i] == results[i]);
                }
            }
        }
    }
}

/// The message on a baseline request that failed.
pub open spec fn failure_message(sequence: usize, error: Seq<char>) -> Seq<char> {
    "  [!] baseline request "@ + text::decimal_digits(sequence as nat) + " failed: "@ + error
}

/// Settles one baseline request. An answer is recorded; a failure is not, and
/// gives a message where the output is verbose.
pub fn settle_request(
    tally: &mut BaselineTally,
    outcome: Result<(HttpRequest, HttpResponse), (HttpRequest, String)>,
    sequence: usize,
    payload_byte_len: usize,
    verbose: bool,
) -> (message: Option<String>)
    requires
        old(tally).wf(),
        old(tally).request_results@.len() < usize::MAX,
    ensures
        final(tally).wf(),
        match outcome {
            Ok((request, response)) => {
                &&& message is None
                &&& final(tally).request_results@ == old(tally).request_results@.push(
                    (RequestResult {
                        request,
                        response: Some(response),
                        error: None,
                        sequence,
                        payload_byte_len,
                    }),
                )
            },
            Err((_, e)) => {
                &&& *final(tally) == *old(tally)
                &&& text::opt_text(message) == (if verbose {
                    Some(failure_message(sequence, e@))
                } else {
                    None
                })
            },
        },
{
    match outcome {
        Ok((request, response)) => {
            tally.record(request, response, sequence, payload_byte_len);
            None
        },
        Err((_, e)) => {
            if verbose {
                let mut message = join3(
                    "  [!] baseline request ",
                    decimal(sequence as u128).as_str(),
                    " failed: ",
                );
                message.append(e.as_str());
                Some(message)
            } else {
                None
            }
        },
    }
}

/// The share, in percent, above which the status codes count as consistent.
pub const STATUS_THRESHOLD: u128 = 95;

/// How `part` of `whole` compares with the threshold; a share of nothing is
/// below it.
pub open spec fn share_standing(part: nat, whole: nat) -> Standing {
    if whole == 0 || 100 * part < STATUS_THRESHOLD * whole {
        Standing::Below
    } else if 100 * part == STATUS_THRESHOLD * whole {
        Standing::At
    } else {
        Standing::Above
    }
}

/// How a share compares with the threshold for status codes.
fn compare_share(part: usize, whole: usize) -> (standing: Standing)
    ensures
        standing == share_standing(part as nat, whole as nat),
{
    let a = 100 * (part as u128);
    let b = STATUS_THRESHOLD * (whole as u128);
    if whole == 0 || a < b {
        Standing::Below
    } else if a == b {
        Standing::At
    } else {
        Standing::Above
    }
}

/// A baseline in which every answer has the same status code is above the
/// threshold.
pub proof fn one_status_is_consistent(n: nat)
    requires
        n > 0,
    ensures
        share_standing(n, n) == Standing::Above,
{
}

/// Two numbers whose difference is at most this part of the limit are a close
/// call: the rounding of floating point may decide how they compare. Numbers
/// further apart compare in floating point as they do exactly.
pub const CLOSE_CALL: u128 = 1_000_000;

/// The length at position `i` deviates from the mean by more than a tenth of
/// the mean. A close call goes by what was computed in floating point. Where
/// the mean is zero nothing deviates from it.
pub open spec fn far_from_mean(lengths: Seq<usize>, i: int, computed: bool) -> bool {
    let n = lengths.len() as int;
    let sum = numbers::total(numbers::widened(lengths)) as int;
    let gap = sum / CLOSE_CALL as int;
    let off = if lengths[i] * n >= sum {
        lengths[i] * n - sum
    } else {
        sum - lengths[i] * n
    };
    if sum == 0 || 10 * off + gap < sum {
        false
    } else if 10 * off > sum + gap {
        true
    } else {
        computed
    }
}

/// The positions of the lengths that deviate from the mean by more than a
/// tenth of it; `far` says so of each length, as computed in floating point.
fn length_outliers(lengths: &[usize], far: &[bool]) -> (outliers: Vec<usize>)
    requires
        far@.len() == lengths@.len(),
    ensures
        positions::lists(
            outliers@,
            lengths@.len() as int,
            |i: int| far_from_mean(lengths@, i, far@[i]),
        ),
{
    let wide = widen(lengths);
    let sum = sum_of(wide.as_slice());
    let n = lengths.len() as u128;
    let gap: u128 = sum / CLOSE_CALL;
    let above: u128 = sum / 10 + (sum % 10 + gap) / 10;
    let mut outliers: Vec<usize> = Vec::new();
    let mut i: usize = 0;
    while i < lengths.len()
        invariant
            i <= lengths.len(),
            far@.len() == lengths@.len(),
            n == lengths@.len(),
            n <= 0xffff_ffff_ffff_ffff,
            sum == numbers::total(numbers::widened(lengths@)),
            gap == sum / CLOSE_CALL,
            above == sum / 10 + (sum % 10 + gap) / 10,
            positions::lists(
                outliers@,
                i as int,
                |i: int| far_from_mean(lengths@, i, far@[i]),
            ),
        decreases lengths.len() - i,
    {
        let l = lengths[i] as u128;
        proof {
            assert(l * n <= 0xffff_ffff_ffff_ffff * 0xffff_ffff_ffff_ffff) by (nonlinear_arith)
                requires
                    l <= 0xffff_ffff_ffff_ffff,
                    n <= 0xffff_ffff_ffff_ffff,
            ;
        }
        let scaled: u128 = l * n;
        let off: u128 = if scaled >= sum {
            scaled - sum
        } else {
            sum - scaled
        };
        let deviates: bool = if sum == 0 || off <= (sum - gap - 1) / 10 {
            false
        } else if off > above {
            true
        } else {
            far[i]
        };
        assert(deviates == far_from_mean(lengths@, i as int, far@[i as int]));
        if deviates {
            let ghost before = outliers@;
            outliers.push(i);
            proof {
                positions::push_lists(
                    before,
                    i,
                    |i: int| far_from_mean(lengths@, i, far@[i]),
                );
            }
        } else {
            proof {
                positions::skip_lists(
                    outliers@,
                    i,
                    |i: int| far_from_mean(lengths@, i, far@[i]),
                );
            }
        }
        i += 1;
    }
    outliers
}

/// The sum of the squares of the values.
pub open spec fn square_total(values: Seq<u64>) -> nat
    decreases values.len(),
{
    if values.len() == 0 {
        0
    } else {
        square_total(values.drop_last()) + values.last() as nat * values.last() as nat
    }
}

/// A hundred times the mean of the squares, times the square of the number of
/// values.
pub open spec fn spread_left(lengths: Seq<usize>) -> nat {
    let values = numbers::widened(lengths);
    100 * (values.len() * square_total(values))
}

/// A hundred and one times the square of the mean, times the square of the
/// number of values.
pub open spec fn spread_right(lengths: Seq<usize>) -> nat {
    let values = numbers::widened(lengths);
    101 * (numbers::total(values) * numbers::total(values))
}

/// How the lengths compare with the threshold: one minus their coefficient of
/// variation against nine tenths. The coefficient is below a tenth exactly
/// where the variance is below a hundredth of the square of the mean, that is,
/// where a hundred times the mean of the squares is below a hundred and one
/// times the square of the mean. A close call goes by what was computed in
/// floating point. A single length is above the threshold; no lengths, and
/// lengths that are all zero, are below it.
pub open spec fn length_standing(lengths: Seq<usize>, computed: Standing) -> Standing {
    let left = spread_left(lengths);
    let right = spread_right(lengths);
    let gap = right / CLOSE_CALL as nat;
    if lengths.len() == 0 {
        Standing::Below
    } else if lengths.len() == 1 {
        Standing::Above
    } else if numbers::total(numbers::widened(lengths)) == 0 {
        Standing::Below
    } else if left + gap < right {
        Standing::Above
    } else if left > right + gap {
        Standing::Below
    } else {
        computed
    }
}

/// The numbers that decide how the lengths compare, where any are needed, fit
/// in 128 bits.
pub open spec fn spread_fits(lengths: Seq<usize>) -> bool {
    ||| lengths.len() <= 1
    ||| numbers::total(numbers::widened(lengths)) == 0
    ||| spread_left(lengths) <= u128::MAX && spread_right(lengths) <= u128::MAX
}

/// Leading values have no larger sum of squares than all values.
proof fn square_total_grows(values: Seq<u64>, k: int)
    requires
        0 <= k <= values.len(),
    ensures
        square_total(values.take(k)) <= square_total(values),
    decreases values.len() - k,
{
    if k == values.len() {
        assert(values.take(k) =~= values);
    } else {
        square_total_grows(values, k + 1);
        assert(values.take(k + 1).drop_last() =~= values.take(k));
        let last = values[k] as int;
        assert(last * last >= 0) by (nonlinear_arith);
    }
}

/// Adds up the squares of values; `None` where the sum takes more than 128
/// bits.
fn sum_of_squares(values: &[u64]) -> (sum: Option<u128>)
    ensures
        match sum {
            Some(q) => q == square_total(values@),
            None => square_total(values@) > u128::MAX,
        },
{
    let mut sum: u128 = 0;
    let mut i: usize = 0;
    while i < values.len()
        invariant
            i <= values.len(),
            sum == square_total(values@.take(i as int)),
        decreases values.len() - i,
    {
        let v = values[i] as u128;
        proof {
            assert(values@.take(i + 1).drop_last() =~= values@.take(i as int));
            square_total_grows(values@, i + 1);
            assert(v * v <= 0xffff_ffff_ffff_ffff * 0xffff_ffff_ffff_ffff) by (nonlinear_arith)
                requires
                    v <= 0xffff_ffff_ffff_ffff,
            ;
        }
        sum = match sum.checked_add(v * v) {
            Some(next) => next,
            None => {
                return None;
            },
        };
        i += 1;
    }
    assert(values@.take(values@.len() as int) =~= values@);
    Some(sum)
}

/// How the lengths compare with the threshold, given what was computed in
/// floating point; that is also taken where the numbers that decide it do not
/// fit in 128 bits.
fn compare_lengths(lengths: &[usize], computed: Standing) -> (standing: Standing)
    ensures
        standing == (if spread_fits(lengths@) {
            length_standing(lengths@, computed)
        } else {
            computed
        }),
{
    let wide = widen(lengths);
    let n = lengths.len() as u128;
    let ghost values = numbers::widened(lengths@);
    let ghost q = square_total(values) as int;
    if lengths.len() == 0 {
        return Standing::Below;
    }
    if lengths.len() == 1 {
        return Standing::Above;
    }
    let sum = sum_of(wide.as_slice());
    if sum == 0 {
        return Standing::Below;
    }
    let squares = match sum_of_squares(wide.as_slice()) {
        Some(squares) => squares,
        None => {
            assert(100 * (values.len() * q) >= q) by (nonlinear_arith)
                requires
                    values.len() >= 1,
                    q >= 0,
            ;
            return computed;
        },
    };
    let left = match n.checked_mul(squares) {
        Some(product) => match product.checked_mul(100) {
            Some(left) => left,
            None => {
                return computed;
            },
        },
        None => {
            return computed;
        },
    };
    let right = match sum.checked_mul(sum) {
        Some(product) => match product.checked_mul(101) {
            Some(right) => right,
            None => {
                return computed;
            },
        },
        None => {
            return computed;
        },
    };
    let gap: u128 = right / CLOSE_CALL;
    if left < right && right - left > gap {
        Standing::Above
    } else if left > right && left - right > gap {
        Standing::Below
    } else {
        computed
    }
}

/// Lengths that are all the same, and not zero, are above the threshold, and
/// none of them is far from the mean, whatever was computed.
pub proof fn equal_lengths_are_consistent(lengths: Seq<usize>, length: usize)
    requires
        lengths.len() > 0,
        length > 0,
        forall|i: int| 0 <= i < lengths.len() ==> #[trigger] lengths[i] == length,
    ensures
        forall|computed: Standing| #[trigger]
            length_standing(lengths, computed) == Standing::Above,
        forall|i: int, computed: bool|
            0 <= i < lengths.len() ==> !#[trigger] far_from_mean(lengths, i, computed),
{
    let values = numbers::widened(lengths);
    let n = values.len() as int;
    let l = length as int;
    assert forall|i: int| 0 <= i < values.len() implies #[trigger] values[i] == length as u64 by {
        assert(lengths[i] == length);
    }
    totals_of_equal(values, length as u64);
    let s = numbers::total(values) as int;
    let q = square_total(values) as int;
    assert(s > 0 && n * q == s * s && s * s > 0) by (nonlinear_arith)
        requires
            n > 0,
            l > 0,
            s == n * l,
            q == n * (l * l),
    ;
    assert forall|i: int, computed: bool| 0 <= i < lengths.len() implies !#[trigger] far_from_mean(
        lengths,
        i,
        computed,
    ) by {
        assert(lengths[i] * n == s) by (nonlinear_arith)
            requires
                lengths[i] == l,
                s == n * l,
        ;
    }
}

/// The sums over values that are all the same.
proof fn totals_of_equal(values: Seq<u64>, v: u64)
    requires
        forall|i: int| 0 <= i < values.len() ==> #[trigger] values[i] == v,
    ensures
        numbers::total(values) == values.len() * v,
        square_total(values) == values.len() * (v * v),
    decreases values.len(),
{
    let n = values.len() as int;
    let w = v as int;
    if n > 0 {
        let rest = values.drop_last();
        assert forall|i: int| 0 <= i < rest.len() implies #[trigger] rest[i] == v by {
            assert(rest[i] == values[i]);
        }
        totals_of_equal(rest, v);
        assert(values[n - 1] == v);
        assert((n - 1) * w + w == n * w && (n - 1) * (w * w) + w * w == n * (w * w))
            by (nonlinear_arith);
    }
}

/// How consistent the response lengths are: the computed percentage, given at
/// least two lengths, with the computed standing only where it is a close call
/// or the numbers do not fit; a single length is consistent, and no length is
/// not.
pub open spec fn length_consistency(lengths: Seq<usize>, computed: (Seq<char>, Standing)) -> (
    Seq<char>,
    Standing,
) {
    if lengths.len() == 0 {
        ("0.0"@, Standing::Below)
    } else if lengths.len() == 1 {
        ("100.0"@, Standing::Above)
    } else if spread_fits(lengths) {
        (computed.0, length_standing(lengths, computed.1))
    } else {
        computed
    }
}

impl BaselineResult {
    /// The outcome that the recorded answers come to, given how consistent
    /// they are.
    pub open spec fn concludes(
        self,
        tally: BaselineTally,
        status_percent: Seq<char>,
        computed: (Seq<char>, Standing),
        far: Seq<bool>,
    ) -> bool {
        let n = tally.request_results@.len();
        let status = self.status_code_consistency;
        let length = self.response_length_consistency;
        &&& self.request_count == n
        &&& status.percent@ == status_percent
        &&& exists|most: nat|
            is_highest(tally.status_codes@, most) && status.standing == #[trigger] share_standing(
                most,
                n,
            )
        &&& (length.percent@, length.standing) == length_consistency(
            tally.response_lengths@,
            computed,
        )
        &&& self.stable == (n > 0 && status.standing == Standing::Above && length.standing
            == Standing::Above)
        &&& self.average_ttfb_ms == numbers::mean(tally.ttfbs@)
        &&& self.status_codes@ == tally.status_codes@
        &&& self.response_lengths@ == tally.response_lengths@
        &&& self.ttfbs@ == tally.ttfbs@
        &&& positions::lists(
            self.outliers@,
            n as int,
            |i: int| far_from_mean(tally.response_lengths@, i, far[i]),
        )
        &&& self.request_results@ == tally.request_results@
    }
}

/// The highest of the counts; zero where nothing is counted.
pub open spec fn is_highest(counts: Map<u16, usize>, most: nat) -> bool {
    &&& forall|code: u16| #[trigger] counts.contains_key(code) ==> counts[code] <= most
    &&& most > 0 ==> exists|code: u16| #[trigger]
        counts.contains_key(code) && counts[code] == most
}

/// Concludes the baseline. `status_percent` is the share of the most common
/// status code as a percentage. What was computed in floating point is
/// `computed`, one minus the coefficient of variation of the lengths, and
/// `far`, whether each length is more than a tenth of the mean away from it.
/// The percentage is reported where there are at least two lengths; the rest
/// decides only close calls, and lengths too large to decide exactly.
pub fn conclude_baseline(
    tally: BaselineTally,
    status_percent: String,
    computed: Consistency,
    far: &[bool],
) -> (result: BaselineResult)
    requires
        tally.wf(),
        far@.len() == tally.response_lengths@.len(),
    ensures
        result.concludes(
            tally,
            status_percent@,
            (computed.percent@, computed.standing),
            far@,
        ),
{
    let n = tally.request_results.len();
    let highest = highest_count(&tally.status_codes);
    assert(is_highest(tally.status_codes@, highest as nat));
    let status_code_consistency = Consistency {
        percent: status_percent,
        standing: compare_share(highest, n),
    };
    let response_length_consistency = if n == 0 {
        Consistency { percent: "0.0".to_owned(), standing: Standing::Below }
    } else if n == 1 {
        Consistency { percent: "100.0".to_owned(), standing: Standing::Above }
    } else {
        let standing = compare_lengths(tally.response_lengths.as_slice(), computed.standing);
        Consistency { percent: computed.percent, standing }
    };
    let stable = n > 0 && status_code_consistency.standing == Standing::Above
        && response_length_consistency.standing == Standing::Above;
    let outliers = length_outliers(tally.response_lengths.as_slice(), far);
    let average_ttfb_ms = mean_of(tally.ttfbs.as_slice());
    BaselineResult {
        request_count: n,
        stable,
        status_code_consistency,
        response_length_consistency,
        average_ttfb_ms,
        status_codes: tally.status_codes,
        response_lengths: tally.response_lengths,
        ttfbs: tally.ttfbs,
        outliers,
        request_results: tally.request_results,
    }
}

impl BaselineResult {
    /// No requests, and nothing that speaks against stability.
    pub open spec fn is_skipped(self) -> bool {
        &&& self.request_count == 0
        &&& self.stable
        &&& self.status_code_consistency.percent@ == "100.0"@
        &&& self.status_code_consistency.standing == Standing::Above
        &&& self.response_length_consistency.percent@ == "100.0"@
        &&& self.response_length_consistency.standing == Standing::Above
        &&& self.average_ttfb_ms == 0
        &&& self.status_codes@ == Map::<u16, usize>::empty()
        &&& self.response_lengths@.len() == 0
        &&& self.ttfbs@.len() == 0
        &&& self.outliers@.len() == 0
        &&& self.request_results@.len() == 0
    }
}

/// The outcome of a baseline that is skipped.
pub fn skipped_baseline() -> (result: BaselineResult)
    ensures
        result.is_skipped(),
{
    BaselineResult {
        request_count: 0,
        stable: true,
        status_code_consistency: Consistency {
            percent: "100.0".to_owned(),
            standing: Standing::Above,
        },
        response_length_consistency: Consistency {
            percent: "100.0".to_owned(),
            standing: Standing::Above,
        },
        average_ttfb_ms: 0,
        status_codes: HashMap::new(),
        response_lengths: Vec::new(),
        ttfbs: Vec::new(),
        outliers: Vec::new(),
        request_results: Vec::new(),
    }
}

/// What the baseline begins with.
#[derive(Debug, Clone)]
pub enum BaselineStart {
    /// Nothing is sent, and this is the outcome.
    Skipped(BaselineResult),
    /// This request is repeated.
    Go(BaselinePlan),
}

/// Decides how the baseline begins.
pub fn start_baseline(args: &Args) -> (start: BaselineStart)
    ensures
        match start {
            BaselineStart::Skipped(result) => args.skip_baseline && result.is_skipped(),
            BaselineStart::Go(plan) => !args.skip_baseline && plan.repeats(*args),
        },
{
    if args.skip_baseline {
        BaselineStart::Skipped(skipped_baseline())
    } else {
        BaselineStart::Go(plan_baseline(args))
    }
}

/// The line that announces the baseline.
pub fn start_line(count: usize) -> (line: String)
    ensures
        line@ == "Running baseline with "@ + text::decimal_digits(count as nat)
            + " requests..."@,
{
    join3("Running baseline with ", decimal(count as u128).as_str(), " requests...")
}

/// A line with a consistency, where it is below its threshold.
pub open spec fn below_line(
    consistency: Consistency,
    before: Seq<char>,
    after: Seq<char>,
) -> Seq<Seq<char>> {
    if consistency.standing == Standing::Below {
        seq![before + consistency.percent@ + after]
    } else {
        seq![]
    }
}

/// The lines that conclude the baseline.
pub open spec fn conclusion(result: BaselineResult) -> Seq<Seq<char>> {
    (if result.stable {
        seq!["Baseline: Endpoint appears stable"@]
    } else {
        seq!["Baseline: Endpoint shows instability - results may vary"@] + below_line(
            result.status_code_consistency,
            "  Status code consistency: "@,
            "%"@,
        ) + below_line(
            result.response_length_consistency,
            "  Response length consistency: "@,
            "%"@,
        )
    }).push("  Average TTFB: "@ + text::duration_text(result.average_ttfb_ms as nat))
}

/// Appends a line with a consistency, where it is below its threshold.
fn push_below(lines: &mut Vec<String>, consistency: &Consistency, before: &str, after: &str)
    ensures
        text::texts(final(lines)@) == text::texts(old(lines)@) + below_line(
            *consistency,
            before@,
            after@,
        ),
{
    if consistency.standing == Standing::Below {
        push_line(lines, join3(before, consistency.percent.as_str(), after));
    }
    assert(text::texts(lines@) =~= text::texts(old(lines)@) + below_line(
        *consistency,
        before@,
        after@,
    ));
}

/// The lines that conclude the baseline.
pub fn conclusion_lines(result: &BaselineResult) -> (lines: Vec<String>)
    ensures
        text::texts(lines@) == conclusion(*result),
{
    let mut lines: Vec<String> = Vec::new();
    if result.stable {
        push_line(&mut lines, "Baseline: Endpoint appears stable".to_owned());
    } else {
        push_line(
            &mut lines,
            "Baseline: Endpoint shows instability - results may vary".to_owned(),
        );
        push_below(
            &mut lines,
            &result.status_code_consistency,
            "  Status code consistency: ",
            "%",
        );
        push_below(
            &mut lines,
            &result.response_length_consistency,
            "  Response length consistency: ",
            "%",
        );
    }
    let mut line = "  Average TTFB: ".to_owned();
    line.append(show_millis(result.average_ttfb_ms).as_str());
    push_line(&mut lines, line);
    assert(text::texts(lines@) =~= conclusion(*result));
    lines
}

/// What is observed of a baseline.
pub open spec fn stability_report(baseline: BaselineResult) -> Seq<Seq<char>> {
    if baseline.request_count == 0 {
        seq!["No baseline requests were made (baseline skipped)."@]
    } else {
        (if baseline.stable {
            seq![
                "Baseline is stable: "@ + text::decimal_digits(baseline.request_count as nat)
                    + " requests with "@ + baseline.status_code_consistency.percent@
                    + "% status code consistency and "@
                    + baseline.response_length_consistency.percent@
                    + "% response length consistency."@,
            ]
        } else {
            below_line(
                baseline.status_code_consistency,
                "Status codes are inconsistent ("@,
                "% consistency). The endpoint may be returning different responses."@,
            ) + below_line(
                baseline.response_length_consistency,
                "Response lengths are inconsistent ("@,
                "% consistency). The endpoint may have dynamic content."@,
            )
        }) + (if baseline.outliers@.len() > 0 {
            seq![
                "Detected "@ + text::decimal_digits(baseline.outliers@.len())
                    + " response(s) with significant length deviation from the mean."@,
            ]
        } else {
            seq![]
        })
    }
}

/// What is observed of a baseline.
pub fn analyze_baseline_stability(baseline: &BaselineResult) -> (observations: Vec<String>)
    ensures
        text::texts(observations@) == stability_report(*baseline),
{
    let mut observations: Vec<String> = Vec::new();
    if baseline.request_count == 0 {
        push_line(
            &mut observations,
            "No baseline requests were made (baseline skipped).".to_owned(),
        );
        assert(text::texts(observations@) =~= stability_report(*baseline));
        return observations;
    }
    if baseline.stable {
        let mut line = join3(
            "Baseline is stable: ",
            decimal(baseline.request_count as u128).as_str(),
            " requests with ",
        );
        line.append(baseline.status_code_consistency.percent.as_str());
        line.append("% status code consistency and ");
        line.append(baseline.response_length_consistency.percent.as_str());
        line.append("% response length consistency.");
        push_line(&mut observations, line);
    } else {
        push_below(
            &mut observations,
            &baseline.status_code_consistency,
            "Status codes are inconsistent (",
            "% consistency). The endpoint may be returning different responses.",
        );
        push_below(
            &mut observations,
            &baseline.response_length_consistency,
            "Response lengths are inconsistent (",
            "% consistency). The endpoint may have dynamic content.",
        );
    }
    if baseline.outliers.len() > 0 {
        push_line(
            &mut observations,
            join3(
                "Detected ",
                decimal(baseline.outliers.len() as u128).as_str(),
                " response(s) with significant length deviation from the mean.",
            ),
        );
    }
    assert(text::texts(observations@) =~= stability_report(*baseline));
    observations
}

/// The baseline sends the request that was given, every span collapsed: the
/// URL, each header key and value, and the body as bytes. A URL that is not
/// given is empty.
pub proof fn the_baseline_collapses_everything(plan: BaselinePlan, args: Args, i: int)
    requires
        plan.repeats(args),
    ensures
        ({
            let m = args.marker@;
            let asked = cli::asked_headers(args);
            let headers = text::pair_texts(plan.headers@);
            &&& baseline_url(args) == plan.url@
            &&& args.url matches Some(url) ==> plan.url@ == marker::collapsed(url@, m)
            &&& args.url is None ==> plan.url@.len() == 0
            &&& headers.len() == asked.len()
            &&& 0 <= i < asked.len() ==> headers[i] == (
                marker::collapsed(asked[i].0, m),
                marker::collapsed(asked[i].1, m),
            )
            &&& args.data matches Some(data) ==> plan.body is Some && plan.body->0@ == encode_utf8(
                marker::collapsed(data@, m),
            )
            &&& args.data is None ==> plan.body is None
        }),
{
    let nothing = Seq::<char>::empty();
    let m = args.marker@;
    marker::next_span_shape(nothing, m, 0);
    marker::span_free_is_unchanged(nothing, m, nothing);
    assert(plan.url@ == baseline_url(args));
}

/// The length of the original value is that of the first span of the URL in
/// bytes; only where the URL has none it is that of the first span of the body;
/// and without either it is zero, whatever the headers hold.
pub proof fn the_original_value_is_measured(plan: BaselinePlan, args: Args)
    requires
        plan.repeats(args),
    ensures
        ({
            let m = encode_utf8(args.marker@);
            let in_url = match args.url {
                Some(url) => marker::first_value(encode_utf8(url@), m),
                None => None,
            };
            let in_body = match args.data {
                Some(data) => marker::first_value(encode_utf8(data@), m),
                None => None,
            };
            &&& in_url matches Some(value) ==> plan.payload_byte_len == value.len()
            &&& in_url is None && in_body is Some ==> plan.payload_byte_len == in_body->0.len()
            &&& in_url is None && in_body is None ==> plan.payload_byte_len == 0
        }),
{
}

/// Answers with a status code are counted piece by piece: a request counts
/// under the code that it was answered with.
pub proof fn answers_are_counted_by_code(
    a: Seq<RequestResult>,
    b: Seq<RequestResult>,
    result: RequestResult,
    code: u16,
)
    ensures
        answered(a + b, code) == answered(a, code) + answered(b, code),
        result.response matches Some(response) ==> (response.status_code == code ==> answered(
            seq![result],
            code,
        ) == 1) && (response.status_code != code ==> answered(seq![result], code) == 0),
        result.response is None ==> answered(seq![result], code) == 0,
    decreases b.len(),
{
    assert(seq![result].drop_last() =~= seq![]);
    assert(answered(seq![result].drop_last(), code) == 0);
    if b.len() == 0 {
        assert(a + b =~= a);
    } else {
        answers_are_counted_by_code(a, b.drop_last(), result, code);
        assert((a + b).drop_last() =~= a + b.drop_last());
    }
}

/// A tally holds, for each answer, the bytes of its body and the whole
/// milliseconds to its first byte, and how many answers had each status code.
pub proof fn tallies_hold_the_answers(tally: BaselineTally, i: int, code: u16)
    requires
        tally.wf(),
    ensures
        tally.response_lengths@.len() == tally.request_results@.len(),
        tally.ttfbs@.len() == tally.request_results@.len(),
        0 <= i < tally.request_results@.len() ==> {
            let result = tally.request_results@[i];
            &&& result.response is Some
            &&& tally.response_lengths@[i] == encode_utf8(result.response->0.body@).len()
            &&& tally.ttfbs@[i] == (result.response->0.time_to_first_byte.nanos / 1_000_000) as u64
        },
        tally.status_codes@.contains_key(code) <==> answered(tally.request_results@, code) > 0,
        tally.status_codes@.contains_key(code) ==> tally.status_codes@[code] == answered(
            tally.request_results@,
            code,
        ),
{
    let results = tally.request_results@;
    if 0 <= i < results.len() {
        assert(results[i].response is Some);
    }
    assert(status::count_of(tally.status_codes@, code) == answered(results, code));
}

/// Status codes are consistent where more than nineteen answers in twenty have
/// the most common one.
pub proof fn nineteen_in_twenty_is_the_threshold(part: nat, whole: nat)
    ensures
        share_standing(part, whole) == Standing::Above <==> whole > 0 && 20 * part > 19 * whole,
        share_standing(part, whole) == Standing::At <==> whole > 0 && 20 * part == 19 * whole,
        share_standing(part, whole) == Standing::Below <==> whole == 0 || 20 * part < 19 * whole,
{
}

/// A length is far from the mean where it is more than a tenth of the mean away
/// from it, above or below. Only where it is a tenth away, to within a
/// millionth, does the computed answer decide; it does where it is a tenth
/// exactly. Nothing is far from a mean of zero.
pub proof fn a_tenth_of_the_mean_is_far(lengths: Seq<usize>, i: int, computed: bool)
    requires
        0 <= i < lengths.len(),
    ensures
        ({
            let n = lengths.len() as int;
            let sum = numbers::total(numbers::widened(lengths)) as int;
            let off = if lengths[i] * n > sum {
                lengths[i] * n - sum
            } else {
                sum - lengths[i] * n
            };
            &&& sum == 0 ==> !far_from_mean(lengths, i, computed)
            &&& sum > 0 && 10_000_000 * off > 1_000_001 * sum ==> far_from_mean(
                lengths,
                i,
                computed,
            )
            &&& 10_000_000 * off < 999_999 * sum ==> !far_from_mean(lengths, i, computed)
            &&& sum > 0 && 10 * off == sum ==> far_from_mean(lengths, i, computed) == computed
        }),
{
}

/// Squares are summed piece by piece, and those of one value are its square.
pub proof fn squares_add_up(a: Seq<u64>, b: Seq<u64>, value: u64)
    ensures
        square_total(a + b) == square_total(a) + square_total(b),
        square_total(seq![value]) == value * value,
        square_total(Seq::<u64>::empty()) == 0,
    decreases b.len(),
{
    assert(seq![value].drop_last() =~= seq![]);
    assert(square_total(seq![value].drop_last()) == 0);
    if b.len() == 0 {
        assert(a + b =~= a);
    } else {
        squares_add_up(a, b.drop_last(), value);
        assert((a + b).drop_last() =~= a + b.drop_last());
    }
}

/// Response lengths are consistent where their standard deviation is below a
/// tenth of their mean. With `n` lengths of sum `sum`, `n * n` times their
/// variance is `n` times the sum of their squares less the square of `sum`, and
/// that is held against a hundredth of the square of `sum`. Only near equality
/// does the computed answer decide. One length is consistent, and none is not,
/// nor are lengths that are all zero.
pub proof fn a_tenth_of_the_mean_is_the_spread(
    lengths: Seq<usize>,
    computed: (Seq<char>, Standing),
)
    ensures
        ({
            let n = lengths.len() as int;
            let values = numbers::widened(lengths);
            let sum = numbers::total(values) as int;
            let spread = n * square_total(values) - sum * sum;
            let decided = length_consistency(lengths, computed);
            let fits = 100 * (n * square_total(values)) <= u128::MAX && 101 * (sum * sum)
                <= u128::MAX;
            &&& n == 0 ==> decided.1 == Standing::Below
            &&& n == 1 ==> decided.1 == Standing::Above
            &&& n >= 2 ==> decided.0 == computed.0
            &&& n >= 2 && sum == 0 ==> decided.1 == Standing::Below
            &&& n >= 2 && sum > 0 && fits && 1_000_000 * (100 * spread) < 999_899 * (sum * sum)
                ==> decided.1 == Standing::Above
            &&& n >= 2 && sum > 0 && fits && 1_000_000 * (100 * spread) > 1_000_101 * (sum * sum)
                ==> decided.1 == Standing::Below
            &&& n >= 2 && sum > 0 && 100 * spread == sum * sum ==> decided.1 == computed.1
        }),
{
    let n = lengths.len() as int;
    let values = numbers::widened(lengths);
    let sum = numbers::total(values) as int;
    let p = n * square_total(values);
    let q = sum * sum;
    assert(values.len() == n);
    assert(spread_left(lengths) == 100 * p);
    assert(spread_right(lengths) == 101 * q);
    assert(q >= 0) by (nonlinear_arith)
        requires
            q == sum * sum,
    ;
}

/// The conclusion of a baseline counts the answers, keeps what was recorded,
/// averages the times, and lists the lengths that are far from the mean. The
/// endpoint is stable exactly where there were answers and both the status
/// codes and the lengths are consistent.
pub proof fn stability_needs_both(
    result: BaselineResult,
    tally: BaselineTally,
    status_percent: Seq<char>,
    computed: (Seq<char>, Standing),
    far: Seq<bool>,
    most: nat,
    i: usize,
)
    requires
        result.concludes(tally, status_percent, computed, far),
        forall|code: u16| #[trigger]
            tally.status_codes@.contains_key(code) ==> tally.status_codes@[code] <= most,
        most == 0 || exists|code: u16| #[trigger]
            tally.status_codes@.contains_key(code) && tally.status_codes@[code] == most,
    ensures
        ({
            let n = tally.request_results@.len();
            &&& result.request_count == n
            &&& result.status_code_consistency.percent@ == status_percent
            &&& result.status_code_consistency.standing == share_standing(most, n)
            &&& result.response_length_consistency.percent@ == length_consistency(
                tally.response_lengths@,
                computed,
            ).0
            &&& result.response_length_consistency.standing == length_consistency(
                tally.response_lengths@,
                computed,
            ).1
            &&& result.stable <==> n > 0 && share_standing(most, n) == Standing::Above
                && length_consistency(tally.response_lengths@, computed).1 == Standing::Above
            &&& result.average_ttfb_ms == numbers::mean(tally.ttfbs@)
            &&& result.response_lengths@ == tally.response_lengths@
            &&& result.ttfbs@ == tally.ttfbs@
            &&& result.status_codes@ == tally.status_codes@
            &&& result.request_results@ == tally.request_results@
            &&& i < n ==> (result.outliers@.contains(i) <==> far_from_mean(
                tally.response_lengths@,
                i as int,
                far[i as int],
            ))
            &&& positions::ascending(result.outliers@)
        }),
{
    let counts = tally.status_codes@;
    let n = tally.request_results@.len();
    let other = choose|other: nat|
        is_highest(counts, other) && result.status_code_consistency.standing
            == #[trigger] share_standing(other, n);
    if other > 0 {
        let code = choose|code: u16| #[trigger]
            counts.contains_key(code) && counts[code] == other;
        assert(counts[code] <= most);
    }
    if most > 0 {
        let code = choose|code: u16| #[trigger] counts.contains_key(code) && counts[code] == most;
        assert(counts[code] <= other);
    }
    assert(most == other);
    positions::lists_hold_what_is_picked(
        result.outliers@,
        n as int,
        |i: int| far_from_mean(tally.response_lengths@, i, far[i]),
        i,
        0,
        0,
    );
}

/// A baseline that is skipped counts as stable, with nothing recorded.
pub proof fn a_skipped_baseline_is_stable(result: BaselineResult)
    requires
        result.is_skipped(),
    ensures
        result.stable,
        result.request_count == 0,
        result.average_ttfb_ms == 0,
        result.status_code_consistency.standing == Standing::Above,
        result.response_length_consistency.standing == Standing::Above,
        result.status_code_consistency.percent@ == "100.0"@,
        result.response_length_consistency.percent@ == "100.0"@,
        result.response_lengths@.len() == 0,
        result.ttfbs@.len() == 0,
        result.outliers@.len() == 0,
        result.request_results@.len() == 0,
        forall|code: u16| !result.status_codes@.contains_key(code),
{
}

/// A failed request is reported with its number and the reason.
pub proof fn failures_are_named(sequence: usize, error: Seq<char>)
    ensures
        failure_message(sequence, error) == "  [!] baseline request "@ + text::decimal_digits(
            sequence as nat,
        ) + " failed: "@ + error,
{
}

/// The lines that conclude a baseline begin with whether it is stable and end
/// with the average time. Between them stand, of an unstable one, the
/// consistencies that are below their thresholds, and of a stable one nothing.
pub proof fn conclusions_name_what_is_below(result: BaselineResult)
    ensures
        ({
            let lines = conclusion(result);
            let status = result.status_code_consistency;
            let length = result.response_length_consistency;
            let low_status = !result.stable && status.standing == Standing::Below;
            let low_length = !result.stable && length.standing == Standing::Below;
            let status_line = "  Status code consistency: "@ + status.percent@ + "%"@;
            let length_line = "  Response length consistency: "@ + length.percent@ + "%"@;
            &&& lines[0] == (if result.stable {
                "Baseline: Endpoint appears stable"@
            } else {
                "Baseline: Endpoint shows instability - results may vary"@
            })
            &&& lines.last() == "  Average TTFB: "@ + text::duration_text(
                result.average_ttfb_ms as nat,
            )
            &&& low_status && low_length ==> lines.len() == 4 && lines[1] == status_line && lines[2]
                == length_line
            &&& low_status && !low_length ==> lines.len() == 3 && lines[1] == status_line
            &&& !low_status && low_length ==> lines.len() == 3 && lines[1] == length_line
            &&& !low_status && !low_length ==> lines.len() == 2
        }),
{
}

/// What is observed of a baseline: that it was skipped, and nothing more; or
/// that it is stable, with its figures; or which consistencies are below their
/// thresholds; and behind that the number of lengths far from the mean, where
/// there are any.
pub proof fn observations_fit_the_baseline(baseline: BaselineResult)
    ensures
        ({
            let lines = stability_report(baseline);
            let status = baseline.status_code_consistency;
            let length = baseline.response_length_consistency;
            let low_status = !baseline.stable && status.standing == Standing::Below;
            let low_length = !baseline.stable && length.standing == Standing::Below;
            let far = baseline.outliers@.len();
            let n = (if baseline.stable || low_status {
                1int
            } else {
                0int
            }) + (if low_length {
                1int
            } else {
                0int
            });
            &&& baseline.request_count == 0 ==> lines == seq![
                "No baseline requests were made (baseline skipped)."@,
            ]
            &&& baseline.request_count > 0 ==> {
                &&& lines.len() == n + (if far > 0 {
                    1int
                } else {
                    0int
                })
                &&& baseline.stable ==> lines[0] == "Baseline is stable: "@ + text::decimal_digits(
                    baseline.request_count as nat,
                ) + " requests with "@ + status.percent@ + "% status code consistency and "@
                    + length.percent@ + "% response length consistency."@
                &&& low_status ==> lines[0] == "Status codes are inconsistent ("@ + status.percent@
                    + "% consistency). The endpoint may be returning different responses."@
                &&& low_length ==> lines[n - 1] == "Response lengths are inconsistent ("@
                    + length.percent@ + "% consistency). The endpoint may have dynamic content."@
                &&& far > 0 ==> lines[n] == "Detected "@ + text::decimal_digits(far)
                    + " response(s) with significant length deviation from the mean."@
            }
        }),
{
}

} // verus!
