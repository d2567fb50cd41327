//! Fuzzing: the request with payload after payload in place of its span.
//!
//! The requests themselves are sent elsewhere. Where the payloads go, what is
//! recorded of the answers, and what the run comes to is decided here.

use std::collections::HashMap;
use vstd::prelude::*;
use vstd::utf8::*;

use crate::baseline;
use crate::baseline::BaselineResult;
use crate::cli;
use crate::cli::Args;
use crate::clustering::{ttfb_baseline_ref, DbscanResult, TtfbBaseline};
use crate::http_client::{HttpResponse, RequestResult, ResponseFeatures};
use crate::marker;
use crate::marker::{has_span, headers_have_span, inject_headers, inject_span, inject_span_str};
use crate::numbers;
use crate::observations::TtfbReference;
use crate::positions;
use crate::ranking;
use crate::ranking::ranking;
use crate::spans_in_text;
use crate::status;
use crate::status::tally;
use crate::text;
use crate::text::{decimal, decode_lossy, join3, pad_left, push_line, shorten};
use crate::wordlist;

verus! {

broadcast use vstd::std_specs::hash::group_hash_axioms;

/// How many responses within reach make a response the core of a cluster.
pub const CLUSTER_MIN_SAMPLES: usize = 3;

/// How many bytes of a payload the progress line shows.
pub const PROGRESS_WIDTH: usize = 30;

/// The outcome of a fuzzing run.
#[derive(Debug, Clone)]
pub struct FuzzingResult {
    pub total_requests: usize,
    pub successful_requests: usize,
    pub failed_requests: usize,
    pub status_codes: HashMap<u16, usize>,
    pub clustering_result: DbscanResult,
    pub response_features: Vec<ResponseFeatures>,
    /// Pearson correlation between input payload length and response content
    /// length, to four decimals. `None` when fewer than 2 successful requests
    /// are available.
    pub payload_length_correlation: Option<String>,
    /// Baseline TTFB reference used to scale the TTFB feature for the
    /// baseline's status family; `None` when unavailable.
    pub ttfb_baseline_ref: Option<TtfbReference>,
}

/// The templates that payloads are injected into.
#[derive(Debug, Clone)]
pub struct FuzzPlan {
    pub url: String,
    pub headers: Vec<(String, String)>,
    pub body: Option<String>,
    pub marker: String,
}

/// A request with a payload in it.
#[derive(Debug, Clone)]
pub struct FuzzRequest {
    pub url: String,
    pub headers: Vec<(String, String)>,
    pub body: Option<Vec<u8>>,
    /// The payload as text.
    pub payload_display: String,
    /// The byte length of the payload.
    pub payload_byte_len: usize,
}

/// What a fuzzing run begins with.
#[derive(Debug, Clone)]
pub enum FuzzStart {
    /// There are no payloads, so there is nothing to send.
    Nothing,
    /// There is no place for the payloads.
    Refused(String),
    /// The payloads go into this request.
    Go(FuzzPlan),
}

/// The URL to fuzz.
pub fn target_url(args: &Args) -> (url: Result<String, String>)
    ensures
        match (args.url, url) {
            (Some(given), Ok(found)) => found@ == given@,
            (None, Err(e)) => e@ == "URL is required for fuzzing"@,
            _ => false,
        },
{
    match &args.url {
        Some(url) => Ok(url.clone()),
        None => Err("URL is required for fuzzing".to_owned()),
    }
}

/// Some header has a span, in its key or its value.
pub open spec fn pairs_spanned(headers: Seq<(Seq<char>, Seq<char>)>, m: Seq<char>) -> bool {
    exists|i: int|
        0 <= i < headers.len() && (marker::spanned((#[trigger] headers[i]).0, m) || marker::spanned(
            headers[i].1,
            m,
        ))
}

/// There is a place for payloads: at least one span in the URL, the body, or a
/// header key or value.
pub open spec fn has_place(args: Args, url: Seq<char>) -> bool {
    ||| marker::spanned(url, args.marker@)
    ||| args.data matches Some(data) && marker::spanned(data@, args.marker@)
    ||| pairs_spanned(cli::asked_headers(args), args.marker@)
}

/// The message where there is no place for payloads.
pub open spec fn no_place(m: Seq<char>) -> Seq<char> {
    "no payload span found in URL, body, or headers: wrap the original value in '"@ + m
        + "' pairs, e.g. ?id=§1§ or -H 'X-Api-Key: §key§'"@
}

/// Whether a text has a span.
fn text_has_span(t: &str, marker_text: &str) -> (found: bool)
    ensures
        found == marker::spanned(t@, marker_text@),
{
    proof {
        spans_in_text::built_alike_whole(t@, marker_text@, None);
    }
    has_span(t.as_bytes(), marker_text.as_bytes())
}

/// Whether a header has a span.
fn pairs_have_span(headers: &[(String, String)], marker_text: &str) -> (found: bool)
    ensures
        found == pairs_spanned(text::pair_texts(headers@), marker_text@),
{
    let marker_bytes = marker_text.as_bytes();
    let found = headers_have_span(headers, marker_bytes);
    proof {
        let m = marker_text@;
        let pairs = text::pair_texts(headers@);
        assert forall|i: int| 0 <= i < headers@.len() implies (marker::text_spanned(
            (#[trigger] headers@[i]).0@,
            marker_bytes@,
        ) == marker::spanned(pairs[i].0, m)) && (marker::text_spanned(
            headers@[i].1@,
            marker_bytes@,
        ) == marker::spanned(pairs[i].1, m)) by {
            spans_in_text::built_alike_whole(headers@[i].0@, m, None);
            spans_in_text::built_alike_whole(headers@[i].1@, m, None);
        }
        if found {
            let i = choose|i: int|
                0 <= i < headers@.len() && (marker::text_spanned(
                    (#[trigger] headers@[i]).0@,
                    marker_bytes@,
                ) || marker::text_spanned(headers@[i].1@, marker_bytes@));
            assert(marker::spanned(pairs[i].0, m) || marker::spanned(pairs[i].1, m));
        }
        if pairs_spanned(pairs, m) {
            let i = choose|i: int|
                0 <= i < pairs.len() && (marker::spanned((#[trigger] pairs[i]).0, m)
                    || marker::spanned(pairs[i].1, m));
            assert(marker::text_spanned(headers@[i].0@, marker_bytes@) || marker::text_spanned(
                headers@[i].1@,
                marker_bytes@,
            ));
        }
    }
    found
}

impl FuzzPlan {
    /// The templates are the URL, and the headers and the body of the
    /// arguments.
    pub open spec fn injects_into(self, args: Args, url: Seq<char>) -> bool {
        &&& self.url@ == url
        &&& text::pair_texts(self.headers@) == cli::asked_headers(args)
        &&& text::opt_text(self.body) == text::opt_text(args.data)
        &&& self.marker@ == args.marker@
    }
}

/// Decides how a run begins. Fuzzing requires at least one marker span in the
/// URL, body, or a header key or value; without it there is nowhere to inject
/// the payloads.
pub fn start_fuzzing(args: &Args, url: &str, payloads: usize) -> (start: FuzzStart)
    ensures
        match start {
            FuzzStart::Nothing => payloads == 0,
            FuzzStart::Refused(why) => {
                &&& payloads > 0
                &&& !has_place(*args, url@)
                &&& why@ == no_place(args.marker@)
            },
            FuzzStart::Go(plan) => {
                &&& payloads > 0
                &&& has_place(*args, url@)
                &&& plan.injects_into(*args, url@)
            },
        },
{
    if payloads == 0 {
        return FuzzStart::Nothing;
    }
    let headers = args.parse_headers();
    let marker_text = args.marker.as_str();
    let in_body = match &args.data {
        Some(data) => text_has_span(data.as_str(), marker_text),
        None => false,
    };
    if !text_has_span(url, marker_text) && !in_body && !pairs_have_span(
        headers.as_slice(),
        marker_text,
    ) {
        return FuzzStart::Refused(
            join3(
                "no payload span found in URL, body, or headers: wrap the original value in '",
                marker_text,
                "' pairs, e.g. ?id=§1§ or -H 'X-Api-Key: §key§'",
            ),
        );
    }
    FuzzStart::Go(
        FuzzPlan {
            url: url.to_owned(),
            headers,
            body: match &args.data {
                Some(data) => Some(data.clone()),
                None => None,
            },
            marker: args.marker.clone(),
        },
    )
}

/// The headers with a payload injected into the first span of each key and
/// value.
pub open spec fn injected_pairs(
    headers: Seq<(Seq<char>, Seq<char>)>,
    m: Seq<u8>,
    payload: Seq<u8>,
) -> Seq<(Seq<char>, Seq<char>)> {
    headers.map_values(
        |p: (Seq<char>, Seq<char>)|
            (marker::part_injected(p.0, m, payload), marker::part_injected(p.1, m, payload)),
    )
}

impl FuzzRequest {
    /// The request that a payload makes of a plan. The payload goes into the
    /// body byte by byte, into the URL as text, and into the headers as bytes
    /// that are then read as text.
    pub open spec fn carries(self, plan: FuzzPlan, payload: Seq<u8>) -> bool {
        let m = encode_utf8(plan.marker@);
        &&& self.payload_display@ == text::utf8_lossy(payload)
        &&& self.payload_byte_len == payload.len()
        &&& self.url@ == marker::injected(plan.url@, plan.marker@, text::utf8_lossy(payload))
        &&& text::pair_texts(self.headers@) == injected_pairs(
            text::pair_texts(plan.headers@),
            m,
            payload,
        )
        &&& match (plan.body, self.body) {
            (Some(template), Some(body)) => body@ == marker::injected(
                encode_utf8(template@),
                m,
                payload,
            ),
            (None, None) => true,
            _ => false,
        }
    }
}

/// Puts a payload into the request.
pub fn inject_payload(plan: &FuzzPlan, payload: &[u8]) -> (request: FuzzRequest)
    ensures
        request.carries(*plan, payload@),
        valid_utf8(payload@) ==> request.payload_display@ == decode_utf8(payload@),
{
    let marker_bytes = plan.marker.as_str().as_bytes();
    let payload_display = decode_lossy(payload);
    let url = inject_span_str(plan.url.as_str(), plan.marker.as_str(), payload_display.as_str());
    let headers = inject_headers(plan.headers.as_slice(), marker_bytes, payload);
    proof {
        let templates = text::pair_texts(plan.headers@);
        let expected = injected_pairs(templates, encode_utf8(plan.marker@), payload@);
        assert forall|i: int| 0 <= i < headers@.len() implies #[trigger] text::pair_texts(
            headers@,
        )[i] == expected[i] by {
            assert(headers@[i].0@ == marker::part_injected(
                plan.headers@[i].0@,
                marker_bytes@,
                payload@,
            ));
            assert(templates[i] == (plan.headers@[i].0@, plan.headers@[i].1@));
        }
        assert(text::pair_texts(headers@) =~= expected);
    }
    let body = match &plan.body {
        Some(template) => Some(inject_span(template.as_str().as_bytes(), marker_bytes, payload)),
        None => None,
    };
    FuzzRequest { url, headers, body, payload_display, payload_byte_len: payload.len() }
}

/// The word to send after `sent` words: the next one in the list, until all are
/// sent.
pub open spec fn next_word(words: Seq<Vec<u8>>, sent: int) -> Option<Seq<u8>> {
    if 0 <= sent < words.len() {
        Some(words[sent]@)
    } else {
        None
    }
}

/// The request to send after `sent` requests; `None` where every word of the
/// list had one.
pub fn next_request(plan: &FuzzPlan, words: &[Vec<u8>], sent: usize) -> (request: Option<
    FuzzRequest,
>)
    ensures
        match (next_word(words@, sent as int), request) {
            (Some(word), Some(r)) => r.carries(*plan, word),
            (None, None) => true,
            _ => false,
        },
{
    if sent < words.len() {
        Some(inject_payload(plan, words[sent].as_slice()))
    } else {
        None
    }
}

/// The words of the requests from the one after `sent` requests on.
pub open spec fn words_sent(words: Seq<Vec<u8>>, sent: int) -> Seq<Seq<u8>>
    decreases words.len() - sent,
{
    match next_word(words, sent) {
        Some(word) => seq![word] + words_sent(words, sent + 1),
        None => seq![],
    }
}

/// Every word of the list is sent in one request, in the order of the list.
pub proof fn one_request_per_word(words: Seq<Vec<u8>>)
    ensures
        words_sent(words, 0) == wordlist::byte_lists(words),
{
    words_sent_from(words, 0);
    assert(wordlist::byte_lists(words).skip(0) =~= wordlist::byte_lists(words));
}

/// The words that are left are sent in order.
proof fn words_sent_from(words: Seq<Vec<u8>>, sent: int)
    requires
        0 <= sent <= words.len(),
    ensures
        words_sent(words, sent) == wordlist::byte_lists(words).skip(sent),
    decreases words.len() - sent,
{
    let all = wordlist::byte_lists(words);
    if sent < words.len() {
        words_sent_from(words, sent + 1);
        assert(all.skip(sent) =~= seq![all[sent]] + all.skip(sent + 1));
    } else {
        assert(all.skip(sent) =~= seq![]);
    }
}

/// How many requests are under way at a time, at most: as many as asked for,
/// and at least one.
pub fn requests_at_a_time(args: &Args) -> (limit: usize)
    ensures
        limit == (if args.threads <= 1 {
            1
        } else {
            args.threads
        }),
{
    if args.threads <= 1 {
        1
    } else {
        args.threads
    }
}

/// What is sent for a word is planned by the arguments alone: the payload goes
/// into the URL, the headers and the body that they give.
pub proof fn word_goes_into_the_arguments(
    args: Args,
    url: Seq<char>,
    plan: FuzzPlan,
    request: FuzzRequest,
    word: Seq<u8>,
)
    requires
        plan.injects_into(args, url),
        request.carries(plan, word),
    ensures
        request.url@ == marker::injected(url, args.marker@, text::utf8_lossy(word)),
        text::pair_texts(request.headers@) == injected_pairs(
            cli::asked_headers(args),
            encode_utf8(args.marker@),
            word,
        ),
        match args.data {
            Some(data) => request.body is Some && request.body->0@ == marker::injected(
                encode_utf8(data@),
                encode_utf8(args.marker@),
                word,
            ),
            None => request.body is None,
        },
        request.payload_byte_len == word.len(),
{
}

/// A payload that reads as the original value of the URL requests the URL that
/// the baseline requests.
pub proof fn original_payload_is_the_baseline(
    args: Args,
    plan: FuzzPlan,
    request: FuzzRequest,
    payload: Seq<u8>,
)
    requires
        args.url matches Some(url) && plan.url@ == url@,
        plan.marker@ == args.marker@,
        request.carries(plan, payload),
        marker::first_value(plan.url@, plan.marker@) == Some(request.payload_display@),
    ensures
        request.url@ == baseline::baseline_url(args),
{
    marker::injecting_the_original_is_the_baseline(plan.url@, plan.marker@);
}

/// Without a span in the URL, every payload requests the same URL: the one
/// that was given.
pub proof fn spanless_url_is_kept(plan: FuzzPlan, request: FuzzRequest, payload: Seq<u8>)
    requires
        request.carries(plan, payload),
        !marker::spanned(plan.url@, plan.marker@),
    ensures
        request.url@ == plan.url@,
{
    marker::span_free_is_unchanged(plan.url@, plan.marker@, request.payload_display@);
}

/// The progress line of an answered request.
pub open spec fn answered_message(status: u16, millis: nat, payload: Seq<char>) -> Seq<char> {
    text::padded(text::decimal_digits(status as nat), 3) + " "@ + text::padded(
        text::decimal_digits(millis),
        4,
    ) + "ms "@ + text::shortened(payload, PROGRESS_WIDTH as nat)
}

/// The progress line of a request that failed.
pub open spec fn failed_message(payload: Seq<char>) -> Seq<char> {
    text::shortened(payload, PROGRESS_WIDTH as nat) + " ERR"@
}

/// The progress line after a request: status, duration and payload, or the
/// payload and that it failed.
pub fn progress_message(response: &Option<HttpResponse>, payload: &str) -> (message: String)
    ensures
        message@ == (match *response {
            Some(r) => answered_message(
                r.status_code,
                (r.total_time.nanos / 1_000_000) as nat,
                payload@,
            ),
            None => failed_message(payload@),
        }),
{
    let shown = shorten(payload, PROGRESS_WIDTH);
    match response {
        Some(r) => {
            let mut message = pad_left(decimal(r.status_code as u128).as_str(), 3);
            message.append(" ");
            message.append(pad_left(decimal(r.total_time.whole_millis()).as_str(), 4).as_str());
            message.append("ms ");
            message.append(shown.as_str());
            message
        },
        None => {
            let mut message = shown;
            message.append(" ERR");
            message
        },
    }
}

/// What was recorded of the requests so far.
#[derive(Debug, Clone)]
pub struct FuzzTally {
    pub status_codes: HashMap<u16, usize>,
    pub successful: usize,
    pub failed: usize,
    pub request_results: Vec<RequestResult>,
}

/// How many of the requests were answered.
pub open spec fn answers(results: Seq<RequestResult>) -> nat
    decreases results.len(),
{
    if results.len() == 0 {
        0
    } else {
        answers(results.drop_last()) + (if results.last().response is Some {
            1nat
        } else {
            0nat
        })
    }
}

impl FuzzTally {
    /// The counts are those of the recorded requests.
    pub open spec fn wf(self) -> bool {
        &&& self.successful == answers(self.request_results@)
        &&& self.successful + self.failed == self.request_results@.len()
        &&& baseline::counts_answers(self.status_codes@, self.request_results@)
    }

    /// Nothing recorded yet.
    pub fn new() -> (tally: FuzzTally)
        ensures
            tally.wf(),
            tally.request_results@.len() == 0,
    {
        FuzzTally {
            status_codes: HashMap::new(),
            successful: 0,
            failed: 0,
            request_results: Vec::new(),
        }
    }

    /// Records what became of a request.
    pub fn record(&mut self, result: RequestResult)
        requires
            old(self).wf(),
            old(self).request_results@.len() < usize::MAX,
        ensures
            final(self).wf(),
            final(self).request_results@ == old(self).request_results@.push(result),
    {
        let ghost results = self.request_results@;
        let ghost counts = self.status_codes@;
        match &result.response {
            Some(response) => {
                proof {
                    baseline::answered_bound(results, response.status_code);
                    assert(status::count_of(counts, response.status_code) == baseline::answered(
                        results,
                        response.status_code,
                    ));
                }
                tally(&mut self.status_codes, response.status_code);
                self.successful = self.successful + 1;
            },
            None => {
                self.failed = self.failed + 1;
            },
        }
        self.request_results.push(result);
        proof {
            let after = self.request_results@;
            assert(after.drop_last() =~= results);
            assert forall|c: u16| #[trigger]
                status::count_of(self.status_codes@, c) == baseline::answered(after, c) by {
                assert(status::count_of(counts, c) == baseline::answered(results, c));
            }
        }
    }
}

/// The sequence numbers of the requests.
pub open spec fn sequences(results: Seq<RequestResult>) -> Seq<u128> {
    results.map_values(|r: RequestResult| r.sequence as u128)
}

/// Of the positions in the given order, those whose requests were answered.
pub open spec fn answered_positions(results: Seq<RequestResult>, order: Seq<usize>) -> Seq<usize>
    decreases order.len(),
{
    if order.len() == 0 {
        seq![]
    } else if results[order.last() as int].response is Some {
        answered_positions(results, order.drop_last()).push(order.last())
    } else {
        answered_positions(results, order.drop_last())
    }
}

/// The features of an answered request: what the response shows, its length
/// without that of the payload, and the payload as text.
pub open spec fn features_of(
    feature: ResponseFeatures,
    result: RequestResult,
    words: Seq<Vec<u8>>,
) -> bool {
    &&& result.response is Some
    &&& feature.shown_by(result.response->0)
    &&& feature.content_length_minus_payload == (encode_utf8(result.response->0.body@).len()
        - result.payload_byte_len) as i64
    &&& text::opt_text(feature.payload) == Some(text::utf8_lossy(words[result.sequence as int]@))
}

/// The features of the answered requests, in the order of their sequence
/// numbers.
pub open spec fn are_features(
    features: Seq<ResponseFeatures>,
    results: Seq<RequestResult>,
    words: Seq<Vec<u8>>,
    order: Seq<usize>,
) -> bool {
    let at = answered_positions(results, order);
    &&& features.len() == at.len()
    &&& forall|k: int|
        #![trigger features[k]]
        0 <= k < features.len() ==> features_of(features[k], results[at[k] as int], words)
}

/// The features of one answered request.
fn extract_one(result: &RequestResult, response: &HttpResponse, word: &[u8]) -> (feature:
    ResponseFeatures)
    ensures
        feature.shown_by(*response),
        feature.content_length_minus_payload == (encode_utf8(response.body@).len()
            - result.payload_byte_len) as i64,
        text::opt_text(feature.payload) == Some(text::utf8_lossy(word@)),
{
    let mut feature = ResponseFeatures::from(response);
    let length = response.body.as_str().as_bytes().len();
    let difference: i128 = (length as i128) - (result.payload_byte_len as i128);
    feature.content_length_minus_payload = difference as i64;
    feature.payload = Some(decode_lossy(word));
    feature
}

/// Reads the features off the answers, in the order of the sequence numbers.
pub fn extract_features(results: &[RequestResult], words: &[Vec<u8>]) -> (features: Vec<
    ResponseFeatures,
>)
    requires
        forall|i: int|
            0 <= i < results@.len() ==> (#[trigger] results@[i]).sequence < words@.len(),
    ensures
        exists|order: Seq<usize>|
            ranking::is_ranking(order, sequences(results@)) && #[trigger] are_features(
                features@,
                results@,
                words@,
                order,
            ),
{
    let mut keys: Vec<u128> = Vec::new();
    let mut i: usize = 0;
    while i < results.len()
        invariant
            i <= results.len(),
            keys@ == sequences(results@).take(i as int),
        decreases results.len() - i,
    {
        keys.push(results[i].sequence as u128);
        assert(keys@ =~= sequences(results@).take(i + 1));
        i += 1;
    }
    assert(keys@ =~= sequences(results@));
    let order = ranking(keys.as_slice());
    let mut features: Vec<ResponseFeatures> = Vec::new();
    let mut k: usize = 0;
    while k < order.len()
        invariant
            k <= order@.len(),
            ranking::is_ranking(order@, sequences(results@)),
            forall|i: int|
                0 <= i < results@.len() ==> (#[trigger] results@[i]).sequence < words@.len(),
            are_features(features@, results@, words@, order@.take(k as int)),
        decreases order.len() - k,
    {
        let at = order[k];
        let ghost before = features@;
        let ghost seen = answered_positions(results@, order@.take(k as int));
        assert(order@.take(k + 1).drop_last() =~= order@.take(k as int));
        assert(at < sequences(results@).len());
        assert(results@[at as int].sequence < words@.len());
        if let Some(response) = &results[at].response {
            let word = words[results[at].sequence].as_slice();
            features.push(extract_one(&results[at], response, word));
            assert forall|j: int|
                #![trigger features@[j]]
                0 <= j < features@.len() implies features_of(
                features@[j],
                results@[answered_positions(results@, order@.take(k + 1))[j] as int],
                words@,
            ) by {
                if j < before.len() {
                    assert(features@[j] == before[j]);
                    assert(features_of(before[j], results@[seen[j] as int], words@));
                }
            }
        }
        k += 1;
    }
    assert(order@.take(order@.len() as int) =~= order@);
    assert(are_features(features@, results@, words@, order@));
    features
}

/// The features follow the words: they come in the order of the list, each with
/// the word that was sent and the response length without that of the word.
pub proof fn features_follow_the_words(
    features: Seq<ResponseFeatures>,
    results: Seq<RequestResult>,
    words: Seq<Vec<u8>>,
    order: Seq<usize>,
    k: int,
)
    requires
        ranking::is_ranking(order, sequences(results)),
        are_features(features, results, words, order),
        forall|i: int|
            0 <= i < results.len() ==> (#[trigger] results[i]).payload_byte_len
                == words[results[i].sequence as int]@.len(),
        0 <= k < features.len(),
    ensures
        ({
            let at = answered_positions(results, order);
            let result = results[at[k] as int];
            let word = words[result.sequence as int]@;
            &&& at[k] < results.len()
            &&& features[k].shown_by(result.response->0)
            &&& text::opt_text(features[k].payload) == Some(text::utf8_lossy(word))
            &&& features[k].content_length_minus_payload == (encode_utf8(
                result.response->0.body@,
            ).len() - word.len()) as i64
            &&& forall|j: int|
                0 <= j < k ==> results[#[trigger] at[j] as int].sequence <= result.sequence
        }),
{
    let at = answered_positions(results, order);
    answered_in_order(results, order);
    assert(features_of(features[k], results[at[k] as int], words));
    assert forall|j: int| 0 <= j < k implies results[#[trigger] at[j] as int].sequence
        <= results[at[k] as int].sequence by {
        let (x, y) = choose|x: int, y: int|
            0 <= x < y < order.len() && #[trigger] order[x] == at[j] && #[trigger] order[y]
                == at[k];
        assert(ranking::comes_before(sequences(results), order[x] as int, order[y] as int));
    }
}

/// The answered positions are places of the order, in its order.
proof fn answered_in_order(results: Seq<RequestResult>, order: Seq<usize>)
    ensures
        ({
            let at = answered_positions(results, order);
            &&& forall|k: int|
                0 <= k < at.len() ==> order.contains(#[trigger] at[k])
                    && results[at[k] as int].response is Some
            &&& forall|j: int, k: int|
                0 <= j < k < at.len() ==> exists|x: int, y: int|
                    0 <= x < y < order.len() && #[trigger] order[x] == #[trigger] at[j]
                        && #[trigger] order[y] == #[trigger] at[k]
            &&& forall|v: usize|
                order.contains(v) && results[v as int].response is Some ==> #[trigger] at.contains(
                    v,
                )
        }),
    decreases order.len(),
{
    if order.len() > 0 {
        let rest = order.drop_last();
        let last = order.last();
        answered_in_order(results, rest);
        let before = answered_positions(results, rest);
        let at = answered_positions(results, order);
        let n = order.len() - 1;
        assert forall|k: int| 0 <= k < at.len() implies order.contains(#[trigger] at[k])
            && results[at[k] as int].response is Some by {
            if k < before.len() {
                assert(rest.contains(before[k]));
                let x = rest.index_of(before[k]);
                assert(order[x] == before[k]);
            } else {
                assert(order[n] == last);
            }
        }
        assert forall|j: int, k: int| 0 <= j < k < at.len() implies exists|x: int, y: int|
            0 <= x < y < order.len() && #[trigger] order[x] == #[trigger] at[j]
                && #[trigger] order[y] == #[trigger] at[k] by {
            assert(at[j] == before[j]);
            if k < before.len() {
                let (x, y) = choose|x: int, y: int|
                    0 <= x < y < rest.len() && #[trigger] rest[x] == before[j] && #[trigger] rest[y]
                        == before[k];
                assert(order[x] == at[j] && order[y] == at[k]);
            } else {
                assert(rest.contains(before[j]));
                let x = rest.index_of(before[j]);
                assert(order[x] == at[j] && order[n] == at[k]);
            }
        }
        assert forall|v: usize|
            order.contains(v) && results[v as int].response is Some implies #[trigger] at.contains(
            v,
        ) by {
            let x = order.index_of(v);
            if x < n {
                assert(rest[x] == v);
                assert(before.contains(v));
                let k = before.index_of(v);
                assert(at[k] == v);
            } else {
                assert(at[before.len() as int] == v);
            }
        }
    }
}

/// Every answered request gives features, and no other does.
pub proof fn every_answer_gives_features(
    features: Seq<ResponseFeatures>,
    results: Seq<RequestResult>,
    words: Seq<Vec<u8>>,
    order: Seq<usize>,
)
    requires
        results.len() <= usize::MAX,
        ranking::is_ranking(order, sequences(results)),
        are_features(features, results, words, order),
    ensures
        features.len() == answers(results),
{
    let at = answered_positions(results, order);
    let n = results.len();
    let chosen = |i: int| results[i].response is Some;
    answered_in_order(results, order);
    assert forall|j: int, k: int| 0 <= j < k < at.len() implies at[j] != at[k] by {
        let (x, y) = choose|x: int, y: int|
            0 <= x < y < order.len() && #[trigger] order[x] == at[j] && #[trigger] order[y]
                == at[k];
        if order[x] == order[y] {
            ranking::ranking_has_no_repeats(order, sequences(results), x, y);
        }
    }
    assert forall|k: int| 0 <= k < at.len() implies #[trigger] at[k] < n && chosen(
        at[k] as int,
    ) by {
        let x = order.index_of(at[k]);
        assert(order[x] < sequences(results).len());
    }
    assert forall|v: usize| v < n && chosen(v as int) implies #[trigger] at.contains(v) by {
        assert(order.contains(v));
    }
    positions::distinct_len(at, n, chosen);
    answers_are_counted(results, n);
    assert(results.take(n as int) =~= results);
}

/// The answered requests among the first `n`, counted by their positions.
proof fn answers_are_counted(results: Seq<RequestResult>, n: nat)
    requires
        n <= results.len(),
    ensures
        positions::count_below(n, |i: int| results[i].response is Some) == answers(
            results.take(n as int),
        ),
    decreases n,
{
    if n > 0 {
        answers_are_counted(results, (n - 1) as nat);
        assert(results.take(n as int).drop_last() =~= results.take(n - 1));
        assert(results.take(n as int).last() == results[n - 1]);
    }
}

/// The payload lengths and response lengths of the answered requests.
pub open spec fn answered_lengths(results: Seq<RequestResult>) -> Seq<(usize, nat)>
    decreases results.len(),
{
    if results.len() == 0 {
        seq![]
    } else {
        match results.last().response {
            Some(response) => answered_lengths(results.drop_last()).push(
                (results.last().payload_byte_len, encode_utf8(response.body@).len()),
            ),
            None => answered_lengths(results.drop_last()),
        }
    }
}

/// Collects (payload length, response length) pairs for the correlation.
pub fn correlation_pairs(results: &[RequestResult]) -> (pairs: Vec<(usize, usize)>)
    ensures
        pairs@.map_values(|p: (usize, usize)| (p.0, p.1 as nat)) == answered_lengths(results@),
{
    let mut pairs: Vec<(usize, usize)> = Vec::new();
    let mut i: usize = 0;
    assert(pairs@.map_values(|p: (usize, usize)| (p.0, p.1 as nat)) =~= answered_lengths(
        results@.take(0),
    ));
    while i < results.len()
        invariant
            i <= results.len(),
            pairs@.map_values(|p: (usize, usize)| (p.0, p.1 as nat)) == answered_lengths(
                results@.take(i as int),
            ),
        decreases results.len() - i,
    {
        assert(results@.take(i + 1).drop_last() =~= results@.take(i as int));
        if let Some(response) = &results[i].response {
            let ghost before = pairs@.map_values(|p: (usize, usize)| (p.0, p.1 as nat));
            let length = response.body.as_str().as_bytes().len();
            pairs.push((results[i].payload_byte_len, length));
            assert(pairs@.map_values(|p: (usize, usize)| (p.0, p.1 as nat)) =~= before.push(
                (results@[i as int].payload_byte_len, encode_utf8(response.body@).len()),
            ));
        }
        i += 1;
    }
    assert(results@.take(results@.len() as int) =~= results@);
    pairs
}

/// The timing reference for clustering: that of the baseline, unless timing
/// analysis is disabled.
pub fn timing_reference(disable_timing: bool, baseline: &BaselineResult) -> (reference: Option<
    TtfbBaseline,
>)
    ensures
        reference is Some <==> !disable_timing && baseline.ttfbs@.len() >= 2 && exists|code: u16|
            #[trigger] baseline.status_codes@.contains_key(code),
        reference matches Some(r) ==> {
            &&& status::is_most_common(baseline.status_codes@, r.status)
            &&& r.count == baseline.ttfbs@.len()
            &&& r.total_ms == numbers::total(baseline.ttfbs@)
        },
{
    if disable_timing {
        None
    } else {
        ttfb_baseline_ref(&baseline.status_codes, baseline.ttfbs.as_slice())
    }
}

/// The line that announces the payloads.
pub fn start_line(count: usize) -> (line: String)
    ensures
        line@ == "Running outlier-based fuzzing with "@ + text::decimal_digits(count as nat)
            + " payloads..."@,
{
    join3("Running outlier-based fuzzing with ", decimal(count as u128).as_str(), " payloads...")
}

/// The lines that end the sending.
pub open spec fn completion(
    successful: usize,
    failed: usize,
    baseline_count: usize,
    disable_timing: bool,
) -> Seq<Seq<char>> {
    seq![
        "[+] Fuzzing complete: "@ + text::decimal_digits(successful as nat) + " successful, "@
            + text::decimal_digits(failed as nat) + " failed requests (+ "@
            + text::decimal_digits(baseline_count as nat) + " baseline)"@,
        "[.] Analyzing features..."@,
    ] + (if disable_timing {
        seq!["[.] Timing analysis disabled - TTFB excluded from clustering"@]
    } else {
        seq![]
    })
}

/// The lines that end the sending.
pub fn completion_lines(tally: &FuzzTally, baseline_count: usize, disable_timing: bool) -> (lines:
    Vec<String>)
    ensures
        text::texts(lines@) == completion(
            tally.successful,
            tally.failed,
            baseline_count,
            disable_timing,
        ),
{
    let mut lines: Vec<String> = Vec::new();
    let mut first = join3(
        "[+] Fuzzing complete: ",
        decimal(tally.successful as u128).as_str(),
        " successful, ",
    );
    first.append(decimal(tally.failed as u128).as_str());
    first.append(" failed requests (+ ");
    first.append(decimal(baseline_count as u128).as_str());
    first.append(" baseline)");
    push_line(&mut lines, first);
    push_line(&mut lines, "[.] Analyzing features...".to_owned());
    if disable_timing {
        push_line(
            &mut lines,
            "[.] Timing analysis disabled - TTFB excluded from clustering".to_owned(),
        );
    }
    assert(text::texts(lines@) =~= completion(
        tally.successful,
        tally.failed,
        baseline_count,
        disable_timing,
    ));
    lines
}

/// Adds the answers of further requests to the counts.
fn count_further(counts: &mut HashMap<u16, usize>, results: &[RequestResult], Ghost(first): Ghost<
    Seq<RequestResult>,
>)
    requires
        baseline::counts_answers(old(counts)@, first),
        first.len() + results@.len() <= usize::MAX,
    ensures
        baseline::counts_answers(final(counts)@, first + results@),
{
    let mut i: usize = 0;
    assert(first + results@.take(0) =~= first);
    while i < results.len()
        invariant
            i <= results@.len(),
            first.len() + results@.len() <= usize::MAX,
            baseline::counts_answers(counts@, first + results@.take(i as int)),
        decreases results.len() - i,
    {
        let ghost seen = first + results@.take(i as int);
        let ghost before = counts@;
        let ghost after = first + results@.take(i + 1);
        assert(after.drop_last() =~= seen);
        assert(after.last() == results@[i as int]);
        if let Some(response) = &results[i].response {
            proof {
                baseline::answered_bound(seen, response.status_code);
                assert(status::count_of(before, response.status_code) == baseline::answered(
                    seen,
                    response.status_code,
                ));
            }
            tally(counts, response.status_code);
        }
        assert forall|c: u16| #[trigger] status::count_of(counts@, c) == baseline::answered(
            after,
            c,
        ) by {
            assert(status::count_of(before, c) == baseline::answered(seen, c));
        }
        i += 1;
    }
    assert(results@.take(results@.len() as int) =~= results@);
}

/// Concludes a run: the requests of the baseline count towards the totals and
/// the status codes, and the clusters, the features and the correlation are
/// those of the payloads alone. There is no correlation of fewer than two
/// answers, and no timing reference without timing analysis.
pub fn conclude_fuzzing(
    tally: FuzzTally,
    baseline: &BaselineResult,
    response_features: Vec<ResponseFeatures>,
    clustering_result: DbscanResult,
    correlation: Option<String>,
    reference: Option<TtfbReference>,
    disable_timing: bool,
) -> (result: FuzzingResult)
    requires
        tally.wf(),
        baseline.request_count + tally.request_results@.len() <= usize::MAX,
        baseline.request_results@.len() + tally.request_results@.len() <= usize::MAX,
    ensures
        result.total_requests == baseline.request_count + tally.request_results@.len(),
        result.successful_requests == baseline.request_results@.len() + answers(
            tally.request_results@,
        ),
        result.failed_requests == tally.request_results@.len() - answers(tally.request_results@),
        baseline::counts_answers(
            result.status_codes@,
            tally.request_results@ + baseline.request_results@,
        ),
        result.clustering_result == clustering_result,
        result.response_features == response_features,
        result.payload_length_correlation == (if answers(tally.request_results@) < 2 {
            None
        } else {
            correlation
        }),
        result.ttfb_baseline_ref == (if disable_timing {
            None
        } else {
            reference
        }),
{
    let mut status_codes = tally.status_codes;
    let ghost own = tally.request_results@;
    count_further(&mut status_codes, baseline.request_results.as_slice(), Ghost(own));
    FuzzingResult {
        total_requests: baseline.request_count + tally.request_results.len(),
        successful_requests: baseline.request_results.len() + tally.successful,
        failed_requests: tally.failed,
        status_codes,
        clustering_result,
        response_features,
        payload_length_correlation: if tally.successful < 2 {
            None
        } else {
            correlation
        },
        ttfb_baseline_ref: if disable_timing {
            None
        } else {
            reference
        },
    }
}

/// Every request of a run either succeeded or failed.
pub proof fn requests_add_up(
    result: FuzzingResult,
    own: Seq<RequestResult>,
    baseline: BaselineResult,
)
    requires
        baseline.request_count == baseline.request_results@.len(),
        result.total_requests == baseline.request_count + own.len(),
        result.successful_requests == baseline.request_results@.len() + answers(own),
        result.failed_requests == own.len() - answers(own),
    ensures
        result.successful_requests + result.failed_requests == result.total_requests,
{
}

/// The counts of a list of status codes, added up.
pub open spec fn count_sum(list: Seq<(u16, usize)>) -> nat
    decreases list.len(),
{
    if list.len() == 0 {
        0
    } else {
        count_sum(list.drop_last()) + list.last().1 as nat
    }
}

/// The status codes account for every answer: their counts add up to the number
/// of answered requests.
pub proof fn status_codes_add_up(
    list: Seq<(u16, usize)>,
    counts: Map<u16, usize>,
    results: Seq<RequestResult>,
)
    requires
        status::is_distribution(list, counts),
        baseline::counts_answers(counts, results),
    ensures
        count_sum(list) == answers(results),
{
    assert forall|i: int| 0 <= i < list.len() implies (#[trigger] list[i]).1 == baseline::answered(
        results,
        list[i].0,
    ) by {
        assert(status::count_of(counts, list[i].0) == baseline::answered(results, list[i].0));
    }
    sum_of_answered(list, results);
    assert forall|i: int| 0 <= i < results.len() && (
    #[trigger] results[i]).response is Some implies listed(
        list,
        results[i].response->0.status_code,
    ) by {
        let code = results[i].response->0.status_code;
        an_answer_is_counted(results, i);
        assert(status::count_of(counts, code) == baseline::answered(results, code));
        assert(counts.contains_key(code));
    }
    listed_answers(list, results);
}

/// The code stands in the list.
spec fn listed(list: Seq<(u16, usize)>, code: u16) -> bool {
    exists|i: int| 0 <= i < list.len() && (#[trigger] list[i]).0 == code
}

/// The answers with the codes of a list, added up.
spec fn answered_sum(list: Seq<(u16, usize)>, results: Seq<RequestResult>) -> nat
    decreases list.len(),
{
    if list.len() == 0 {
        0
    } else {
        answered_sum(list.drop_last(), results) + baseline::answered(results, list.last().0)
    }
}

/// Counts that are those of the answers add up alike.
proof fn sum_of_answered(list: Seq<(u16, usize)>, results: Seq<RequestResult>)
    requires
        forall|i: int|
            0 <= i < list.len() ==> (#[trigger] list[i]).1 == baseline::answered(
                results,
                list[i].0,
            ),
    ensures
        count_sum(list) == answered_sum(list, results),
    decreases list.len(),
{
    if list.len() > 0 {
        let rest = list.drop_last();
        assert forall|i: int| 0 <= i < rest.len() implies (
        #[trigger] rest[i]).1 == baseline::answered(results, rest[i].0) by {
            assert(rest[i] == list[i]);
        }
        sum_of_answered(rest, results);
        assert(list[list.len() - 1].1 == baseline::answered(results, list.last().0));
    }
}

/// A request that was answered counts under its status code.
proof fn an_answer_is_counted(results: Seq<RequestResult>, i: int)
    requires
        0 <= i < results.len(),
        results[i].response is Some,
    ensures
        baseline::answered(results, results[i].response->0.status_code) > 0,
    decreases results.len(),
{
    if i < results.len() - 1 {
        an_answer_is_counted(results.drop_last(), i);
        assert(results.drop_last()[i] == results[i]);
    }
}

/// Where every answer has a listed code, and no code is listed twice, the
/// answers with listed codes are all answers.
proof fn listed_answers(list: Seq<(u16, usize)>, results: Seq<RequestResult>)
    requires
        forall|i: int, j: int|
            0 <= i < j < list.len() ==> (#[trigger] list[i]).0 != (#[trigger] list[j]).0,
        forall|i: int|
            0 <= i < results.len() && (#[trigger] results[i]).response is Some ==> listed(
                list,
                results[i].response->0.status_code,
            ),
    ensures
        answered_sum(list, results) == answers(results),
    decreases results.len(),
{
    if results.len() == 0 {
        nothing_answered(list, results);
    } else {
        let rest = results.drop_last();
        assert forall|i: int| 0 <= i < rest.len() && (
        #[trigger] rest[i]).response is Some implies listed(
            list,
            rest[i].response->0.status_code,
        ) by {
            assert(rest[i] == results[i]);
        }
        listed_answers(list, rest);
        if results.last().response is Some {
            assert(results[results.len() - 1].response is Some);
        }
        one_more_answer(list, results);
    }
}

/// Without requests there are no answers.
proof fn nothing_answered(list: Seq<(u16, usize)>, results: Seq<RequestResult>)
    requires
        results.len() == 0,
    ensures
        answered_sum(list, results) == 0,
    decreases list.len(),
{
    if list.len() > 0 {
        nothing_answered(list.drop_last(), results);
    }
}

/// The last request adds one answer where it was answered with a listed code.
proof fn one_more_answer(list: Seq<(u16, usize)>, results: Seq<RequestResult>)
    requires
        results.len() > 0,
        forall|i: int, j: int|
            0 <= i < j < list.len() ==> (#[trigger] list[i]).0 != (#[trigger] list[j]).0,
    ensures
        answered_sum(list, results) == answered_sum(list, results.drop_last()) + (
        match results.last().response {
            Some(response) => if listed(list, response.status_code) {
                1nat
            } else {
                0nat
            },
            None => 0nat,
        }),
    decreases list.len(),
{
    if list.len() > 0 {
        let rest = list.drop_last();
        let last = list.last();
        assert(list[list.len() - 1] == last);
        assert forall|i: int, j: int| 0 <= i < j < rest.len() implies (#[trigger] rest[i]).0 != (
        #[trigger] rest[j]).0 by {
            assert(list[i].0 != list[j].0);
        }
        one_more_answer(rest, results);
        if let Some(response) = results.last().response {
            let code = response.status_code;
            if listed(rest, code) {
                let i = choose|i: int| 0 <= i < rest.len() && (#[trigger] rest[i]).0 == code;
                assert(list[i] == rest[i]);
                assert(list[i].0 != list[list.len() - 1].0);
            }
            if listed(list, code) && last.0 != code {
                let i = choose|i: int| 0 <= i < list.len() && (#[trigger] list[i]).0 == code;
                assert(rest[i] == list[i]);
            }
        }
    }
}

/// The result of a run without payloads.
pub fn create_empty_result() -> (result: FuzzingResult)
    ensures
        result.total_requests == 0,
        result.successful_requests == 0,
        result.failed_requests == 0,
        result.status_codes@ == Map::<u16, usize>::empty(),
        result.clustering_result.clusters@.len() == 0,
        result.clustering_result.outliers@.len() == 0,
        result.clustering_result.noise_count == 0,
        result.clustering_result.reflection@.len() == 0,
        result.response_features@.len() == 0,
        result.payload_length_correlation is None,
        result.ttfb_baseline_ref is None,
{
    FuzzingResult {
        total_requests: 0,
        successful_requests: 0,
        failed_requests: 0,
        status_codes: HashMap::new(),
        clustering_result: DbscanResult {
            clusters: Vec::new(),
            outliers: Vec::new(),
            noise_count: 0,
            reflection: Vec::new(),
        },
        response_features: Vec::new(),
        payload_length_correlation: None,
        ttfb_baseline_ref: None,
    }
}

/// There is a place for payloads exactly where the URL, the body, or the key or
/// the value of a header has a span.
pub proof fn any_span_is_a_place(args: Args, url: Seq<char>, i: int)
    ensures
        ({
            let headers = cli::asked_headers(args);
            let m = args.marker@;
            &&& marker::spanned(url, m) ==> has_place(args, url)
            &&& args.data matches Some(data) ==> (marker::spanned(data@, m) ==> has_place(
                args,
                url,
            ))
            &&& 0 <= i < headers.len() && marker::spanned(headers[i].0, m) ==> has_place(args, url)
            &&& 0 <= i < headers.len() && marker::spanned(headers[i].1, m) ==> has_place(args, url)
            &&& has_place(args, url) ==> {
                ||| marker::spanned(url, m)
                ||| args.data is Some && marker::spanned(args.data->0@, m)
                ||| exists|j: int|
                    0 <= j < headers.len() && (marker::spanned((#[trigger] headers[j]).0, m)
                        || marker::spanned(headers[j].1, m))
            }
        }),
{
}

/// Where there is no place for payloads, every payload makes the same request:
/// the one that was given.
pub proof fn without_a_place_payloads_change_nothing(
    args: Args,
    url: Seq<char>,
    plan: FuzzPlan,
    request: FuzzRequest,
    payload: Seq<u8>,
)
    requires
        !has_place(args, url),
        plan.injects_into(args, url),
        request.carries(plan, payload),
    ensures
        request.url@ == url,
        text::pair_texts(request.headers@) == cli::asked_headers(args),
        match args.data {
            Some(data) => request.body is Some && request.body->0@ == encode_utf8(data@),
            None => request.body is None,
        },
{
    let m = args.marker@;
    let headers = cli::asked_headers(args);
    any_span_is_a_place(args, url, 0);
    marker::span_free_is_unchanged(url, m, text::utf8_lossy(payload));
    assert forall|i: int| 0 <= i < headers.len() implies #[trigger] injected_pairs(
        headers,
        encode_utf8(m),
        payload,
    )[i] == headers[i] by {
        any_span_is_a_place(args, url, i);
        spans_in_text::built_alike_whole(headers[i].0, m, None);
        spans_in_text::built_alike_whole(headers[i].1, m, None);
    }
    assert(injected_pairs(headers, encode_utf8(m), payload) =~= headers);
    if let Some(data) = args.data {
        spans_in_text::built_alike_whole(data@, m, None);
        marker::span_free_is_unchanged(encode_utf8(data@), encode_utf8(m), payload);
    }
}

/// Where the URL has a span, payloads that read differently request different
/// URLs; where the body has one, different payloads send different bodies.
pub proof fn with_a_place_payloads_make_a_difference(
    plan: FuzzPlan,
    a: FuzzRequest,
    p: Seq<u8>,
    b: FuzzRequest,
    q: Seq<u8>,
)
    requires
        a.carries(plan, p),
        b.carries(plan, q),
    ensures
        marker::spanned(plan.url@, plan.marker@) && text::utf8_lossy(p) != text::utf8_lossy(q)
            ==> a.url@ != b.url@,
        plan.body matches Some(template) ==> (marker::spanned(
            encode_utf8(template@),
            encode_utf8(plan.marker@),
        ) && p != q ==> a.body is Some && b.body is Some && a.body->0@ != b.body->0@),
{
    different_payloads_differ(plan.url@, plan.marker@, text::utf8_lossy(p), text::utf8_lossy(q));
    if let Some(template) = plan.body {
        different_payloads_differ(encode_utf8(template@), encode_utf8(plan.marker@), p, q);
    }
}

/// Different payloads in one span make different texts.
proof fn different_payloads_differ<T>(s: Seq<T>, m: Seq<T>, p: Seq<T>, q: Seq<T>)
    ensures
        marker::spanned(s, m) && p != q ==> marker::injected(s, m, p) != marker::injected(s, m, q),
{
    if marker::spanned(s, m) {
        marker::payload_replaces_the_first_span(s, m, p);
        marker::payload_replaces_the_first_span(s, m, q);
        marker::next_span_shape(s, m, 0);
        let (open, end) = marker::next_span(s, m, 0)->0;
        let tail = marker::collapsed_after(s, m, end);
        let x = marker::injected(s, m, p);
        let y = marker::injected(s, m, q);
        if x == y {
            assert(x.subrange(open, x.len() - tail.len()) =~= p);
            assert(y.subrange(open, y.len() - tail.len()) =~= q);
        }
    }
}

/// A payload goes into every header key and value that has a span, and leaves
/// the others as they are.
pub proof fn headers_are_injected_one_by_one(
    headers: Seq<(Seq<char>, Seq<char>)>,
    m: Seq<u8>,
    payload: Seq<u8>,
    i: int,
)
    requires
        0 <= i < headers.len(),
    ensures
        injected_pairs(headers, m, payload).len() == headers.len(),
        marker::spanned(encode_utf8(headers[i].0), m) ==> injected_pairs(headers, m, payload)[i].0
            == text::utf8_lossy(marker::injected(encode_utf8(headers[i].0), m, payload)),
        !marker::spanned(encode_utf8(headers[i].0), m) ==> injected_pairs(headers, m, payload)[i].0
            == headers[i].0,
        marker::spanned(encode_utf8(headers[i].1), m) ==> injected_pairs(headers, m, payload)[i].1
            == text::utf8_lossy(marker::injected(encode_utf8(headers[i].1), m, payload)),
        !marker::spanned(encode_utf8(headers[i].1), m) ==> injected_pairs(headers, m, payload)[i].1
            == headers[i].1,
{
}

/// A request knows its payload: the text that it reads as, and the number of
/// its bytes.
pub proof fn requests_know_their_payload(plan: FuzzPlan, request: FuzzRequest, payload: Seq<u8>)
    requires
        request.carries(plan, payload),
    ensures
        request.payload_display@ == text::utf8_lossy(payload),
        request.payload_byte_len == payload.len(),
        request.headers@.len() == plan.headers@.len(),
        request.body is Some <==> plan.body is Some,
{
    assert(text::pair_texts(request.headers@).len() == request.headers@.len());
    assert(text::pair_texts(plan.headers@).len() == plan.headers@.len());
}

/// The message that there is no place for payloads names the marker to wrap
/// the original value in.
pub proof fn the_marker_is_named(m: Seq<char>)
    ensures
        no_place(m)
            == "no payload span found in URL, body, or headers: wrap the original value in '"@ + m
            + "' pairs, e.g. ?id=§1§ or -H 'X-Api-Key: §key§'"@,
{
}

/// A progress line has columns: the status in the first three, the milliseconds
/// in four more behind a space, then the payload, cut at thirty bytes. Of a
/// request that failed it shows the payload, and that it failed.
pub proof fn progress_lines_have_columns(status: u16, millis: nat, payload: Seq<char>)
    ensures
        ({
            let line = answered_message(status, millis, payload);
            let shown = text::shortened(payload, 30);
            let n = line.len() - shown.len() - 3;
            &&& line.skip(n + 3) == shown
            &&& line.subrange(n, n + 3) == seq!['m', 's', ' ']
            &&& line.take(n) == text::padded(text::decimal_digits(status as nat), 3) + seq![' ']
                + text::padded(text::decimal_digits(millis), 4)
            &&& 100 <= status <= 999 && millis < 10_000 ==> {
                &&& n == 8
                &&& line.take(3) == text::decimal_digits(status as nat)
                &&& line[3] == ' '
                &&& line.subrange(4, 8) == text::padded(text::decimal_digits(millis), 4)
            }
        }),
        failed_message(payload) == text::shortened(payload, 30) + seq![' ', 'E', 'R', 'R'],
{
    reveal_strlit(" ");
    reveal_strlit("ms ");
    reveal_strlit(" ERR");
    let line = answered_message(status, millis, payload);
    let shown = text::shortened(payload, 30);
    let a = text::padded(text::decimal_digits(status as nat), 3);
    let b = text::padded(text::decimal_digits(millis), 4);
    let n = line.len() - shown.len() - 3;
    assert(n == a.len() + 1 + b.len());
    assert(line.skip(n + 3) =~= shown);
    assert(line.subrange(n, n + 3) =~= seq!['m', 's', ' ']);
    assert(line.take(n) =~= a + seq![' '] + b);
    assert(failed_message(payload) =~= shown + seq![' ', 'E', 'R', 'R']);
    if 100 <= status <= 999 && millis < 10_000 {
        reveal_with_fuel(text::decimal_digits, 5);
        assert(text::decimal_digits(status as nat).len() == 3);
        assert(text::decimal_digits(millis).len() <= 4);
        text::filling_up_puts_spaces_in_front(text::decimal_digits(millis), 4);
        assert(line.take(3) =~= text::decimal_digits(status as nat));
        assert(line.subrange(4, 8) =~= b);
    }
}

/// Answers are counted piece by piece: a request counts where it was answered.
pub proof fn answers_add_up(a: Seq<RequestResult>, b: Seq<RequestResult>, result: RequestResult)
    ensures
        answers(a + b) == answers(a) + answers(b),
        result.response is Some ==> answers(seq![result]) == 1,
        result.response is None ==> answers(seq![result]) == 0,
    decreases b.len(),
{
    assert(seq![result].drop_last() =~= seq![]);
    assert(answers(seq![result].drop_last()) == 0);
    if b.len() == 0 {
        assert(a + b =~= a);
    } else {
        answers_add_up(a, b.drop_last(), result);
        assert((a + b).drop_last() =~= a + b.drop_last());
    }
}

/// A tally counts what it recorded: the requests that were answered, those that
/// were not, and for each status code how many were answered with it.
pub proof fn tallies_count_what_they_recorded(tally: FuzzTally, code: u16)
    requires
        tally.wf(),
    ensures
        tally.successful == answers(tally.request_results@),
        tally.failed == tally.request_results@.len() - answers(tally.request_results@),
        tally.status_codes@.contains_key(code) <==> baseline::answered(
            tally.request_results@,
            code,
        ) > 0,
        tally.status_codes@.contains_key(code) ==> tally.status_codes@[code] == baseline::answered(
            tally.request_results@,
            code,
        ),
{
    assert(status::count_of(tally.status_codes@, code) == baseline::answered(
        tally.request_results@,
        code,
    ));
}

/// The lengths to correlate are collected piece by piece, in order: of an
/// answered request the byte lengths of its payload and of its body, of any
/// other nothing.
pub proof fn lengths_are_those_of_the_answers(
    a: Seq<RequestResult>,
    b: Seq<RequestResult>,
    result: RequestResult,
)
    ensures
        answered_lengths(a + b) == answered_lengths(a) + answered_lengths(b),
        result.response matches Some(response) ==> answered_lengths(seq![result]) == seq![
            (result.payload_byte_len, encode_utf8(response.body@).len()),
        ],
        result.response is None ==> answered_lengths(seq![result]).len() == 0,
    decreases b.len(),
{
    assert(seq![result].drop_last() =~= seq![]);
    assert(answered_lengths(seq![result].drop_last()) =~= seq![]);
    if let Some(response) = result.response {
        assert(answered_lengths(seq![result]) =~= seq![
            (result.payload_byte_len, encode_utf8(response.body@).len()),
        ]);
    }
    if b.len() == 0 {
        assert(a + b =~= a);
        assert(answered_lengths(a) + answered_lengths(b) =~= answered_lengths(a));
    } else {
        lengths_are_those_of_the_answers(a, b.drop_last(), result);
        assert((a + b).drop_last() =~= a + b.drop_last());
        assert(answered_lengths(a + b) =~= answered_lengths(a) + answered_lengths(b));
    }
}

/// The lines that end the sending give the counts, and disabled timing adds one
/// line and changes none.
pub proof fn disabled_timing_is_announced(successful: usize, failed: usize, baseline_count: usize)
    ensures
        completion(successful, failed, baseline_count, true) == completion(
            successful,
            failed,
            baseline_count,
            false,
        ).push("[.] Timing analysis disabled - TTFB excluded from clustering"@),
        completion(successful, failed, baseline_count, false) == seq![
            "[+] Fuzzing complete: "@ + text::decimal_digits(successful as nat) + " successful, "@
                + text::decimal_digits(failed as nat) + " failed requests (+ "@
                + text::decimal_digits(baseline_count as nat) + " baseline)"@,
            "[.] Analyzing features..."@,
        ],
{
    assert(completion(successful, failed, baseline_count, true) =~= completion(
        successful,
        failed,
        baseline_count,
        false,
    ).push("[.] Timing analysis disabled - TTFB excluded from clustering"@));
    assert(completion(successful, failed, baseline_count, false) =~= seq![
        "[+] Fuzzing complete: "@ + text::decimal_digits(successful as nat) + " successful, "@
            + text::decimal_digits(failed as nat) + " failed requests (+ "@ + text::decimal_digits(
            baseline_count as nat,
        ) + " baseline)"@,
        "[.] Analyzing features..."@,
    ]);
}

/// Every answered request gives features once: the positions that features are
/// read off are those of the answered requests, none missing and none twice.
pub proof fn every_answer_is_read_once(
    results: Seq<RequestResult>,
    order: Seq<usize>,
    v: usize,
    j: int,
    k: int,
)
    requires
        ranking::is_ranking(order, sequences(results)),
    ensures
        ({
            let at = answered_positions(results, order);
            &&& at.contains(v) <==> v < results.len() && results[v as int].response is Some
            &&& 0 <= j < k < at.len() ==> at[j] != at[k]
            &&& 0 <= j < k < at.len() ==> results[at[j] as int].sequence
                <= results[at[k] as int].sequence
        }),
{
    let at = answered_positions(results, order);
    let keys = sequences(results);
    answered_in_order(results, order);
    assert(keys.len() == results.len());
    if at.contains(v) {
        let x = at.index_of(v);
        assert(order.contains(at[x]));
        assert(order[order.index_of(v)] < keys.len());
    }
    if v < results.len() {
        assert(order.contains(v));
    }
    if 0 <= j < k < at.len() {
        let (x, y) = choose|x: int, y: int|
            0 <= x < y < order.len() && #[trigger] order[x] == at[j] && #[trigger] order[y]
                == at[k];
        assert(ranking::comes_before(keys, order[x] as int, order[y] as int));
        assert(order[x] < keys.len() && order[y] < keys.len());
        if order[x] == order[y] {
            ranking::ranking_has_no_repeats(order, keys, x, y);
        }
    }
}

/// The features of a request show its response, the length of that response
/// less the payload's, and the word that was sent.
pub proof fn features_are_those_of_their_request(
    features: Seq<ResponseFeatures>,
    results: Seq<RequestResult>,
    words: Seq<Vec<u8>>,
    order: Seq<usize>,
    k: int,
)
    requires
        are_features(features, results, words, order),
        0 <= k < features.len(),
    ensures
        ({
            let result = results[answered_positions(results, order)[k] as int];
            &&& features.len() == answered_positions(results, order).len()
            &&& result.response is Some
            &&& features[k].shown_by(result.response->0)
            &&& features[k].content_length_minus_payload == (encode_utf8(
                result.response->0.body@,
            ).len() - result.payload_byte_len) as i64
            &&& features[k].payload is Some
            &&& features[k].payload->0@ == text::utf8_lossy(words[result.sequence as int]@)
        }),
{
    assert(features_of(
        features[k],
        results[answered_positions(results, order)[k] as int],
        words,
    ));
}

/// The sequence numbers are those of the requests, in order.
pub proof fn sequences_are_those_of_the_requests(results: Seq<RequestResult>, i: int)
    ensures
        sequences(results).len() == results.len(),
        0 <= i < results.len() ==> sequences(results)[i] == results[i].sequence,
{
}

} // verus!
