//! Requests, responses and what is read off them.

use vstd::prelude::*;
use vstd::slice::slice_subrange;
use vstd::utf8::*;

use crate::encoding;
use crate::encoding::{percent_encode_path, percent_encode_query};
use crate::marker;
use crate::marker::find_chars;
use crate::text;
use crate::text::{
    ascii_string, chars_of, count_lines, count_words, decode_lossy, join3, same_text, string_of,
};

verus! {

/// A length of time in nanoseconds.
#[derive(Debug, Clone, Copy, PartialEq, Eq)]
pub struct Elapsed {
    pub nanos: u128,
}

impl Elapsed {
    /// Whole milliseconds, as a 64-bit number.
    pub open spec fn spec_millis(self) -> u64 {
        (self.nanos / 1_000_000) as u64
    }

    /// Whole milliseconds.
    pub fn whole_millis(&self) -> (ms: u128)
        ensures
            ms == self.nanos / 1_000_000,
    {
        self.nanos / 1_000_000
    }

    /// Whole milliseconds, as a 64-bit number.
    pub fn as_millis(&self) -> (ms: u64)
        ensures
            ms == self.spec_millis(),
    {
        (self.nanos / 1_000_000) as u64
    }
}

/// A request as it was sent. No header name occurs twice.
#[derive(Debug, Clone)]
pub struct HttpRequest {
    pub request_id: String,
    pub method: String,
    pub url: String,
    pub headers: Vec<(String, String)>,
    pub body: Option<String>,
    pub timestamp: String,
}

/// A response as it was received. No header name occurs twice.
#[derive(Debug, Clone)]
pub struct HttpResponse {
    pub request_id: String,
    pub status_code: u16,
    pub headers: Vec<(String, String)>,
    pub body: String,
    pub content_length: usize,
    pub response_words: usize,
    pub response_lines: usize,
    pub time_to_first_byte: Elapsed,
    pub total_time: Elapsed,
}

/// What became of one request.
#[derive(Debug, Clone)]
pub struct RequestResult {
    pub request: HttpRequest,
    pub response: Option<HttpResponse>,
    pub error: Option<String>,
    pub sequence: usize,
    pub payload_byte_len: usize,
}

/// What the clustering reads off a response.
#[derive(Debug, Clone)]
pub struct ResponseFeatures {
    pub status_code: u16,
    pub content_type: String,
    pub response_length: usize,
    pub time_to_first_byte_ms: u64,
    pub response_words: usize,
    pub response_lines: usize,
    pub content_length_minus_payload: i64,
    pub payload: Option<String>,
}

/// The value last given for a key.
pub open spec fn last_value(pairs: Seq<(Seq<char>, Seq<char>)>, key: Seq<char>) -> Option<Seq<char>>
    decreases pairs.len(),
{
    if pairs.len() == 0 {
        None
    } else if pairs.last().0 == key {
        Some(pairs.last().1)
    } else {
        last_value(pairs.drop_last(), key)
    }
}

/// No key occurs twice.
pub open spec fn distinct_keys(pairs: Seq<(Seq<char>, Seq<char>)>) -> bool {
    forall|i: int, j: int|
        0 <= i < j < pairs.len() ==> (#[trigger] pairs[i]).0 != (#[trigger] pairs[j]).0
}

/// The two lists hold the same values under the same keys.
pub open spec fn same_map(
    a: Seq<(Seq<char>, Seq<char>)>,
    b: Seq<(Seq<char>, Seq<char>)>,
) -> bool {
    forall|key: Seq<char>| #[trigger] last_value(a, key) == last_value(b, key)
}

/// Replacing the value under the only occurrence of a key.
proof fn value_after_update(
    pairs: Seq<(Seq<char>, Seq<char>)>,
    at: int,
    value: Seq<char>,
    key: Seq<char>,
)
    requires
        distinct_keys(pairs),
        0 <= at < pairs.len(),
    ensures
        last_value(pairs.update(at, (pairs[at].0, value)), key) == (if key == pairs[at].0 {
            Some(value)
        } else {
            last_value(pairs, key)
        }),
    decreases pairs.len(),
{
    let changed = pairs.update(at, (pairs[at].0, value));
    let n = pairs.len() - 1;
    if at == n {
        assert(changed.drop_last() =~= pairs.drop_last());
    } else {
        assert(changed.drop_last() =~= pairs.drop_last().update(
            at,
            (pairs.drop_last()[at].0, value),
        ));
        value_after_update(pairs.drop_last(), at, value, key);
        assert(changed.last() == pairs.last());
        assert(pairs[at].0 != pairs[n].0);
    }
}

/// The position of the pair with the given key, where there is one.
fn position_of(pairs: &[(String, String)], key: &str) -> (found: Option<usize>)
    ensures
        match found {
            Some(i) => i < pairs@.len() && pairs@[i as int].0@ == key@,
            None => forall|i: int| 0 <= i < pairs@.len() ==> (#[trigger] pairs@[i]).0@ != key@,
        },
{
    let mut i: usize = 0;
    while i < pairs.len()
        invariant
            i <= pairs.len(),
            forall|k: int| 0 <= k < i ==> (#[trigger] pairs@[k]).0@ != key@,
        decreases pairs.len() - i,
    {
        if same_text(pairs[i].0.as_str(), key) {
            return Some(i);
        }
        i += 1;
    }
    None
}

/// Collects pairs as a map does: under each name the value that came last,
/// no name twice.
pub fn header_map(pairs: &[(String, String)]) -> (map: Vec<(String, String)>)
    ensures
        distinct_keys(text::pair_texts(map@)),
        same_map(text::pair_texts(map@), text::pair_texts(pairs@)),
{
    let mut map: Vec<(String, String)> = Vec::new();
    let mut i: usize = 0;
    assert(text::pair_texts(map@) =~= text::pair_texts(pairs@).take(0));
    while i < pairs.len()
        invariant
            i <= pairs.len(),
            distinct_keys(text::pair_texts(map@)),
            same_map(text::pair_texts(map@), text::pair_texts(pairs@).take(i as int)),
        decreases pairs.len() - i,
    {
        let ghost old_map = text::pair_texts(map@);
        let ghost seen = text::pair_texts(pairs@).take(i as int);
        let ghost seen1 = text::pair_texts(pairs@).take(i + 1);
        let ghost new_key = pairs@[i as int].0@;
        let ghost new_value = pairs@[i as int].1@;
        assert(seen1.drop_last() =~= seen);
        assert(seen1.last() == (new_key, new_value));
        match position_of(map.as_slice(), pairs[i].0.as_str()) {
            Some(at) => {
                assert(old_map[at as int].0 == new_key);
                map.set(at, (pairs[i].0.clone(), pairs[i].1.clone()));
                assert(text::pair_texts(map@) =~= old_map.update(at as int, (new_key, new_value)));
                assert forall|key: Seq<char>| #[trigger]
                    last_value(text::pair_texts(map@), key) == last_value(seen1, key) by {
                    value_after_update(old_map, at as int, new_value, key);
                    assert(last_value(old_map, key) == last_value(seen, key));
                }
            },
            None => {
                map.push((pairs[i].0.clone(), pairs[i].1.clone()));
                assert(text::pair_texts(map@) =~= old_map.push((new_key, new_value)));
                assert forall|k: int| 0 <= k < old_map.len() implies (#[trigger] old_map[k]).0
                    != new_key by {
                    assert(old_map[k].0 == map@[k].0@);
                }
                assert(text::pair_texts(map@).drop_last() =~= old_map);
                assert forall|key: Seq<char>| #[trigger]
                    last_value(text::pair_texts(map@), key) == last_value(seen1, key) by {
                    assert(last_value(old_map, key) == last_value(seen, key));
                }
            },
        }
        i += 1;
    }
    assert(text::pair_texts(pairs@).take(pairs@.len() as int) =~= text::pair_texts(pairs@));
    map
}

/// The value last given under a name.
pub fn header_value(pairs: &[(String, String)], name: &str) -> (value: Option<String>)
    ensures
        text::opt_text(value) == last_value(text::pair_texts(pairs@), name@),
{
    let mut i: usize = pairs.len();
    assert(text::pair_texts(pairs@).take(i as int) =~= text::pair_texts(pairs@));
    while i > 0
        invariant
            i <= pairs.len(),
            last_value(text::pair_texts(pairs@), name@) == last_value(
                text::pair_texts(pairs@).take(i as int),
                name@,
            ),
        decreases i,
    {
        assert(text::pair_texts(pairs@).take(i as int).drop_last() =~= text::pair_texts(pairs@).take(i - 1));
        if same_text(pairs[i - 1].0.as_str(), name) {
            return Some(pairs[i - 1].1.clone());
        }
        i -= 1;
    }
    None
}

impl HttpRequest {
    /// No header name occurs twice.
    pub open spec fn wf(self) -> bool {
        distinct_keys(text::pair_texts(self.headers@))
    }
}

impl HttpResponse {
    /// No header name occurs twice.
    pub open spec fn wf(self) -> bool {
        distinct_keys(text::pair_texts(self.headers@))
    }
}

impl RequestResult {
    /// The request and the response, where there is one, are well-formed, and
    /// there is a response or an error, never both.
    pub open spec fn wf(self) -> bool {
        &&& self.request.wf()
        &&& self.response matches Some(response) ==> response.wf()
        &&& self.response is Some <==> self.error is None
    }
}

impl ResponseFeatures {
    /// The features that a response shows by itself; what depends on the
    /// payload is filled in once that is known.
    pub open spec fn shown_by(self, response: HttpResponse) -> bool {
        &&& self.status_code == response.status_code
        &&& self.content_type@ == (match last_value(
            text::pair_texts(response.headers@),
            "content-type"@,
        ) {
            Some(value) => value,
            None => Seq::empty(),
        })
        &&& self.response_length == encode_utf8(response.body@).len()
        &&& self.time_to_first_byte_ms == response.time_to_first_byte.spec_millis()
        &&& self.response_words == response.response_words
        &&& self.response_lines == response.response_lines
    }
}

impl vstd::std_specs::convert::FromSpecImpl<&HttpResponse> for ResponseFeatures {
    open spec fn obeys_from_spec() -> bool {
        false
    }

    open spec fn from_spec(response: &HttpResponse) -> Self {
        arbitrary()
    }
}

/// The features that a response shows by itself.
impl From<&HttpResponse> for ResponseFeatures {
    fn from(response: &HttpResponse) -> (features: Self)
        ensures
            features.shown_by(*response),
            features.content_length_minus_payload == 0,
            features.payload is None,
    {
        let content_type = match header_value(response.headers.as_slice(), "content-type") {
            Some(value) => value,
            None => String::new(),
        };
        ResponseFeatures {
            status_code: response.status_code,
            content_type,
            response_length: response.body.as_str().as_bytes().len(),
            time_to_first_byte_ms: response.time_to_first_byte.as_millis(),
            response_words: response.response_words,
            response_lines: response.response_lines,
            // Filled in by the caller once the payload is known.
            content_length_minus_payload: 0,
            payload: None,
        }
    }
}

/// The parts of a URL that a request target is made of.
#[derive(Debug, Clone)]
pub struct UrlParts {
    /// Scheme and authority, as they were written.
    pub authority: String,
    pub path: String,
    pub query: Option<String>,
}

/// Where the scheme of a URL ends.
pub open spec fn scheme_end(url: Seq<char>) -> Option<int> {
    marker::find_from(url, "://"@, 0)
}

/// A character that ends the authority of a URL.
pub open spec fn ends_authority(c: char) -> bool {
    c == '/' || c == '?'
}

/// The first position at or after `from` at which an authority ends: at a
/// slash or a query mark, or at the end.
pub open spec fn authority_end(url: Seq<char>, from: int) -> int
    decreases url.len() - from,
{
    if from >= url.len() {
        url.len() as int
    } else if ends_authority(url[from]) {
        from
    } else {
        authority_end(url, from + 1)
    }
}

/// An authority ends at the first character that ends one.
pub proof fn authority_end_is_first(url: Seq<char>, from: int)
    requires
        0 <= from <= url.len(),
    ensures
        from <= authority_end(url, from) <= url.len(),
        forall|i: int| from <= i < authority_end(url, from) ==> !ends_authority(#[trigger] url[i]),
        authority_end(url, from) < url.len() ==> ends_authority(url[authority_end(url, from)]),
    decreases url.len() - from,
{
    if from < url.len() && !ends_authority(url[from]) {
        authority_end_is_first(url, from + 1);
    }
}

/// Where the path of a URL begins: where its authority ends.
pub open spec fn path_start(url: Seq<char>) -> int {
    authority_end(url, scheme_end(url)->0 + 3)
}

/// Scheme and authority of a URL, as they are written.
pub open spec fn url_authority(url: Seq<char>) -> Seq<char> {
    url.take(path_start(url))
}

/// Where the query mark stands, if at or after the path.
pub open spec fn query_mark(url: Seq<char>) -> Option<int> {
    marker::find_from(url, seq!['?'], path_start(url))
}

/// What stands between the authority and the query.
pub open spec fn raw_path(url: Seq<char>) -> Seq<char> {
    match query_mark(url) {
        Some(at) => url.subrange(path_start(url), at),
        None => url.skip(path_start(url)),
    }
}

/// The path of a URL, raw; a slash where there is none.
pub open spec fn url_path(url: Seq<char>) -> Seq<char> {
    if raw_path(url).len() > 0 {
        raw_path(url)
    } else {
        seq!['/']
    }
}

/// The query of a URL, raw.
pub open spec fn url_query(url: Seq<char>) -> Option<Seq<char>> {
    match query_mark(url) {
        Some(at) => Some(url.skip(at + 1)),
        None => None,
    }
}

/// The request target: the authority as written, then the encoded path, then
/// the encoded query.
pub open spec fn target_text(url: Seq<char>) -> Seq<char> {
    url_authority(url) + encoding::encoded_text(url_path(url), false) + (match url_query(url) {
        Some(query) => seq!['?'] + encoding::encoded_text(query, true),
        None => seq![],
    })
}

/// Splits a URL; `None` where it has no scheme.
pub fn split_url(url: &str) -> (parts: Option<UrlParts>)
    ensures
        parts is Some <==> scheme_end(url@) is Some,
        parts matches Some(p) ==> {
            &&& p.authority@ == url_authority(url@)
            &&& p.path@ == url_path(url@)
            &&& text::opt_text(p.query) == url_query(url@)
        },
{
    let chars = chars_of(url);
    let n = chars.len();
    let scheme_mark = chars_of("://");
    let question: [char; 1] = ['?'];
    proof {
        reveal_strlit("://");
        marker::find_from_is_first(url@, "://"@, 0);
        assert(question@ =~= seq!['?']);
    }
    let scheme = match find_chars(chars.as_slice(), scheme_mark.as_slice(), 0) {
        Some(at) => at,
        None => {
            return None;
        },
    };
    let mut start: usize = scheme + 3;
    while start < n && chars[start] != '/' && chars[start] != '?'
        invariant
            chars@ == url@,
            n == chars@.len(),
            scheme + 3 <= start <= n,
            authority_end(url@, scheme + 3) == authority_end(url@, start as int),
        decreases n - start,
    {
        start += 1;
    }
    let authority = string_of(slice_subrange(chars.as_slice(), 0, start));
    proof {
        assert(url@.subrange(0, start as int) =~= url@.take(start as int));
        marker::find_from_is_first(url@, seq!['?'], start as int);
    }
    let mark = find_chars(chars.as_slice(), question.as_slice(), start);
    let stop: usize = match mark {
        Some(at) => at,
        None => n,
    };
    assert(url@.subrange(start as int, n as int) =~= url@.skip(start as int));
    let path = if start < stop {
        string_of(slice_subrange(chars.as_slice(), start, stop))
    } else {
        "/".to_owned()
    };
    proof {
        reveal_strlit("/");
        assert(path@ =~= url_path(url@));
    }
    let query = match mark {
        Some(at) => {
            assert(url@.subrange(at + 1, n as int) =~= url@.skip(at + 1));
            Some(string_of(slice_subrange(chars.as_slice(), at + 1, n)))
        },
        None => None,
    };
    Some(UrlParts { authority, path, query })
}

/// Puts a request target together. The path and the query get the
/// bare-minimum encoding; the path is not normalised, so dot segments stay.
pub fn request_target(parts: &UrlParts) -> (target: String)
    ensures
        target@ == parts.authority@ + encoding::encoded_text(parts.path@, false) + (match text::opt_text(
            parts.query,
        ) {
            Some(query) => seq!['?'] + encoding::encoded_text(query, true),
            None => seq![],
        }),
{
    let mut target = parts.authority.clone();
    target.append(percent_encode_path(parts.path.as_str()).as_str());
    match &parts.query {
        Some(query) => {
            let ghost before = target@;
            target.push('?');
            target.append(percent_encode_query(query.as_str()).as_str());
            assert(target@ =~= before + (seq!['?'] + encoding::encoded_text(query@, true)));
        },
        None => {
            assert(target@ + Seq::<char>::empty() =~= target@);
        },
    }
    target
}

/// What `url::Url::parse` says of a text: nothing, or the text of its error.
pub uninterp spec fn url_check(t: Seq<char>) -> Result<(), Seq<char>>;

/// What `http::Uri::from_str` makes of a text: the text of the URI, or that of
/// the error.
pub uninterp spec fn parsed_uri(t: Seq<char>) -> Result<Seq<char>, Seq<char>>;

/// An outcome with its texts as character sequences.
pub open spec fn outcome_text(outcome: Result<String, String>) -> Result<Seq<char>, Seq<char>> {
    match outcome {
        Ok(t) => Ok(t@),
        Err(e) => Err(e@),
    }
}

/// A text in which no `?` comes before the first `/`, and no `#` at all.
pub open spec fn slash_comes_first(t: Seq<char>) -> bool {
    &&& exists|k: int|
        0 <= k < t.len() && #[trigger] t[k] == '/' && forall|i: int| 0 <= i < k ==> t[i] != '?'
    &&& forall|i: int| 0 <= i < t.len() ==> t[i] != '#'
}

/// An absolute `http` or `https` URL, its scheme in small letters, with a
/// path and without a fragment.
pub open spec fn plain_http(t: Seq<char>) -> bool {
    ||| t.len() >= 7 && t.take(7) == "http://"@ && slash_comes_first(t.skip(7))
    ||| t.len() >= 8 && t.take(8) == "https://"@ && slash_comes_first(t.skip(8))
}

/// The authority behind the first `k` characters of a text ends at a `#`, which
/// stands at `at`.
pub open spec fn hash_comes_first(t: Seq<char>, k: int, at: int) -> bool {
    &&& k <= at < t.len()
    &&& t[at] == '#'
    &&& forall|i: int| k <= i < at ==> t[i] != '/' && t[i] != '?' && t[i] != '#'
}

/// An absolute `http` or `https` URL, its scheme in small letters, with a
/// fragment, from `at` on, directly behind its authority.
pub open spec fn fragment_behind_host(t: Seq<char>, at: int) -> bool {
    ||| t.len() >= 7 && t.take(7) == "http://"@ && hash_comes_first(t, 7, at)
    ||| t.len() >= 8 && t.take(8) == "https://"@ && hash_comes_first(t, 8, at)
}

/// Calls `url::Url::parse` and keeps of its result whether it is an error, and
/// that error's text. The outcome is a function of the text alone; which texts
/// pass is left to the name `url_check`.
#[verifier::external_body]
fn check_url(t: &str) -> (outcome: Result<(), String>)
    ensures
        (match outcome {
            Ok(_) => Ok(()),
            Err(e) => Err(e@),
        }) == url_check(t@),
{
    url::Url::parse(t).map(|_| ()).map_err(|e| e.to_string())
}

/// Calls `http::Uri::from_str` and renders the URI, or the error, as text. The
/// outcome is a function of the text alone. A URI that is made of a plain
/// `http` URL is rendered as that URL: scheme, authority, path and query are
/// kept as they were written. Of one with a fragment directly behind the
/// authority, scheme and authority are kept, and a slash stands for the rest.
/// Which texts are accepted is left to the name `parsed_uri`.
#[verifier::external_body]
fn parse_uri(t: &str) -> (outcome: Result<String, String>)
    ensures
        outcome_text(outcome) == parsed_uri(t@),
        plain_http(t@) ==> (outcome matches Ok(uri) ==> uri@ == t@),
        forall|at: int| #[trigger]
            fragment_behind_host(t@, at) ==> (outcome matches Ok(uri) ==> uri@ == t@.take(
                at,
            ).push('/')),
{
    <http::Uri as std::str::FromStr>::from_str(t).map(|u| u.to_string()).map_err(|e| e.to_string())
}

/// The result of building a URI, given what the two parsers said.
pub open spec fn built_uri(
    url: Seq<char>,
    checked: Result<(), Seq<char>>,
    parsed: Result<Seq<char>, Seq<char>>,
) -> Result<Seq<char>, Seq<char>> {
    if scheme_end(url) is None {
        Err("Invalid URL '"@ + url + "': missing scheme"@)
    } else {
        match checked {
            Err(e) => Err("Invalid URL '"@ + url + "': "@ + e),
            Ok(_) => match parsed {
                Err(e) => Err("Invalid URI '"@ + target_text(url) + "': "@ + e),
                Ok(uri) => Ok(uri),
            },
        }
    }
}

/// Settles what building the URI of `url` comes to, given the verdict on its
/// authority and what the target was parsed to.
pub fn settle_uri(
    url: &str,
    checked: Result<(), String>,
    parsed: Result<String, String>,
) -> (outcome: Result<String, String>)
    ensures
        outcome_text(outcome) == built_uri(
            url@,
            match checked {
                Ok(_) => Ok(()),
                Err(e) => Err(e@),
            },
            outcome_text(parsed),
        ),
{
    let parts = match split_url(url) {
        Some(parts) => parts,
        None => {
            return Err(join3("Invalid URL '", url, "': missing scheme"));
        },
    };
    match checked {
        Err(e) => {
            let mut message = join3("Invalid URL '", url, "': ");
            message.append(e.as_str());
            Err(message)
        },
        Ok(_) => match parsed {
            Err(e) => {
                let target = request_target(&parts);
                let mut message = join3("Invalid URI '", target.as_str(), "': ");
                message.append(e.as_str());
                Err(message)
            },
            Ok(uri) => Ok(uri),
        },
    }
}

/// Scheme and authority of a URL as `http` renders them verbatim: a small-letter
/// `http` or `https`, and no hash, from which on `http` drops everything.
pub open spec fn plain_authority(a: Seq<char>) -> bool {
    &&& (a.len() >= 7 && a.take(7) == "http://"@) || (a.len() >= 8 && a.take(8) == "https://"@)
    &&& forall|i: int| 0 <= i < a.len() ==> a[i] != '#'
}

/// The scheme of a URL that begins with a plain one ends there.
proof fn plain_scheme(url: Seq<char>)
    requires
        scheme_end(url) is Some,
        plain_authority(url_authority(url)),
    ensures
        ({
            let k = scheme_end(url)->0 + 3;
            &&& k == 7 || k == 8
            &&& k == 7 ==> url.take(k) == "http://"@
            &&& k == 8 ==> url.take(k) == "https://"@
            &&& k <= path_start(url) <= url.len()
        }),
{
    let s = scheme_end(url)->0;
    reveal_strlit("://");
    reveal_strlit("http://");
    reveal_strlit("https://");
    marker::find_from_is_first(url, "://"@, 0);
    assert(url.subrange(s, s + 3)[0] == ':');
    authority_end_is_first(url, s + 3);
    let a = url_authority(url);
    let k = if a.len() >= 7 && a.take(7) == "http://"@ {
        7int
    } else {
        8int
    };
    assert forall|i: int| 0 <= i < k implies url[i] == a.take(k)[i] by {}
    assert(url.subrange(k - 3, k) =~= "://"@);
    assert(marker::occurs_at(url, "://"@, k - 3));
    assert(s <= k - 3);
    assert(url[s] == ':');
    assert(url.take(k) =~= a.take(k));
}

/// Every character of an encoded text is ASCII and no `#`; a leading slash
/// stays.
proof fn encoded_chars(t: Seq<char>, in_query: bool)
    ensures
        forall|i: int|
            0 <= i < encoding::encoded_text(t, in_query).len() ==> #[trigger] encoding::encoded_text(
                t,
                in_query,
            )[i] != '#',
        t.len() > 0 && t[0] == '/' ==> encoding::encoded_text(t, in_query).len() > 0
            && encoding::encoded_text(t, in_query)[0] == '/',
{
    let bytes = encode_utf8(t);
    let out = encoding::percent_encoded(bytes, in_query);
    encoding::encoded_holds_no_mark(bytes, in_query);
    text::ascii_round_trip(out);
    if t.len() > 0 && t[0] == '/' {
        let v = t[0] as u32;
        assert((47u32 & 0x7F) as u8 == 47u8) by (bit_vector);
        assert(encode_scalar(v) =~= seq![47u8]);
        assert(bytes[0] == 47u8);
    }
}

/// Where the path and the query of a URL stand.
proof fn url_layout(url: Seq<char>)
    requires
        scheme_end(url) is Some,
    ensures
        0 <= scheme_end(url)->0 + 3 <= path_start(url) <= url.len(),
        forall|i: int|
            scheme_end(url)->0 + 3 <= i < path_start(url) ==> !ends_authority(#[trigger] url[i]),
        path_start(url) < url.len() ==> ends_authority(url[path_start(url)]),
        query_mark(url) matches Some(at) ==> path_start(url) <= at < url.len() && url[at] == '?',
        path_start(url) < url.len() && url[path_start(url)] == '?' ==> query_mark(url) == Some(
            path_start(url),
        ),
        url_path(url).len() > 0 && url_path(url)[0] == '/',
{
    let start = path_start(url);
    reveal_strlit("://");
    marker::find_from_is_first(url, "://"@, 0);
    authority_end_is_first(url, scheme_end(url)->0 + 3);
    marker::find_from_is_first(url, seq!['?'], start);
    if let Some(at) = query_mark(url) {
        assert(url.subrange(at, at + 1)[0] == '?');
    }
    if start < url.len() && url[start] == '?' {
        assert(url.subrange(start, start + 1) =~= seq!['?']);
        assert(marker::occurs_at(url, seq!['?'], start));
    }
}

/// The target of a URL with a plain authority is a plain URL.
proof fn plain_target(url: Seq<char>)
    requires
        scheme_end(url) is Some,
        plain_authority(url_authority(url)),
    ensures
        plain_http(target_text(url)),
{
    let a = url_authority(url);
    let path = url_path(url);
    let p = encoding::encoded_text(path, false);
    let t = target_text(url);
    url_layout(url);
    plain_scheme(url);
    reveal_strlit("http://");
    reveal_strlit("https://");
    encoded_chars(path, false);
    if let Some(query) = url_query(url) {
        encoded_chars(query, true);
    }
    let n = a.len() as int;
    let k = scheme_end(url)->0 + 3;
    assert(t[n] == '/');
    assert(t.take(k) =~= url.take(k));
    let rest = t.skip(k);
    assert forall|i: int| 0 <= i < rest.len() implies rest[i] != '#' by {
        let j = i + k;
        if j < n {
            assert(t[j] == a[j]);
        } else if j < n + p.len() {
            assert(t[j] == p[j - n]);
        } else {
            let query = url_query(url)->0;
            let q = encoding::encoded_text(query, true);
            if j > n + p.len() {
                assert(t[j] == q[j - n - p.len() - 1]);
            }
        }
    }
    assert(rest[n - k] == '/');
    assert forall|i: int| 0 <= i < n - k implies rest[i] != '?' by {
        assert(rest[i] == url[i + k]);
    }
    assert(slash_comes_first(rest));
}

/// A fragment directly behind the host of a URL stands there in the target too.
proof fn fragment_stays_in_target(url: Seq<char>, at: int)
    requires
        fragment_behind_host(url, at),
    ensures
        scheme_end(url) is Some,
        fragment_behind_host(target_text(url), at),
        target_text(url).take(at) == url.take(at),
{
    reveal_strlit("://");
    reveal_strlit("http://");
    reveal_strlit("https://");
    let k = if url.take(7) == "http://"@ {
        7int
    } else {
        8int
    };
    assert forall|i: int| 0 <= i < k implies url[i] == url.take(k)[i] by {}
    assert(url.subrange(k - 3, k) =~= "://"@);
    assert(marker::occurs_at(url, "://"@, k - 3));
    marker::find_from_is_first(url, "://"@, 0);
    let s = scheme_end(url)->0;
    assert(url.subrange(s, s + 3)[0] == ':');
    assert(url[s] == ':');
    assert(s == k - 3);
    url_layout(url);
    let e = path_start(url);
    assert(e > at);
    let t = target_text(url);
    assert forall|i: int| 0 <= i < e implies t[i] == url[i] by {}
    assert(t.take(k) =~= url.take(k));
    assert(t.take(at) =~= url.take(at));
    assert(hash_comes_first(t, k, at));
}

/// A URL that is legal already goes out as it was written, dot segments and
/// sub-delims included; where it has no path, a slash is put in front of its
/// query, or at its end.
pub proof fn legal_url_is_sent_verbatim(url: Seq<char>)
    requires
        scheme_end(url) is Some,
        encoding::legal(encode_utf8(url_path(url)), false),
        url_query(url) matches Some(query) ==> encoding::legal(encode_utf8(query), true),
    ensures
        target_text(url) == (if path_start(url) < url.len() && url[path_start(url)] == '/' {
            url
        } else {
            url.take(path_start(url)) + seq!['/'] + url.skip(path_start(url))
        }),
{
    url_layout(url);
    encoding::legal_text_is_unchanged(url_path(url), false);
    if let Some(query) = url_query(url) {
        encoding::legal_text_is_unchanged(query, true);
    }
    if path_start(url) < url.len() && url[path_start(url)] == '/' {
        assert(target_text(url) =~= url);
    } else {
        assert(target_text(url) =~= url.take(path_start(url)) + seq!['/'] + url.skip(
            path_start(url),
        ));
    }
}

/// A query needs no path in front of it: it is sent, encoded, behind a slash
/// that is put in.
pub proof fn query_needs_no_path(authority: Seq<char>, query: Seq<char>)
    requires
        scheme_end(authority) is Some,
        path_start(authority) == authority.len(),
    ensures
        url_authority(authority + seq!['?'] + query) == authority,
        url_query(authority + seq!['?'] + query) == Some(query),
        target_text(authority + seq!['?'] + query) == authority + seq!['/', '?']
            + encoding::encoded_text(query, true),
{
    let url = authority + seq!['?'] + query;
    let n = authority.len() as int;
    let s = scheme_end(authority)->0;
    reveal_strlit("://");
    url_layout(authority);
    marker::find_from_is_first(authority, "://"@, 0);
    marker::find_from_is_first(url, "://"@, 0);
    assert(url.subrange(s, s + 3) =~= authority.subrange(s, s + 3));
    assert(marker::occurs_at(url, "://"@, s));
    let u = scheme_end(url)->0;
    assert(u <= s);
    assert(authority.subrange(u, u + 3) =~= url.subrange(u, u + 3));
    assert(marker::occurs_at(authority, "://"@, u));
    assert(u == s);
    url_layout(url);
    let e = path_start(url);
    if e < n {
        assert(url[e] == authority[e]);
    }
    if e > n {
        assert(!ends_authority(url[n]));
    }
    assert(e == n);
    assert(url.take(n) =~= authority);
    assert(url.skip(n + 1) =~= query);
    assert(raw_path(url) =~= seq![]);
    assert(url_path(url) =~= seq!['/']);
    slash_is_legal();
    assert(target_text(url) =~= authority + seq!['/', '?'] + encoding::encoded_text(query, true));
}

/// A slash is not encoded.
proof fn slash_is_legal()
    ensures
        encoding::encoded_text(seq!['/'], false) == seq!['/'],
{
    let bytes = seq![47u8];
    text::ascii_round_trip(bytes);
    assert(bytes.map_values(|b: u8| b as char) =~= seq!['/']);
    assert(bytes.skip(1) =~= Seq::<u8>::empty());
    assert(encoding::legal(bytes.skip(1), false));
    assert(encoding::legal(bytes, false));
    encoding::legal_text_is_unchanged(seq!['/'], false);
}

/// A server that decodes the target sees the raw path and the raw query
/// of the URL; what the encoding adds, decoding takes away.
pub proof fn target_decodes_to_the_url(t: Seq<char>, in_query: bool)
    ensures
        encoding::percent_decoded(encode_utf8(encoding::encoded_text(t, in_query)))
            == encoding::percent_decoded(encode_utf8(t)),
{
    let out = encoding::percent_encoded(encode_utf8(t), in_query);
    encoding::encoded_holds_no_mark(encode_utf8(t), in_query);
    text::ascii_round_trip(out);
    encoding::encoding_keeps_the_payload(encode_utf8(t), in_query);
}

/// Build the URI of a URL.
///
/// - Preserves the path raw (no dot-segment normalization, `a/../../../q` is
///   left as a literal path).
/// - Percent-encodes the path and query with the bare-minimum RFC 9110
///   encoding: only bytes that would make the request target invalid are
///   encoded, so payloads (e.g. `!'`) reach the wire unmodified. A query that
///   follows the host directly is a query all the same.
/// - Drops a fragment that follows the host directly, with all behind it; any
///   other hash is encoded.
///
/// The URI is what `http` makes of the target; for a URL with a plain
/// authority it is the target itself.
pub fn build_uri(url: &str) -> (outcome: Result<String, String>)
    ensures
        outcome_text(outcome) == built_uri(
            url@,
            url_check(url_authority(url@)),
            parsed_uri(target_text(url@)),
        ),
        plain_authority(url_authority(url@)) ==> (outcome matches Ok(uri) ==> uri@ == target_text(
            url@,
        )),
        forall|at: int| #[trigger]
            fragment_behind_host(url@, at) ==> (outcome matches Ok(uri) ==> uri@ == url@.take(
                at,
            ).push('/')),
{
    let parts = match split_url(url) {
        Some(parts) => parts,
        None => {
            return settle_uri(url, Ok(()), Err(String::new()));
        },
    };
    let target = request_target(&parts);
    proof {
        if plain_authority(url_authority(url@)) {
            plain_target(url@);
        }
        assert forall|at: int| #[trigger] fragment_behind_host(url@, at) implies
            fragment_behind_host(target@, at) && target@.take(at) == url@.take(at) by {
            fragment_stays_in_target(url@, at);
        }
    }
    settle_uri(url, check_url(parts.authority.as_str()), parse_uri(target.as_str()))
}

/// A byte that may stand in a header value: visible, opaque, or a tab.
pub open spec fn header_byte(b: u8) -> bool {
    (b >= 32 && b != 127) || b == 9
}

/// A text that may be sent as a header value.
pub open spec fn header_text(t: Seq<char>) -> bool {
    forall|i: int| 0 <= i < encode_utf8(t).len() ==> header_byte(#[trigger] encode_utf8(t)[i])
}

/// The value that goes out for a header: the text itself where it may be
/// sent, else nothing.
pub open spec fn sent_value(t: Seq<char>) -> Seq<char> {
    if header_text(t) {
        t
    } else {
        seq![]
    }
}

/// Calls `http::HeaderValue::from_bytes`, which accepts exactly the values
/// whose bytes are tabs, or at least 32 and not 127.
#[verifier::external_body]
fn accepted_as_bytes(value: &[u8]) -> (accepted: bool)
    ensures
        accepted == (forall|i: int| 0 <= i < value@.len() ==> header_byte(#[trigger] value@[i])),
{
    http::HeaderValue::from_bytes(value).is_ok()
}

/// Calls `http::HeaderValue::from_str`, which checks the bytes of the text as
/// `from_bytes` does.
#[verifier::external_body]
fn accepted_as_text(value: &str) -> (accepted: bool)
    ensures
        accepted == header_text(value@),
{
    http::HeaderValue::from_str(value).is_ok()
}

/// The value to send for a header, and whether it was accepted as it is. A
/// refused value is tried once more as text, and is sent empty when that is
/// refused as well.
fn value_to_send(value: &str) -> (sent: (String, bool))
    ensures
        sent.0@ == sent_value(value@),
        sent.1 == header_text(value@),
{
    if accepted_as_bytes(value.as_bytes()) {
        return (value.to_owned(), true);
    }
    let fallback = decode_lossy(value.as_bytes());
    proof {
        encode_utf8_valid_utf8(value@);
        encode_utf8_decode_utf8(value@);
    }
    if accepted_as_text(fallback.as_str()) {
        (fallback, false)
    } else {
        (String::new(), false)
    }
}

/// The pairs with the values that go out for them.
pub open spec fn sent_pairs(pairs: Seq<(Seq<char>, Seq<char>)>) -> Seq<(Seq<char>, Seq<char>)> {
    pairs.map_values(|p: (Seq<char>, Seq<char>)| (p.0, sent_value(p.1)))
}

/// The header that names this tool, where the pairs name no `User-Agent`.
pub open spec fn own_agent(pairs: Seq<(Seq<char>, Seq<char>)>, version: Seq<char>) -> Seq<
    (Seq<char>, Seq<char>),
> {
    if exists|i: int| 0 <= i < pairs.len() && (#[trigger] pairs[i]).0 == "User-Agent"@ {
        seq![]
    } else {
        seq![("User-Agent"@, "webfuzzy/"@ + version)]
    }
}

/// The headers of a request as they go out: each with the value that may be
/// sent, and a `User-Agent` of this tool where none is given.
pub fn outgoing_headers(headers: &[(String, String)], version: &str) -> (out: Vec<
    (String, String),
>)
    ensures
        text::pair_texts(out@) == sent_pairs(text::pair_texts(headers@)) + own_agent(
            text::pair_texts(headers@),
            version@,
        ),
{
    let mut out: Vec<(String, String)> = Vec::new();
    let mut i: usize = 0;
    while i < headers.len()
        invariant
            i <= headers.len(),
            text::pair_texts(out@) == sent_pairs(text::pair_texts(headers@)).take(i as int),
        decreases headers.len() - i,
    {
        let ghost before = text::pair_texts(out@);
        out.push((headers[i].0.clone(), value_to_send(headers[i].1.as_str()).0));
        assert(text::pair_texts(out@) =~= before.push(
            (headers@[i as int].0@, sent_value(headers@[i as int].1@)),
        ));
        assert(text::pair_texts(out@) =~= sent_pairs(text::pair_texts(headers@)).take(i + 1));
        i += 1;
    }
    assert(text::pair_texts(out@) =~= sent_pairs(text::pair_texts(headers@)));
    match position_of(headers, "User-Agent") {
        Some(at) => {
            assert(text::pair_texts(headers@)[at as int].0 == "User-Agent"@);
            assert(text::pair_texts(out@) + Seq::<(Seq<char>, Seq<char>)>::empty() =~= text::pair_texts(out@));
        },
        None => {
            assert forall|k: int| 0 <= k < headers@.len() implies (
            #[trigger] text::pair_texts(headers@)[k]).0 != "User-Agent"@ by {
                assert(headers@[k].0@ != "User-Agent"@);
            }
            let ghost before = text::pair_texts(out@);
            let mut agent = "webfuzzy/".to_owned();
            agent.append(version);
            out.push(("User-Agent".to_owned(), agent));
            assert(text::pair_texts(out@) =~= before + seq![("User-Agent"@, "webfuzzy/"@ + version@)]);
        },
    }
    out
}

/// A request always names an agent: the one that was given, or this tool.
pub proof fn an_agent_is_named(pairs: Seq<(Seq<char>, Seq<char>)>, version: Seq<char>)
    ensures
        exists|i: int|
            0 <= i < (sent_pairs(pairs) + own_agent(pairs, version)).len() && (
            #[trigger] (sent_pairs(pairs) + own_agent(pairs, version))[i]).0 == "User-Agent"@,
{
    let out = sent_pairs(pairs) + own_agent(pairs, version);
    if exists|i: int| 0 <= i < pairs.len() && (#[trigger] pairs[i]).0 == "User-Agent"@ {
        let i = choose|i: int| 0 <= i < pairs.len() && (#[trigger] pairs[i]).0 == "User-Agent"@;
        assert(out[i].0 == pairs[i].0);
    } else {
        assert(out[pairs.len() as int].0 == "User-Agent"@);
    }
}

/// No header value that goes out holds a line break, a zero byte or any
/// other control character but the tab.
pub proof fn sent_values_hold_no_line_break(t: Seq<char>, i: int)
    requires
        0 <= i < encode_utf8(sent_value(t)).len(),
    ensures
        encode_utf8(sent_value(t))[i] == 9 || encode_utf8(sent_value(t))[i] >= 32,
        encode_utf8(sent_value(t))[i] != 127,
{
    assert(header_byte(encode_utf8(sent_value(t))[i]));
}

/// The warning for a header whose value is not sent as it is.
pub open spec fn fallback_warning(name: Seq<char>, value: Seq<char>) -> Seq<char> {
    "  [WARN] header "@ + name + " fallback (invalid bytes): \""@ + value + "\" -> \""@ + value
        + "\""@
}

/// The warnings for the headers whose values are not sent as they are.
pub open spec fn fallback_warnings(pairs: Seq<(Seq<char>, Seq<char>)>) -> Seq<Seq<char>>
    decreases pairs.len(),
{
    if pairs.len() == 0 {
        seq![]
    } else if header_text(pairs.last().1) {
        fallback_warnings(pairs.drop_last())
    } else {
        fallback_warnings(pairs.drop_last()).push(fallback_warning(pairs.last().0, pairs.last().1))
    }
}

/// One warning for each header whose value is not sent as it is.
pub fn header_warnings(headers: &[(String, String)]) -> (warnings: Vec<String>)
    ensures
        text::texts(warnings@) == fallback_warnings(text::pair_texts(headers@)),
{
    let mut warnings: Vec<String> = Vec::new();
    let mut i: usize = 0;
    assert(text::texts(warnings@) =~= fallback_warnings(text::pair_texts(headers@).take(0)));
    while i < headers.len()
        invariant
            i <= headers.len(),
            text::texts(warnings@) == fallback_warnings(text::pair_texts(headers@).take(i as int)),
        decreases headers.len() - i,
    {
        let ghost seen = text::pair_texts(headers@).take(i + 1);
        assert(seen.drop_last() =~= text::pair_texts(headers@).take(i as int));
        assert(seen.last() == (headers@[i as int].0@, headers@[i as int].1@));
        if !value_to_send(headers[i].1.as_str()).1 {
            let mut warning = join3(
                "  [WARN] header ",
                headers[i].0.as_str(),
                " fallback (invalid bytes): \"",
            );
            warning.append(headers[i].1.as_str());
            warning.append("\" -> \"");
            warning.append(headers[i].1.as_str());
            warning.append("\"");
            let ghost before = text::texts(warnings@);
            warnings.push(warning);
            assert(text::texts(warnings@) =~= before.push(warning@));
        }
        i += 1;
    }
    assert(text::pair_texts(headers@).take(headers@.len() as int) =~= text::pair_texts(headers@));
    warnings
}

/// A byte that may stand in a token: a letter, a digit, or one of
/// ``!#$%&'*+-.^_`|~``.
pub open spec fn token_byte(b: u8) -> bool {
    ||| 48 <= b <= 57
    ||| 65 <= b <= 90
    ||| 94 <= b <= 122
    ||| b == 33
    ||| 35 <= b <= 39
    ||| b == 42
    ||| b == 43
    ||| b == 45
    ||| b == 46
    ||| b == 124
    ||| b == 126
}

/// A token of RFC 9110: at least one byte, and only such as may stand in one.
pub open spec fn is_token(t: Seq<char>) -> bool {
    let bytes = encode_utf8(t);
    bytes.len() > 0 && forall|i: int| 0 <= i < bytes.len() ==> token_byte(#[trigger] bytes[i])
}

/// A text that may be sent as a header name: a token of at most 65535 bytes.
pub open spec fn header_name(t: Seq<char>) -> bool {
    is_token(t) && encode_utf8(t).len() <= 65535
}

/// Calls `http::Method::from_bytes`, which accepts exactly the tokens, and
/// renders its error.
#[verifier::external_body]
fn check_method(method: &str) -> (outcome: Result<(), String>)
    ensures
        outcome is Ok <==> is_token(method@),
        outcome matches Err(e) ==> e@ == "invalid HTTP method"@,
{
    http::Method::from_bytes(method.as_bytes()).map(|_| ()).map_err(|e| e.to_string())
}

/// Calls `http::HeaderName::from_bytes`, which accepts exactly the tokens that
/// are not too long, and renders its error.
#[verifier::external_body]
fn check_header_name(name: &str) -> (outcome: Result<(), String>)
    ensures
        outcome is Ok <==> header_name(name@),
        outcome matches Err(e) ==> e@ == "invalid HTTP header name"@,
{
    http::HeaderName::from_bytes(name.as_bytes()).map(|_| ()).map_err(|e| e.to_string())
}

/// Why a request is never sent: its method is no token, or the name of a
/// header may not be sent.
pub open spec fn refusal(
    method: Seq<char>,
    headers: Seq<(Seq<char>, Seq<char>)>,
) -> Option<Seq<char>> {
    if !is_token(method) {
        Some("invalid HTTP method"@)
    } else if exists|i: int| 0 <= i < headers.len() && !header_name((#[trigger] headers[i]).0) {
        Some("invalid HTTP header name"@)
    } else {
        None
    }
}

/// Whether a request with the given method and headers may be sent; the reason
/// where it may not.
fn refuse_request(method: &str, headers: &[(String, String)]) -> (reason: Option<String>)
    ensures
        text::opt_text(reason) == refusal(method@, text::pair_texts(headers@)),
{
    let ghost pairs = text::pair_texts(headers@);
    if let Err(e) = check_method(method) {
        return Some(e);
    }
    let mut i: usize = 0;
    while i < headers.len()
        invariant
            i <= headers.len(),
            is_token(method@),
            pairs == text::pair_texts(headers@),
            forall|k: int| 0 <= k < i ==> header_name((#[trigger] pairs[k]).0),
        decreases headers.len() - i,
    {
        assert(pairs[i as int].0 == headers@[i as int].0@);
        if let Err(e) = check_header_name(headers[i].0.as_str()) {
            return Some(e);
        }
        i += 1;
    }
    None
}

/// The hyphenated notation of a UUID: lower-case hexadecimal digits in groups
/// of 8, 4, 4, 4 and 12.
pub open spec fn uuid_notation(t: Seq<char>) -> bool {
    &&& t.len() == 36
    &&& forall|i: int|
        0 <= i < 36 ==> if i == 8 || i == 13 || i == 18 || i == 23 {
            #[trigger] t[i] == '-'
        } else {
            text::is_lower_hex(t[i])
        }
}

/// Calls `uuid::Uuid::new_v4` and renders the UUID. Which one comes is chance;
/// its notation is not.
#[verifier::external_body]
fn fresh_request_id() -> (id: String)
    ensures
        uuid_notation(id@),
{
    uuid::Uuid::new_v4().to_string()
}

/// A fraction of a second of `f` characters that ends at `end`: none, or a point
/// and three, six or nine digits.
pub open spec fn fraction_ends_at(t: Seq<char>, end: int, f: int) -> bool {
    &&& f == 0 || f == 4 || f == 7 || f == 10
    &&& f > 0 ==> t[end - f] == '.'
    &&& forall|i: int| end - f < i < end ==> text::is_digit(#[trigger] t[i])
}

/// An RFC 3339 timestamp of UTC: date and time, a fraction of a second where
/// there is one, and the offset.
pub open spec fn is_utc_stamp(t: Seq<char>) -> bool {
    let end = t.len() - 6;
    &&& end >= 0
    &&& t.skip(end) == "+00:00"@
    &&& exists|f: int| #[trigger]
        fraction_ends_at(t, end, f) && text::date_time_ends_at(t, end - f)
}

/// Calls `chrono::Utc::now` and `to_rfc3339`. The text depends on the clock,
/// but it always has the notation of a date and a time of UTC.
#[verifier::external_body]
fn rfc3339_now() -> (stamp: String)
    ensures
        is_utc_stamp(stamp@),
{
    chrono::Utc::now().to_rfc3339()
}

impl HttpRequest {
    /// The record of a request with the given parts, whatever its id, its
    /// timestamp and its URL.
    pub open spec fn records(
        self,
        method: Seq<char>,
        headers: Seq<(Seq<char>, Seq<char>)>,
        body: Option<Seq<u8>>,
    ) -> bool {
        &&& self.wf()
        &&& uuid_notation(self.request_id@)
        &&& is_utc_stamp(self.timestamp@)
        &&& self.method@ == method
        &&& same_map(text::pair_texts(self.headers@), headers)
        &&& text::opt_text(self.body) == (match body {
            Some(bytes) => Some(text::utf8_lossy(bytes)),
            None => None,
        })
        &&& body matches Some(bytes) ==> (valid_utf8(bytes) ==> text::opt_text(self.body) == Some(
            decode_utf8(bytes),
        ))
    }
}

/// A request that is ready to be sent, or the reason why it is not.
#[derive(Debug, Clone)]
pub struct Prepared {
    pub request: HttpRequest,
    /// What is to be warned of.
    pub warnings: Vec<String>,
    /// Why the request is not sent, where it is not.
    pub error: Option<String>,
}

/// Makes the record of a request under a fresh id, builds its URI, and checks
/// that it may be sent. The record holds the URI where one was built, else the
/// URL as given. Once there is a URI, verbose output warns of the headers whose
/// values are not sent as they are, whether or not the request is refused.
pub fn prepare_request(
    url: &str,
    method: &str,
    headers: &[(String, String)],
    body: Option<&[u8]>,
    verbose: bool,
) -> (prepared: Prepared)
    ensures
        ({
            let bytes = match body {
                Some(b) => Some(b@),
                None => None,
            };
            let pairs = text::pair_texts(headers@);
            let built = built_uri(
                url@,
                url_check(url_authority(url@)),
                parsed_uri(target_text(url@)),
            );
            let request = prepared.request;
            &&& request.records(method@, pairs, bytes)
            &&& request.url@ == (match built {
                Ok(uri) => uri,
                Err(_) => url@,
            })
            &&& built is Ok && plain_authority(url_authority(url@)) ==> request.url@ == target_text(
                url@,
            )
            &&& forall|at: int| #[trigger]
                fragment_behind_host(url@, at) && built is Ok ==> request.url@ == url@.take(
                    at,
                ).push('/')
            &&& text::opt_text(prepared.error) == (match built {
                Ok(_) => refusal(method@, pairs),
                Err(why) => Some(why),
            })
            &&& text::texts(prepared.warnings@) == (if verbose && built is Ok {
                fallback_warnings(pairs)
            } else {
                seq![]
            })
        }),
{
    let timestamp = rfc3339_now();
    let mut request = HttpRequest {
        request_id: fresh_request_id(),
        method: method.to_owned(),
        url: url.to_owned(),
        headers: header_map(headers),
        body: match body {
            Some(bytes) => Some(decode_lossy(bytes)),
            None => None,
        },
        timestamp,
    };
    match build_uri(url) {
        Ok(uri) => {
            request.url = uri;
            let warnings = if verbose {
                header_warnings(headers)
            } else {
                Vec::new()
            };
            assert(!verbose ==> text::texts(warnings@) =~= seq![]);
            Prepared { request, warnings, error: refuse_request(method, headers) }
        },
        Err(e) => {
            let warnings: Vec<String> = Vec::new();
            assert(text::texts(warnings@) =~= seq![]);
            Prepared { request, warnings, error: Some(e) }
        },
    }
}

/// A byte of visible ASCII, or a tab.
pub open spec fn visible_byte(b: u8) -> bool {
    32 <= b < 127 || b == 9
}

/// A header value as text: the value itself where it is visible ASCII, else
/// nothing.
pub open spec fn visible_text(value: Seq<u8>) -> Seq<char> {
    if forall|i: int| 0 <= i < value.len() ==> visible_byte(#[trigger] value[i]) {
        value.map_values(|b: u8| b as char)
    } else {
        seq![]
    }
}

/// Headers with their values as text.
pub open spec fn received_pairs(headers: Seq<(String, Vec<u8>)>) -> Seq<(Seq<char>, Seq<char>)> {
    headers.map_values(|p: (String, Vec<u8>)| (p.0@, visible_text(p.1@)))
}

/// A header value as text.
pub fn show_value(value: &[u8]) -> (shown: String)
    ensures
        shown@ == visible_text(value@),
{
    let mut i: usize = 0;
    while i < value.len()
        invariant
            i <= value.len(),
            forall|k: int| 0 <= k < i ==> visible_byte(#[trigger] value@[k]),
        decreases value.len() - i,
    {
        let b = value[i];
        if !((32 <= b && b < 127) || b == 9) {
            assert(!visible_byte(value@[i as int]));
            return String::new();
        }
        i += 1;
    }
    ascii_string(value)
}

/// Makes the record of a response out of what came over the wire: the body
/// as text, and the counts that are read off it.
pub fn read_response(
    request_id: &str,
    status_code: u16,
    headers: &[(String, Vec<u8>)],
    body: &[u8],
    time_to_first_byte: Elapsed,
    total_time: Elapsed,
) -> (response: HttpResponse)
    ensures
        response.wf(),
        response.request_id@ == request_id@,
        response.status_code == status_code,
        same_map(text::pair_texts(response.headers@), received_pairs(headers@)),
        response.body@ == text::utf8_lossy(body@),
        valid_utf8(body@) ==> response.body@ == decode_utf8(body@),
        response.content_length == encode_utf8(response.body@).len(),
        response.response_words == text::words(response.body@),
        response.response_lines == text::lines(response.body@),
        response.time_to_first_byte == time_to_first_byte,
        response.total_time == total_time,
{
    let mut shown: Vec<(String, String)> = Vec::new();
    let mut i: usize = 0;
    while i < headers.len()
        invariant
            i <= headers.len(),
            text::pair_texts(shown@) == received_pairs(headers@).take(i as int),
        decreases headers.len() - i,
    {
        let ghost before = text::pair_texts(shown@);
        shown.push((headers[i].0.clone(), show_value(headers[i].1.as_slice())));
        assert(text::pair_texts(shown@) =~= before.push(
            (headers@[i as int].0@, visible_text(headers@[i as int].1@)),
        ));
        assert(text::pair_texts(shown@) =~= received_pairs(headers@).take(i + 1));
        i += 1;
    }
    assert(text::pair_texts(shown@) =~= received_pairs(headers@));
    let body_text = decode_lossy(body);
    let response_words = count_words(body_text.as_str());
    let response_lines = count_lines(body_text.as_str());
    let content_length = body_text.as_str().as_bytes().len();
    HttpResponse {
        request_id: request_id.to_owned(),
        status_code,
        headers: header_map(shown.as_slice()),
        body: body_text,
        content_length,
        response_words,
        response_lines,
        time_to_first_byte,
        total_time,
    }
}

impl RequestResult {
    /// The result of a request that was answered or failed.
    pub fn of(
        outcome: Result<(HttpRequest, HttpResponse), (HttpRequest, String)>,
        sequence: usize,
        payload_byte_len: usize,
    ) -> (result: RequestResult)
        ensures
            result.sequence == sequence,
            result.payload_byte_len == payload_byte_len,
            match outcome {
                Ok((request, response)) => {
                    &&& result.request == request
                    &&& result.response == Some(response)
                    &&& result.error is None
                    &&& request.wf() && response.wf() ==> result.wf()
                },
                Err((request, e)) => {
                    &&& result.request == request
                    &&& result.response is None
                    &&& result.error == Some(e)
                    &&& request.wf() ==> result.wf()
                },
            },
    {
        match outcome {
            Ok((request, response)) => RequestResult {
                request,
                response: Some(response),
                error: None,
                sequence,
                payload_byte_len,
            },
            Err((request, e)) => RequestResult {
                request,
                response: None,
                error: Some(e),
                sequence,
                payload_byte_len,
            },
        }
    }
}

} // verus!
