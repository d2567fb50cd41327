//! What holds of requests and responses, whatever they are.

use vstd::prelude::*;
use vstd::utf8::*;

use crate::encoding;
use crate::http_client;
use crate::http_client::{Elapsed, HttpRequest, HttpResponse, ResponseFeatures};
use crate::marker;
use crate::text;

verus! {

/// Of several values under one name the last one counts; a name that is not
/// given has no value.
pub proof fn the_last_value_counts(
    pairs: Seq<(Seq<char>, Seq<char>)>,
    key: Seq<char>,
    i: int,
)
    ensures
        0 <= i < pairs.len() && pairs[i].0 == key && (forall|j: int|
            i < j < pairs.len() ==> (#[trigger] pairs[j]).0 != key) ==> http_client::last_value(
            pairs,
            key,
        ) == Some(pairs[i].1),
        (forall|j: int| 0 <= j < pairs.len() ==> (#[trigger] pairs[j]).0 != key)
            ==> http_client::last_value(pairs, key) is None,
    decreases pairs.len(),
{
    if pairs.len() > 0 {
        let rest = pairs.drop_last();
        the_last_value_counts(rest, key, i);
        assert(pairs[pairs.len() - 1] == pairs.last());
        if forall|j: int| 0 <= j < pairs.len() ==> (#[trigger] pairs[j]).0 != key {
            assert forall|j: int| 0 <= j < rest.len() implies (#[trigger] rest[j]).0 != key by {
                assert(rest[j] == pairs[j]);
            }
        }
        if 0 <= i < pairs.len() - 1 && (forall|j: int|
            i < j < pairs.len() ==> (#[trigger] pairs[j]).0 != key) {
            assert forall|j: int| i < j < rest.len() implies (#[trigger] rest[j]).0 != key by {
                assert(rest[j] == pairs[j]);
            }
            assert(rest[i] == pairs[i]);
        }
    }
}

/// A map of headers holds, under each name that was given, the value that came
/// last, and holds no name twice.
pub proof fn maps_hold_the_last_values(
    map: Seq<(Seq<char>, Seq<char>)>,
    pairs: Seq<(Seq<char>, Seq<char>)>,
    key: Seq<char>,
    value: Seq<char>,
    i: int,
    j: int,
)
    requires
        http_client::distinct_keys(map),
        http_client::same_map(map, pairs),
    ensures
        map.contains((key, value)) <==> http_client::last_value(pairs, key) == Some(value),
        0 <= i < map.len() && 0 <= j < map.len() && map[i].0 == map[j].0 ==> i == j,
{
    assert(http_client::last_value(map, key) == http_client::last_value(pairs, key));
    if map.contains((key, value)) {
        let k = map.index_of((key, value));
        assert forall|n: int| k < n < map.len() implies (#[trigger] map[n]).0 != key by {
            assert(map[k].0 != map[n].0);
        }
        the_last_value_counts(map, key, k);
    }
    if http_client::last_value(pairs, key) == Some(value) {
        a_value_stands_there(map, key);
    }
    if 0 <= i < j < map.len() {
        assert(map[i].0 != map[j].0);
    } else if 0 <= j < i < map.len() {
        assert(map[j].0 != map[i].0);
    }
}

/// A value that is found stands in the list.
proof fn a_value_stands_there(pairs: Seq<(Seq<char>, Seq<char>)>, key: Seq<char>)
    ensures
        http_client::last_value(pairs, key) matches Some(value) ==> pairs.contains((key, value)),
    decreases pairs.len(),
{
    if pairs.len() > 0 {
        a_value_stands_there(pairs.drop_last(), key);
        if pairs.last().0 == key {
            assert(pairs[pairs.len() - 1] == (key, pairs.last().1));
        } else if let Some(value) = http_client::last_value(pairs, key) {
            let k = pairs.drop_last().index_of((key, value));
            assert(pairs[k] == (key, value));
        }
    }
}

/// A URL that is put together from scheme, host, path and query is taken apart
/// into these again: scheme and host go out as they are written, the path and
/// the query encoded, each by itself. Without a path a slash is sent.
pub proof fn urls_are_taken_apart(
    scheme: Seq<char>,
    host: Seq<char>,
    path: Seq<char>,
    query: Seq<char>,
)
    requires
        forall|i: int| 0 <= i < scheme.len() ==> #[trigger] scheme[i] != ':',
        forall|i: int| 0 <= i < host.len() ==> #[trigger] host[i] != '/' && host[i] != '?',
        forall|i: int| 0 <= i < path.len() ==> #[trigger] path[i] != '?',
        path.len() > 0 ==> path[0] == '/',
    ensures
        ({
            let authority = scheme + seq![':', '/', '/'] + host;
            let sent = if path.len() == 0 {
                seq!['/']
            } else {
                path
            };
            let plain = authority + path;
            let full = authority + path + seq!['?'] + query;
            &&& http_client::scheme_end(plain) is Some
            &&& http_client::scheme_end(full) is Some
            &&& http_client::url_authority(plain) == authority
            &&& http_client::url_authority(full) == authority
            &&& http_client::url_path(plain) == sent
            &&& http_client::url_path(full) == sent
            &&& http_client::url_query(plain) is None
            &&& http_client::url_query(full) == Some(query)
            &&& http_client::target_text(plain) == authority + encoding::encoded_text(sent, false)
            &&& http_client::target_text(full) == authority + encoding::encoded_text(sent, false)
                + seq!['?'] + encoding::encoded_text(query, true)
        }),
{
    let authority = scheme + seq![':', '/', '/'] + host;
    let sent = if path.len() == 0 {
        seq!['/']
    } else {
        path
    };
    let plain = authority + path;
    let full = authority + path + seq!['?'] + query;
    assert(plain.take(plain.len() as int) =~= plain);
    assert(full.take(plain.len() as int) =~= plain);
    parts_of(scheme, host, path, plain);
    parts_of(scheme, host, path, full);
    assert(plain.skip(authority.len() as int) =~= path);
    assert(full.skip((authority.len() + path.len() + 1) as int) =~= query);
    assert(http_client::url_path(plain) =~= sent);
    assert(http_client::url_path(full) =~= sent);
    assert(http_client::target_text(plain) =~= authority + encoding::encoded_text(sent, false));
    assert(http_client::target_text(full) =~= authority + encoding::encoded_text(sent, false)
        + seq!['?'] + encoding::encoded_text(query, true));
}

/// Where the parts of a URL stand.
proof fn parts_of(scheme: Seq<char>, host: Seq<char>, path: Seq<char>, url: Seq<char>)
    requires
        forall|i: int| 0 <= i < scheme.len() ==> #[trigger] scheme[i] != ':',
        forall|i: int| 0 <= i < host.len() ==> #[trigger] host[i] != '/' && host[i] != '?',
        forall|i: int| 0 <= i < path.len() ==> #[trigger] path[i] != '?',
        path.len() > 0 ==> path[0] == '/',
        ({
            let front = scheme + seq![':', '/', '/'] + host + path;
            url.len() >= front.len() && url.take(front.len() as int) == front && (url.len()
                > front.len() ==> url[front.len() as int] == '?')
        }),
    ensures
        ({
            let authority = scheme + seq![':', '/', '/'] + host;
            let n = authority.len() + path.len();
            &&& http_client::scheme_end(url) == Some(scheme.len() as int)
            &&& http_client::path_start(url) == authority.len()
            &&& http_client::url_authority(url) == authority
            &&& http_client::query_mark(url) == (if url.len() > n {
                Some(n as int)
            } else {
                None
            })
            &&& url.subrange(authority.len() as int, n as int) == path
        }),
{
    let authority = scheme + seq![':', '/', '/'] + host;
    let front = authority + path;
    let k = scheme.len() as int;
    let e = authority.len() as int;
    let n = front.len() as int;
    reveal_strlit("://");
    assert forall|i: int| 0 <= i < n implies #[trigger] url[i] == front[i] by {
        assert(url.take(n)[i] == url[i]);
    }
    marker::find_from_is_first(url, "://"@, 0);
    assert(url.subrange(k, k + 3) =~= "://"@);
    assert(marker::occurs_at(url, "://"@, k));
    let s = http_client::scheme_end(url)->0;
    assert(url.subrange(s, s + 3)[0] == ':');
    if s < k {
        assert(url[s] == scheme[s]);
    }
    assert(s == k);
    http_client::authority_end_is_first(url, k + 3);
    let p = http_client::path_start(url);
    if p < e {
        assert(url[p] == host[p - k - 3]);
    }
    if p > e {
        assert(!http_client::ends_authority(url[e]));
        if path.len() > 0 {
            assert(url[e] == path[0]);
        }
    }
    assert(p == e);
    assert(url.take(e) =~= authority);
    marker::find_from_is_first(url, seq!['?'], e);
    match http_client::query_mark(url) {
        Some(q) => {
            assert(url.subrange(q, q + 1)[0] == '?');
            if q < n {
                assert(url[q] == path[q - e]);
            }
            if q > n {
                assert(url.subrange(n, n + 1) =~= seq!['?']);
                assert(marker::occurs_at(url, seq!['?'], n));
            }
        },
        None => {
            if url.len() > n {
                assert(url.subrange(n, n + 1) =~= seq!['?']);
                assert(marker::occurs_at(url, seq!['?'], n));
            }
        },
    }
    assert(url.subrange(e, n) =~= path);
}

/// A text has a scheme exactly where a colon and two slashes follow each other
/// in it.
pub proof fn a_scheme_needs_its_mark(url: Seq<char>)
    ensures
        http_client::scheme_end(url) is Some <==> exists|i: int|
            0 <= i && i + 2 < url.len() && #[trigger] url[i] == ':' && url[i + 1] == '/' && url[i
                + 2] == '/',
{
    reveal_strlit("://");
    marker::find_from_is_first(url, "://"@, 0);
    if let Some(s) = http_client::scheme_end(url) {
        let piece = url.subrange(s, s + 3);
        assert(piece[0] == ':' && piece[1] == '/' && piece[2] == '/');
        assert(url[s] == ':' && url[s + 1] == '/' && url[s + 2] == '/');
    } else if exists|i: int|
        0 <= i && i + 2 < url.len() && #[trigger] url[i] == ':' && url[i + 1] == '/' && url[i + 2]
            == '/' {
        let i = choose|i: int|
            0 <= i && i + 2 < url.len() && #[trigger] url[i] == ':' && url[i + 1] == '/' && url[i
                + 2] == '/';
        assert(url.subrange(i, i + 3) =~= "://"@);
        assert(marker::occurs_at(url, "://"@, i));
    }
}

/// A URI is built exactly where the URL has a scheme and neither parser objects,
/// and then it is what the second one made of the target. Where one objects,
/// its words are passed on behind the text that it objected to.
pub proof fn both_parsers_must_agree(
    url: Seq<char>,
    checked: Result<(), Seq<char>>,
    parsed: Result<Seq<char>, Seq<char>>,
)
    ensures
        ({
            let built = http_client::built_uri(url, checked, parsed);
            let schemed = http_client::scheme_end(url) is Some;
            &&& built is Ok <==> schemed && checked is Ok && parsed is Ok
            &&& built matches Ok(uri) ==> parsed == Ok::<Seq<char>, Seq<char>>(uri)
            &&& !schemed ==> built == Err::<Seq<char>, Seq<char>>(
                "Invalid URL '"@ + url + "': missing scheme"@,
            )
            &&& schemed && checked is Err ==> built == Err::<Seq<char>, Seq<char>>(
                "Invalid URL '"@ + url + "': "@ + checked->Err_0,
            )
            &&& schemed && checked is Ok && parsed is Err ==> built == Err::<Seq<char>, Seq<char>>(
                "Invalid URI '"@ + http_client::target_text(url) + "': "@ + parsed->Err_0,
            )
        }),
{
}

/// A header value goes out as it is where none of its bytes is a control
/// character but the tab; else nothing goes out for it.
pub proof fn values_go_out_whole_or_not_at_all(t: Seq<char>)
    ensures
        (forall|i: int|
            0 <= i < encode_utf8(t).len() ==> #[trigger] encode_utf8(t)[i] == 9 || (encode_utf8(
                t,
            )[i] >= 32 && encode_utf8(t)[i] != 127)) ==> http_client::sent_value(t) == t,
        !(forall|i: int|
            0 <= i < encode_utf8(t).len() ==> #[trigger] encode_utf8(t)[i] == 9 || (encode_utf8(
                t,
            )[i] >= 32 && encode_utf8(t)[i] != 127)) ==> http_client::sent_value(t).len() == 0,
{
    if http_client::header_text(t) {
        assert forall|i: int| 0 <= i < encode_utf8(t).len() implies #[trigger] encode_utf8(t)[i]
            == 9 || (encode_utf8(t)[i] >= 32 && encode_utf8(t)[i] != 127) by {
            assert(http_client::header_byte(encode_utf8(t)[i]));
        }
    }
}

/// The headers go out under their names and in their order, and behind them
/// this tool names itself exactly where no `User-Agent` was given.
pub proof fn headers_go_out_in_order(
    pairs: Seq<(Seq<char>, Seq<char>)>,
    version: Seq<char>,
    i: int,
)
    ensures
        ({
            let out = http_client::sent_pairs(pairs) + http_client::own_agent(pairs, version);
            let named = exists|j: int|
                0 <= j < pairs.len() && (#[trigger] pairs[j]).0 == "User-Agent"@;
            &&& 0 <= i < pairs.len() ==> out[i] == (pairs[i].0, http_client::sent_value(pairs[i].1))
            &&& named ==> out.len() == pairs.len()
            &&& !named ==> out.len() == pairs.len() + 1 && out.last() == (
                "User-Agent"@,
                "webfuzzy/"@ + version,
            )
        }),
{
}

/// There is one warning for each header whose value is not sent as it is, in
/// the order of the headers, and none for any other.
pub proof fn only_changed_values_are_warned_of(
    a: Seq<(Seq<char>, Seq<char>)>,
    b: Seq<(Seq<char>, Seq<char>)>,
    name: Seq<char>,
    value: Seq<char>,
)
    ensures
        http_client::fallback_warnings(a + b) == http_client::fallback_warnings(a)
            + http_client::fallback_warnings(b),
        http_client::sent_value(value) == value ==> http_client::fallback_warnings(
            seq![(name, value)],
        ).len() == 0,
        http_client::sent_value(value) != value ==> http_client::fallback_warnings(
            seq![(name, value)],
        ) == seq![
            "  [WARN] header "@ + name + " fallback (invalid bytes): \""@ + value + "\" -> \""@
                + value + "\""@,
        ],
    decreases b.len(),
{
    let one = seq![(name, value)];
    assert(one.drop_last() =~= seq![]);
    assert(http_client::fallback_warnings(one.drop_last()) =~= seq![]);
    if !http_client::header_text(value) {
        if value.len() == 0 {
            assert(encode_utf8(value) =~= seq![]);
        }
        assert(http_client::fallback_warnings(one) =~= seq![
            "  [WARN] header "@ + name + " fallback (invalid bytes): \""@ + value + "\" -> \""@
                + value + "\""@,
        ]);
    }
    if b.len() == 0 {
        assert(a + b =~= a);
        assert(http_client::fallback_warnings(a) + http_client::fallback_warnings(b)
            =~= http_client::fallback_warnings(a));
    } else {
        only_changed_values_are_warned_of(a, b.drop_last(), name, value);
        assert((a + b).drop_last() =~= a + b.drop_last());
        assert(http_client::fallback_warnings(a + b) =~= http_client::fallback_warnings(a)
            + http_client::fallback_warnings(b));
    }
}

/// The bytes of a token are letters, digits and fifteen marks.
pub proof fn bytes_of_a_token(b: u8)
    ensures
        http_client::token_byte(b)
            <==> "abcdefghijklmnopqrstuvwxyzABCDEFGHIJKLMNOPQRSTUVWXYZ0123456789!#$%&'*+-.^_`|~"@.contains(
        b as char),
{
    let all = "abcdefghijklmnopqrstuvwxyzABCDEFGHIJKLMNOPQRSTUVWXYZ0123456789!#$%&'*+-.^_`|~"@;
    reveal_strlit("abcdefghijklmnopqrstuvwxyzABCDEFGHIJKLMNOPQRSTUVWXYZ0123456789!#$%&'*+-.^_`|~");
    let c = b as char;
    if 'a' <= c <= 'z' {
        assert(all[b - 97] == c);
    } else if 'A' <= c <= 'Z' {
        assert(all[b - 65 + 26] == c);
    } else if '0' <= c <= '9' {
        assert(all[b - 48 + 52] == c);
    } else if http_client::token_byte(b) {
        assert(all[62] == '!' && all[63] == '#' && all[64] == '$' && all[65] == '%');
        assert(all[66] == '&' && all[67] == '\'' && all[68] == '*' && all[69] == '+');
        assert(all[70] == '-' && all[71] == '.' && all[72] == '^' && all[73] == '_');
        assert(all[74] == '`' && all[75] == '|' && all[76] == '~');
    }
    if all.contains(c) {
        assert(all[all.index_of(c)] == c);
    }
}

/// A request is refused exactly where its method or the name of one of its
/// headers is empty or holds a byte that no token may hold, or such a name is
/// longer than the protocol library takes; the method is looked at first.
pub proof fn only_malformed_requests_are_refused(
    method: Seq<char>,
    headers: Seq<(Seq<char>, Seq<char>)>,
)
    ensures
        ({
            let well = |t: Seq<char>|
                t.len() > 0 && forall|i: int|
                    0 <= i < encode_utf8(t).len() ==> http_client::token_byte(
                        #[trigger] encode_utf8(t)[i],
                    );
            let named = forall|i: int|
                0 <= i < headers.len() ==> well((#[trigger] headers[i]).0) && encode_utf8(
                    headers[i].0,
                ).len() <= 65535;
            http_client::refusal(method, headers) == (if !well(method) {
                Some("invalid HTTP method"@)
            } else if !named {
                Some("invalid HTTP header name"@)
            } else {
                None
            })
        }),
{
    let well = |t: Seq<char>|
        t.len() > 0 && forall|i: int|
            0 <= i < encode_utf8(t).len() ==> http_client::token_byte(
                #[trigger] encode_utf8(t)[i],
            );
    assert forall|t: Seq<char>| #[trigger] well(t) == http_client::is_token(t) by {
        if t.len() > 0 {
            assert(encode_utf8(t).len() > 0) by {
                encode_utf8_decode_utf8(t);
                assert(t =~= seq![t[0]] + t.drop_first());
            }
        } else {
            assert(encode_utf8(t) =~= seq![]);
        }
    }
    if exists|i: int| 0 <= i < headers.len() && !http_client::header_name((#[trigger] headers[i]).0) {
        let i = choose|i: int|
            0 <= i < headers.len() && !http_client::header_name((#[trigger] headers[i]).0);
        assert(!(well(headers[i].0) && encode_utf8(headers[i].0).len() <= 65535));
    } else {
        assert forall|i: int| 0 <= i < headers.len() implies well((#[trigger] headers[i]).0)
            && encode_utf8(headers[i].0).len() <= 65535 by {
            assert(http_client::header_name(headers[i].0));
        }
    }
}

/// A received header value is shown byte by byte where it is visible ASCII or
/// tabs, and not at all where it holds any other byte.
pub proof fn received_values_are_shown_whole_or_not_at_all(value: Seq<u8>)
    ensures
        ({
            let plain = forall|i: int|
                0 <= i < value.len() ==> #[trigger] value[i] == 9 || 32 <= value[i] <= 126;
            &&& plain ==> http_client::visible_text(value).len() == value.len() && forall|i: int|
                0 <= i < value.len() ==> #[trigger] http_client::visible_text(value)[i]
                    == value[i] as char
            &&& !plain ==> http_client::visible_text(value).len() == 0
        }),
{
    if forall|i: int| 0 <= i < value.len() ==> http_client::visible_byte(#[trigger] value[i]) {
        assert forall|i: int| 0 <= i < value.len() implies #[trigger] value[i] == 9 || 32
            <= value[i] <= 126 by {
            assert(http_client::visible_byte(value[i]));
        }
    }
}

/// The received headers keep their names and their order.
pub proof fn received_headers_keep_their_names(headers: Seq<(String, Vec<u8>)>, i: int)
    ensures
        http_client::received_pairs(headers).len() == headers.len(),
        0 <= i < headers.len() ==> http_client::received_pairs(headers)[i] == (
            headers[i].0@,
            http_client::visible_text(headers[i].1@),
        ),
{
}

/// Milliseconds are whole ones, rounded down, as far as they fit in 64 bits.
pub proof fn milliseconds_are_rounded_down(time: Elapsed)
    requires
        time.nanos < 0x1_0000_0000_0000_0000 * 1_000_000,
    ensures
        time.spec_millis() * 1_000_000 <= time.nanos < (time.spec_millis() + 1) * 1_000_000,
{
}

/// The features of a response are its status code, its content type, the
/// number of bytes in its body, the whole milliseconds to its first byte, and
/// the words and lines of its body.
pub proof fn features_are_those_of_the_response(feature: ResponseFeatures, response: HttpResponse)
    requires
        feature.shown_by(response),
    ensures
        feature.status_code == response.status_code,
        feature.response_length == encode_utf8(response.body@).len(),
        feature.time_to_first_byte_ms == (response.time_to_first_byte.nanos / 1_000_000) as u64,
        feature.response_words == response.response_words,
        feature.response_lines == response.response_lines,
        http_client::last_value(text::pair_texts(response.headers@), "content-type"@) is None
            ==> feature.content_type@.len() == 0,
        http_client::last_value(
            text::pair_texts(response.headers@),
            "content-type"@,
        ) matches Some(value) ==> feature.content_type@ == value,
{
}

/// The record of a request keeps its method, the last value of each header, and
/// its body as text, where it has one.
pub proof fn records_keep_the_request(
    request: HttpRequest,
    method: Seq<char>,
    headers: Seq<(Seq<char>, Seq<char>)>,
    body: Option<Seq<u8>>,
    key: Seq<char>,
    value: Seq<char>,
)
    requires
        request.records(method, headers, body),
    ensures
        request.method@ == method,
        text::pair_texts(request.headers@).contains((key, value)) <==> http_client::last_value(
            headers,
            key,
        ) == Some(value),
        request.body is Some <==> body is Some,
        body matches Some(bytes) ==> request.body->0@ == text::utf8_lossy(bytes),
        http_client::uuid_notation(request.request_id@),
        http_client::is_utc_stamp(request.timestamp@),
{
    maps_hold_the_last_values(text::pair_texts(request.headers@), headers, key, value, 0, 0);
}

} // verus!
