//! Payload span markers.
//!
//! The marker (default: `§`, the section sign) delimits the original
//! value of a fuzzable parameter: in `example.com/api/endpoint?id=§1§` the
//! original value is `1`.
//!
//! - **Baseline**: every span is collapsed to its inner content, so the
//!   request is sent with the original parameter data and no markers
//!   (`?id=1`).
//! - **Fuzzing**: the first span, markers and original data included, is
//!   replaced by the payload (`?id=<payload>`); any further spans are
//!   collapsed to their inner content.
//!
//! The byte-level functions work on raw bytes, so multi-byte markers (`§` is
//! `C2 A7` in UTF-8) and binary body templates work identically. A trailing
//! marker without a closing pair is left as a literal.

use vstd::prelude::*;
use vstd::slice::slice_subrange;
use vstd::utf8::*;

use crate::spans_in_text;
use crate::text;
use crate::text::decode_lossy;

verus! {

/// `m` stands in `s` at position `i`.
pub open spec fn occurs_at<T>(s: Seq<T>, m: Seq<T>, i: int) -> bool {
    &&& 0 <= i
    &&& i + m.len() <= s.len()
    &&& s.subrange(i, i + m.len()) == m
}

/// The first position at or after `from` at which `m` stands in `s`.
pub open spec fn find_from<T>(s: Seq<T>, m: Seq<T>, from: int) -> Option<int>
    decreases s.len() - from + 1,
{
    if from + m.len() > s.len() {
        None
    } else if occurs_at(s, m, from) {
        Some(from)
    } else {
        find_from(s, m, from + 1)
    }
}

/// The first complete span that opens at or after `from`: from one marker to
/// the end of the next one. An empty marker delimits nothing.
pub open spec fn next_span<T>(s: Seq<T>, m: Seq<T>, from: int) -> Option<(int, int)> {
    if m.len() == 0 {
        None
    } else {
        match find_from(s, m, from) {
            None => None,
            Some(open) => match find_from(s, m, open + m.len()) {
                None => None,
                Some(close) => Some((open, close + m.len())),
            },
        }
    }
}

/// The complete spans of `s` that open at or after `from`, left to right.
pub open spec fn spans_from<T>(s: Seq<T>, m: Seq<T>, from: int) -> Seq<(int, int)>
    decreases s.len() - from,
    when 0 <= from
{
    proof {
        next_span_shape(s, m, from);
    }
    match next_span(s, m, from) {
        None => seq![],
        Some((open, end)) => seq![(open, end)] + spans_from(s, m, end),
    }
}

/// `s` from position `from` on, with its first span replaced by `payload`
/// (by its inner content where there is no payload) and every further span
/// by its inner content.
pub open spec fn built_from<T>(
    s: Seq<T>,
    m: Seq<T>,
    payload: Option<Seq<T>>,
    from: int,
) -> Seq<T>
    decreases s.len() - from,
    when 0 <= from
{
    proof {
        next_span_shape(s, m, from);
    }
    match next_span(s, m, from) {
        None => s.subrange(from, s.len() as int),
        Some((open, end)) => s.subrange(from, open) + (match payload {
            Some(p) => p,
            None => s.subrange(open + m.len(), end - m.len()),
        }) + built_from(s, m, None, end),
    }
}

/// Every span of `s` replaced by its inner content.
pub open spec fn collapsed<T>(s: Seq<T>, m: Seq<T>) -> Seq<T> {
    built_from(s, m, None, 0)
}

/// The first span of `s` replaced by `payload`, the others by their inner
/// content.
pub open spec fn injected<T>(s: Seq<T>, m: Seq<T>, payload: Seq<T>) -> Seq<T> {
    built_from(s, m, Some(payload), 0)
}

/// `s` holds at least one complete span.
pub open spec fn spanned<T>(s: Seq<T>, m: Seq<T>) -> bool {
    next_span(s, m, 0) is Some
}

/// The inner content of the first span of `s`.
pub open spec fn first_value<T>(s: Seq<T>, m: Seq<T>) -> Option<Seq<T>> {
    match next_span(s, m, 0) {
        None => None,
        Some((open, end)) => Some(s.subrange(open + m.len(), end - m.len())),
    }
}

/// A found position is the first one: `m` stands there and nowhere between
/// `from` and it; where none is found, `m` stands nowhere from `from` on.
pub proof fn find_from_is_first<T>(s: Seq<T>, m: Seq<T>, from: int)
    requires
        0 <= from,
    ensures
        match find_from(s, m, from) {
            Some(p) => {
                &&& from <= p
                &&& occurs_at(s, m, p)
                &&& forall|q: int| from <= q < p ==> !#[trigger] occurs_at(s, m, q)
            },
            None => forall|q: int| from <= q ==> !#[trigger] occurs_at(s, m, q),
        },
    decreases s.len() - from + 1,
{
    if from + m.len() <= s.len() && !occurs_at(s, m, from) {
        find_from_is_first(s, m, from + 1);
    }
}

/// A span lies within the text, holds its two markers without overlap, and
/// no marker stands between them.
pub proof fn next_span_shape<T>(s: Seq<T>, m: Seq<T>, from: int)
    requires
        0 <= from,
    ensures
        next_span(s, m, from) matches Some((open, end)) ==> {
            &&& m.len() > 0
            &&& from <= open
            &&& open + 2 * m.len() <= end <= s.len()
            &&& occurs_at(s, m, open)
            &&& occurs_at(s, m, end - m.len())
            &&& forall|q: int| from <= q < open ==> !#[trigger] occurs_at(s, m, q)
            &&& forall|q: int|
                open + m.len() <= q < end - m.len() ==> !#[trigger] occurs_at(s, m, q)
        },
{
    if m.len() > 0 {
        find_from_is_first(s, m, from);
        if let Some(open) = find_from(s, m, from) {
            find_from_is_first(s, m, open + m.len());
        }
    }
}

/// Whether `needle` stands in `haystack` at `at`.
fn stands_at(haystack: &[u8], needle: &[u8], at: usize) -> (found: bool)
    requires
        at + needle@.len() <= haystack@.len(),
    ensures
        found == occurs_at(haystack@, needle@, at as int),
{
    let mut i: usize = 0;
    while i < needle.len()
        invariant
            at + needle@.len() <= haystack@.len() == haystack.len(),
            i <= needle.len(),
            forall|k: int| 0 <= k < i ==> haystack@[at + k] == needle@[k],
        decreases needle.len() - i,
    {
        if haystack[at + i] != needle[i] {
            assert(haystack@.subrange(at as int, at + needle@.len())[i as int] != needle@[i as int]);
            return false;
        }
        i += 1;
    }
    assert(haystack@.subrange(at as int, at + needle@.len()) =~= needle@);
    true
}

/// The first position at or after `from` at which `needle` stands in
/// `haystack`; an empty needle is never found.
fn find_byte_seq(haystack: &[u8], needle: &[u8], from: usize) -> (found: Option<usize>)
    requires
        from <= haystack@.len(),
    ensures
        needle@.len() == 0 ==> found is None,
        needle@.len() > 0 ==> match found {
            Some(at) => find_from(haystack@, needle@, from as int) == Some(at as int),
            None => find_from(haystack@, needle@, from as int) is None,
        },
{
    if needle.len() == 0 {
        return None;
    }
    let mut at: usize = from;
    while needle.len() <= haystack.len() - at
        invariant
            needle@.len() > 0,
            from <= at <= haystack@.len(),
            find_from(haystack@, needle@, from as int) == find_from(haystack@, needle@, at as int),
        decreases haystack.len() - at,
    {
        if stands_at(haystack, needle, at) {
            return Some(at);
        }
        at += 1;
    }
    None
}

/// The first position at or after `from` at which the characters `needle`
/// stand in `haystack`.
pub(crate) fn find_chars(haystack: &[char], needle: &[char], from: usize) -> (found: Option<usize>)
    requires
        from <= haystack@.len(),
        needle@.len() > 0,
    ensures
        match found {
            Some(at) => find_from(haystack@, needle@, from as int) == Some(at as int),
            None => find_from(haystack@, needle@, from as int) is None,
        },
{
    let mut at: usize = from;
    while needle.len() <= haystack.len() - at
        invariant
            needle@.len() > 0,
            from <= at <= haystack@.len(),
            find_from(haystack@, needle@, from as int) == find_from(
                haystack@,
                needle@,
                at as int,
            ),
        decreases haystack.len() - at,
    {
        let mut i: usize = 0;
        let ghost piece = haystack@.subrange(at as int, at + needle@.len());
        while i < needle.len() && haystack[at + i] == needle[i]
            invariant
                at + needle@.len() <= haystack@.len() == haystack.len(),
                i <= needle.len(),
                piece == haystack@.subrange(at as int, at + needle@.len()),
                forall|k: int| 0 <= k < i ==> piece[k] == needle@[k],
            decreases needle.len() - i,
        {
            i += 1;
        }
        if i == needle.len() {
            assert(piece =~= needle@);
            return Some(at);
        }
        assert(piece[i as int] != needle@[i as int]);
        at += 1;
    }
    None
}

/// Positions as mathematical integers.
pub open spec fn positions(spans: Seq<(usize, usize)>) -> Seq<(int, int)> {
    spans.map_values(|p: (usize, usize)| (p.0 as int, p.1 as int))
}

/// Byte ranges `(start, end)` of every complete marker span in `template`,
/// left to right, non-overlapping. A span runs from one marker to the next,
/// markers included; the content between them is the original value.
pub fn find_spans(template: &[u8], marker: &[u8]) -> (spans: Vec<(usize, usize)>)
    ensures
        positions(spans@) == spans_from(template@, marker@, 0),
{
    let mut spans: Vec<(usize, usize)> = Vec::new();
    if marker.len() == 0 {
        assert(positions(spans@) =~= spans_from(template@, marker@, 0));
        return spans;
    }
    let mut from: usize = 0;
    let ghost all = spans_from(template@, marker@, 0);
    assert(positions(spans@) + spans_from(template@, marker@, 0) =~= all);
    loop
        invariant
            marker@.len() > 0,
            from <= template@.len(),
            all == spans_from(template@, marker@, 0),
            positions(spans@) + spans_from(template@, marker@, from as int) == all,
        decreases template.len() - from,
    {
        proof {
            next_span_shape(template@, marker@, from as int);
            find_from_is_first(template@, marker@, from as int);
        }
        let open = match find_byte_seq(template, marker, from) {
            Some(open) => open,
            None => {
                assert(positions(spans@) =~= all);
                return spans;
            },
        };
        let close = match find_byte_seq(template, marker, open + marker.len()) {
            Some(close) => close,
            None => {
                assert(positions(spans@) =~= all);
                return spans;
            },
        };
        let ghost before = positions(spans@);
        let end = close + marker.len();
        spans.push((open, end));
        assert(positions(spans@) =~= before.push((open as int, end as int)));
        assert(positions(spans@) + spans_from(template@, marker@, end as int) =~= before
            + spans_from(template@, marker@, from as int));
        from = end;
    }
}

/// `true` when the template contains at least one complete marker span.
pub fn has_span(template: &[u8], marker: &[u8]) -> (found: bool)
    ensures
        found == spanned(template@, marker@),
{
    let spans = find_spans(template, marker);
    assert(positions(spans@).len() == spans@.len());
    spans.len() > 0
}

/// Inner content (original value) of the first marker span, if any.
pub fn first_span_value<'a>(template: &'a [u8], marker: &[u8]) -> (value: Option<&'a [u8]>)
    ensures
        match value {
            Some(inner) => first_value(template@, marker@) == Some(inner@),
            None => first_value(template@, marker@) is None,
        },
{
    let spans = find_spans(template, marker);
    proof {
        next_span_shape(template@, marker@, 0);
        assert(positions(spans@).len() == spans@.len());
    }
    if spans.len() == 0 {
        None
    } else {
        assert(positions(spans@)[0] == (spans@[0].0 as int, spans@[0].1 as int));
        let (start, end) = spans[0];
        Some(slice_subrange(template, start + marker.len(), end - marker.len()))
    }
}

/// Appends a copy of `bytes[from..to]`.
fn copy_range(out: &mut Vec<u8>, bytes: &[u8], from: usize, to: usize)
    requires
        from <= to <= bytes@.len(),
    ensures
        final(out)@ == old(out)@ + bytes@.subrange(from as int, to as int),
{
    out.extend_from_slice(slice_subrange(bytes, from, to));
}

/// The template with its first span replaced by `first_payload` (by its
/// inner content where there is none) and the others by their inner content.
fn build(template: &[u8], marker: &[u8], first_payload: Option<&[u8]>) -> (out: Vec<u8>)
    ensures
        out@ == built_from(
            template@,
            marker@,
            match first_payload {
                Some(payload) => Some(payload@),
                None => None,
            },
            0,
        ),
{
    let spans = find_spans(template, marker);
    let mut out: Vec<u8> = Vec::with_capacity(template.len());
    let mut prev: usize = 0;
    let mut n: usize = 0;
    let ghost payload = match first_payload {
        Some(p) => Some(p@),
        None => None,
    };
    let ghost all = built_from(template@, marker@, payload, 0);
    assert(positions(spans@).skip(0) =~= positions(spans@));
    assert(out@ + all =~= all);
    while n < spans.len()
        invariant
            n <= spans@.len(),
            prev <= template@.len(),
            payload == (match first_payload {
                Some(p) => Some(p@),
                None => None,
            }),
            positions(spans@).skip(n as int) == spans_from(template@, marker@, prev as int),
            out@ + built_from(
                template@,
                marker@,
                if n == 0 {
                    payload
                } else {
                    None
                },
                prev as int,
            ) == all,
        decreases spans.len() - n,
    {
        let (start, end) = spans[n];
        let ghost before = out@;
        proof {
            next_span_shape(template@, marker@, prev as int);
            assert(positions(spans@).skip(n as int)[0] == (start as int, end as int));
            assert(positions(spans@).skip(n as int).skip(1) =~= positions(spans@).skip(n + 1));
            assert(spans_from(template@, marker@, prev as int).skip(1) =~= spans_from(
                template@,
                marker@,
                end as int,
            ));
        }
        copy_range(&mut out, template, prev, start);
        match (n, first_payload) {
            (0, Some(payload)) => out.extend_from_slice(payload),
            _ => copy_range(&mut out, template, start + marker.len(), end - marker.len()),
        }
        prev = end;
        n += 1;
        assert(out@ + built_from(template@, marker@, None, prev as int) =~= all);
    }
    proof {
        assert(spans_from(template@, marker@, prev as int).len() == 0);
        next_span_shape(template@, marker@, prev as int);
    }
    copy_range(&mut out, template, prev, template.len());
    out
}

/// Replace every marker span with its inner content (markers removed).
pub fn collapse_spans(template: &[u8], marker: &[u8]) -> (out: Vec<u8>)
    ensures
        out@ == collapsed(template@, marker@),
{
    build(template, marker, None)
}

/// Replace the first marker span with `payload`; collapse any further
/// spans to their inner content. Templates without a span are returned
/// unchanged.
pub fn inject_span(template: &[u8], marker: &[u8], payload: &[u8]) -> (out: Vec<u8>)
    ensures
        out@ == injected(template@, marker@, payload@),
        !spanned(template@, marker@) ==> out@ == template@,
{
    assert(template@.subrange(0, template@.len() as int) =~= template@);
    build(template, marker, Some(payload))
}

/// Text form of `collapse_spans`: every span of the text is replaced by its
/// inner content, and nothing is lost to the detour through bytes.
pub fn collapse_spans_str(template: &str, marker: &str) -> (out: String)
    ensures
        out@ == collapsed(template@, marker@),
{
    let bytes = collapse_spans(template.as_bytes(), marker.as_bytes());
    proof {
        spans_in_text::built_alike_whole(template@, marker@, None);
    }
    decode_lossy(bytes.as_slice())
}

/// Text form of `inject_span`.
pub fn inject_span_str(template: &str, marker: &str, payload: &str) -> (out: String)
    ensures
        out@ == injected(template@, marker@, payload@),
{
    let bytes = inject_span(template.as_bytes(), marker.as_bytes(), payload.as_bytes());
    proof {
        spans_in_text::built_alike_whole(template@, marker@, Some(payload@));
    }
    decode_lossy(bytes.as_slice())
}

/// The text holds at least one complete span of the byte marker.
pub open spec fn text_spanned(t: Seq<char>, m: Seq<u8>) -> bool {
    spanned(encode_utf8(t), m)
}

/// What a header key or value becomes on injection: its bytes are rebuilt
/// and decoded where it has a span; it stays as it is where it has none.
pub open spec fn part_injected(t: Seq<char>, m: Seq<u8>, payload: Seq<u8>) -> Seq<char> {
    if text_spanned(t, m) {
        text::utf8_lossy(injected(encode_utf8(t), m, payload))
    } else {
        t
    }
}

/// What a header key or value becomes when its spans are collapsed.
pub open spec fn part_collapsed(t: Seq<char>, m: Seq<u8>) -> Seq<char> {
    text::utf8_lossy(collapsed(encode_utf8(t), m))
}

/// `true` when any header template (key or value) contains a marker span.
pub fn headers_have_span(headers: &[(String, String)], marker: &[u8]) -> (found: bool)
    ensures
        found == exists|i: int|
            0 <= i < headers@.len() && (text_spanned((#[trigger] headers@[i]).0@, marker@)
                || text_spanned(headers@[i].1@, marker@)),
{
    let mut i: usize = 0;
    while i < headers.len()
        invariant
            i <= headers.len(),
            forall|k: int|
                0 <= k < i ==> !text_spanned((#[trigger] headers@[k]).0@, marker@) && !text_spanned(
                    headers@[k].1@,
                    marker@,
                ),
        decreases headers.len() - i,
    {
        if has_span(headers[i].0.as_str().as_bytes(), marker) || has_span(
            headers[i].1.as_str().as_bytes(),
            marker,
        ) {
            assert(text_spanned(headers@[i as int].0@, marker@) || text_spanned(
                headers@[i as int].1@,
                marker@,
            ));
            return true;
        }
        i += 1;
    }
    false
}

/// One header key or value with `payload` injected into its first span.
fn inject_part(s: &str, marker: &[u8], payload: &[u8]) -> (out: String)
    ensures
        out@ == part_injected(s@, marker@, payload@),
        valid_utf8(marker@) && valid_utf8(payload@) ==> out@ == injected(
            s@,
            decode_utf8(marker@),
            decode_utf8(payload@),
        ),
{
    proof {
        spans_in_text::built_alike_decoded(s@, marker@, Some(payload@));
        span_free_is_unchanged(s@, decode_utf8(marker@), decode_utf8(payload@));
    }
    if has_span(s.as_bytes(), marker) {
        let bytes = inject_span(s.as_bytes(), marker, payload);
        decode_lossy(bytes.as_slice())
    } else {
        s.to_owned()
    }
}

/// One header key or value with its spans collapsed.
fn collapse_part(s: &str, marker: &[u8]) -> (out: String)
    ensures
        out@ == part_collapsed(s@, marker@),
        !text_spanned(s@, marker@) ==> out@ == s@,
        valid_utf8(marker@) ==> out@ == collapsed(s@, decode_utf8(marker@)),
{
    let bytes = collapse_spans(s.as_bytes(), marker);
    proof {
        spans_in_text::built_alike_decoded(s@, marker@, None);
        span_free_is_unchanged(encode_utf8(s@), marker@, Seq::<u8>::empty());
        encode_utf8_valid_utf8(s@);
        encode_utf8_decode_utf8(s@);
    }
    decode_lossy(bytes.as_slice())
}

/// Inject `payload` into the first marker span of each header key and
/// value that has one; further spans collapse to their inner content.
/// Templates without a span pass through unchanged.
pub fn inject_headers(headers: &[(String, String)], marker: &[u8], payload: &[u8]) -> (out: Vec<
    (String, String),
>)
    ensures
        out@.len() == headers@.len(),
        forall|i: int|
            #![trigger out@[i]]
            0 <= i < out@.len() ==> {
                &&& out@[i].0@ == part_injected(headers@[i].0@, marker@, payload@)
                &&& out@[i].1@ == part_injected(headers@[i].1@, marker@, payload@)
            },
        valid_utf8(marker@) && valid_utf8(payload@) ==> forall|i: int|
            #![trigger out@[i]]
            0 <= i < out@.len() ==> {
                let m = decode_utf8(marker@);
                let p = decode_utf8(payload@);
                &&& out@[i].0@ == injected(headers@[i].0@, m, p)
                &&& out@[i].1@ == injected(headers@[i].1@, m, p)
            },
{
    let mut out: Vec<(String, String)> = Vec::new();
    let mut i: usize = 0;
    while i < headers.len()
        invariant
            i <= headers.len(),
            out@.len() == i,
            forall|k: int|
                #![trigger out@[k]]
                0 <= k < i ==> {
                    &&& out@[k].0@ == part_injected(headers@[k].0@, marker@, payload@)
                    &&& out@[k].1@ == part_injected(headers@[k].1@, marker@, payload@)
                },
            valid_utf8(marker@) && valid_utf8(payload@) ==> forall|k: int|
                #![trigger out@[k]]
                0 <= k < i ==> {
                    let m = decode_utf8(marker@);
                    let p = decode_utf8(payload@);
                    &&& out@[k].0@ == injected(headers@[k].0@, m, p)
                    &&& out@[k].1@ == injected(headers@[k].1@, m, p)
                },
        decreases headers.len() - i,
    {
        out.push(
            (
                inject_part(headers[i].0.as_str(), marker, payload),
                inject_part(headers[i].1.as_str(), marker, payload),
            ),
        );
        i += 1;
    }
    out
}

/// Collapse every marker span in each header key and value to its inner
/// content (baseline: send the original value, no markers).
pub fn collapse_headers(headers: &[(String, String)], marker: &[u8]) -> (out: Vec<
    (String, String),
>)
    ensures
        out@.len() == headers@.len(),
        forall|i: int|
            #![trigger out@[i]]
            0 <= i < out@.len() ==> {
                &&& out@[i].0@ == part_collapsed(headers@[i].0@, marker@)
                &&& out@[i].1@ == part_collapsed(headers@[i].1@, marker@)
                &&& !text_spanned(headers@[i].0@, marker@) ==> out@[i].0@ == headers@[i].0@
                &&& !text_spanned(headers@[i].1@, marker@) ==> out@[i].1@ == headers@[i].1@
            },
        valid_utf8(marker@) ==> forall|i: int|
            #![trigger out@[i]]
            0 <= i < out@.len() ==> {
                &&& out@[i].0@ == collapsed(headers@[i].0@, decode_utf8(marker@))
                &&& out@[i].1@ == collapsed(headers@[i].1@, decode_utf8(marker@))
            },
{
    let mut out: Vec<(String, String)> = Vec::new();
    let mut i: usize = 0;
    while i < headers.len()
        invariant
            i <= headers.len(),
            out@.len() == i,
            forall|k: int|
                #![trigger out@[k]]
                0 <= k < i ==> {
                    &&& out@[k].0@ == part_collapsed(headers@[k].0@, marker@)
                    &&& out@[k].1@ == part_collapsed(headers@[k].1@, marker@)
                    &&& !text_spanned(headers@[k].0@, marker@) ==> out@[k].0@ == headers@[k].0@
                    &&& !text_spanned(headers@[k].1@, marker@) ==> out@[k].1@ == headers@[k].1@
                },
            valid_utf8(marker@) ==> forall|k: int|
                #![trigger out@[k]]
                0 <= k < i ==> {
                    &&& out@[k].0@ == collapsed(headers@[k].0@, decode_utf8(marker@))
                    &&& out@[k].1@ == collapsed(headers@[k].1@, decode_utf8(marker@))
                },
        decreases headers.len() - i,
    {
        out.push(
            (
                collapse_part(headers[i].0.as_str(), marker),
                collapse_part(headers[i].1.as_str(), marker),
            ),
        );
        i += 1;
    }
    out
}

/// Without a complete span, collapsing and injecting leave the template
/// as it is.
pub proof fn span_free_is_unchanged<T>(s: Seq<T>, m: Seq<T>, payload: Seq<T>)
    ensures
        !spanned(s, m) ==> collapsed(s, m) == s && injected(s, m, payload) == s,
{
    assert(s.subrange(0, s.len() as int) =~= s);
}

/// Injecting the original value of the first span gives the baseline.
pub proof fn injecting_the_original_is_the_baseline<T>(s: Seq<T>, m: Seq<T>)
    ensures
        first_value(s, m) matches Some(value) ==> injected(s, m, value) == collapsed(s, m),
{
}

/// The payload goes out verbatim, in place of the first span; what
/// stands before the span is kept, what follows it is collapsed.
pub proof fn payload_replaces_the_first_span<T>(s: Seq<T>, m: Seq<T>, payload: Seq<T>)
    ensures
        next_span(s, m, 0) matches Some((open, end)) ==> injected(s, m, payload) == s.take(open)
            + payload + collapsed_after(s, m, end),
{
    next_span_shape(s, m, 0);
    if let Some((open, end)) = next_span(s, m, 0) {
        assert(s.subrange(0, open) =~= s.take(open));
    }
}

/// What follows position `from`, its spans collapsed.
pub open spec fn collapsed_after<T>(s: Seq<T>, m: Seq<T>, from: int) -> Seq<T> {
    built_from(s, m, None, from)
}

/// The spans found are in order, do not overlap, and each runs from one
/// marker to the next one.
pub proof fn spans_are_ordered<T>(s: Seq<T>, m: Seq<T>, from: int)
    requires
        0 <= from,
    ensures
        forall|i: int|
            0 <= i < spans_from(s, m, from).len() ==> {
                let (open, end) = #[trigger] spans_from(s, m, from)[i];
                &&& from <= open
                &&& open + 2 * m.len() <= end <= s.len()
                &&& occurs_at(s, m, open)
                &&& occurs_at(s, m, end - m.len())
            },
        forall|i: int, j: int|
            0 <= i < j < spans_from(s, m, from).len() ==> (#[trigger] spans_from(s, m, from)[i]).1
                <= (#[trigger] spans_from(s, m, from)[j]).0,
    decreases s.len() - from,
{
    next_span_shape(s, m, from);
    if let Some((open, end)) = next_span(s, m, from) {
        let rest = spans_from(s, m, end);
        spans_are_ordered(s, m, end);
        assert forall|i: int| 0 <= i < spans_from(s, m, from).len() implies ({
            let (open, end) = #[trigger] spans_from(s, m, from)[i];
            &&& from <= open
            &&& open + 2 * m.len() <= end <= s.len()
            &&& occurs_at(s, m, open)
            &&& occurs_at(s, m, end - m.len())
        }) by {
            if i > 0 {
                assert(spans_from(s, m, from)[i] == rest[i - 1]);
            }
        }
        assert forall|i: int, j: int|
            0 <= i < j < spans_from(s, m, from).len() implies (#[trigger] spans_from(
            s,
            m,
            from,
        )[i]).1 <= (#[trigger] spans_from(s, m, from)[j]).0 by {
            assert(spans_from(s, m, from)[j] == rest[j - 1]);
            if i > 0 {
                assert(spans_from(s, m, from)[i] == rest[i - 1]);
            }
        }
    }
}

/// Collapsing removes the two markers of every span and nothing else.
pub proof fn collapsing_removes_the_markers<T>(s: Seq<T>, m: Seq<T>, from: int)
    requires
        0 <= from <= s.len(),
    ensures
        collapsed_after(s, m, from).len() + 2 * m.len() * spans_from(s, m, from).len() == s.len()
            - from,
    decreases s.len() - from,
{
    next_span_shape(s, m, from);
    if let Some((open, end)) = next_span(s, m, from) {
        collapsing_removes_the_markers(s, m, end);
        let n = spans_from(s, m, end).len() as int;
        let k = m.len() as int;
        assert(spans_from(s, m, from).len() == n + 1);
        assert(2 * k * (n + 1) == 2 * k * n + 2 * k) by (nonlinear_arith);
    } else {
        assert(2 * m.len() * 0 == 0) by (nonlinear_arith);
    }
}

/// A piece in which `c` stands nowhere counts it zero times.
proof fn counts_zero<T>(s: Seq<T>, c: T)
    requires
        forall|i: int| 0 <= i < s.len() ==> s[i] != c,
    ensures
        s.to_multiset().count(c) == 0,
{
    broadcast use vstd::seq_lib::group_to_multiset_ensures;

    if s.to_multiset().count(c) > 0 {
        assert(s.contains(c));
    }
}

/// Counting over two pieces.
proof fn counts_add<T>(a: Seq<T>, b: Seq<T>, c: T)
    ensures
        (a + b).to_multiset().count(c) == a.to_multiset().count(c) + b.to_multiset().count(c),
{
    vstd::seq_lib::lemma_multiset_commutative(a, b);
}

/// A single element counts itself once.
proof fn counts_one<T>(c: T)
    ensures
        seq![c].to_multiset().count(c) == 1,
{
    broadcast use vstd::seq_lib::group_to_multiset_ensures;

    assert(seq![c] =~= Seq::<T>::empty().push(c));
}

/// A marker of one element stands exactly where that element is.
proof fn single_stands<T>(s: Seq<T>, m: Seq<T>, i: int)
    requires
        m.len() == 1,
        0 <= i < s.len(),
    ensures
        occurs_at(s, m, i) == (s[i] == m[0]),
{
    if s[i] == m[0] {
        assert(s.subrange(i, i + 1) =~= m);
    } else {
        assert(s.subrange(i, i + 1)[0] != m[0]);
    }
}

/// A stretch without the marker of one element counts it zero times.
proof fn stretch_counts_zero<T>(s: Seq<T>, m: Seq<T>, from: int, to: int)
    requires
        m.len() == 1,
        0 <= from <= to <= s.len(),
        forall|q: int| from <= q < to ==> !#[trigger] occurs_at(s, m, q),
    ensures
        s.subrange(from, to).to_multiset().count(m[0]) == 0,
{
    let piece = s.subrange(from, to);
    assert forall|i: int| 0 <= i < piece.len() implies piece[i] != m[0] by {
        single_stands(s, m, from + i);
        assert(!occurs_at(s, m, from + i));
    }
    counts_zero(piece, m[0]);
}

/// With a marker of one element, collapsing leaves no marker where they
/// come in pairs, and one, the unmatched last one, where they do not.
pub proof fn collapsing_pairs_the_markers<T>(s: Seq<T>, m: Seq<T>, from: int)
    requires
        m.len() == 1,
        0 <= from <= s.len(),
    ensures
        collapsed_after(s, m, from).to_multiset().count(m[0]) == s.subrange(
            from,
            s.len() as int,
        ).to_multiset().count(m[0]) % 2,
    decreases s.len() - from,
{
    let c = m[0];
    let n = s.len() as int;
    assert(m =~= seq![c]);
    counts_one(c);
    next_span_shape(s, m, from);
    find_from_is_first(s, m, from);
    match find_from(s, m, from) {
        None => {
            stretch_counts_zero(s, m, from, n);
        },
        Some(open) => {
            find_from_is_first(s, m, open + 1);
            stretch_counts_zero(s, m, from, open);
            assert(s.subrange(from, n) =~= s.subrange(from, open) + m + s.subrange(open + 1, n));
            counts_add(s.subrange(from, open), m, c);
            counts_add(s.subrange(from, open) + m, s.subrange(open + 1, n), c);
            match find_from(s, m, open + 1) {
                None => {
                    stretch_counts_zero(s, m, open + 1, n);
                },
                Some(close) => {
                    let end = close + 1;
                    collapsing_pairs_the_markers(s, m, end);
                    stretch_counts_zero(s, m, open + 1, close);
                    assert(s.subrange(open + 1, n) =~= s.subrange(open + 1, close) + m
                        + s.subrange(end, n));
                    counts_add(s.subrange(open + 1, close), m, c);
                    counts_add(s.subrange(open + 1, close) + m, s.subrange(end, n), c);
                    counts_add(s.subrange(from, open), s.subrange(open + 1, close), c);
                    counts_add(
                        s.subrange(from, open) + s.subrange(open + 1, close),
                        collapsed_after(s, m, end),
                        c,
                    );
                },
            }
        },
    }
}

/// With a marker of one element, collapsed text holds no span any more,
/// so collapsing it again changes nothing.
pub proof fn collapsed_text_has_no_span<T>(s: Seq<T>, m: Seq<T>)
    requires
        m.len() == 1,
    ensures
        !spanned(collapsed(s, m), m),
        collapsed(collapsed(s, m), m) == collapsed(s, m),
{
    let r = collapsed(s, m);
    let c = m[0];
    collapsing_pairs_the_markers(s, m, 0);
    next_span_shape(r, m, 0);
    if let Some((open, end)) = next_span(r, m, 0) {
        assert(m =~= seq![c]);
        counts_one(c);
        assert(r =~= r.take(open) + m + r.subrange(open + 1, end - 1) + m + r.skip(end));
        let a = r.take(open) + m;
        let b = a + r.subrange(open + 1, end - 1);
        counts_add(r.take(open), m, c);
        counts_add(a, r.subrange(open + 1, end - 1), c);
        counts_add(b, m, c);
        counts_add(b + m, r.skip(end), c);
    }
    span_free_is_unchanged(r, m, Seq::<T>::empty());
}

/// Some element of `m` is not the one that stands in `s` from position `at` on.
pub open spec fn differs_at<T>(s: Seq<T>, m: Seq<T>, at: int) -> bool {
    exists|i: int| 0 <= i < m.len() && s[at + i] != #[trigger] m[i]
}

/// The marker stands at a place where no element differs.
proof fn stands_or_differs<T>(s: Seq<T>, m: Seq<T>, at: int)
    requires
        0 <= at,
        at + m.len() <= s.len(),
    ensures
        occurs_at(s, m, at) == !differs_at(s, m, at),
{
    let piece = s.subrange(at, at + m.len());
    if differs_at(s, m, at) {
        let i = choose|i: int| 0 <= i < m.len() && s[at + i] != #[trigger] m[i];
        assert(piece[i] != m[i]);
    } else {
        assert forall|i: int| 0 <= i < m.len() implies piece[i] == m[i] by {
            assert(piece[i] == s[at + i]);
        }
        assert(piece =~= m);
    }
}

/// The search ends where the marker stands and did not stand before.
proof fn found_there<T>(s: Seq<T>, m: Seq<T>, from: int, at: int)
    requires
        0 <= from <= at,
        occurs_at(s, m, at),
        forall|q: int| from <= q < at ==> #[trigger] differs_at(s, m, q),
    ensures
        find_from(s, m, from) == Some(at),
{
    find_from_is_first(s, m, from);
    if let Some(p) = find_from(s, m, from) {
        stands_or_differs(s, m, p);
        if p < at {
            assert(differs_at(s, m, p));
        }
    }
}

/// What stands in front does not matter for where the marker is found.
proof fn found_behind<T>(front: Seq<T>, s: Seq<T>, m: Seq<T>, from: int)
    requires
        0 <= from,
    ensures
        find_from(front + s, m, front.len() + from) == (match find_from(s, m, from) {
            Some(at) => Some(front.len() + at),
            None => None,
        }),
    decreases s.len() - from + 1,
{
    let whole = front + s;
    let n = front.len() as int;
    if from + m.len() <= s.len() {
        assert(whole.subrange(n + from, n + from + m.len()) =~= s.subrange(from, from + m.len()));
        assert(occurs_at(whole, m, n + from) == occurs_at(s, m, from));
        if !occurs_at(s, m, from) {
            found_behind(front, s, m, from + 1);
        }
    }
}

/// What stands in front does not matter for what follows.
proof fn built_behind<T>(front: Seq<T>, s: Seq<T>, m: Seq<T>, payload: Option<Seq<T>>, from: int)
    requires
        0 <= from <= s.len(),
    ensures
        built_from(front + s, m, payload, front.len() + from) == built_from(s, m, payload, from),
        spans_from(front + s, m, front.len() + from) == spans_from(s, m, from).map_values(
            |p: (int, int)| (front.len() + p.0, front.len() + p.1),
        ),
    decreases s.len() - from,
{
    let whole = front + s;
    let n = front.len() as int;
    let shift = |p: (int, int)| (front.len() + p.0, front.len() + p.1);
    next_span_shape(s, m, from);
    found_behind(front, s, m, from);
    match next_span(s, m, from) {
        None => {
            if m.len() > 0 {
                if let Some(open) = find_from(s, m, from) {
                    find_from_is_first(s, m, from);
                    found_behind(front, s, m, open + m.len());
                }
            }
            assert(next_span(whole, m, n + from) is None);
            assert(whole.subrange(n + from, whole.len() as int) =~= s.subrange(
                from,
                s.len() as int,
            ));
            assert(spans_from(whole, m, n + from) =~= spans_from(s, m, from).map_values(shift));
        },
        Some((open, end)) => {
            found_behind(front, s, m, open + m.len());
            assert(next_span(whole, m, n + from) == Some((n + open, n + end)));
            built_behind(front, s, m, None, end);
            assert(whole.subrange(n + from, n + open) =~= s.subrange(from, open));
            assert(whole.subrange(n + open + m.len(), n + end - m.len()) =~= s.subrange(
                open + m.len(),
                end - m.len(),
            ));
            assert(spans_from(whole, m, n + from) =~= spans_from(s, m, from).map_values(shift));
        },
    }
}

/// A value between two markers is a span, and it is the first one where the
/// marker stands nowhere before it and nowhere between. Injecting puts the
/// payload in its place and keeps what stands before it; collapsing keeps the
/// value and drops the two markers; what follows is collapsed by itself.
pub proof fn a_value_between_markers_is_a_span<T>(
    before: Seq<T>,
    value: Seq<T>,
    rest: Seq<T>,
    m: Seq<T>,
    payload: Seq<T>,
)
    requires
        m.len() > 0,
        forall|q: int|
            0 <= q < before.len() ==> #[trigger] differs_at(
                before + m + value + m + rest,
                m,
                q,
            ),
        forall|q: int|
            before.len() + m.len() <= q < before.len() + m.len() + value.len()
                ==> #[trigger] differs_at(before + m + value + m + rest, m, q),
    ensures
        ({
            let s = before + m + value + m + rest;
            let end = before.len() + m.len() + value.len() + m.len();
            &&& spanned(s, m)
            &&& first_value(s, m) == Some(value)
            &&& injected(s, m, payload) == before + payload + collapsed(rest, m)
            &&& collapsed(s, m) == before + value + collapsed(rest, m)
            &&& spans_from(s, m, 0) == seq![(before.len() as int, end as int)] + spans_from(
                rest,
                m,
                0,
            ).map_values(|p: (int, int)| (end + p.0, end + p.1))
        }),
{
    let s = before + m + value + m + rest;
    let k = m.len() as int;
    let open = before.len() as int;
    let close = open + k + value.len();
    let end = close + k;
    assert(s.subrange(open, open + k) =~= m);
    assert(s.subrange(close, close + k) =~= m);
    found_there(s, m, 0, open);
    found_there(s, m, open + k, close);
    assert(next_span(s, m, 0) == Some((open, end)));
    let front = before + m + value + m;
    assert(s =~= front + rest);
    built_behind(front, rest, m, None, 0);
    assert(s.subrange(0, open) =~= before);
    assert(s.subrange(open + k, end - k) =~= value);
    assert(spans_from(s, m, 0) =~= seq![(open, end)] + spans_from(rest, m, 0).map_values(
        |p: (int, int)| (front.len() + p.0, front.len() + p.1),
    ));
    assert(spans_from(rest, m, 0).map_values(
        |p: (int, int)| (front.len() + p.0, front.len() + p.1),
    ) =~= spans_from(rest, m, 0).map_values(|p: (int, int)| (end + p.0, end + p.1)));
}

/// Without two markers, one behind the other, there is no span, and nothing is
/// changed: a single marker stays a literal. An empty marker delimits nothing.
pub proof fn a_single_marker_is_a_literal<T>(s: Seq<T>, m: Seq<T>, payload: Seq<T>)
    requires
        m.len() == 0 || forall|p: int, q: int|
            0 <= p && p + m.len() <= q && q + m.len() <= s.len() ==> #[trigger] differs_at(s, m, p)
                || #[trigger] differs_at(s, m, q),
    ensures
        !spanned(s, m),
        first_value(s, m) is None,
        injected(s, m, payload) == s,
        collapsed(s, m) == s,
        spans_from(s, m, 0).len() == 0,
{
    next_span_shape(s, m, 0);
    if let Some((open, end)) = next_span(s, m, 0) {
        stands_or_differs(s, m, open);
        stands_or_differs(s, m, end - m.len());
        assert(differs_at(s, m, open) || differs_at(s, m, end - m.len()));
    }
    span_free_is_unchanged(s, m, payload);
}

/// Positions are read as they are, one for one and in order.
pub proof fn positions_are_read_as_they_are(spans: Seq<(usize, usize)>, i: int)
    ensures
        positions(spans).len() == spans.len(),
        0 <= i < spans.len() ==> positions(spans)[i].0 == spans[i].0 && positions(spans)[i].1
            == spans[i].1,
{
}

/// A header key or value is rebuilt from its bytes: with the payload where it
/// has a span, unchanged where it has none; collapsing goes by the bytes too.
pub proof fn header_parts_are_rebuilt_from_bytes(t: Seq<char>, m: Seq<u8>, payload: Seq<u8>)
    ensures
        text_spanned(t, m) == spanned(encode_utf8(t), m),
        spanned(encode_utf8(t), m) ==> part_injected(t, m, payload) == text::utf8_lossy(
            injected(encode_utf8(t), m, payload),
        ),
        !spanned(encode_utf8(t), m) ==> part_injected(t, m, payload) == t,
        part_collapsed(t, m) == text::utf8_lossy(collapsed(encode_utf8(t), m)),
{
}

} // verus!
