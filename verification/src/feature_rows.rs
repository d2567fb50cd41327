//! The numeric rows that responses are clustered on.
//!
//! A row holds the response length, the time to first byte where timing is
//! analysed, the word count, the line count, and one column for each listed
//! content type, followed by one for a missing content type and one for
//! content types that are not listed.

use vstd::prelude::*;
use vstd::utf8::*;

use crate::http_client::ResponseFeatures;
use crate::marker;
use crate::marker::find_chars;
use crate::text;
use crate::text::{chars_of, decode_lossy, same_text, trim};
use crate::wordlist;
use crate::wordlist::split_words;

verus! {

/// The column of the time to first byte, where there is one.
pub const TTFB_COLUMN: usize = 1;

/// The column that a content type is marked in.
#[derive(Debug, Clone, Copy, PartialEq, Eq, Structural)]
pub enum TypeColumn {
    /// The content type at this place of the list.
    Listed(usize),
    /// There is no content type.
    Missing,
    /// The content type is not on the list.
    Unlisted,
}

/// The content types of a list, one per line; empty lines are skipped.
pub open spec fn listed_types(bytes: Seq<u8>) -> Seq<Seq<char>> {
    wordlist::words_of(bytes).map_values(|line: Seq<u8>| text::utf8_lossy(line))
}

/// Reads a list of content types.
pub fn parse_content_types(bytes: &[u8]) -> (types: Vec<String>)
    ensures
        text::texts(types@) == listed_types(bytes@),
{
    let lines = split_words(bytes);
    let mut types: Vec<String> = Vec::new();
    let mut i: usize = 0;
    while i < lines.len()
        invariant
            i <= lines.len(),
            wordlist::byte_lists(lines@) == wordlist::words_of(bytes@),
            text::texts(types@) == listed_types(bytes@).take(i as int),
        decreases lines.len() - i,
    {
        let ghost before = text::texts(types@);
        assert(wordlist::byte_lists(lines@)[i as int] == lines@[i as int]@);
        types.push(decode_lossy(lines[i].as_slice()));
        assert(text::texts(types@) =~= before.push(text::utf8_lossy(lines@[i as int]@)));
        assert(text::texts(types@) =~= listed_types(bytes@).take(i + 1));
        i += 1;
    }
    assert(text::texts(types@) =~= listed_types(bytes@));
    types
}

/// A content type without its parameters.
pub open spec fn base_type(t: Seq<char>) -> Seq<char> {
    match marker::find_from(t, seq![';'], 0) {
        Some(at) => text::trimmed(t.take(at)),
        None => text::trimmed(t),
    }
}

/// The first place of `t` in a list, at or after `from`.
pub open spec fn first_place(types: Seq<Seq<char>>, t: Seq<char>, from: int) -> Option<int>
    decreases types.len() - from,
{
    if from < 0 || from >= types.len() {
        None
    } else if types[from] == t {
        Some(from)
    } else {
        first_place(types, t, from + 1)
    }
}

/// The column of a content type: parameters are ignored, case is not.
pub open spec fn column_of(types: Seq<Seq<char>>, t: Seq<char>) -> TypeColumn {
    if t.len() == 0 {
        TypeColumn::Missing
    } else {
        match first_place(types, base_type(t), 0) {
            Some(at) => TypeColumn::Listed(at as usize),
            None => TypeColumn::Unlisted,
        }
    }
}

/// A content type without its parameters.
fn without_parameters(t: &str) -> (base: String)
    ensures
        base@ == base_type(t@),
{
    let chars = chars_of(t);
    let semicolon: [char; 1] = [';'];
    proof {
        assert(semicolon@ =~= seq![';']);
        marker::find_from_is_first(t@, seq![';'], 0);
    }
    match find_chars(chars.as_slice(), semicolon.as_slice(), 0) {
        Some(at) => {
            assert(t@.subrange(0, at as int) =~= t@.take(at as int));
            trim(chars.as_slice(), 0, at)
        },
        None => {
            assert(t@.subrange(0, t@.len() as int) =~= t@);
            trim(chars.as_slice(), 0, chars.len())
        },
    }
}

/// The column of a content type.
pub fn content_type_column(types: &[String], content_type: &str) -> (column: TypeColumn)
    ensures
        column == column_of(text::texts(types@), content_type@),
{
    if chars_of(content_type).len() == 0 {
        return TypeColumn::Missing;
    }
    let base = without_parameters(content_type);
    let ghost list = text::texts(types@);
    let mut i: usize = 0;
    while i < types.len()
        invariant
            i <= types.len(),
            content_type@.len() > 0,
            base@ == base_type(content_type@),
            list == text::texts(types@),
            first_place(list, base@, 0) == first_place(list, base@, i as int),
        decreases types.len() - i,
    {
        assert(list[i as int] == types@[i as int]@);
        if same_text(types[i].as_str(), base.as_str()) {
            return TypeColumn::Listed(i);
        }
        i += 1;
    }
    TypeColumn::Unlisted
}

/// A number that marks whether something holds.
pub open spec fn flag(holds: bool) -> u64 {
    if holds {
        1
    } else {
        0
    }
}

/// One column for each of `n` listed types, one for a missing type and one
/// for the rest, with the given one marked.
pub open spec fn one_hot(n: nat, column: TypeColumn) -> Seq<u64> {
    Seq::new(n, |i: int| flag(column == TypeColumn::Listed(i as usize))).push(
        flag(column == TypeColumn::Missing),
    ).push(flag(column == TypeColumn::Unlisted))
}

/// Where the payload is reflected it drives the word and line counts, so they
/// count as zero.
pub open spec fn unless(reflected: bool, n: usize) -> u64 {
    if reflected {
        0
    } else {
        n as u64
    }
}

/// The row of a response.
pub open spec fn row_of(
    feature: ResponseFeatures,
    include_timing: bool,
    reflected: bool,
    types: Seq<Seq<char>>,
) -> Seq<u64> {
    let timing = if include_timing {
        seq![feature.time_to_first_byte_ms]
    } else {
        seq![]
    };
    seq![feature.response_length as u64] + timing + seq![
        unless(reflected, feature.response_words),
        unless(reflected, feature.response_lines),
    ] + one_hot(types.len(), column_of(types, feature.content_type@))
}

/// Lays out the row of a response.
fn feature_row(
    feature: &ResponseFeatures,
    include_timing: bool,
    reflected: bool,
    types: &[String],
) -> (row: Vec<u64>)
    ensures
        row@ == row_of(*feature, include_timing, reflected, text::texts(types@)),
{
    let mut row: Vec<u64> = Vec::new();
    row.push(feature.response_length as u64);
    if include_timing {
        row.push(feature.time_to_first_byte_ms);
    }
    row.push(
        if reflected {
            0
        } else {
            feature.response_words as u64
        },
    );
    row.push(
        if reflected {
            0
        } else {
            feature.response_lines as u64
        },
    );
    let column = content_type_column(types, feature.content_type.as_str());
    let ghost start = row@;
    let ghost marks = one_hot(types@.len(), column);
    let mut i: usize = 0;
    while i < types.len()
        invariant
            i <= types.len(),
            marks == one_hot(types@.len(), column),
            row@ == start + marks.take(i as int),
        decreases types.len() - i,
    {
        row.push(
            if column == TypeColumn::Listed(i) {
                1
            } else {
                0
            },
        );
        assert(marks.take(i + 1) =~= marks.take(i as int).push(marks[i as int]));
        assert(row@ =~= start + marks.take(i + 1));
        i += 1;
    }
    row.push(
        if column == TypeColumn::Missing {
            1
        } else {
            0
        },
    );
    row.push(
        if column == TypeColumn::Unlisted {
            1
        } else {
            0
        },
    );
    assert(row@ =~= start + marks);
    assert(row@ =~= row_of(*feature, include_timing, reflected, text::texts(types@)));
    row
}

/// The rows of the responses at the given positions, in that order.
pub fn features_to_rows(
    features: &[ResponseFeatures],
    members: &[usize],
    include_timing: bool,
    reflected: bool,
    types: &[String],
) -> (rows: Vec<Vec<u64>>)
    requires
        forall|k: int| 0 <= k < members@.len() ==> #[trigger] members@[k] < features@.len(),
    ensures
        rows@.len() == members@.len(),
        forall|k: int|
            0 <= k < rows@.len() ==> (#[trigger] rows@[k])@ == row_of(
                features@[members@[k] as int],
                include_timing,
                reflected,
                text::texts(types@),
            ),
{
    let mut rows: Vec<Vec<u64>> = Vec::new();
    let mut i: usize = 0;
    while i < members.len()
        invariant
            i <= members.len(),
            forall|k: int| 0 <= k < members@.len() ==> #[trigger] members@[k] < features@.len(),
            rows@.len() == i,
            forall|k: int|
                0 <= k < rows@.len() ==> (#[trigger] rows@[k])@ == row_of(
                    features@[members@[k] as int],
                    include_timing,
                    reflected,
                    text::texts(types@),
                ),
        decreases members.len() - i,
    {
        rows.push(feature_row(&features[members[i]], include_timing, reflected, types));
        i += 1;
    }
    rows
}

/// The byte length of a payload; zero where there is none.
pub open spec fn spec_payload_len(feature: ResponseFeatures) -> nat {
    match feature.payload {
        Some(payload) => encode_utf8(payload@).len(),
        None => 0,
    }
}

/// Byte length of the raw payload; 0 when the request carried none.
pub fn payload_len(feature: &ResponseFeatures) -> (n: usize)
    ensures
        n == spec_payload_len(*feature),
{
    match &feature.payload {
        Some(payload) => payload.as_str().as_bytes().len(),
        None => 0,
    }
}

/// The payload length and the response length of each response at the given
/// positions.
pub fn length_pairs(features: &[ResponseFeatures], members: &[usize]) -> (pairs: Vec<
    (usize, usize),
>)
    requires
        forall|k: int| 0 <= k < members@.len() ==> #[trigger] members@[k] < features@.len(),
    ensures
        pairs@.len() == members@.len(),
        forall|k: int|
            0 <= k < pairs@.len() ==> (#[trigger] pairs@[k]).0 == spec_payload_len(
                features@[members@[k] as int],
            ) && pairs@[k].1 == features@[members@[k] as int].response_length,
{
    let mut pairs: Vec<(usize, usize)> = Vec::new();
    let mut i: usize = 0;
    while i < members.len()
        invariant
            i <= members.len(),
            forall|k: int| 0 <= k < members@.len() ==> #[trigger] members@[k] < features@.len(),
            pairs@.len() == i,
            forall|k: int|
                0 <= k < pairs@.len() ==> (#[trigger] pairs@[k]).0 == spec_payload_len(
                    features@[members@[k] as int],
                ) && pairs@[k].1 == features@[members@[k] as int].response_length,
        decreases members.len() - i,
    {
        let feature = &features[members[i]];
        pairs.push((payload_len(feature), feature.response_length));
        i += 1;
    }
    pairs
}

/// A row marks exactly one content-type column.
pub proof fn one_content_type_is_marked(types: Seq<Seq<char>>, t: Seq<char>)
    requires
        types.len() <= usize::MAX,
    ensures
        exists|k: int|
            0 <= k < types.len() + 2 && #[trigger] one_hot(types.len(), column_of(types, t))[k] == 1
                && (forall|j: int|
                0 <= j < types.len() + 2 && j != k ==> one_hot(
                    types.len(),
                    column_of(types, t),
                )[j] == 0),
{
    let n = types.len() as int;
    let column = column_of(types, t);
    let marks = one_hot(types.len(), column);
    place_in_range(types, base_type(t), 0);
    let k = match column {
        TypeColumn::Listed(at) => at as int,
        TypeColumn::Missing => n,
        TypeColumn::Unlisted => n + 1,
    };
    assert(marks[k] == 1);
}

/// A place that was found is a place of the text.
proof fn place_in_range(types: Seq<Seq<char>>, t: Seq<char>, from: int)
    ensures
        first_place(types, t, from) matches Some(at) ==> from <= at < types.len() && types[at] == t,
    decreases types.len() - from,
{
    if 0 <= from < types.len() && types[from] != t {
        place_in_range(types, t, from + 1);
    }
}

/// Parameters of a content type are ignored.
pub proof fn parameters_are_ignored(types: Seq<Seq<char>>, base: Seq<char>, rest: Seq<char>)
    requires
        base.len() > 0,
        forall|i: int| 0 <= i < base.len() ==> base[i] != ';',
    ensures
        column_of(types, base + seq![';'] + rest) == column_of(types, base),
{
    let whole = base + seq![';'] + rest;
    let n = base.len() as int;
    semicolon_found(whole, 0, n);
    semicolon_found(base, 0, n);
    assert(whole.take(n) =~= base);
}

/// The search for a semicolon ends at the first one.
proof fn semicolon_found(s: Seq<char>, from: int, n: int)
    requires
        0 <= from <= n <= s.len(),
        forall|i: int| 0 <= i < n ==> s[i] != ';',
        n < s.len() ==> s[n] == ';',
    ensures
        marker::find_from(s, seq![';'], from) == (if n < s.len() {
            Some(n)
        } else {
            None::<int>
        }),
    decreases n - from,
{
    if from < s.len() {
        let piece = s.subrange(from, from + 1);
        assert(piece[0] == s[from]);
        if from < n {
            assert(seq![';'][0] == ';');
            semicolon_found(s, from + 1, n);
        } else {
            assert(piece =~= seq![';']);
        }
    }
}

/// Content types are told apart by case: a listed type marks its own
/// column, and a text that is no listed type is unlisted, however alike it
/// looks.
pub proof fn case_matters(types: Seq<Seq<char>>, t: Seq<char>)
    requires
        types.len() <= usize::MAX,
        t.len() > 0,
    ensures
        column_of(types, t) is Unlisted <==> !types.contains(base_type(t)),
        column_of(types, t) matches TypeColumn::Listed(at) ==> at < types.len()
            && types[at as int] == base_type(t),
{
    place_in_range(types, base_type(t), 0);
    if types.contains(base_type(t)) {
        let i = types.index_of(base_type(t));
        place_exists(types, base_type(t), 0, i);
    }
}

/// A text that stands in a list is found.
proof fn place_exists(types: Seq<Seq<char>>, t: Seq<char>, from: int, at: int)
    requires
        0 <= from <= at < types.len(),
        types[at] == t,
    ensures
        first_place(types, t, from) is Some,
    decreases types.len() - from,
{
    if types[from] != t {
        place_exists(types, t, from + 1, at);
    }
}

/// Each measure has a column of its own: the length comes first, the time to
/// first byte second where timing is analysed, then words and lines, then one
/// column for each listed type and two more. Where the payload is not
/// reflected, words and lines are those of the response, with timing or
/// without; where it is, they are zero.
pub proof fn each_measure_has_its_column(
    feature: ResponseFeatures,
    include_timing: bool,
    reflected: bool,
    types: Seq<Seq<char>>,
)
    ensures
        ({
            let row = row_of(feature, include_timing, reflected, types);
            let at: int = if include_timing {
                2
            } else {
                1
            };
            &&& row.len() == at + 2 + types.len() + 2
            &&& row[0] == feature.response_length
            &&& include_timing ==> row[1] == feature.time_to_first_byte_ms
            &&& !reflected ==> row[at] == feature.response_words && row[at + 1]
                == feature.response_lines
            &&& reflected ==> row[at] == 0 && row[at + 1] == 0
        }),
{
}

/// Turning timing off takes the column of the time to first byte out of a row,
/// and changes nothing else.
pub proof fn timing_is_one_column(
    feature: ResponseFeatures,
    reflected: bool,
    types: Seq<Seq<char>>,
)
    ensures
        row_of(feature, true, reflected, types)[TTFB_COLUMN as int]
            == feature.time_to_first_byte_ms,
        row_of(feature, false, reflected, types) == row_of(feature, true, reflected, types).remove(
            TTFB_COLUMN as int,
        ),
{
    assert(row_of(feature, false, reflected, types) =~= row_of(
        feature,
        true,
        reflected,
        types,
    ).remove(TTFB_COLUMN as int));
}

/// Responses have the same row exactly where they have the same length, time,
/// words, lines and kind of content, as far as these are looked at: the time
/// only with timing, words and lines only without reflection. Nothing else
/// about a response matters.
pub proof fn rows_tell_responses_apart(
    a: ResponseFeatures,
    b: ResponseFeatures,
    include_timing: bool,
    reflected: bool,
    types: Seq<Seq<char>>,
)
    requires
        types.len() <= usize::MAX,
    ensures
        row_of(a, include_timing, reflected, types) == row_of(b, include_timing, reflected, types)
            <==> {
            &&& a.response_length == b.response_length
            &&& include_timing ==> a.time_to_first_byte_ms == b.time_to_first_byte_ms
            &&& !reflected ==> a.response_words == b.response_words && a.response_lines
                == b.response_lines
            &&& column_of(types, a.content_type@) == column_of(types, b.content_type@)
        },
{
    let x = row_of(a, include_timing, reflected, types);
    let y = row_of(b, include_timing, reflected, types);
    let at: int = if include_timing {
        2
    } else {
        1
    };
    let n = types.len() as int;
    each_measure_has_its_column(a, include_timing, reflected, types);
    each_measure_has_its_column(b, include_timing, reflected, types);
    let ca = column_of(types, a.content_type@);
    let cb = column_of(types, b.content_type@);
    place_in_range(types, base_type(a.content_type@), 0);
    place_in_range(types, base_type(b.content_type@), 0);
    assert(x.skip(at + 2) =~= one_hot(types.len(), ca));
    assert(y.skip(at + 2) =~= one_hot(types.len(), cb));
    if x == y {
        assert(one_hot(types.len(), ca) == one_hot(types.len(), cb));
        assert(one_hot(types.len(), ca)[n] == one_hot(types.len(), cb)[n]);
        assert(one_hot(types.len(), ca)[n + 1] == one_hot(types.len(), cb)[n + 1]);
        if let TypeColumn::Listed(i) = ca {
            assert(one_hot(types.len(), ca)[i as int] == one_hot(types.len(), cb)[i as int]);
        }
    }
}

/// The content type of a response marks one column: that of the first listed
/// type that it is, without parameters and surrounding whitespace and with its
/// case; the last column where it is none of them; the one before where there
/// is no content type.
pub proof fn content_types_mark_their_column(
    feature: ResponseFeatures,
    include_timing: bool,
    reflected: bool,
    types: Seq<Seq<char>>,
    before: Seq<char>,
    base: Seq<char>,
    after: Seq<char>,
    parameters: Seq<char>,
    at: int,
)
    requires
        types.len() <= usize::MAX,
        forall|i: int| 0 <= i < before.len() ==> text::white(#[trigger] before[i]),
        forall|i: int| 0 <= i < after.len() ==> text::white(#[trigger] after[i]),
        base.len() > 0 ==> !text::white(base[0]) && !text::white(base.last()),
        forall|i: int| 0 <= i < base.len() ==> #[trigger] base[i] != ';',
        feature.content_type@ == before + base + after || feature.content_type@ == before + base
            + after + seq![';'] + parameters,
    ensures
        ({
            let n = types.len();
            let marks = row_of(feature, include_timing, reflected, types).skip(
                if include_timing {
                    4
                } else {
                    3
                },
            );
            let marked = if feature.content_type@.len() == 0 {
                n as int
            } else {
                (n + 1) as int
            };
            &&& feature.content_type@.len() > 0 && 0 <= at < n && types[at] == base && (forall|
                j: int,
            |
                0 <= j < at ==> #[trigger] types[j] != base) ==> marks == Seq::new(
                n + 2,
                |i: int|
                    if i == at {
                        1u64
                    } else {
                        0u64
                    },
            )
            &&& feature.content_type@.len() == 0 || !types.contains(base) ==> marks == Seq::new(
                n + 2,
                |i: int|
                    if i == marked {
                        1u64
                    } else {
                        0u64
                    },
            )
        }),
{
    let n = types.len() as int;
    let t = feature.content_type@;
    let front = before + base + after;
    let column = column_of(types, t);
    let start: int = if include_timing {
        4
    } else {
        3
    };
    let marks = row_of(feature, include_timing, reflected, types).skip(start);
    assert(marks =~= one_hot(types.len(), column));
    assert forall|i: int| 0 <= i < front.len() implies #[trigger] front[i] != ';' by {
        if i < before.len() {
            assert(front[i] == before[i]);
        } else if i < before.len() + base.len() {
            assert(front[i] == base[i - before.len()]);
        } else {
            assert(front[i] == after[i - before.len() - base.len()]);
        }
    }
    let k = front.len() as int;
    assert forall|i: int| 0 <= i < k implies #[trigger] t[i] != ';' by {
        assert(t[i] == front[i]);
    }
    semicolon_found(t, 0, k);
    assert(t.take(k) =~= front);
    if k == t.len() {
        assert(t =~= front);
    }
    text::padding_is_trimmed(before, base, after);
    assert(base_type(t) == base);
    place_in_range(types, base, 0);
    if t.len() > 0 && 0 <= at < n && types[at] == base && (forall|j: int|
        0 <= j < at ==> #[trigger] types[j] != base) {
        place_exists(types, base, 0, at);
        place_is_first(types, base, 0, at);
        assert(marks =~= Seq::new(
            types.len() + 2,
            |i: int|
                if i == at {
                    1u64
                } else {
                    0u64
                },
        ));
    }
    if t.len() == 0 || !types.contains(base) {
        let marked = if t.len() == 0 {
            n
        } else {
            n + 1
        };
        assert(marks =~= Seq::new(
            types.len() + 2,
            |i: int|
                if i == marked {
                    1u64
                } else {
                    0u64
                },
        ));
    }
}

/// The place that is found is the first one.
proof fn place_is_first(types: Seq<Seq<char>>, t: Seq<char>, from: int, at: int)
    requires
        0 <= from <= at < types.len(),
        types[at] == t,
        forall|j: int| from <= j < at ==> #[trigger] types[j] != t,
    ensures
        first_place(types, t, from) == Some(at),
    decreases at - from,
{
    if from < at {
        place_is_first(types, t, from + 1, at);
    }
}

/// The listed types are the lines of the list, as text and in order; empty
/// lines give none.
pub proof fn listed_types_are_the_lines(line: Seq<u8>, rest: Seq<u8>)
    requires
        !line.contains(10u8),
    ensures
        line.len() > 0 && line.last() != 13 ==> listed_types(line + seq![10u8] + rest) == seq![
            text::utf8_lossy(line),
        ] + listed_types(rest),
        line.len() > 0 ==> listed_types(line + seq![13u8, 10u8] + rest) == seq![
            text::utf8_lossy(line),
        ] + listed_types(rest),
        listed_types(seq![10u8] + rest) == listed_types(rest),
        line.len() > 0 && line.last() != 13 ==> listed_types(line) == seq![text::utf8_lossy(line)],
{
    wordlist::lines_are_read_one_by_one(line, rest);
    wordlist::the_last_line_needs_no_end(line);
    let one = seq![text::utf8_lossy(line)] + listed_types(rest);
    if line.len() > 0 {
        assert(listed_types(line + seq![13u8, 10u8] + rest) =~= one);
        if line.last() != 13 {
            assert(listed_types(line + seq![10u8] + rest) =~= one);
            assert(listed_types(line) =~= seq![text::utf8_lossy(line)]);
        }
    }
}

/// The length of a payload is the number of its bytes; no payload has none.
pub proof fn payloads_are_measured_in_bytes(feature: ResponseFeatures)
    ensures
        feature.payload is None ==> spec_payload_len(feature) == 0,
        feature.payload matches Some(payload) ==> spec_payload_len(feature) == encode_utf8(
            payload@,
        ).len(),
{
}

/// A content type is missing exactly where it is empty, and one that is there
/// is listed or not.
pub proof fn only_an_empty_content_type_is_missing(types: Seq<Seq<char>>, t: Seq<char>)
    requires
        types.len() <= usize::MAX,
    ensures
        column_of(types, t) is Missing <==> t.len() == 0,
        column_of(types, t) matches TypeColumn::Listed(at) ==> at < types.len() && forall|j: int|
            0 <= j < at ==> #[trigger] types[j] != types[at as int],
{
    let base = base_type(t);
    place_in_range(types, base, 0);
    if let Some(at) = first_place(types, base, 0) {
        nothing_before_the_place(types, base, 0);
    }
}

/// No place before the one that is found would do.
proof fn nothing_before_the_place(types: Seq<Seq<char>>, t: Seq<char>, from: int)
    requires
        0 <= from,
    ensures
        first_place(types, t, from) matches Some(at) ==> forall|j: int|
            from <= j < at ==> #[trigger] types[j] != t,
    decreases types.len() - from,
{
    if from < types.len() && types[from] != t {
        nothing_before_the_place(types, t, from + 1);
    }
}

} // verus!
