//! Bare-minimum percent-encoding of request targets.
//!
//! Only what would make the request line illegal is encoded, and valid `%XX`
//! sequences are kept, so that a payload reaches the server as it was
//! written.

use vstd::prelude::*;
use vstd::utf8::*;

use crate::text::ascii_string;

verus! {

/// A hexadecimal digit, in either case.
pub open spec fn hex_byte(b: u8) -> bool {
    let c = b as char;
    ||| '0' <= c <= '9'
    ||| 'A' <= c <= 'F'
    ||| 'a' <= c <= 'f'
}

/// The value of a hexadecimal digit.
pub open spec fn hex_value(b: u8) -> int {
    if b <= 0x39 {
        b - 0x30
    } else if b <= 0x46 {
        b - 0x37
    } else {
        b - 0x57
    }
}

/// The upper-case hexadecimal digit of `d`.
pub open spec fn upper_hex(d: int) -> u8 {
    if d < 10 {
        (0x30 + d) as u8
    } else {
        (0x37 + d) as u8
    }
}

/// Bytes that may stand verbatim: letters, digits, `-._~`, the sub-delims
/// `!$&'()*+,;=`, and `:@/`; in a query `?` as well.
pub open spec fn safe_byte(b: u8, in_query: bool) -> bool {
    let c = b as char;
    ||| 'a' <= c <= 'z'
    ||| 'A' <= c <= 'Z'
    ||| '0' <= c <= '9'
    ||| c == '-' || c == '.' || c == '_' || c == '~'
    ||| c == '!' || c == '$' || c == '&' || c == '\'' || c == '(' || c == ')'
    ||| c == '*' || c == '+' || c == ',' || c == ';' || c == '='
    ||| c == ':' || c == '@' || c == '/'
    ||| in_query && c == '?'
}

/// The bytes start with a valid `%XX` sequence.
pub open spec fn escape_starts(s: Seq<u8>) -> bool {
    s.len() >= 3 && s[0] == 0x25 && hex_byte(s[1]) && hex_byte(s[2])
}

/// `%XX` for one byte, in upper case.
pub open spec fn escape_of(b: u8) -> Seq<u8> {
    seq![0x25u8, upper_hex(b as int / 16), upper_hex(b as int % 16)]
}

/// The encoded form: valid `%XX` sequences and safe bytes are kept, every
/// other byte (a stray `%` among them) becomes `%XX`.
pub open spec fn percent_encoded(s: Seq<u8>, in_query: bool) -> Seq<u8>
    decreases s.len(),
{
    if s.len() == 0 {
        seq![]
    } else if escape_starts(s) {
        s.take(3) + percent_encoded(s.skip(3), in_query)
    } else if safe_byte(s[0], in_query) {
        seq![s[0]] + percent_encoded(s.skip(1), in_query)
    } else {
        escape_of(s[0]) + percent_encoded(s.skip(1), in_query)
    }
}

/// Nothing but safe bytes and valid `%XX` sequences.
pub open spec fn legal(s: Seq<u8>, in_query: bool) -> bool
    decreases s.len(),
{
    if s.len() == 0 {
        true
    } else if escape_starts(s) {
        legal(s.skip(3), in_query)
    } else {
        safe_byte(s[0], in_query) && legal(s.skip(1), in_query)
    }
}

/// What a decoding server makes of the bytes: each valid `%XX` sequence is
/// one byte, everything else stands for itself.
pub open spec fn percent_decoded(s: Seq<u8>) -> Seq<u8>
    decreases s.len(),
{
    if s.len() == 0 {
        seq![]
    } else if escape_starts(s) {
        seq![(16 * hex_value(s[1]) + hex_value(s[2])) as u8] + percent_decoded(s.skip(3))
    } else {
        seq![s[0]] + percent_decoded(s.skip(1))
    }
}

/// The encoded form of a text, as text.
pub open spec fn encoded_text(t: Seq<char>, in_query: bool) -> Seq<char> {
    decode_utf8(percent_encoded(encode_utf8(t), in_query))
}

/// Check if a byte is a valid hex digit.
fn is_hex(b: u8) -> (yes: bool)
    ensures
        yes == hex_byte(b),
{
    let c = b as char;
    ('0' <= c && c <= '9') || ('A' <= c && c <= 'F') || ('a' <= c && c <= 'f')
}

/// Bytes legal verbatim in a path segment (plus `/`); in a query, `?`
/// is also legal.
fn is_safe_byte(b: u8, in_query: bool) -> (yes: bool)
    ensures
        yes == safe_byte(b, in_query),
{
    let c = b as char;
    ('a' <= c && c <= 'z') || ('A' <= c && c <= 'Z') || ('0' <= c && c <= '9') || c == '-' || c
        == '.' || c == '_' || c == '~' || c == '!' || c == '$' || c == '&' || c == '\'' || c == '('
        || c == ')' || c == '*' || c == '+' || c == ',' || c == ';' || c == '=' || c == ':' || c
        == '@' || c == '/' || (in_query && c == '?')
}

/// The upper-case hexadecimal digit of `d`.
fn hex_digit(d: u8) -> (digit: u8)
    requires
        d < 16,
    ensures
        digit == upper_hex(d as int),
{
    if d < 10 {
        0x30 + d
    } else {
        0x37 + d
    }
}

fn encode(input: &str, in_query: bool) -> (result: String)
    ensures
        encode_utf8(result@) == percent_encoded(encode_utf8(input@), in_query),
        result@ == encoded_text(input@, in_query),
{
    let bytes = input.as_bytes();
    let mut out: Vec<u8> = Vec::with_capacity(bytes.len());
    let mut i: usize = 0;
    let ghost all = percent_encoded(bytes@, in_query);
    assert(bytes@.skip(0) =~= bytes@);
    assert(out@ + all =~= all);
    while i < bytes.len()
        invariant
            i <= bytes@.len() == bytes.len(),
            out@ + percent_encoded(bytes@.skip(i as int), in_query) == all,
            forall|k: int| 0 <= k < out@.len() ==> out@[k] < 0x80,
        decreases bytes.len() - i,
    {
        let ghost rest = bytes@.skip(i as int);
        let ghost before = out@;
        if bytes[i] == 0x25 && bytes.len() - i > 2 && is_hex(bytes[i + 1]) && is_hex(bytes[i + 2]) {
            // A valid %XX sequence goes out verbatim.
            out.push(0x25);
            out.push(bytes[i + 1]);
            out.push(bytes[i + 2]);
            assert(rest.skip(3) =~= bytes@.skip(i + 3));
            assert(out@ =~= before + rest.take(3));
            i += 3;
        } else if is_safe_byte(bytes[i], in_query) {
            out.push(bytes[i]);
            assert(rest.skip(1) =~= bytes@.skip(i + 1));
            assert(out@ =~= before + seq![rest[0]]);
            i += 1;
        } else {
            // A lone or malformed % is illegal as well, and becomes %25.
            out.push(0x25);
            out.push(hex_digit(bytes[i] / 16));
            out.push(hex_digit(bytes[i] % 16));
            assert(rest.skip(1) =~= bytes@.skip(i + 1));
            assert(out@ =~= before + escape_of(rest[0]));
            i += 1;
        }
        assert(out@ + percent_encoded(bytes@.skip(i as int), in_query) =~= before
            + percent_encoded(rest, in_query));
    }
    assert(out@ =~= all);
    let result = ascii_string(out.as_slice());
    proof {
        encode_utf8_decode_utf8(result@);
    }
    result
}

/// Percent-encode bytes that are illegal in a URI path, preserving
/// existing valid `%XX` sequences.
///
/// Only the bare minimum required by RFC 9110 is encoded (path segments
/// allow `pchar` plus `/`): control bytes, space, DEL, non-ASCII bytes, the
/// delimiters that are no `pchar`, and a `%` that does not begin a valid
/// `%XX` sequence. Sub-delims such as `!'` are sent as-is: a fuzzer's
/// payloads must not be rewritten beyond what keeps the request line legal,
/// or non-decoding servers would see a different payload than intended.
pub fn percent_encode_path(path: &str) -> (encoded: String)
    ensures
        encode_utf8(encoded@) == percent_encoded(encode_utf8(path@), false),
        encoded@ == encoded_text(path@, false),
{
    encode(path, false)
}

/// Like `percent_encode_path`, but for a query string (`query = *( pchar /
/// "/" / "?" )`): `?` is additionally legal, and `#` must be encoded since
/// it would otherwise start a fragment.
pub fn percent_encode_query(query: &str) -> (encoded: String)
    ensures
        encode_utf8(encoded@) == percent_encoded(encode_utf8(query@), true),
        encoded@ == encoded_text(query@, true),
{
    encode(query, true)
}

/// The encoded form is legal, whatever the input.
pub proof fn encoded_is_legal(s: Seq<u8>, in_query: bool)
    ensures
        legal(percent_encoded(s, in_query), in_query),
    decreases s.len(),
{
    let out = percent_encoded(s, in_query);
    if s.len() > 0 {
        if escape_starts(s) {
            encoded_is_legal(s.skip(3), in_query);
            assert(out.skip(3) =~= percent_encoded(s.skip(3), in_query));
        } else if safe_byte(s[0], in_query) {
            encoded_is_legal(s.skip(1), in_query);
            assert(out.skip(1) =~= percent_encoded(s.skip(1), in_query));
        } else {
            encoded_is_legal(s.skip(1), in_query);
            assert(out.skip(3) =~= percent_encoded(s.skip(1), in_query));
        }
    }
}

/// The encoded form is ASCII, and holds neither a fragment mark nor, in
/// a path, a query mark; a leading slash stays.
pub proof fn encoded_holds_no_mark(s: Seq<u8>, in_query: bool)
    ensures
        forall|i: int|
            0 <= i < percent_encoded(s, in_query).len() ==> {
                let b = #[trigger] percent_encoded(s, in_query)[i];
                &&& b < 0x80
                &&& b as char != '#'
                &&& !in_query ==> b as char != '?'
            },
        s.len() > 0 && s[0] as char == '/' ==> percent_encoded(s, in_query).len() > 0
            && percent_encoded(s, in_query)[0] as char == '/',
    decreases s.len(),
{
    if s.len() > 0 {
        let k = if escape_starts(s) {
            3int
        } else {
            1int
        };
        let n = if safe_byte(s[0], in_query) && !escape_starts(s) {
            1int
        } else {
            3int
        };
        let rest = percent_encoded(s.skip(k), in_query);
        encoded_holds_no_mark(s.skip(k), in_query);
        assert forall|i: int| 0 <= i < percent_encoded(s, in_query).len() implies ({
            let b = #[trigger] percent_encoded(s, in_query)[i];
            &&& b < 0x80
            &&& b as char != '#'
            &&& !in_query ==> b as char != '?'
        }) by {
            if i >= n {
                assert(percent_encoded(s, in_query)[i] == rest[i - n]);
            }
        }
    }
}

/// A legal text is not rewritten.
pub proof fn legal_is_unchanged(s: Seq<u8>, in_query: bool)
    requires
        legal(s, in_query),
    ensures
        percent_encoded(s, in_query) == s,
    decreases s.len(),
{
    if s.len() > 0 {
        if escape_starts(s) {
            legal_is_unchanged(s.skip(3), in_query);
            assert(s =~= s.take(3) + s.skip(3));
        } else {
            legal_is_unchanged(s.skip(1), in_query);
            assert(s =~= seq![s[0]] + s.skip(1));
        }
    }
}

/// A legal text is not rewritten, as text.
pub proof fn legal_text_is_unchanged(t: Seq<char>, in_query: bool)
    requires
        legal(encode_utf8(t), in_query),
    ensures
        encoded_text(t, in_query) == t,
{
    legal_is_unchanged(encode_utf8(t), in_query);
    encode_utf8_decode_utf8(t);
}

/// Encoding twice is encoding once; nothing is double-encoded.
pub proof fn encoding_is_idempotent(s: Seq<u8>, in_query: bool)
    ensures
        percent_encoded(percent_encoded(s, in_query), in_query) == percent_encoded(s, in_query),
{
    encoded_is_legal(s, in_query);
    legal_is_unchanged(percent_encoded(s, in_query), in_query);
}

/// A server that decodes the target sees what it would have seen in the
/// raw text; encoding changes no payload.
pub proof fn encoding_keeps_the_payload(s: Seq<u8>, in_query: bool)
    ensures
        percent_decoded(percent_encoded(s, in_query)) == percent_decoded(s),
    decreases s.len(),
{
    let out = percent_encoded(s, in_query);
    if s.len() > 0 {
        if escape_starts(s) {
            encoding_keeps_the_payload(s.skip(3), in_query);
            assert(out.skip(3) =~= percent_encoded(s.skip(3), in_query));
        } else if safe_byte(s[0], in_query) {
            encoding_keeps_the_payload(s.skip(1), in_query);
            assert(out.skip(1) =~= percent_encoded(s.skip(1), in_query));
        } else {
            encoding_keeps_the_payload(s.skip(1), in_query);
            assert(out.skip(3) =~= percent_encoded(s.skip(1), in_query));
        }
    }
}

/// A query keeps everything a path keeps; the `?` alone is treated
/// differently.
pub proof fn path_and_query_differ_in_the_question_mark(b: u8)
    ensures
        safe_byte(b, true) == (safe_byte(b, false) || b as char == '?'),
        !safe_byte('#' as u8, true),
        !safe_byte('%' as u8, true),
{
}

/// The bytes that go out as they are: letters, digits and the marks that a
/// request target may hold, and in a query the query mark. A `%` is not among
/// them, nor is `#`, a space, a quote, a bracket or any byte beyond ASCII.
pub proof fn bytes_that_stand_verbatim(b: u8, in_query: bool)
    ensures
        safe_byte(b, in_query) <==> (in_query && b as char == '?')
            || "abcdefghijklmnopqrstuvwxyzABCDEFGHIJKLMNOPQRSTUVWXYZ0123456789-._~!$&'()*+,;=:@/"@.contains(
        b as char),
{
    let all =
        "abcdefghijklmnopqrstuvwxyzABCDEFGHIJKLMNOPQRSTUVWXYZ0123456789-._~!$&'()*+,;=:@/"@;
    reveal_strlit(
        "abcdefghijklmnopqrstuvwxyzABCDEFGHIJKLMNOPQRSTUVWXYZ0123456789-._~!$&'()*+,;=:@/",
    );
    let c = b as char;
    if 'a' <= c <= 'z' {
        assert(all[b - 97] == c);
    } else if 'A' <= c <= 'Z' {
        assert(all[b - 65 + 26] == c);
    } else if '0' <= c <= '9' {
        assert(all[b - 48 + 52] == c);
    } else if safe_byte(b, false) {
        assert(all[62] == '-' && all[63] == '.' && all[64] == '_' && all[65] == '~');
        assert(all[66] == '!' && all[67] == '$' && all[68] == '&' && all[69] == '\'');
        assert(all[70] == '(' && all[71] == ')' && all[72] == '*' && all[73] == '+');
        assert(all[74] == ',' && all[75] == ';' && all[76] == '=' && all[77] == ':');
        assert(all[78] == '@' && all[79] == '/');
    }
}

/// The hexadecimal digits are the ten digits and the six letters in either
/// case, and each has its value.
pub proof fn hexadecimal_digits(b: u8, d: int)
    requires
        0 <= d < 16,
    ensures
        hex_byte(b) <==> "0123456789ABCDEFabcdef"@.contains(b as char),
        hex_value("0123456789ABCDEF"@[d] as u8) == d,
        hex_value("0123456789abcdef"@[d] as u8) == d,
        upper_hex(d) as char == "0123456789ABCDEF"@[d],
{
    let all = "0123456789ABCDEFabcdef"@;
    reveal_strlit("0123456789ABCDEFabcdef");
    reveal_strlit("0123456789ABCDEF");
    reveal_strlit("0123456789abcdef");
    let c = b as char;
    if '0' <= c <= '9' {
        assert(all[b - 48] == c);
    } else if 'A' <= c <= 'F' {
        assert(all[b - 65 + 10] == c);
    } else if 'a' <= c <= 'f' {
        assert(all[b - 97 + 16] == c);
    }
}

/// The encoding goes piece by piece: two pieces are encoded by themselves and
/// put together, unless a valid `%XX` sequence begins in the first and ends in
/// the second.
pub proof fn pieces_are_encoded_alone(a: Seq<u8>, b: Seq<u8>, in_query: bool)
    requires
        !(a.len() >= 1 && a.last() as char == '%' && b.len() >= 2 && hex_byte(b[0]) && hex_byte(
            b[1],
        )),
        !(a.len() >= 2 && a[a.len() - 2] as char == '%' && hex_byte(a.last()) && b.len() >= 1
            && hex_byte(b[0])),
    ensures
        percent_encoded(a + b, in_query) == percent_encoded(a, in_query) + percent_encoded(
            b,
            in_query,
        ),
    decreases a.len(),
{
    let s = a + b;
    if a.len() == 0 {
        assert(s =~= b);
    } else {
        let k = if escape_starts(a) {
            3int
        } else {
            1int
        };
        if escape_starts(s) {
            assert(a.len() >= 3);
        }
        let rest = a.skip(k);
        if rest.len() >= 1 {
            assert(rest.last() == a.last());
        }
        if rest.len() >= 2 {
            assert(rest[rest.len() - 2] == a[a.len() - 2]);
        }
        pieces_are_encoded_alone(rest, b, in_query);
        assert(s.skip(k) =~= rest + b);
        if k == 3 {
            assert(s.take(3) =~= a.take(3));
        }
        assert(percent_encoded(s, in_query) =~= percent_encoded(a, in_query) + percent_encoded(
            b,
            in_query,
        ));
    }
}

/// A byte by itself goes out as it is where it may stand verbatim, and as `%`
/// and its two upper-case hexadecimal digits where it may not; decoding gives
/// it back.
pub proof fn single_bytes_are_encoded(b: u8, in_query: bool)
    ensures
        safe_byte(b, in_query) ==> percent_encoded(seq![b], in_query) == seq![b],
        !safe_byte(b, in_query) ==> percent_encoded(seq![b], in_query) == seq![
            '%' as u8,
            "0123456789ABCDEF"@[b as int / 16] as u8,
            "0123456789ABCDEF"@[b as int % 16] as u8,
        ],
        percent_decoded(percent_encoded(seq![b], in_query)) == seq![b],
{
    let s = seq![b];
    assert(s.skip(1) =~= seq![]);
    assert(percent_encoded(s.skip(1), in_query) =~= seq![]);
    hexadecimal_digits(b, b as int / 16);
    hexadecimal_digits(b, b as int % 16);
    reveal_strlit("0123456789ABCDEF");
    assert(percent_decoded(s.skip(1)) =~= seq![]);
    assert(percent_decoded(s) =~= s);
    encoding_keeps_the_payload(s, in_query);
    if safe_byte(b, in_query) {
        assert(percent_encoded(s, in_query) =~= s);
    } else {
        assert(percent_encoded(s, in_query) =~= escape_of(b));
    }
}

/// A valid `%XX` sequence goes out as it was written, in whatever case.
pub proof fn escapes_go_out_as_written(x: u8, y: u8, in_query: bool)
    requires
        hex_byte(x),
        hex_byte(y),
    ensures
        percent_encoded(seq!['%' as u8, x, y], in_query) == seq!['%' as u8, x, y],
{
    let s = seq!['%' as u8, x, y];
    assert(s.skip(3) =~= seq![]);
    assert(percent_encoded(s.skip(3), in_query) =~= seq![]);
    assert(s.take(3) =~= s);
    assert(percent_encoded(s, in_query) =~= s);
}

/// A byte that may stand verbatim does so wherever it stands, whatever is
/// around it, unless it is part of a valid `%XX` sequence.
pub proof fn safe_bytes_go_out_anywhere(a: Seq<u8>, b: u8, c: Seq<u8>, in_query: bool)
    requires
        safe_byte(b, in_query),
        !(a.len() >= 1 && a.last() as char == '%' && hex_byte(b) && c.len() >= 1 && hex_byte(c[0])),
        !(a.len() >= 2 && a[a.len() - 2] as char == '%' && hex_byte(a.last()) && hex_byte(b)),
    ensures
        percent_encoded(a + seq![b] + c, in_query) == percent_encoded(a, in_query) + seq![b]
            + percent_encoded(c, in_query),
{
    let tail = seq![b] + c;
    bytes_that_stand_verbatim(b, in_query);
    pieces_are_encoded_alone(a, tail, in_query);
    pieces_are_encoded_alone(seq![b], c, in_query);
    single_bytes_are_encoded(b, in_query);
    assert(a + seq![b] + c =~= a + tail);
    assert(percent_encoded(a, in_query) + (seq![b] + percent_encoded(c, in_query))
        =~= percent_encoded(a, in_query) + seq![b] + percent_encoded(c, in_query));
}

} // verus!
