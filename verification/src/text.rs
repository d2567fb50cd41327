//! Text building blocks: characters, numbers and lossy UTF-8 decoding.

use vstd::prelude::*;
use vstd::utf8::*;

verus! {

broadcast use vstd::string::group_string_axioms;

/// `String::push` appends the given character at the end.
pub assume_specification[ String::push ](buffer: &mut String, c: char)
    ensures
        final(buffer)@ == old(buffer)@.push(c),
;

/// What `String::from_utf8_lossy` makes of a byte sequence.
pub uninterp spec fn utf8_lossy(bytes: Seq<u8>) -> Seq<char>;

/// Calls `String::from_utf8_lossy`. The text is a function of the bytes
/// alone, and well-formed UTF-8 is decoded exactly; how ill-formed parts are
/// replaced is left to the name `utf8_lossy`.
#[verifier::external_body]
pub(crate) fn decode_lossy(bytes: &[u8]) -> (text: String)
    ensures
        text@ == utf8_lossy(bytes@),
        valid_utf8(bytes@) ==> text@ == decode_utf8(bytes@),
{
    String::from_utf8_lossy(bytes).into_owned()
}

/// The text inside an optional string.
pub open spec fn opt_text(o: Option<String>) -> Option<Seq<char>> {
    match o {
        Some(s) => Some(s@),
        None => None,
    }
}

/// The texts of a list of pairs.
pub open spec fn pair_texts(pairs: Seq<(String, String)>) -> Seq<(Seq<char>, Seq<char>)> {
    pairs.map_values(|p: (String, String)| (p.0@, p.1@))
}

/// The texts of a list of strings.
pub open spec fn texts(list: Seq<String>) -> Seq<Seq<char>> {
    list.map_values(|t: String| t@)
}

/// `start`, then `middle`, then `end`.
pub fn join3(start: &str, middle: &str, end: &str) -> (joined: String)
    ensures
        joined@ == start@ + middle@ + end@,
{
    let mut joined = start.to_owned();
    joined.append(middle);
    joined.append(end);
    joined
}

/// Appends one line.
pub fn push_line(lines: &mut Vec<String>, line: String)
    ensures
        texts(final(lines)@) == texts(old(lines)@).push(line@),
{
    lines.push(line);
    assert(texts(lines@) =~= texts(old(lines)@).push(line@));
}

/// Appends lines.
pub fn push_lines(lines: &mut Vec<String>, mut more: Vec<String>)
    ensures
        texts(final(lines)@) == texts(old(lines)@) + texts(more@),
{
    let ghost added = more@;
    lines.append(&mut more);
    assert(texts(lines@) =~= texts(old(lines)@) + texts(added));
}

/// The characters of `text`, one by one.
pub fn chars_of(text: &str) -> (chars: Vec<char>)
    ensures
        chars@ == text@,
{
    let mut chars: Vec<char> = Vec::new();
    for c in it: text.chars()
        invariant
            it.seq() == text@,
            chars@ == text@.take(it.index()),
    {
        chars.push(c);
        assert(text@.take(it.index() + 1) == text@.take(it.index()).push(c));
    }
    assert(text@.take(text@.len() as int) == text@);
    chars
}

/// The text made of `chars`.
pub fn string_of(chars: &[char]) -> (text: String)
    ensures
        text@ == chars@,
{
    let mut text = String::new();
    let mut i: usize = 0;
    while i < chars.len()
        invariant
            i <= chars.len(),
            text@ == chars@.take(i as int),
        decreases chars.len() - i,
    {
        text.push(chars[i]);
        assert(chars@.take(i + 1) == chars@.take(i as int).push(chars@[i as int]));
        i += 1;
    }
    assert(chars@.take(chars@.len() as int) == chars@);
    text
}

/// ASCII bytes, read as characters, encode to themselves.
pub proof fn ascii_round_trip(bytes: Seq<u8>)
    requires
        forall|i: int| 0 <= i < bytes.len() ==> bytes[i] < 0x80,
    ensures
        encode_utf8(bytes.map_values(|b: u8| b as char)) == bytes,
        valid_utf8(bytes),
        decode_utf8(bytes) == bytes.map_values(|b: u8| b as char),
{
    let chars = bytes.map_values(|b: u8| b as char);
    is_ascii_chars_encode_utf8(chars);
    assert forall|k: int| 0 <= k < bytes.len() implies encode_utf8(chars)[k] == bytes[k] by {
        assert(chars[k] as u8 == encode_utf8(chars)[k]);
    }
    assert(encode_utf8(chars) =~= bytes);
    encode_utf8_valid_utf8(chars);
    encode_utf8_decode_utf8(chars);
}

/// The text of ASCII bytes.
pub fn ascii_string(bytes: &[u8]) -> (text: String)
    requires
        forall|i: int| 0 <= i < bytes@.len() ==> bytes@[i] < 0x80,
    ensures
        encode_utf8(text@) == bytes@,
        text@ == bytes@.map_values(|b: u8| b as char),
{
    let mut text = String::new();
    let mut i: usize = 0;
    while i < bytes.len()
        invariant
            i <= bytes.len(),
            text@ == bytes@.take(i as int).map_values(|b: u8| b as char),
        decreases bytes.len() - i,
    {
        text.push(bytes[i] as char);
        assert(text@ =~= bytes@.take(i + 1).map_values(|b: u8| b as char));
        i += 1;
    }
    assert(bytes@.take(bytes@.len() as int) =~= bytes@);
    proof {
        ascii_round_trip(bytes@);
    }
    text
}

/// The character of a decimal digit.
pub open spec fn digit_char(d: nat) -> char {
    ((48 + d) as u8) as char
}

/// The decimal notation of `n`, without leading zeros.
pub open spec fn decimal_digits(n: nat) -> Seq<char>
    decreases n,
{
    if n < 10 {
        seq![digit_char(n)]
    } else {
        decimal_digits(n / 10).push(digit_char(n % 10))
    }
}

/// Renders `n` in decimal notation.
pub fn decimal(n: u128) -> (text: String)
    ensures
        text@ == decimal_digits(n as nat),
    decreases n,
{
    let digit = (48 + (n % 10) as u8) as char;
    if n < 10 {
        let mut text = String::new();
        text.push(digit);
        text
    } else {
        let mut text = decimal(n / 10);
        text.push(digit);
        text
    }
}

/// A decimal digit.
pub open spec fn is_digit(c: char) -> bool {
    '0' <= c <= '9'
}

/// A year in the first `y` characters: four digits, or a sign and at least four
/// digits.
pub open spec fn year_ends_at(t: Seq<char>, y: int) -> bool {
    &&& 4 <= y <= t.len()
    &&& forall|i: int| 1 <= i < y ==> is_digit(#[trigger] t[i])
    &&& (is_digit(t[0]) && y == 4) || ((t[0] == '+' || t[0] == '-') && y >= 5)
}

/// Two digits from position `i` on.
pub open spec fn two_digits_at(t: Seq<char>, i: int) -> bool {
    is_digit(t[i]) && is_digit(t[i + 1])
}

/// A date and a time in the first `end` characters: `YYYY-MM-DDTHH:MM:SS`, where
/// the year may be longer, with a sign.
pub open spec fn date_time_ends_at(t: Seq<char>, end: int) -> bool {
    let y = end - 15;
    &&& end <= t.len()
    &&& year_ends_at(t, y)
    &&& t[y] == '-' && two_digits_at(t, y + 1)
    &&& t[y + 3] == '-' && two_digits_at(t, y + 4)
    &&& t[y + 6] == 'T' && two_digits_at(t, y + 7)
    &&& t[y + 9] == ':' && two_digits_at(t, y + 10)
    &&& t[y + 12] == ':' && two_digits_at(t, y + 13)
}

/// Thousandths as decimals, without trailing zeros.
pub open spec fn thousandths(f: nat) -> Seq<char> {
    if f % 100 == 0 {
        seq![digit_char(f / 100)]
    } else if f % 10 == 0 {
        seq![digit_char(f / 100), digit_char(f / 10 % 10)]
    } else {
        seq![digit_char(f / 100), digit_char(f / 10 % 10), digit_char(f % 10)]
    }
}

/// A number of milliseconds in the largest unit that fits, the way durations
/// are shown: `0ns`, `250ms`, `1.5s`, `12s`.
pub open spec fn duration_text(millis: nat) -> Seq<char> {
    if millis == 0 {
        "0ns"@
    } else if millis < 1000 {
        decimal_digits(millis) + "ms"@
    } else if millis % 1000 == 0 {
        decimal_digits(millis / 1000) + "s"@
    } else {
        decimal_digits(millis / 1000) + "."@ + thousandths(millis % 1000) + "s"@
    }
}

/// The decimal digit of `d`.
fn digit(d: u64) -> (c: char)
    requires
        d < 10,
    ensures
        c == digit_char(d as nat),
{
    (48 + d as u8) as char
}

/// Shows a number of milliseconds as a duration.
pub fn show_millis(millis: u64) -> (shown: String)
    ensures
        shown@ == duration_text(millis as nat),
{
    if millis == 0 {
        return "0ns".to_owned();
    }
    if millis < 1000 {
        let mut shown = decimal(millis as u128);
        shown.append("ms");
        return shown;
    }
    let mut shown = decimal((millis / 1000) as u128);
    let f: u64 = millis % 1000;
    if f > 0 {
        shown.append(".");
        let ghost before = shown@;
        shown.push(digit(f / 100));
        if f % 100 != 0 {
            shown.push(digit(f / 10 % 10));
            if f % 10 != 0 {
                shown.push(digit(f % 10));
            }
        }
        assert(shown@ =~= before + thousandths(f as nat));
    }
    shown.append("s");
    shown
}

/// The lower-case hexadecimal digit of `d`.
pub open spec fn lower_hex(d: nat) -> char {
    if d < 10 {
        ((0x30 + d) as u8) as char
    } else {
        ((0x57 + d) as u8) as char
    }
}

/// The last `width` hexadecimal digits of `n`, leading zeros included.
pub open spec fn hex_digits(n: nat, width: nat) -> Seq<char>
    decreases width,
{
    if width == 0 {
        seq![]
    } else {
        hex_digits(n / 16, (width - 1) as nat).push(lower_hex(n % 16))
    }
}

/// Renders the last `width` hexadecimal digits of `n`.
pub fn hexadecimal(n: u32, width: u32) -> (text: String)
    ensures
        text@ == hex_digits(n as nat, width as nat),
    decreases width,
{
    if width == 0 {
        String::new()
    } else {
        let mut text = hexadecimal(n / 16, width - 1);
        let d = (n % 16) as u8;
        text.push(
            if d < 10 {
                (0x30 + d) as char
            } else {
                (0x57 + d) as char
            },
        );
        text
    }
}

/// A lower-case hexadecimal digit.
pub open spec fn is_lower_hex(c: char) -> bool {
    ('0' <= c <= '9') || ('a' <= c <= 'f')
}

/// Hexadecimal notation has the asked-for width and only lower-case digits.
pub proof fn hex_digits_shape(n: nat, width: nat)
    ensures
        hex_digits(n, width).len() == width,
        forall|i: int| 0 <= i < width ==> is_lower_hex(#[trigger] hex_digits(n, width)[i]),
    decreases width,
{
    if width > 0 {
        let rest = hex_digits(n / 16, (width - 1) as nat);
        hex_digits_shape(n / 16, (width - 1) as nat);
        assert forall|i: int| 0 <= i < width implies is_lower_hex(
            #[trigger] hex_digits(n, width)[i],
        ) by {
            if i < width - 1 {
                assert(hex_digits(n, width)[i] == rest[i]);
            }
        }
    }
}

/// The White_Space property of Unicode.
pub open spec fn white(c: char) -> bool {
    ||| '\u{9}' <= c <= '\u{d}'
    ||| c == '\u{20}'
    ||| c == '\u{85}'
    ||| c == '\u{a0}'
    ||| c == '\u{1680}'
    ||| '\u{2000}' <= c <= '\u{200a}'
    ||| c == '\u{2028}'
    ||| c == '\u{2029}'
    ||| c == '\u{202f}'
    ||| c == '\u{205f}'
    ||| c == '\u{3000}'
}

/// Whether a character is whitespace.
pub fn is_white(c: char) -> (yes: bool)
    ensures
        yes == white(c),
{
    ('\u{9}' <= c && c <= '\u{d}') || c == '\u{20}' || c == '\u{85}' || c == '\u{a0}' || c
        == '\u{1680}' || ('\u{2000}' <= c && c <= '\u{200a}') || c == '\u{2028}' || c == '\u{2029}'
        || c == '\u{202f}' || c == '\u{205f}' || c == '\u{3000}'
}

/// The text without leading whitespace.
pub open spec fn trimmed_start(s: Seq<char>) -> Seq<char>
    decreases s.len(),
{
    if s.len() > 0 && white(s[0]) {
        trimmed_start(s.skip(1))
    } else {
        s
    }
}

/// The text without trailing whitespace.
pub open spec fn trimmed_end(s: Seq<char>) -> Seq<char>
    decreases s.len(),
{
    if s.len() > 0 && white(s.last()) {
        trimmed_end(s.drop_last())
    } else {
        s
    }
}

/// The text without leading and trailing whitespace.
pub open spec fn trimmed(s: Seq<char>) -> Seq<char> {
    trimmed_end(trimmed_start(s))
}

/// The part `chars[from..to]` without leading and trailing whitespace.
pub fn trim(chars: &[char], from: usize, to: usize) -> (text: String)
    requires
        from <= to <= chars@.len(),
    ensures
        text@ == trimmed(chars@.subrange(from as int, to as int)),
{
    let ghost whole = chars@.subrange(from as int, to as int);
    let mut start: usize = from;
    while start < to && is_white(chars[start])
        invariant
            from <= start <= to <= chars@.len(),
            trimmed_start(chars@.subrange(start as int, to as int)) == trimmed_start(whole),
        decreases to - start,
    {
        assert(chars@.subrange(start as int, to as int).skip(1) =~= chars@.subrange(
            start + 1,
            to as int,
        ));
        start += 1;
    }
    let ghost left = chars@.subrange(start as int, to as int);
    assert(left == trimmed_start(whole));
    let mut end: usize = to;
    while start < end && is_white(chars[end - 1])
        invariant
            start <= end <= to <= chars@.len(),
            trimmed_end(chars@.subrange(start as int, end as int)) == trimmed_end(left),
        decreases end - start,
    {
        assert(chars@.subrange(start as int, end as int).drop_last() =~= chars@.subrange(
            start as int,
            end - 1,
        ));
        end -= 1;
    }
    string_of(vstd::slice::slice_subrange(chars, start, end))
}

/// Trimming removes whitespace at both ends only: what is left is a
/// piece of the text that neither starts nor ends with whitespace, and the
/// rest is whitespace.
pub proof fn trimming_removes_whitespace_only(s: Seq<char>)
    ensures
        exists|i: int, j: int|
            #![trigger s.subrange(i, j)]
            0 <= i <= j <= s.len() && trimmed(s) == s.subrange(i, j) && (forall|k: int|
                (0 <= k < i || j <= k < s.len()) ==> white(#[trigger] s[k])),
        trimmed(s).len() > 0 ==> !white(trimmed(s)[0]) && !white(trimmed(s).last()),
{
    let i = trim_start_split(s);
    let left = trimmed_start(s);
    let j = trim_end_split(left);
    assert(trimmed(s) =~= s.subrange(i, i + j));
    assert forall|k: int| (0 <= k < i || i + j <= k < s.len()) implies white(#[trigger] s[k]) by {
        if i + j <= k {
            assert(left[k - i] == s[k]);
        }
    }
    if trimmed(s).len() > 0 {
        assert(trimmed(s)[0] == left[0]);
    }
}

/// Where the text without leading whitespace begins.
proof fn trim_start_split(s: Seq<char>) -> (i: int)
    ensures
        0 <= i <= s.len(),
        trimmed_start(s) == s.skip(i),
        forall|k: int| 0 <= k < i ==> white(#[trigger] s[k]),
        trimmed_start(s).len() > 0 ==> !white(trimmed_start(s)[0]),
    decreases s.len(),
{
    if s.len() > 0 && white(s[0]) {
        let i = trim_start_split(s.skip(1));
        assert(s.skip(1).skip(i) =~= s.skip(i + 1));
        assert forall|k: int| 0 <= k < i + 1 implies white(#[trigger] s[k]) by {
            if k > 0 {
                assert(s.skip(1)[k - 1] == s[k]);
            }
        }
        i + 1
    } else {
        assert(s.skip(0) =~= s);
        0
    }
}

/// Where the text without trailing whitespace ends.
proof fn trim_end_split(s: Seq<char>) -> (j: int)
    ensures
        0 <= j <= s.len(),
        trimmed_end(s) == s.take(j),
        forall|k: int| j <= k < s.len() ==> white(#[trigger] s[k]),
        trimmed_end(s).len() > 0 ==> !white(trimmed_end(s).last()),
    decreases s.len(),
{
    if s.len() > 0 && white(s.last()) {
        let j = trim_end_split(s.drop_last());
        assert(s.drop_last().take(j) =~= s.take(j));
        assert forall|k: int| j <= k < s.len() implies white(#[trigger] s[k]) by {
            if k < s.len() - 1 {
                assert(s.drop_last()[k] == s[k]);
            }
        }
        j
    } else {
        assert(s.take(s.len() as int) =~= s);
        s.len() as int
    }
}

/// An ASCII capital as its small letter; any other character as it is.
pub open spec fn small_letter(c: char) -> char {
    if 'A' <= c <= 'Z' {
        ((c as u8 + 32) as u8) as char
    } else {
        c
    }
}

/// Equal but for the case of ASCII letters.
pub open spec fn same_ignoring_case(a: Seq<char>, b: Seq<char>) -> bool {
    a.map_values(|c: char| small_letter(c)) == b.map_values(|c: char| small_letter(c))
}

/// The small letter of an ASCII capital.
fn lower(c: char) -> (r: char)
    ensures
        r == small_letter(c),
{
    if 'A' <= c && c <= 'Z' {
        ((c as u8) + 32) as char
    } else {
        c
    }
}

/// Whether two texts are equal but for the case of ASCII letters.
pub fn equals_ignoring_case(a: &str, b: &str) -> (same: bool)
    ensures
        same == same_ignoring_case(a@, b@),
{
    let x = chars_of(a);
    let y = chars_of(b);
    let ghost la = a@.map_values(|c: char| small_letter(c));
    let ghost lb = b@.map_values(|c: char| small_letter(c));
    if x.len() != y.len() {
        assert(la.len() != lb.len());
        return false;
    }
    let mut i: usize = 0;
    while i < x.len()
        invariant
            x@ == a@,
            y@ == b@,
            x.len() == y.len(),
            la == a@.map_values(|c: char| small_letter(c)),
            lb == b@.map_values(|c: char| small_letter(c)),
            i <= x.len(),
            forall|k: int| 0 <= k < i ==> la[k] == lb[k],
        decreases x.len() - i,
    {
        if lower(x[i]) != lower(y[i]) {
            assert(la[i as int] != lb[i as int]);
            return false;
        }
        i += 1;
    }
    assert(la =~= lb);
    true
}

/// Whether two texts are equal.
pub fn same_text(a: &str, b: &str) -> (same: bool)
    ensures
        same == (a@ == b@),
{
    let x = chars_of(a);
    let y = chars_of(b);
    if x.len() != y.len() {
        return false;
    }
    let mut i: usize = 0;
    while i < x.len()
        invariant
            x@ == a@,
            y@ == b@,
            x.len() == y.len(),
            i <= x.len(),
            forall|k: int| 0 <= k < i ==> x@[k] == y@[k],
        decreases x.len() - i,
    {
        if x[i] != y[i] {
            return false;
        }
        i += 1;
    }
    assert(x@ =~= y@);
    true
}

/// The text, filled up on the left with spaces to the given width.
pub open spec fn padded(s: Seq<char>, width: nat) -> Seq<char> {
    if s.len() >= width {
        s
    } else {
        Seq::new((width - s.len()) as nat, |i: int| ' ') + s
    }
}

/// Fills a text up on the left with spaces.
pub fn pad_left(s: &str, width: usize) -> (text: String)
    ensures
        text@ == padded(s@, width as nat),
{
    let chars = chars_of(s);
    let mut text = String::new();
    if chars.len() < width {
        let missing: usize = width - chars.len();
        let mut i: usize = 0;
        while i < missing
            invariant
                i <= missing,
                text@ == Seq::new(i as nat, |k: int| ' '),
            decreases missing - i,
        {
            text.push(' ');
            assert(text@ =~= Seq::new((i + 1) as nat, |k: int| ' '));
            i += 1;
        }
    }
    text.append(s);
    assert(text@ =~= padded(s@, width as nat));
    text
}

/// How many leading characters fit in `max` bytes.
pub open spec fn fitting(s: Seq<char>, max: int) -> int
    decreases s.len(),
{
    if s.len() == 0 || encode_scalar(s[0] as u32).len() > max {
        0
    } else {
        1 + fitting(s.skip(1), max - encode_scalar(s[0] as u32).len())
    }
}

/// The text where it takes at most `max` bytes; else as many characters as
/// fit in `max` bytes, followed by three dots.
pub open spec fn shortened(s: Seq<char>, max: nat) -> Seq<char> {
    if encode_utf8(s).len() <= max {
        s
    } else {
        s.take(fitting(s, max as int)) + "..."@
    }
}

/// The number of bytes a character takes in UTF-8.
fn utf8_width(c: char) -> (width: usize)
    ensures
        width == encode_scalar(c as u32).len(),
{
    let v = c as u32;
    if v <= 0x7F {
        1
    } else if v <= 0x7FF {
        2
    } else if v <= 0xFFFF {
        3
    } else {
        4
    }
}

/// The text, cut at a character boundary where it takes more than `max`
/// bytes.
pub fn shorten(s: &str, max: usize) -> (text: String)
    ensures
        text@ == shortened(s@, max as nat),
{
    if s.as_bytes().len() <= max {
        return s.to_owned();
    }
    let chars = chars_of(s);
    let mut left: usize = max;
    let mut text = String::new();
    let mut i: usize = 0;
    assert(s@.skip(0) =~= s@);
    while i < chars.len() && utf8_width(chars[i]) <= left
        invariant
            chars@ == s@,
            i <= chars.len(),
            text@ == s@.take(i as int),
            fitting(s@, max as int) == i + fitting(s@.skip(i as int), left as int),
        decreases chars.len() - i,
    {
        assert(s@.skip(i as int).skip(1) =~= s@.skip(i + 1));
        assert(s@.skip(i as int)[0] == s@[i as int]);
        left -= utf8_width(chars[i]);
        text.push(chars[i]);
        assert(s@.take(i + 1) =~= s@.take(i as int).push(s@[i as int]));
        i += 1;
    }
    assert(i < chars.len() ==> s@.skip(i as int)[0] == s@[i as int]);
    text.append("...");
    text
}

/// A shortened text keeps the longest run of leading characters that
/// fits in the limit, whole characters only.
pub proof fn shortening_keeps_what_fits(s: Seq<char>, max: int)
    requires
        0 <= max,
    ensures
        0 <= fitting(s, max) <= s.len(),
        encode_utf8(s.take(fitting(s, max))).len() <= max,
        forall|k: int|
            fitting(s, max) < k <= s.len() ==> #[trigger] encode_utf8(s.take(k)).len() > max,
    decreases s.len(),
{
    let n = fitting(s, max);
    if s.len() == 0 {
    } else {
        let w = encode_scalar(s[0] as u32).len() as int;
        if w <= max {
            shortening_keeps_what_fits(s.skip(1), max - w);
            assert(s.take(n).drop_first() =~= s.skip(1).take(n - 1));
        } else {
            assert(s.take(0) =~= Seq::<char>::empty());
        }
        assert forall|k: int| n < k <= s.len() implies #[trigger] encode_utf8(s.take(k)).len()
            > max by {
            assert(s.take(k).drop_first() =~= s.skip(1).take(k - 1));
            if w <= max {
                assert(encode_utf8(s.skip(1).take(k - 1)).len() > max - w);
            }
        }
    }
}

/// The number of words: maximal runs of characters that are no whitespace.
pub open spec fn words(s: Seq<char>) -> nat
    decreases s.len(),
{
    if s.len() == 0 {
        0
    } else {
        words(s.drop_last()) + (if !white(s.last()) && (s.len() == 1 || white(s[s.len() - 2])) {
            1nat
        } else {
            0nat
        })
    }
}

/// The number of line feeds.
pub open spec fn line_feeds(s: Seq<char>) -> nat
    decreases s.len(),
{
    if s.len() == 0 {
        0
    } else {
        line_feeds(s.drop_last()) + (if s.last() == '\n' {
            1nat
        } else {
            0nat
        })
    }
}

/// The number of lines: one for each line feed, and one for what follows the
/// last line feed, unless nothing does.
pub open spec fn lines(s: Seq<char>) -> nat {
    line_feeds(s) + (if s.len() > 0 && s.last() != '\n' {
        1nat
    } else {
        0nat
    })
}

/// Counts the words of a text.
pub fn count_words(s: &str) -> (n: usize)
    ensures
        n == words(s@),
{
    let chars = chars_of(s);
    let mut n: usize = 0;
    let mut i: usize = 0;
    while i < chars.len()
        invariant
            chars@ == s@,
            i <= chars.len(),
            n <= i,
            n == words(s@.take(i as int)),
        decreases chars.len() - i,
    {
        assert(s@.take(i + 1).drop_last() =~= s@.take(i as int));
        if !is_white(chars[i]) && (i == 0 || is_white(chars[i - 1])) {
            n += 1;
        }
        i += 1;
    }
    assert(s@.take(s@.len() as int) =~= s@);
    n
}

/// Counts the lines of a text.
pub fn count_lines(s: &str) -> (n: usize)
    ensures
        n == lines(s@),
{
    let chars = chars_of(s);
    let mut n: usize = 0;
    let mut i: usize = 0;
    while i < chars.len()
        invariant
            chars@ == s@,
            i <= chars.len(),
            n <= i,
            n == line_feeds(s@.take(i as int)),
            i > 0 && s@[i - 1] != '\n' ==> n < i,
        decreases chars.len() - i,
    {
        assert(s@.take(i + 1).drop_last() =~= s@.take(i as int));
        if chars[i] == '\n' {
            n += 1;
        }
        i += 1;
    }
    assert(s@.take(s@.len() as int) =~= s@);
    if chars.len() > 0 && chars[chars.len() - 1] != '\n' {
        n += 1;
    }
    n
}

/// Whitespace is tab, line feed, vertical tab, form feed, carriage return,
/// space, next line, and the spaces and separators of Unicode.
pub proof fn whitespace_characters(c: char)
    ensures
        white(c) <==> seq![
            '\t',
            '\n',
            '\u{b}',
            '\u{c}',
            '\r',
            ' ',
            '\u{85}',
            '\u{a0}',
            '\u{1680}',
            '\u{2000}',
            '\u{2001}',
            '\u{2002}',
            '\u{2003}',
            '\u{2004}',
            '\u{2005}',
            '\u{2006}',
            '\u{2007}',
            '\u{2008}',
            '\u{2009}',
            '\u{200a}',
            '\u{2028}',
            '\u{2029}',
            '\u{202f}',
            '\u{205f}',
            '\u{3000}',
        ].contains(c),
{
    let all = seq![
        '\t',
        '\n',
        '\u{b}',
        '\u{c}',
        '\r',
        ' ',
        '\u{85}',
        '\u{a0}',
        '\u{1680}',
        '\u{2000}',
        '\u{2001}',
        '\u{2002}',
        '\u{2003}',
        '\u{2004}',
        '\u{2005}',
        '\u{2006}',
        '\u{2007}',
        '\u{2008}',
        '\u{2009}',
        '\u{200a}',
        '\u{2028}',
        '\u{2029}',
        '\u{202f}',
        '\u{205f}',
        '\u{3000}',
    ];
    if '\u{9}' <= c <= '\u{d}' {
        assert(all[c as int - 9] == c);
    } else if '\u{2000}' <= c <= '\u{200a}' {
        assert(all[c as int - 0x2000 + 9] == c);
    } else if white(c) {
        assert(all[5] == ' ' && all[6] == '\u{85}' && all[7] == '\u{a0}' && all[8] == '\u{1680}');
        assert(all[20] == '\u{2028}' && all[21] == '\u{2029}' && all[22] == '\u{202f}');
        assert(all[23] == '\u{205f}' && all[24] == '\u{3000}');
    }
    if all.contains(c) {
        let i = all.index_of(c);
        assert(all[i] == c);
    }
}

/// Whitespace around a text is all that trimming takes away: a text that
/// neither begins nor ends with whitespace comes back whole.
pub proof fn padding_is_trimmed(before: Seq<char>, s: Seq<char>, after: Seq<char>)
    requires
        forall|i: int| 0 <= i < before.len() ==> white(#[trigger] before[i]),
        forall|i: int| 0 <= i < after.len() ==> white(#[trigger] after[i]),
        s.len() > 0 ==> !white(s[0]) && !white(s.last()),
    ensures
        trimmed(before + s + after) == s,
{
    let whole = before + s + after;
    trimming_removes_whitespace_only(whole);
    let (i, j) = choose|i: int, j: int|
        #![trigger whole.subrange(i, j)]
        0 <= i <= j <= whole.len() && trimmed(whole) == whole.subrange(i, j) && (forall|k: int|
            (0 <= k < i || j <= k < whole.len()) ==> white(#[trigger] whole[k]));
    let n = before.len() as int;
    if s.len() == 0 {
        if i < j {
            assert(whole.subrange(i, j)[0] == whole[i]);
            assert(white(whole[i])) by {
                if i < n {
                    assert(whole[i] == before[i]);
                } else {
                    assert(whole[i] == after[i - n]);
                }
            }
        }
        assert(trimmed(whole) =~= s);
    } else {
        let e = n + s.len();
        assert(whole[n] == s[0]);
        assert(whole[e - 1] == s.last());
        assert(i <= n && e <= j);
        if i < n {
            assert(whole.subrange(i, j)[0] == before[i]);
        }
        if j > e {
            assert(whole.subrange(i, j).last() == after[j - 1 - e]);
        }
        assert(whole.subrange(n, e) =~= s);
    }
}

/// Words are counted piece by piece: whitespace parts them, a run of other
/// characters is one of them, and nothing else is.
pub proof fn words_are_parted_by_whitespace(a: Seq<char>, c: char, b: Seq<char>)
    requires
        white(c),
    ensures
        words(a + seq![c] + b) == words(a) + words(b),
        (forall|i: int| 0 <= i < a.len() ==> !white(#[trigger] a[i])) && a.len() > 0 ==> words(a)
            == 1,
        words(Seq::<char>::empty()) == 0,
    decreases b.len(),
{
    let whole = a + seq![c] + b;
    if b.len() == 0 {
        assert(whole.drop_last() =~= a);
        assert(whole.last() == c);
    } else {
        let rest = b.drop_last();
        words_are_parted_by_whitespace(a, c, rest);
        assert(whole.drop_last() =~= a + seq![c] + rest);
        assert(whole.last() == b.last());
        if b.len() == 1 {
            assert(whole[whole.len() - 2] == c);
        } else {
            assert(whole[whole.len() - 2] == b[b.len() - 2]);
        }
    }
    if (forall|i: int| 0 <= i < a.len() ==> !white(#[trigger] a[i])) && a.len() > 0 {
        a_run_is_one_word(a);
    }
}

/// A run of characters that are no whitespace is one word.
proof fn a_run_is_one_word(a: Seq<char>)
    requires
        a.len() > 0,
        forall|i: int| 0 <= i < a.len() ==> !white(#[trigger] a[i]),
    ensures
        words(a) == 1,
    decreases a.len(),
{
    let rest = a.drop_last();
    assert(a[a.len() - 1] == a.last());
    if a.len() == 1 {
        assert(words(rest) == 0);
    } else {
        assert forall|i: int| 0 <= i < rest.len() implies !white(#[trigger] rest[i]) by {
            assert(rest[i] == a[i]);
        }
        assert(!white(a[a.len() - 2]));
        a_run_is_one_word(rest);
    }
}

/// Lines are counted piece by piece: what stands before a line feed is one
/// line, and what follows is counted by itself; a last line needs no line
/// feed, and nothing is no line.
pub proof fn lines_end_in_line_feeds(line: Seq<char>, rest: Seq<char>)
    requires
        forall|i: int| 0 <= i < line.len() ==> #[trigger] line[i] != '\n',
    ensures
        lines(line + seq!['\n'] + rest) == 1 + lines(rest),
        line.len() > 0 ==> lines(line) == 1,
        lines(Seq::<char>::empty()) == 0,
{
    no_line_feed(line);
    line_feeds_add_up(line + seq!['\n'], rest);
    assert((line + seq!['\n']).drop_last() =~= line);
    if line.len() > 0 {
        assert(line[line.len() - 1] != '\n');
    }
}

/// A text without line feeds counts none.
proof fn no_line_feed(s: Seq<char>)
    requires
        forall|i: int| 0 <= i < s.len() ==> #[trigger] s[i] != '\n',
    ensures
        line_feeds(s) == 0,
    decreases s.len(),
{
    if s.len() > 0 {
        assert(s[s.len() - 1] != '\n');
        assert forall|i: int| 0 <= i < s.drop_last().len() implies #[trigger] s.drop_last()[i]
            != '\n' by {
            assert(s.drop_last()[i] == s[i]);
        }
        no_line_feed(s.drop_last());
    }
}

/// The line feeds of two pieces add up.
proof fn line_feeds_add_up(a: Seq<char>, b: Seq<char>)
    ensures
        line_feeds(a + b) == line_feeds(a) + line_feeds(b),
    decreases b.len(),
{
    if b.len() == 0 {
        assert(a + b =~= a);
    } else {
        line_feeds_add_up(a, b.drop_last());
        assert((a + b).drop_last() =~= a + b.drop_last());
    }
}

/// The number that digits stand for, in the given base; letters count from
/// ten on.
pub open spec fn number_read(digits: Seq<char>, base: nat) -> nat
    decreases digits.len(),
{
    if digits.len() == 0 {
        0
    } else {
        let c = digits.last();
        let d = if '0' <= c <= '9' {
            (c as int - '0' as int) as nat
        } else {
            (c as int - 'a' as int + 10) as nat
        };
        base * number_read(digits.drop_last(), base) + d
    }
}

/// A number in decimal notation reads as that number, is made of digits alone,
/// and has no leading zero.
pub proof fn decimal_notation_reads_back(n: nat)
    ensures
        number_read(decimal_digits(n), 10) == n,
        decimal_digits(n).len() > 0,
        forall|i: int|
            0 <= i < decimal_digits(n).len() ==> '0' <= #[trigger] decimal_digits(n)[i] <= '9',
        n > 0 ==> decimal_digits(n)[0] != '0',
    decreases n,
{
    let s = decimal_digits(n);
    if n < 10 {
        assert(s.drop_last() =~= seq![]);
        assert(number_read(s.drop_last(), 10) == 0);
    } else {
        decimal_notation_reads_back(n / 10);
        assert(s.drop_last() =~= decimal_digits(n / 10));
        assert(s[0] == decimal_digits(n / 10)[0]);
        assert forall|i: int| 0 <= i < s.len() implies '0' <= #[trigger] s[i] <= '9' by {
            if i < s.len() - 1 {
                assert(s[i] == decimal_digits(n / 10)[i]);
            }
        }
    }
}

/// How many numbers hexadecimal notation of the given width tells apart.
pub open spec fn sixteen_to_the(width: nat) -> nat
    decreases width,
{
    if width == 0 {
        1
    } else {
        16 * sixteen_to_the((width - 1) as nat)
    }
}

/// A number in hexadecimal notation reads as that number, where it fits in the
/// width.
pub proof fn hexadecimal_notation_reads_back(n: nat, width: nat)
    requires
        n < sixteen_to_the(width),
    ensures
        number_read(hex_digits(n, width), 16) == n,
    decreases width,
{
    let s = hex_digits(n, width);
    if width > 0 {
        hexadecimal_notation_reads_back(n / 16, (width - 1) as nat);
        assert(s.drop_last() =~= hex_digits(n / 16, (width - 1) as nat));
    }
}

/// A duration below a second is shown in whole milliseconds, no duration as no
/// nanoseconds. A longer one is shown in seconds, with as many decimals as it
/// takes, and reads as the same number of milliseconds.
pub proof fn durations_read_back(millis: nat) -> (decimals: Seq<char>)
    ensures
        millis == 0 ==> duration_text(millis) == seq!['0', 'n', 's'],
        0 < millis < 1000 ==> duration_text(millis) == decimal_digits(millis) + seq!['m', 's'],
        millis >= 1000 ==> {
            &&& duration_text(millis) == decimal_digits(millis / 1000) + (if decimals.len() == 0 {
                seq![]
            } else {
                seq!['.'] + decimals
            }) + seq!['s']
            &&& decimals.len() <= 3
            &&& forall|i: int| 0 <= i < decimals.len() ==> '0' <= #[trigger] decimals[i] <= '9'
            &&& decimals.len() > 0 ==> decimals.last() != '0'
            &&& number_read(decimals + Seq::new((3 - decimals.len()) as nat, |i: int| '0'), 10)
                == millis % 1000
        },
{
    reveal_strlit("0ns");
    reveal_strlit("ms");
    reveal_strlit("s");
    reveal_strlit(".");
    let f = millis % 1000;
    let decimals = if f == 0 {
        seq![]
    } else {
        thousandths(f)
    };
    let filled = decimals + Seq::new((3 - decimals.len()) as nat, |i: int| '0');
    if millis == 0 {
        assert(duration_text(millis) =~= seq!['0', 'n', 's']);
    } else if millis < 1000 {
        assert(duration_text(millis) =~= decimal_digits(millis) + seq!['m', 's']);
    } else {
        let all = seq![digit_char(f / 100), digit_char(f / 10 % 10), digit_char(f % 10)];
        assert(filled =~= all);
        assert(all.drop_last() =~= seq![digit_char(f / 100), digit_char(f / 10 % 10)]);
        assert(all.drop_last().drop_last() =~= seq![digit_char(f / 100)]);
        assert(all.drop_last().drop_last().drop_last() =~= seq![]);
        reveal_with_fuel(number_read, 4);
        assert(number_read(all, 10) == f);
        assert(duration_text(millis) =~= decimal_digits(millis / 1000) + (if decimals.len() == 0 {
            seq![]
        } else {
            seq!['.'] + decimals
        }) + seq!['s']);
    }
    decimals
}

/// Only the case of ASCII letters is ignored: two texts are the same but for
/// case exactly where they are as long, and at each place the characters are
/// equal, or are the capital and the small form of one letter.
pub proof fn case_alone_is_ignored(a: Seq<char>, b: Seq<char>)
    ensures
        same_ignoring_case(a, b) <==> a.len() == b.len() && forall|i: int|
            0 <= i < a.len() ==> #[trigger] a[i] == b[i] || ('A' <= a[i] <= 'Z' && b[i] as int
                == a[i] as int + 32) || ('A' <= b[i] <= 'Z' && a[i] as int == b[i] as int + 32),
{
    let x = a.map_values(|c: char| small_letter(c));
    let y = b.map_values(|c: char| small_letter(c));
    if same_ignoring_case(a, b) {
        assert(x.len() == a.len() && y.len() == b.len());
        assert forall|i: int| 0 <= i < a.len() implies #[trigger] a[i] == b[i] || ('A' <= a[i]
            <= 'Z' && b[i] as int == a[i] as int + 32) || ('A' <= b[i] <= 'Z' && a[i] as int
            == b[i] as int + 32) by {
            assert(x[i] == y[i]);
            assert(x[i] == small_letter(a[i]));
            assert(y[i] == small_letter(b[i]));
        }
    }
    if a.len() == b.len() && forall|i: int|
        0 <= i < a.len() ==> #[trigger] a[i] == b[i] || ('A' <= a[i] <= 'Z' && b[i] as int
            == a[i] as int + 32) || ('A' <= b[i] <= 'Z' && a[i] as int == b[i] as int + 32) {
        assert forall|i: int| 0 <= i < x.len() implies x[i] == y[i] by {
            assert(a[i] == b[i] || ('A' <= a[i] <= 'Z' && b[i] as int == a[i] as int + 32) || ('A'
                <= b[i] <= 'Z' && a[i] as int == b[i] as int + 32));
        }
        assert(x =~= y);
    }
}

/// Filling up puts spaces in front until the width is reached, and changes
/// nothing of the text.
pub proof fn filling_up_puts_spaces_in_front(s: Seq<char>, width: nat)
    ensures
        padded(s, width).len() == (if s.len() < width {
            width
        } else {
            s.len()
        }),
        padded(s, width).skip(padded(s, width).len() - s.len()) == s,
        forall|i: int|
            0 <= i < padded(s, width).len() - s.len() ==> #[trigger] padded(s, width)[i] == ' ',
{
    assert(padded(s, width).skip(padded(s, width).len() - s.len()) =~= s);
}

/// A text that takes no more bytes than the limit is shown whole. Of a longer
/// one the longest beginning that fits is shown, whole characters only, with
/// three dots behind it.
pub proof fn shortening_cuts_at_the_limit(s: Seq<char>, max: nat) -> (kept: int)
    ensures
        encode_utf8(s).len() <= max ==> shortened(s, max) == s,
        encode_utf8(s).len() > max ==> {
            &&& 0 <= kept < s.len()
            &&& shortened(s, max) == s.take(kept) + seq!['.', '.', '.']
            &&& encode_utf8(s.take(kept)).len() <= max
            &&& encode_utf8(s.take(kept + 1)).len() > max
        },
{
    reveal_strlit("...");
    shortening_keeps_what_fits(s, max as int);
    let kept = fitting(s, max as int);
    if encode_utf8(s).len() > max {
        assert(s.take(s.len() as int) =~= s);
        assert(kept < s.len());
        assert(shortened(s, max) =~= s.take(kept) + seq!['.', '.', '.']);
    }
    kept
}

/// Lists of strings are read as their texts, one for one and in order.
pub proof fn strings_are_read_as_their_texts(
    list: Seq<String>,
    pairs: Seq<(String, String)>,
    o: Option<String>,
    i: int,
)
    ensures
        texts(list).len() == list.len(),
        0 <= i < list.len() ==> texts(list)[i] == list[i]@,
        pair_texts(pairs).len() == pairs.len(),
        0 <= i < pairs.len() ==> pair_texts(pairs)[i] == (pairs[i].0@, pairs[i].1@),
        o is Some <==> opt_text(o) is Some,
        o matches Some(t) ==> opt_text(o) == Some(t@),
{
}

} // verus!
