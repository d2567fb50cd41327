//! Spans of text and spans of its UTF-8 bytes are the same spans: UTF-8 is
//! self-synchronising, so an encoded marker stands in encoded text exactly
//! where the marker stands in the text.

use vstd::prelude::*;
use vstd::utf8::*;

use crate::marker;

verus! {

/// Byte offset of character `i` of `t`.
pub open spec fn offset(t: Seq<char>, i: int) -> int {
    encode_utf8(t.take(i)).len() as int
}

/// Encoding distributes over concatenation.
pub proof fn encode_concat(a: Seq<char>, b: Seq<char>)
    ensures
        encode_utf8(a + b) == encode_utf8(a) + encode_utf8(b),
    decreases a.len(),
{
    if a.len() == 0 {
        assert(a + b =~= b);
        assert(encode_utf8(a) + encode_utf8(b) =~= encode_utf8(b));
    } else {
        assert((a + b).drop_first() =~= a.drop_first() + b);
        encode_concat(a.drop_first(), b);
        assert(encode_utf8(a + b) =~= encode_utf8(a) + encode_utf8(b));
    }
}

/// A character takes one to four bytes; the first of them is no continuation
/// byte, the others are.
proof fn scalar_bytes(c: char)
    ensures
        1 <= encode_scalar(c as u32).len() <= 4,
        !is_continuation_byte(encode_scalar(c as u32)[0]),
        forall|i: int|
            1 <= i < encode_scalar(c as u32).len() ==> is_continuation_byte(
                #[trigger] encode_scalar(c as u32)[i],
            ),
{
    let v = c as u32;
    assert((v & 0x7F) as u8 <= 0x7F) by (bit_vector);
    assert(0xC0u8 | ((v >> 6) & 0x1F) as u8 >= 0xC0u8) by (bit_vector);
    assert(0xE0u8 | ((v >> 12) & 0x0F) as u8 >= 0xE0u8) by (bit_vector);
    assert(0xF0u8 | ((v >> 18) & 0x7) as u8 >= 0xF0u8) by (bit_vector);
    assert(0x80u8 <= 0x80u8 | (v & 0x3F) as u8 && 0x80u8 | (v & 0x3F) as u8 <= 0xBFu8)
        by (bit_vector);
    assert(0x80u8 <= 0x80u8 | ((v >> 6) & 0x3F) as u8 && 0x80u8 | ((v >> 6) & 0x3F) as u8
        <= 0xBFu8) by (bit_vector);
    assert(0x80u8 <= 0x80u8 | ((v >> 12) & 0x3F) as u8 && 0x80u8 | ((v >> 12) & 0x3F) as u8
        <= 0xBFu8) by (bit_vector);
}

/// A piece of the text is encoded by the bytes between its offsets.
proof fn piece_bytes(t: Seq<char>, i: int, j: int)
    requires
        0 <= i <= j <= t.len(),
    ensures
        0 <= offset(t, i) <= offset(t, j) <= encode_utf8(t).len(),
        encode_utf8(t).subrange(offset(t, i), offset(t, j)) == encode_utf8(t.subrange(i, j)),
        offset(t, j) == offset(t, i) + encode_utf8(t.subrange(i, j)).len(),
{
    assert(t.take(j) =~= t.take(i) + t.subrange(i, j));
    assert(t =~= t.take(j) + t.skip(j));
    encode_concat(t.take(i), t.subrange(i, j));
    encode_concat(t.take(j), t.skip(j));
    assert(encode_utf8(t).subrange(offset(t, i), offset(t, j)) =~= encode_utf8(t.subrange(i, j)));
}

/// The offsets of the two ends, and the growth from one character to the
/// next.
proof fn offset_steps(t: Seq<char>, i: int)
    requires
        0 <= i < t.len(),
    ensures
        offset(t, i + 1) == offset(t, i) + encode_scalar(t[i] as u32).len(),
        offset(t, i) < offset(t, i + 1) <= encode_utf8(t).len(),
        encode_utf8(t).subrange(offset(t, i), offset(t, i + 1)) == encode_scalar(t[i] as u32),
{
    piece_bytes(t, i, i + 1);
    let one = t.subrange(i, i + 1);
    assert(one.drop_first() =~= Seq::<char>::empty());
    assert(one[0] == t[i]);
    assert(encode_utf8(one) =~= encode_scalar(t[i] as u32) + encode_utf8(one.drop_first()));
    assert(encode_utf8(one) =~= encode_scalar(t[i] as u32));
    scalar_bytes(t[i]);
}

/// Offsets grow with the position.
proof fn offset_grows(t: Seq<char>, i: int, j: int)
    requires
        0 <= i < j <= t.len(),
    ensures
        offset(t, i) < offset(t, j),
    decreases j - i,
{
    offset_steps(t, j - 1);
    if i < j - 1 {
        offset_grows(t, i, j - 1);
    }
}

/// The first and the last offset.
proof fn offset_ends(t: Seq<char>)
    ensures
        offset(t, 0) == 0,
        offset(t, t.len() as int) == encode_utf8(t).len(),
{
    assert(t.take(0) =~= Seq::<char>::empty());
    assert(t.take(t.len() as int) =~= t);
}

/// Every byte belongs to one character.
proof fn char_of_byte(t: Seq<char>, p: int, k: int) -> (i: int)
    requires
        0 <= k <= t.len(),
        0 <= p < offset(t, k),
    ensures
        0 <= i < k,
        offset(t, i) <= p < offset(t, i + 1),
    decreases k,
{
    offset_ends(t);
    if offset(t, k - 1) <= p {
        k - 1
    } else {
        char_of_byte(t, p, k - 1)
    }
}

/// If the encoding of `m` starts the encoding of `x`, then `m` starts `x`.
proof fn prefix_of_encoding(x: Seq<char>, m: Seq<char>)
    requires
        encode_utf8(m).len() <= encode_utf8(x).len(),
        encode_utf8(x).take(encode_utf8(m).len() as int) == encode_utf8(m),
    ensures
        m.len() <= x.len(),
        x.take(m.len() as int) == m,
    decreases m.len(),
{
    let bx = encode_utf8(x);
    let bm = encode_utf8(m);
    if m.len() == 0 {
        assert(x.take(0) =~= m);
    } else {
        scalar_bytes(m[0]);
        assert(bm.len() > 0);
        assert(x.len() > 0);
        encode_utf8_first_scalar(m);
        encode_utf8_first_scalar(x);
        let n = length_of_first_scalar(bm);
        assert(n <= bm.len());
        assert forall|i: int| 0 <= i < bm.len() implies bx[i] == bm[i] by {
            assert(bx.take(bm.len() as int)[i] == bm[i]);
        }
        assert(length_of_first_scalar(bx) == n);
        assert(decode_first_scalar(bx) == decode_first_scalar(bm));
        char_u32_cast(m[0], m[0] as u32);
        char_u32_cast(x[0], m[0] as u32);
        assert(x[0] == m[0]);
        let rx = encode_utf8(x.drop_first());
        let rm = encode_utf8(m.drop_first());
        assert(rx =~= bx.skip(n));
        assert(rm =~= bm.skip(n));
        assert(rx.take(rm.len() as int) =~= rm);
        prefix_of_encoding(x.drop_first(), m.drop_first());
        assert forall|i: int| 0 <= i < m.len() implies #[trigger] x[i] == m[i] by {
            if i > 0 {
                assert(x.drop_first().take(m.len() - 1)[i - 1] == m.drop_first()[i - 1]);
            }
        }
        assert(x.take(m.len() as int) =~= m);
    }
}

/// At a character's offset, the encoded marker stands in the encoded text
/// exactly if the marker stands in the text at that character.
pub proof fn stands_alike(t: Seq<char>, m: Seq<char>, k: int)
    requires
        0 <= k <= t.len(),
    ensures
        marker::occurs_at(encode_utf8(t), encode_utf8(m), offset(t, k)) == marker::occurs_at(
            t,
            m,
            k,
        ),
        marker::occurs_at(t, m, k) ==> offset(t, k + m.len()) == offset(t, k) + encode_utf8(
            m,
        ).len(),
{
    let bt = encode_utf8(t);
    let bm = encode_utf8(m);
    offset_ends(t);
    piece_bytes(t, k, t.len() as int);
    if marker::occurs_at(t, m, k) {
        piece_bytes(t, k, k + m.len());
    }
    if marker::occurs_at(bt, bm, offset(t, k)) {
        let rest = t.subrange(k, t.len() as int);
        assert(encode_utf8(rest).take(bm.len() as int) =~= bm);
        prefix_of_encoding(rest, m);
        assert(t.subrange(k, k + m.len()) =~= rest.take(m.len() as int));
    }
}

/// Wherever the encoded marker stands in the encoded text, a character
/// begins.
proof fn stands_at_a_char(t: Seq<char>, m: Seq<char>, p: int) -> (k: int)
    requires
        m.len() > 0,
        marker::occurs_at(encode_utf8(t), encode_utf8(m), p),
    ensures
        0 <= k < t.len(),
        offset(t, k) == p,
        marker::occurs_at(t, m, k),
{
    let bt = encode_utf8(t);
    let bm = encode_utf8(m);
    scalar_bytes(m[0]);
    assert(bm[0] == encode_scalar(m[0] as u32)[0]);
    assert(bt.subrange(p, p + bm.len())[0] == bm[0]);
    offset_ends(t);
    let k = char_of_byte(t, p, t.len() as int);
    offset_steps(t, k);
    scalar_bytes(t[k]);
    assert(bt.subrange(offset(t, k), offset(t, k + 1))[p - offset(t, k)] == bt[p]);
    stands_alike(t, m, k);
    k
}

/// The search gives the same place in the text and in its bytes.
pub proof fn found_alike(t: Seq<char>, m: Seq<char>, k: int)
    requires
        m.len() > 0,
        0 <= k <= t.len(),
    ensures
        marker::find_from(encode_utf8(t), encode_utf8(m), offset(t, k)) == (
        match marker::find_from(t, m, k) {
            Some(j) => Some(offset(t, j)),
            None => None,
        }),
{
    let bt = encode_utf8(t);
    let bm = encode_utf8(m);
    let b = offset(t, k);
    marker::find_from_is_first(t, m, k);
    marker::find_from_is_first(bt, bm, b);
    if let Some(p) = marker::find_from(bt, bm, b) {
        let i = stands_at_a_char(t, m, p);
        if i < k {
            offset_grows(t, i, k);
        }
        assert(k <= i);
        let j = marker::find_from(t, m, k)->0;
        stands_alike(t, m, j);
        if j < i {
            offset_grows(t, j, i);
            if k < j {
                offset_grows(t, k, j);
            }
        }
    } else if let Some(j) = marker::find_from(t, m, k) {
        stands_alike(t, m, j);
        if k < j {
            offset_grows(t, k, j);
        }
    }
}

/// The next span of the text and of its bytes.
pub proof fn span_alike(t: Seq<char>, m: Seq<char>, k: int)
    requires
        0 <= k <= t.len(),
    ensures
        marker::next_span(encode_utf8(t), encode_utf8(m), offset(t, k)) == (
        match marker::next_span(t, m, k) {
            Some((open, end)) => Some((offset(t, open), offset(t, end))),
            None => None,
        }),
{
    if m.len() > 0 {
        scalar_bytes(m[0]);
        found_alike(t, m, k);
        marker::find_from_is_first(t, m, k);
        if let Some(open) = marker::find_from(t, m, k) {
            stands_alike(t, m, open);
            found_alike(t, m, open + m.len());
            marker::find_from_is_first(t, m, open + m.len());
            if let Some(close) = marker::find_from(t, m, open + m.len()) {
                stands_alike(t, m, close);
            }
        }
    }
}

/// Replacing spans in the text and then encoding it gives what replacing
/// them in the encoded text gives.
pub proof fn built_alike(t: Seq<char>, m: Seq<char>, payload: Option<Seq<char>>, k: int)
    requires
        0 <= k <= t.len(),
    ensures
        encode_utf8(marker::built_from(t, m, payload, k)) == marker::built_from(
            encode_utf8(t),
            encode_utf8(m),
            match payload {
                Some(p) => Some(encode_utf8(p)),
                None => None,
            },
            offset(t, k),
        ),
    decreases t.len() - k,
{
    span_alike(t, m, k);
    marker::next_span_shape(t, m, k);
    offset_ends(t);
    piece_bytes(t, k, t.len() as int);
    if let Some((open, end)) = marker::next_span(t, m, k) {
        let inner = match payload {
            Some(p) => p,
            None => t.subrange(open + m.len(), end - m.len()),
        };
        stands_alike(t, m, open);
        stands_alike(t, m, end - m.len());
        piece_bytes(t, k, open);
        piece_bytes(t, open + m.len(), end - m.len());
        built_alike(t, m, None, end);
        encode_concat(t.subrange(k, open), inner);
        encode_concat(t.subrange(k, open) + inner, marker::built_from(t, m, None, end));
    }
}

/// The whole text: its bytes, rebuilt, are well-formed UTF-8 and decode to
/// the rebuilt text.
pub proof fn built_alike_whole(t: Seq<char>, m: Seq<char>, payload: Option<Seq<char>>)
    ensures
        ({
            let bytes = marker::built_from(
                encode_utf8(t),
                encode_utf8(m),
                match payload {
                    Some(p) => Some(encode_utf8(p)),
                    None => None,
                },
                0,
            );
            valid_utf8(bytes) && decode_utf8(bytes) == marker::built_from(t, m, payload, 0)
        }),
        marker::spanned(encode_utf8(t), encode_utf8(m)) == marker::spanned(t, m),
{
    offset_ends(t);
    span_alike(t, m, 0);
    built_alike(t, m, payload, 0);
    encode_utf8_valid_utf8(marker::built_from(t, m, payload, 0));
    encode_utf8_decode_utf8(marker::built_from(t, m, payload, 0));
}

/// The same for a marker and a payload given as bytes, where these are
/// well-formed UTF-8.
pub proof fn built_alike_decoded(t: Seq<char>, m: Seq<u8>, payload: Option<Seq<u8>>)
    ensures
        valid_utf8(m) && (payload matches Some(p) ==> valid_utf8(p)) ==> {
            let bytes = marker::built_from(encode_utf8(t), m, payload, 0);
            &&& valid_utf8(bytes)
            &&& decode_utf8(bytes) == marker::built_from(
                t,
                decode_utf8(m),
                match payload {
                    Some(p) => Some(decode_utf8(p)),
                    None => None,
                },
                0,
            )
            &&& marker::spanned(encode_utf8(t), m) == marker::spanned(t, decode_utf8(m))
        },
{
    if valid_utf8(m) {
        decode_utf8_encode_utf8(m);
        match payload {
            Some(p) => {
                if valid_utf8(p) {
                    decode_utf8_encode_utf8(p);
                    built_alike_whole(t, decode_utf8(m), Some(decode_utf8(p)));
                }
            },
            None => {
                built_alike_whole(t, decode_utf8(m), None);
            },
        }
    }
}

} // verus!
