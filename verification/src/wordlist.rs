//! Wordlists: one payload per line.

use vstd::prelude::*;
use vstd::slice::slice_subrange;

verus! {

/// The line without the carriage return at its end, if there is one.
pub open spec fn without_return(line: Seq<u8>) -> Seq<u8> {
    if line.len() > 0 && line.last() == 13 {
        line.drop_last()
    } else {
        line
    }
}

/// Where the line that begins at `from` ends: at the next line feed, or at
/// the end of the bytes.
pub open spec fn line_end(bytes: Seq<u8>, from: int) -> int
    decreases bytes.len() - from,
{
    if from < 0 || from >= bytes.len() {
        bytes.len() as int
    } else if bytes[from] == 10 {
        from
    } else {
        line_end(bytes, from + 1)
    }
}

/// The words of the lines that begin at or after `from`.
pub open spec fn words_from(bytes: Seq<u8>, from: int) -> Seq<Seq<u8>>
    decreases bytes.len() - from + 1,
{
    if from < 0 || from > bytes.len() {
        seq![]
    } else {
        proof {
            line_end_bounds(bytes, from);
        }
        let end = line_end(bytes, from);
        let word = without_return(bytes.subrange(from, end));
        let rest = words_from(bytes, end + 1);
        if word.len() > 0 {
            seq![word] + rest
        } else {
            rest
        }
    }
}

/// The words of a list. Lines are taken verbatim: leading and trailing spaces
/// and tabs are part of the word. Only the line terminator is stripped (a
/// single trailing carriage return for CRLF files), and empty lines are
/// skipped.
pub open spec fn words_of(bytes: Seq<u8>) -> Seq<Seq<u8>> {
    words_from(bytes, 0)
}

/// The byte sequences of a list of byte vectors.
pub open spec fn byte_lists(list: Seq<Vec<u8>>) -> Seq<Seq<u8>> {
    list.map_values(|v: Vec<u8>| v@)
}

/// A line ends at the first line feed from its beginning on, or at the end of
/// the bytes.
pub proof fn line_end_bounds(bytes: Seq<u8>, from: int)
    requires
        0 <= from <= bytes.len(),
    ensures
        from <= line_end(bytes, from) <= bytes.len(),
        forall|i: int| from <= i < line_end(bytes, from) ==> #[trigger] bytes[i] != 10,
        line_end(bytes, from) < bytes.len() ==> bytes[line_end(bytes, from)] == 10,
    decreases bytes.len() - from,
{
    if from < bytes.len() && bytes[from] != 10 {
        line_end_bounds(bytes, from + 1);
    }
}

/// Copies bytes.
fn copy_bytes(bytes: &[u8]) -> (copy: Vec<u8>)
    ensures
        copy@ == bytes@,
{
    let mut copy: Vec<u8> = Vec::new();
    let mut i: usize = 0;
    while i < bytes.len()
        invariant
            i <= bytes.len(),
            copy@ == bytes@.take(i as int),
        decreases bytes.len() - i,
    {
        copy.push(bytes[i]);
        assert(bytes@.take(i + 1) =~= bytes@.take(i as int).push(bytes@[i as int]));
        i += 1;
    }
    assert(bytes@.take(bytes@.len() as int) =~= bytes@);
    copy
}

/// Splits a list into its words.
pub fn split_words(bytes: &[u8]) -> (words: Vec<Vec<u8>>)
    ensures
        byte_lists(words@) == words_of(bytes@),
{
    let mut words: Vec<Vec<u8>> = Vec::new();
    let n = bytes.len();
    let mut from: usize = 0;
    assert(byte_lists(words@) + words_from(bytes@, 0) =~= words_of(bytes@));
    loop
        invariant
            n == bytes@.len(),
            from <= n,
            byte_lists(words@) + words_from(bytes@, from as int) == words_of(bytes@),
        decreases n - from,
    {
        let mut end: usize = from;
        while end < n && bytes[end] != 10
            invariant
                n == bytes@.len(),
                from <= end <= n,
                line_end(bytes@, from as int) == line_end(bytes@, end as int),
            decreases n - end,
        {
            end += 1;
        }
        let ghost line = bytes@.subrange(from as int, end as int);
        let stop: usize = if end > from && bytes[end - 1] == 13 {
            end - 1
        } else {
            end
        };
        let ghost before = byte_lists(words@);
        let ghost rest = words_from(bytes@, end + 1);
        assert(bytes@.subrange(from as int, stop as int) =~= without_return(line));
        if stop > from {
            let word = copy_bytes(slice_subrange(bytes, from, stop));
            words.push(word);
            assert(byte_lists(words@) =~= before.push(word@));
            assert(before.push(word@) + rest =~= before + (seq![word@] + rest));
        }
        if end == n {
            assert(byte_lists(words@) + Seq::<Seq<u8>>::empty() =~= byte_lists(words@));
            return words;
        }
        from = end + 1;
    }
}

/// No word is empty, and none holds a line feed.
pub proof fn words_are_lines(bytes: Seq<u8>, from: int)
    requires
        0 <= from <= bytes.len() + 1,
    ensures
        forall|k: int|
            0 <= k < words_from(bytes, from).len() ==> (#[trigger] words_from(bytes, from)[k]).len()
                > 0 && !words_from(bytes, from)[k].contains(10u8),
    decreases bytes.len() - from + 1,
{
    if from <= bytes.len() {
        line_end_bounds(bytes, from);
        let end = line_end(bytes, from);
        let line = bytes.subrange(from, end);
        let word = without_return(line);
        let rest = words_from(bytes, end + 1);
        words_are_lines(bytes, end + 1);
        assert forall|k: int| 0 <= k < words_from(bytes, from).len() implies (
        #[trigger] words_from(bytes, from)[k]).len() > 0 && !words_from(bytes, from)[k].contains(
            10u8,
        ) by {
            if word.len() > 0 && k == 0 {
                assert forall|i: int| 0 <= i < word.len() implies word[i] != 10 by {
                    assert(word[i] == bytes[from + i]);
                }
            } else if word.len() > 0 {
                assert(words_from(bytes, from)[k] == rest[k - 1]);
            } else {
                assert(words_from(bytes, from)[k] == rest[k]);
            }
        }
    }
}

/// The words, one per line.
pub open spec fn written(words: Seq<Seq<u8>>) -> Seq<u8>
    decreases words.len(),
{
    if words.len() == 0 {
        seq![]
    } else {
        words[0] + seq![10u8] + written(words.skip(1))
    }
}

/// Words that are written one per line are read back as they were. A word
/// is not empty, holds no line feed, and does not end in a carriage return.
pub proof fn written_words_are_read_back(words: Seq<Seq<u8>>)
    requires
        forall|k: int|
            0 <= k < words.len() ==> (#[trigger] words[k]).len() > 0 && !words[k].contains(10u8)
                && words[k].last() != 13,
    ensures
        words_of(written(words)) == words,
    decreases words.len(),
{
    if words.len() == 0 {
        assert(words_from(seq![], 1) =~= seq![]);
        assert(Seq::<u8>::empty().subrange(0, 0).len() == 0);
        assert(words_of(written(words)) =~= words);
    } else {
        let rest = words.skip(1);
        assert forall|k: int| 0 <= k < rest.len() implies (#[trigger] rest[k]).len() > 0
            && !rest[k].contains(10u8) && rest[k].last() != 13 by {
            assert(rest[k] == words[k + 1]);
        }
        written_words_are_read_back(rest);
        first_line_is_a_word(words[0], written(rest));
        assert(seq![words[0]] + rest =~= words);
    }
}

/// A first line is the first word, whether it ends in a line feed or in a
/// carriage return and a line feed.
pub proof fn first_line_is_a_word(word: Seq<u8>, rest: Seq<u8>)
    requires
        word.len() > 0,
        !word.contains(10u8),
        word.last() != 13,
    ensures
        words_of(word + seq![10u8] + rest) == seq![word] + words_of(rest),
        words_of(word + seq![13u8, 10u8] + rest) == seq![word] + words_of(rest),
{
    let lf = word + seq![10u8];
    let crlf = word + seq![13u8, 10u8];
    let a = lf + rest;
    let b = crlf + rest;
    first_line_end(a, word.len() as int);
    first_line_end(b, (word.len() + 1) as int);
    assert(a.subrange(0, word.len() as int) =~= word);
    assert(b.subrange(0, (word.len() + 1) as int) =~= word.push(13u8));
    assert(word.push(13u8).drop_last() =~= word);
    shifted_words(lf, rest, 0);
    shifted_words(crlf, rest, 0);
}

/// The first line ends at the first line feed.
proof fn first_line_end(bytes: Seq<u8>, end: int)
    requires
        0 <= end < bytes.len(),
        bytes[end] == 10,
        forall|i: int| 0 <= i < end ==> bytes[i] != 10,
    ensures
        line_end(bytes, 0) == end,
{
    line_end_bounds(bytes, 0);
    let e = line_end(bytes, 0);
    if e < end {
        assert(bytes[e] == 10);
    }
}

/// What stands before a line does not matter for the words from that line on.
proof fn shifted_words(start: Seq<u8>, rest: Seq<u8>, from: int)
    requires
        0 <= from <= rest.len() + 1,
    ensures
        words_from(start + rest, start.len() + from) == words_from(rest, from),
    decreases rest.len() - from + 1,
{
    let whole = start + rest;
    let n = start.len() as int;
    if from <= rest.len() {
        shifted_end(start, rest, from);
        line_end_bounds(rest, from);
        let end = line_end(rest, from);
        assert(whole.subrange(n + from, n + end) =~= rest.subrange(from, end));
        shifted_words(start, rest, end + 1);
    }
}

/// What stands before a line does not matter for its end.
proof fn shifted_end(start: Seq<u8>, rest: Seq<u8>, from: int)
    requires
        0 <= from <= rest.len(),
    ensures
        line_end(start + rest, start.len() + from) == start.len() + line_end(rest, from),
    decreases rest.len() - from,
{
    if from < rest.len() {
        assert((start + rest)[start.len() + from] == rest[from]);
        if rest[from] != 10 {
            shifted_end(start, rest, from + 1);
        }
    }
}

/// A line gives at most one word, and what follows it is read by itself. An
/// empty line gives none, whether it ends in a line feed or in a carriage
/// return and a line feed; of several carriage returns at the end of a line
/// only the last is dropped.
pub proof fn lines_are_read_one_by_one(line: Seq<u8>, rest: Seq<u8>)
    requires
        !line.contains(10u8),
    ensures
        words_of(seq![10u8] + rest) == words_of(rest),
        words_of(seq![13u8, 10u8] + rest) == words_of(rest),
        line.len() > 0 ==> words_of(line + seq![13u8, 10u8] + rest) == seq![line] + words_of(rest),
        line.len() > 0 && line.last() != 13 ==> words_of(line + seq![10u8] + rest) == seq![line]
            + words_of(rest),
{
    let a = seq![10u8] + rest;
    first_line_end(a, 0);
    shifted_words(seq![10u8], rest, 0);
    assert(a.subrange(0, 0) =~= seq![]);
    assert(words_of(a) =~= words_of(rest));
    let b = seq![13u8, 10u8] + rest;
    first_line_end(b, 1);
    shifted_words(seq![13u8, 10u8], rest, 0);
    assert(b.subrange(0, 1) =~= seq![13u8]);
    assert(seq![13u8].drop_last() =~= seq![]);
    assert(words_of(b) =~= words_of(rest));
    if line.len() > 0 {
        let crlf = line + seq![13u8, 10u8];
        let c = crlf + rest;
        let n = line.len() as int;
        assert forall|i: int| 0 <= i < n + 1 implies c[i] != 10 by {
            if i < n {
                assert(c[i] == line[i]);
                assert(line.contains(line[i]));
            }
        }
        first_line_end(c, n + 1);
        shifted_words(crlf, rest, 0);
        assert(c.subrange(0, n + 1) =~= line.push(13u8));
        assert(line.push(13u8).drop_last() =~= line);
        if line.last() != 13 {
            first_line_is_a_word(line, rest);
        }
    }
}

/// The last line needs no end: it is a word like any other, but for one
/// carriage return at its end. An empty list has no words.
pub proof fn the_last_line_needs_no_end(line: Seq<u8>)
    requires
        !line.contains(10u8),
    ensures
        line.len() > 0 && line.last() != 13 ==> words_of(line) == seq![line],
        line.len() > 0 ==> words_of(line + seq![13u8]) == seq![line],
        words_of(Seq::<u8>::empty()) == Seq::<Seq<u8>>::empty(),
{
    let empty = Seq::<u8>::empty();
    line_end_bounds(empty, 0);
    assert(empty.subrange(0, 0) =~= seq![]);
    assert(words_from(empty, 1) =~= seq![]);
    if line.len() > 0 {
        let n = line.len() as int;
        line_end_bounds(line, 0);
        if line_end(line, 0) < n {
            assert(line.contains(line[line_end(line, 0)]));
        }
        assert(line.subrange(0, n) =~= line);
        assert(words_from(line, n + 1) =~= seq![]);
        let b = line + seq![13u8];
        line_end_bounds(b, 0);
        let e = line_end(b, 0);
        if e < n {
            assert(b[e] == line[e]);
            assert(line.contains(line[e]));
        }
        assert(e == n + 1);
        assert(b.subrange(0, n + 1) =~= b);
        assert(b.drop_last() =~= line);
        assert(words_from(b, n + 2) =~= seq![]);
        assert(words_of(b) =~= seq![line]);
        if line.last() != 13 {
            assert(words_of(line) =~= seq![line]);
        }
    }
}

/// Byte vectors are read as their bytes, one for one and in order.
pub proof fn vectors_are_read_as_their_bytes(list: Seq<Vec<u8>>, i: int)
    ensures
        byte_lists(list).len() == list.len(),
        0 <= i < list.len() ==> byte_lists(list)[i] == list[i]@,
{
}

} // verus!
