//! Counts of status codes.

use std::collections::HashMap;
use vstd::prelude::*;

use crate::ranking;
use crate::ranking::ranking;

verus! {

broadcast use vstd::std_specs::hash::group_hash_axioms;

/// The count kept for a status code, zero where none is kept.
pub open spec fn count_of(counts: Map<u16, usize>, code: u16) -> nat {
    if counts.contains_key(code) {
        counts[code] as nat
    } else {
        0
    }
}

/// Counts one more response with the given status code.
pub fn tally(counts: &mut HashMap<u16, usize>, code: u16)
    requires
        count_of(old(counts)@, code) < usize::MAX,
    ensures
        final(counts)@ == old(counts)@.insert(code, (count_of(old(counts)@, code) + 1) as usize),
{
    let so_far: usize = match counts.get(&code) {
        Some(n) => *n,
        None => 0,
    };
    counts.insert(code, so_far + 1);
}

/// `code` is counted most often; of several such codes it is the smallest.
pub open spec fn is_most_common(counts: Map<u16, usize>, code: u16) -> bool {
    &&& counts.contains_key(code)
    &&& forall|other: u16| #[trigger]
        counts.contains_key(other) ==> counts[other] <= counts[code] && (counts[other]
            == counts[code] ==> code <= other)
}

/// The most common status code, if anything was counted.
pub fn most_common(counts: &HashMap<u16, usize>) -> (mode: Option<u16>)
    ensures
        match mode {
            Some(code) => is_most_common(counts@, code),
            None => forall|code: u16| !#[trigger] counts@.contains_key(code),
        },
{
    let mut best: Option<(u16, usize)> = None;
    for code in it: counts.keys()
        invariant
            forall|k: u16| counts@.contains_key(k) <==> #[trigger] it.seq().unref().contains(k),
            match best {
                Some((c, n)) => {
                    &&& counts@.contains_key(c)
                    &&& counts@[c] == n
                    &&& forall|i: int|
                        0 <= i < it.index() ==> counts@[*#[trigger] it.seq()[i]] <= n && (
                        counts@[*it.seq()[i]] == n ==> c <= *it.seq()[i])
                },
                None => it.index() == 0,
            },
    {
        assert(it.seq().unref()[it.index()] == *code);
        assert(counts@.contains_key(*code));
        let n: usize = match counts.get(code) {
            Some(n) => *n,
            None => 0,
        };
        best = match best {
            Some((c, m)) => if n > m || (n == m && *code < c) {
                Some((*code, n))
            } else {
                Some((c, m))
            },
            None => Some((*code, n)),
        };
    }
    match best {
        Some((c, _)) => Some(c),
        None => None,
    }
}

/// The highest count, zero where nothing was counted.
pub fn highest_count(counts: &HashMap<u16, usize>) -> (highest: usize)
    ensures
        forall|code: u16| #[trigger] counts@.contains_key(code) ==> counts@[code] <= highest,
        highest > 0 ==> exists|code: u16| #[trigger]
            counts@.contains_key(code) && counts@[code] == highest,
{
    match most_common(counts) {
        Some(code) => match counts.get(&code) {
            Some(n) => *n,
            None => 0,
        },
        None => 0,
    }
}

/// The counts as a list: every status code once, the most common first, codes
/// with the same count in ascending order.
pub open spec fn is_distribution(list: Seq<(u16, usize)>, counts: Map<u16, usize>) -> bool {
    &&& forall|i: int|
        0 <= i < list.len() ==> counts.contains_key((#[trigger] list[i]).0) && counts[list[i].0]
            == list[i].1
    &&& forall|code: u16| #[trigger]
        counts.contains_key(code) ==> exists|i: int|
            0 <= i < list.len() && (#[trigger] list[i]).0 == code
    &&& forall|i: int, j: int|
        0 <= i < j < list.len() ==> (#[trigger] list[i]).1 > (#[trigger] list[j]).1 || (list[i].1
            == list[j].1 && list[i].0 < list[j].0)
}

/// A sort key: larger counts first, then smaller codes.
pub open spec fn rank_key(size: usize, code: u16) -> u128 {
    ((usize::MAX - size) * 65536 + code) as u128
}

/// Computes the sort key.
pub fn rank_key_of(size: usize, code: u16) -> (key: u128)
    ensures
        key == rank_key(size, code),
{
    ((usize::MAX - size) as u128) * 65536 + (code as u128)
}

/// The order of the sort keys.
pub proof fn rank_key_order(a: (usize, u16), b: (usize, u16))
    ensures
        rank_key(a.0, a.1) < rank_key(b.0, b.1) <==> a.0 > b.0 || (a.0 == b.0 && a.1 < b.1),
        rank_key(a.0, a.1) == rank_key(b.0, b.1) <==> a == b,
{
}

/// The status codes and their counts, the most common first.
pub fn distribution(counts: &HashMap<u16, usize>) -> (list: Vec<(u16, usize)>)
    ensures
        is_distribution(list@, counts@),
{
    let mut entries: Vec<(u16, usize)> = Vec::new();
    let mut keys: Vec<u128> = Vec::new();
    let ghost codes = vstd::std_specs::iter::IteratorSpec::remaining(
        &vstd::std_specs::hash::spec_keys_iter(counts),
    );
    for code in it: counts.keys()
        invariant
            it.seq() == codes,
            forall|k: u16| counts@.contains_key(k) <==> #[trigger] codes.unref().contains(k),
            entries@.len() == it.index(),
            keys@.len() == it.index(),
            forall|i: int|
                0 <= i < it.index() ==> {
                    &&& (#[trigger] entries@[i]).0 == *codes[i]
                    &&& counts@.contains_key(entries@[i].0)
                    &&& counts@[entries@[i].0] == entries@[i].1
                    &&& keys@[i] == rank_key(entries@[i].1, entries@[i].0)
                },
    {
        assert(it.seq().unref()[it.index()] == *code);
        assert(counts@.contains_key(*code));
        let n: usize = match counts.get(code) {
            Some(n) => *n,
            None => 0,
        };
        entries.push((*code, n));
        keys.push(rank_key_of(n, *code));
    }
    let order = ranking(keys.as_slice());
    let mut list: Vec<(u16, usize)> = Vec::new();
    let mut i: usize = 0;
    while i < order.len()
        invariant
            i <= order@.len(),
            entries@.len() == keys@.len(),
            ranking::is_ranking(order@, keys@),
            list@.len() == i,
            forall|k: int| 0 <= k < i ==> #[trigger] list@[k] == entries@[order@[k] as int],
        decreases order.len() - i,
    {
        list.push(entries[order[i]]);
        i += 1;
    }
    proof {
        assert forall|code: u16| #[trigger] counts@.contains_key(code) implies exists|i: int|
            0 <= i < list@.len() && (#[trigger] list@[i]).0 == code by {
            assert(codes.unref().contains(code));
            let k = codes.unref().index_of(code);
            assert(entries@[k].0 == code);
            assert(order@.contains(k as usize));
            let at = order@.index_of(k as usize);
            assert(list@[at].0 == code);
        }
        assert forall|i: int, j: int| 0 <= i < j < list@.len() implies (#[trigger] list@[i]).1 > (
        #[trigger] list@[j]).1 || (list@[i].1 == list@[j].1 && list@[i].0 < list@[j].0) by {
            assert(ranking::comes_before(keys@, order@[i] as int, order@[j] as int));
            rank_key_order((list@[i].1, list@[i].0), (list@[j].1, list@[j].0));
        }
    }
    list
}

/// What is counted under a code is found there, and elsewhere nothing changes;
/// a code that was never counted has the count zero.
pub proof fn counts_are_kept_apart(counts: Map<u16, usize>, code: u16, n: usize, other: u16)
    ensures
        count_of(counts.insert(code, n), code) == n,
        other != code ==> count_of(counts.insert(code, n), other) == count_of(counts, other),
        count_of(counts.remove(code), code) == 0,
        counts.contains_key(code) ==> count_of(counts, code) == counts[code],
{
}

/// The most common code is one that was counted; no code is counted more
/// often, and of those counted as often it is the smallest. There is one at
/// most.
pub proof fn most_common_code(counts: Map<u16, usize>, code: u16, other: u16)
    requires
        is_most_common(counts, code),
    ensures
        counts.contains_key(code),
        counts.contains_key(other) ==> counts[other] <= counts[code],
        counts.contains_key(other) && counts[other] == counts[code] ==> code <= other,
        is_most_common(counts, other) ==> other == code,
{
    if is_most_common(counts, other) {
        assert(counts.contains_key(other));
        assert(counts.contains_key(code));
    }
}

/// A list of the counts names each counted code once, with its count; larger
/// counts come first, and of equal counts the smaller code.
pub proof fn distribution_is_sorted(
    list: Seq<(u16, usize)>,
    counts: Map<u16, usize>,
    i: int,
    j: int,
    code: u16,
)
    requires
        is_distribution(list, counts),
    ensures
        0 <= i < list.len() ==> counts.contains_key(list[i].0) && counts[list[i].0] == list[i].1,
        0 <= i < j < list.len() ==> list[i].1 >= list[j].1,
        0 <= i < j < list.len() && list[i].1 == list[j].1 ==> list[i].0 < list[j].0,
        0 <= i < j < list.len() ==> list[i].0 != list[j].0,
        counts.contains_key(code) ==> list.contains((code, counts[code])),
{
    if 0 <= i < list.len() {
        assert(counts.contains_key(list[i].0));
    }
    if 0 <= i < j < list.len() {
        assert(counts.contains_key(list[j].0));
        assert(list[i].1 > list[j].1 || (list[i].1 == list[j].1 && list[i].0 < list[j].0));
    }
    if counts.contains_key(code) {
        let k = choose|k: int| 0 <= k < list.len() && (#[trigger] list[k]).0 == code;
        assert(counts[list[k].0] == list[k].1);
        assert(list[k] == (code, counts[code]));
    }
}

} // verus!
