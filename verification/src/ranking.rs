//! Stable ordering of items by a numeric key.

use vstd::prelude::*;

verus! {

/// Item `a` comes before item `b`: its key is smaller, or the keys are equal
/// and it stands first.
pub open spec fn comes_before(keys: Seq<u128>, a: int, b: int) -> bool {
    keys[a] < keys[b] || (keys[a] == keys[b] && a < b)
}

/// `order` names every item once, each before those that it comes before.
pub open spec fn is_ranking(order: Seq<usize>, keys: Seq<u128>) -> bool {
    &&& order.len() == keys.len()
    &&& forall|i: int| 0 <= i < order.len() ==> #[trigger] order[i] < keys.len()
    &&& forall|i: int, j: int|
        0 <= i < j < order.len() ==> comes_before(
            keys,
            #[trigger] order[i] as int,
            #[trigger] order[j] as int,
        )
    &&& forall|v: usize| v < keys.len() ==> #[trigger] order.contains(v)
}

/// The items in order of their keys, ties in their original order.
pub fn ranking(keys: &[u128]) -> (order: Vec<usize>)
    ensures
        is_ranking(order@, keys@),
{
    let mut order: Vec<usize> = Vec::new();
    let mut n: usize = 0;
    while n < keys.len()
        invariant
            n <= keys.len(),
            order@.len() == n,
            forall|i: int| 0 <= i < n ==> #[trigger] order@[i] < n,
            forall|i: int, j: int|
                0 <= i < j < n ==> comes_before(
                    keys@,
                    #[trigger] order@[i] as int,
                    #[trigger] order@[j] as int,
                ),
            forall|v: usize| v < n ==> #[trigger] order@.contains(v),
        decreases keys.len() - n,
    {
        let mut at: usize = n;
        while at > 0 && keys[n] < keys[order[at - 1]]
            invariant
                at <= n < keys.len(),
                order@.len() == n,
                forall|i: int| 0 <= i < n ==> #[trigger] order@[i] < n,
                forall|i: int|
                    at <= i < n ==> keys@[n as int] < keys@[#[trigger] order@[i] as int],
            decreases at,
        {
            at -= 1;
        }
        let ghost before = order@;
        order.insert(at, n);
        proof {
            assert forall|i: int, j: int| 0 <= i < j < n + 1 implies comes_before(
                keys@,
                #[trigger] order@[i] as int,
                #[trigger] order@[j] as int,
            ) by {
                let bi = if i < at {
                    i
                } else {
                    i - 1
                };
                let bj = if j < at {
                    j
                } else {
                    j - 1
                };
                if i == at {
                    assert(order@[j] == before[bj]);
                } else if j == at {
                    assert(order@[i] == before[bi]);
                    if at > 0 && i < at - 1 {
                        assert(comes_before(keys@, before[i] as int, before[at - 1] as int));
                    }
                } else {
                    assert(order@[i] == before[bi]);
                    assert(order@[j] == before[bj]);
                }
            }
            assert forall|v: usize| v < n + 1 implies #[trigger] order@.contains(v) by {
                if v == n {
                    assert(order@[at as int] == v);
                } else {
                    assert(before.contains(v));
                    let k = before.index_of(v);
                    assert(order@[if k < at {
                        k
                    } else {
                        k + 1
                    }] == v);
                }
            }
            assert forall|i: int| 0 <= i < n + 1 implies #[trigger] order@[i] < n + 1 by {
                if i < at {
                    assert(order@[i] == before[i]);
                } else if i > at {
                    assert(order@[i] == before[i - 1]);
                }
            }
        }
        n += 1;
    }
    order
}

/// Two rankings of the same keys agree up to any position.
proof fn rankings_agree(a: Seq<usize>, b: Seq<usize>, keys: Seq<u128>, n: int)
    requires
        is_ranking(a, keys),
        is_ranking(b, keys),
        0 <= n <= keys.len(),
    ensures
        forall|i: int| 0 <= i < n ==> a[i] == b[i],
    decreases n,
{
    if n > 0 {
        rankings_agree(a, b, keys, n - 1);
        let i = n - 1;
        if a[i] != b[i] {
            assert(b.contains(a[i]));
            let j = b.index_of(a[i]);
            if j < i {
                assert(a[j] == b[j]);
                assert(comes_before(keys, a[j] as int, a[i] as int));
            }
            assert(comes_before(keys, b[i] as int, b[j] as int));
            assert(a.contains(b[i]));
            let k = a.index_of(b[i]);
            if k < i {
                assert(a[k] == b[k]);
                assert(comes_before(keys, b[k] as int, b[i] as int));
            }
            assert(comes_before(keys, a[i] as int, a[k] as int));
        }
    }
}

/// The ranking is determined by the keys.
pub proof fn ranking_is_unique(a: Seq<usize>, b: Seq<usize>, keys: Seq<u128>)
    requires
        is_ranking(a, keys),
        is_ranking(b, keys),
    ensures
        a == b,
{
    rankings_agree(a, b, keys, keys.len() as int);
    assert(a =~= b);
}

/// No item is named twice.
pub proof fn ranking_has_no_repeats(order: Seq<usize>, keys: Seq<u128>, i: int, j: int)
    requires
        is_ranking(order, keys),
        0 <= i < order.len(),
        0 <= j < order.len(),
        order[i] == order[j],
    ensures
        i == j,
{
    if i < j {
        assert(comes_before(keys, order[i] as int, order[j] as int));
    } else if j < i {
        assert(comes_before(keys, order[j] as int, order[i] as int));
    }
}

/// In a ranking smaller keys come first, and items with equal keys stay in
/// their order; every item is in it.
pub proof fn rankings_are_sorted_and_stable(
    order: Seq<usize>,
    keys: Seq<u128>,
    i: int,
    j: int,
    item: usize,
)
    requires
        is_ranking(order, keys),
    ensures
        order.len() == keys.len(),
        order.contains(item) <==> item < keys.len(),
        0 <= i < j < order.len() ==> keys[order[i] as int] <= keys[order[j] as int],
        0 <= i < j < order.len() && keys[order[i] as int] == keys[order[j] as int] ==> order[i]
            < order[j],
{
    if order.contains(item) {
        assert(order[order.index_of(item)] == item);
    }
    if 0 <= i < j < order.len() {
        assert(comes_before(keys, order[i] as int, order[j] as int));
    }
}

} // verus!
