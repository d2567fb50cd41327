//! Ascending lists of positions.

use vstd::prelude::*;

verus! {

/// Each position is larger than the one before it.
pub open spec fn ascending(list: Seq<usize>) -> bool {
    forall|i: int, j: int| 0 <= i < j < list.len() ==> #[trigger] list[i] < #[trigger] list[j]
}

/// `list` holds, in ascending order, exactly the positions below `n` that
/// `chosen` picks.
pub open spec fn lists(list: Seq<usize>, n: int, chosen: spec_fn(int) -> bool) -> bool {
    &&& ascending(list)
    &&& forall|i: int|
        0 <= i < list.len() ==> #[trigger] list[i] < n && chosen(list[i] as int)
    &&& forall|k: usize| k < n && chosen(k as int) ==> #[trigger] list.contains(k)
}

/// Appending the next position, where it is picked.
pub(crate) proof fn push_lists(list: Seq<usize>, n: usize, chosen: spec_fn(int) -> bool)
    requires
        lists(list, n as int, chosen),
        chosen(n as int),
    ensures
        lists(list.push(n), n + 1, chosen),
{
    let longer = list.push(n);
    assert forall|k: usize| k < n + 1 && chosen(k as int) implies #[trigger] longer.contains(k) by {
        if k == n {
            assert(longer[list.len() as int] == k);
        } else {
            assert(list.contains(k));
            let at = list.index_of(k);
            assert(longer[at] == k);
        }
    }
}

/// Passing over the next position, where it is not picked.
pub(crate) proof fn skip_lists(list: Seq<usize>, n: usize, chosen: spec_fn(int) -> bool)
    requires
        lists(list, n as int, chosen),
        !chosen(n as int),
    ensures
        lists(list, n + 1, chosen),
{
}

/// How many positions below `n` are picked.
pub open spec fn count_below(n: nat, chosen: spec_fn(int) -> bool) -> nat
    decreases n,
{
    if n == 0 {
        0
    } else {
        count_below((n - 1) as nat, chosen) + (if chosen(n - 1) {
            1nat
        } else {
            0nat
        })
    }
}

/// No more positions are picked than there are.
pub(crate) proof fn count_bound(n: nat, chosen: spec_fn(int) -> bool)
    ensures
        count_below(n, chosen) <= n,
    decreases n,
{
    if n > 0 {
        count_bound((n - 1) as nat, chosen);
    }
}

/// A list of the picked positions is as long as there are such positions.
pub(crate) proof fn lists_len(list: Seq<usize>, n: nat, chosen: spec_fn(int) -> bool)
    requires
        n <= usize::MAX,
        lists(list, n as int, chosen),
    ensures
        list.len() == count_below(n, chosen),
    decreases n,
{
    if n == 0 {
        if list.len() > 0 {
            assert(list[0] < 0);
        }
    } else {
        let last = (n - 1) as usize;
        if chosen(n - 1) {
            assert(list.contains(last));
            let at = list.index_of(last);
            if at < list.len() - 1 {
                assert(list[at] < list[list.len() - 1]);
            }
            let rest = list.drop_last();
            assert forall|i: int| 0 <= i < rest.len() implies #[trigger] rest[i] < n - 1 && chosen(
                rest[i] as int,
            ) by {
                assert(list[i] < list[list.len() - 1]);
            }
            assert forall|k: usize| k < n - 1 && chosen(k as int) implies #[trigger] rest.contains(
                k,
            ) by {
                assert(list.contains(k));
                let i = list.index_of(k);
                assert(rest[i] == k);
            }
            assert(ascending(rest)) by {
                assert forall|i: int, j: int| 0 <= i < j < rest.len() implies #[trigger] rest[i]
                    < #[trigger] rest[j] by {
                    assert(list[i] < list[j]);
                }
            }
            lists_len(rest, (n - 1) as nat, chosen);
        } else {
            assert forall|i: int| 0 <= i < list.len() implies #[trigger] list[i] < n - 1 && chosen(
                list[i] as int,
            ) by {
                if list[i] == last {
                    assert(chosen(list[i] as int));
                }
            }
            lists_len(list, (n - 1) as nat, chosen);
        }
    }
}

/// Two lists of the same positions agree at each place.
pub(crate) proof fn lists_agree(
    a: Seq<usize>,
    b: Seq<usize>,
    n: nat,
    chosen: spec_fn(int) -> bool,
    k: int,
)
    requires
        n <= usize::MAX,
        lists(a, n as int, chosen),
        lists(b, n as int, chosen),
        a.len() == b.len(),
        0 <= k < a.len(),
    ensures
        a[k] == b[k],
    decreases k,
{
    assert forall|j: int| 0 <= j < k implies a[j] == b[j] by {
        lists_agree(a, b, n, chosen, j);
    }
    assert(b.contains(a[k]));
    assert(a.contains(b[k]));
    let at_b = b.index_of(a[k]);
    let at_a = a.index_of(b[k]);
    if at_b < k {
        assert(a[at_b] == b[at_b]);
        assert(a[at_b] < a[k]);
    }
    if at_a < k {
        assert(a[at_a] == b[at_a]);
        assert(b[at_a] < b[k]);
    }
    if at_b > k {
        assert(b[k] < b[at_b]);
    }
    if at_a > k {
        assert(a[k] < a[at_a]);
    }
}

/// Two lists of the same positions are equal.
pub(crate) proof fn lists_unique(a: Seq<usize>, b: Seq<usize>, n: nat, chosen: spec_fn(int) -> bool)
    requires
        n <= usize::MAX,
        lists(a, n as int, chosen),
        lists(b, n as int, chosen),
    ensures
        a == b,
{
    lists_len(a, n, chosen);
    lists_len(b, n, chosen);
    assert forall|k: int| 0 <= k < a.len() implies a[k] == b[k] by {
        lists_agree(a, b, n, chosen, k);
    }
    assert(a =~= b);
}

/// The picked positions are counted in two parts, where none is in both.
pub(crate) proof fn count_splits(
    n: nat,
    whole: spec_fn(int) -> bool,
    one: spec_fn(int) -> bool,
    other: spec_fn(int) -> bool,
)
    requires
        forall|i: int|
            0 <= i < n ==> #[trigger] whole(i) == (one(i) || other(i)) && !(one(i) && other(i)),
    ensures
        count_below(n, whole) == count_below(n, one) + count_below(n, other),
    decreases n,
{
    if n > 0 {
        assert(whole(n - 1) == (one(n - 1) || other(n - 1)));
        count_splits((n - 1) as nat, whole, one, other);
    }
}

/// Where nothing is picked, nothing is counted.
pub(crate) proof fn count_nothing(n: nat, chosen: spec_fn(int) -> bool)
    requires
        forall|i: int| 0 <= i < n ==> !#[trigger] chosen(i),
    ensures
        count_below(n, chosen) == 0,
    decreases n,
{
    if n > 0 {
        count_nothing((n - 1) as nat, chosen);
    }
}

/// Where everything is picked, everything is counted.
pub(crate) proof fn count_everything(n: nat, chosen: spec_fn(int) -> bool)
    requires
        forall|i: int| 0 <= i < n ==> #[trigger] chosen(i),
    ensures
        count_below(n, chosen) == n,
    decreases n,
{
    if n > 0 {
        count_everything((n - 1) as nat, chosen);
    }
}

/// Marks the given positions.
pub(crate) fn mark(taken: &mut Vec<bool>, positions: &Vec<usize>)
    requires
        forall|k: int| 0 <= k < positions@.len() ==> #[trigger] positions@[k] < old(taken)@.len(),
    ensures
        final(taken)@.len() == old(taken)@.len(),
        forall|i: int|
            0 <= i < final(taken)@.len() ==> #[trigger] final(taken)@[i] == (old(taken)@[i]
                || positions@.contains(i as usize)),
{
    let mut k: usize = 0;
    let ghost before = taken@;
    while k < positions.len()
        invariant
            k <= positions@.len(),
            taken@.len() == before.len(),
            forall|k: int| 0 <= k < positions@.len() ==> #[trigger] positions@[k] < taken@.len(),
            forall|i: int|
                0 <= i < taken@.len() ==> #[trigger] taken@[i] == (before[i] || positions@.take(
                    k as int,
                ).contains(i as usize)),
        decreases positions.len() - k,
    {
        let at = positions[k];
        let ghost now = taken@;
        taken.set(at, true);
        assert(taken@.len() == taken.len());
        assert forall|i: int| 0 <= i < taken@.len() implies #[trigger] taken@[i] == (before[i]
            || positions@.take(k + 1).contains(i as usize)) by {
            let longer = positions@.take(k + 1);
            assert(now[i] == (before[i] || positions@.take(k as int).contains(i as usize)));
            assert(longer =~= positions@.take(k as int).push(at));
            if positions@.take(k as int).contains(i as usize) {
                let j = positions@.take(k as int).index_of(i as usize);
                assert(longer[j] == i as usize);
            }
            if i == at {
                assert(longer[k as int] == i as usize);
            }
            if longer.contains(i as usize) && i != at {
                let j = longer.index_of(i as usize);
                assert(positions@.take(k as int)[j] == i as usize);
            }
        }
        k += 1;
    }
    assert(positions@.take(positions@.len() as int) =~= positions@);
}

/// The positions that are not marked.
pub(crate) fn unmarked(taken: &[bool]) -> (free: Vec<usize>)
    ensures
        lists(free@, taken@.len() as int, |i: int| !taken@[i]),
{
    let mut free: Vec<usize> = Vec::new();
    let mut i: usize = 0;
    while i < taken.len()
        invariant
            i <= taken.len(),
            lists(free@, i as int, |i: int| !taken@[i]),
        decreases taken.len() - i,
    {
        if taken[i] {
            proof {
                skip_lists(free@, i, |i: int| !taken@[i]);
            }
        } else {
            let ghost before = free@;
            free.push(i);
            proof {
                push_lists(before, i, |i: int| !taken@[i]);
            }
        }
        i += 1;
    }
    free
}

/// A list that names the picked positions, each once and in whatever order, is
/// as long as there are such positions.
pub(crate) proof fn distinct_len(list: Seq<usize>, n: nat, chosen: spec_fn(int) -> bool)
    requires
        n <= usize::MAX,
        forall|j: int, k: int| 0 <= j < k < list.len() ==> #[trigger] list[j] != #[trigger] list[k],
        forall|k: int| 0 <= k < list.len() ==> #[trigger] list[k] < n && chosen(list[k] as int),
        forall|v: usize| v < n && chosen(v as int) ==> #[trigger] list.contains(v),
    ensures
        list.len() == count_below(n, chosen),
    decreases n,
{
    if n == 0 {
        if list.len() > 0 {
            assert(list[0] < 0);
        }
    } else {
        let last = (n - 1) as usize;
        if chosen(n - 1) {
            assert(list.contains(last));
            let at = list.index_of(last);
            let rest = list.remove(at);
            assert forall|j: int, k: int| 0 <= j < k < rest.len() implies #[trigger] rest[j]
                != #[trigger] rest[k] by {
                let a = if j < at {
                    j
                } else {
                    j + 1
                };
                let b = if k < at {
                    k
                } else {
                    k + 1
                };
                assert(list[a] != list[b]);
            }
            assert forall|k: int| 0 <= k < rest.len() implies #[trigger] rest[k] < n - 1 && chosen(
                rest[k] as int,
            ) by {
                if k < at {
                    assert(list[k] != list[at]);
                } else {
                    assert(list[at] != list[k + 1]);
                }
            }
            assert forall|v: usize| v < n - 1 && chosen(v as int) implies #[trigger] rest.contains(
                v,
            ) by {
                assert(list.contains(v));
                let i = list.index_of(v);
                if i < at {
                    assert(rest[i] == v);
                } else {
                    assert(rest[i - 1] == v);
                }
            }
            distinct_len(rest, (n - 1) as nat, chosen);
        } else {
            assert forall|k: int| 0 <= k < list.len() implies #[trigger] list[k] < n - 1 && chosen(
                list[k] as int,
            ) by {
                if list[k] == last {
                    assert(chosen(list[k] as int));
                }
            }
            distinct_len(list, (n - 1) as nat, chosen);
        }
    }
}

/// A list of picked positions holds a position exactly where it is picked, and
/// holds them in ascending order.
pub proof fn lists_hold_what_is_picked(
    list: Seq<usize>,
    n: int,
    chosen: spec_fn(int) -> bool,
    k: usize,
    i: int,
    j: int,
)
    requires
        lists(list, n, chosen),
    ensures
        k < n ==> (list.contains(k) <==> chosen(k as int)),
        k >= n ==> !list.contains(k),
        0 <= i < j < list.len() ==> list[i] < list[j],
{
    if list.contains(k) {
        let at = list.index_of(k);
        assert(list[at] == k);
    }
}

} // verus!
