//! Families: the responses that were given the same label within one status
//! code.

use vstd::prelude::*;

use crate::http_client::ResponseFeatures;
use crate::positions;
use crate::ranking;
use crate::status;

verus! {

/// Two responses are in the same cluster: they have the same label within the
/// same status code.
pub open spec fn together(
    features: Seq<ResponseFeatures>,
    labels: Seq<Option<usize>>,
    i: int,
    j: int,
) -> bool {
    &&& labels[i] is Some
    &&& labels[i] == labels[j]
    &&& features[i].status_code == features[j].status_code
}

/// The response is the first of its cluster.
pub open spec fn leads(
    features: Seq<ResponseFeatures>,
    labels: Seq<Option<usize>>,
    i: int,
) -> bool {
    labels[i] is Some && forall|j: int| 0 <= j < i ==> !together(features, labels, j, i)
}

/// The number of responses in the cluster of a response.
pub open spec fn cluster_size(
    features: Seq<ResponseFeatures>,
    labels: Seq<Option<usize>>,
    i: int,
) -> nat {
    positions::count_below(features.len(), |j: int| together(features, labels, i, j))
}

/// The cluster led by `a` is reported before the one led by `b`: it is larger,
/// or as large with a smaller status code, or it begins first.
pub open spec fn outranks(
    features: Seq<ResponseFeatures>,
    labels: Seq<Option<usize>>,
    a: int,
    b: int,
) -> bool {
    let sa = cluster_size(features, labels, a);
    let sb = cluster_size(features, labels, b);
    let ca = features[a].status_code;
    let cb = features[b].status_code;
    sa > sb || (sa == sb && (ca < cb || (ca == cb && a < b)))
}

/// The members of one cluster, among the first `n` responses.
pub open spec fn is_family(
    family: Seq<usize>,
    features: Seq<ResponseFeatures>,
    labels: Seq<Option<usize>>,
    n: int,
) -> bool {
    &&& family.len() > 0
    &&& labels[family[0] as int] is Some
    &&& positions::lists(family, n, |j: int| together(features, labels, family[0] as int, j))
}

/// All the clusters among the first `n` responses, by their first members.
pub open spec fn are_families(
    families: Seq<Vec<usize>>,
    features: Seq<ResponseFeatures>,
    labels: Seq<Option<usize>>,
    n: int,
) -> bool {
    &&& forall|q: int|
        0 <= q < families.len() ==> is_family((#[trigger] families[q])@, features, labels, n)
    &&& forall|p: int, q: int|
        0 <= p < q < families.len() ==> (#[trigger] families[p])@[0] < (#[trigger] families[q])@[0]
            && !together(features, labels, families[p]@[0] as int, families[q]@[0] as int)
    &&& forall|j: int|
        0 <= j < n && (#[trigger] labels[j]) is Some ==> exists|q: int|
            0 <= q < families.len() && together(
                features,
                labels,
                (#[trigger] families[q])@[0] as int,
                j,
            )
}

/// Whether two responses are in the same cluster.
fn same_cluster(
    features: &[ResponseFeatures],
    labels: &[Option<usize>],
    i: usize,
    j: usize,
) -> (same: bool)
    requires
        labels@.len() == features@.len(),
        i < features@.len(),
        j < features@.len(),
    ensures
        same == together(features@, labels@, i as int, j as int),
{
    match (labels[i], labels[j]) {
        (Some(a), Some(b)) => a == b && features[i].status_code == features[j].status_code,
        _ => false,
    }
}

/// The next response joins family `q`.
pub(crate) proof fn join_family(
    before: Seq<Vec<usize>>,
    after: Seq<Vec<usize>>,
    features: Seq<ResponseFeatures>,
    labels: Seq<Option<usize>>,
    i: usize,
    q: int,
)
    requires
        are_families(before, features, labels, i as int),
        0 <= q < before.len() == after.len(),
        together(features, labels, before[q]@[0] as int, i as int),
        after[q]@ == before[q]@.push(i),
        forall|r: int| 0 <= r < before.len() && r != q ==> #[trigger] after[r] == before[r],
    ensures
        are_families(after, features, labels, i + 1),
{
    assert forall|r: int| 0 <= r < after.len() implies is_family(
        (#[trigger] after[r])@,
        features,
        labels,
        i + 1,
    ) by {
        let head = before[r]@[0] as int;
        assert(is_family(before[r]@, features, labels, i as int));
        if r == q {
            positions::push_lists(before[q]@, i, |j: int| together(features, labels, head, j));
        } else {
            if r < q {
                assert(!together(features, labels, before[r]@[0] as int, before[q]@[0] as int));
            } else {
                assert(!together(features, labels, before[q]@[0] as int, before[r]@[0] as int));
            }
            positions::skip_lists(before[r]@, i, |j: int| together(features, labels, head, j));
        }
    }
    assert forall|r: int| 0 <= r < after.len() implies (#[trigger] after[r])@[0]
        == before[r]@[0] by {
        assert(is_family(before[r]@, features, labels, i as int));
    }
    assert forall|p: int, r: int| 0 <= p < r < after.len() implies (#[trigger] after[p])@[0] < (
    #[trigger] after[r])@[0] && !together(
        features,
        labels,
        after[p]@[0] as int,
        after[r]@[0] as int,
    ) by {
        assert(before[p]@[0] < before[r]@[0]);
    }
    assert forall|j: int| 0 <= j < i + 1 && (#[trigger] labels[j]) is Some implies exists|r: int|
        0 <= r < after.len() && together(
            features,
            labels,
            (#[trigger] after[r])@[0] as int,
            j,
        ) by {
        if j == i {
            assert(after[q]@[0] == before[q]@[0]);
        } else {
            let r = choose|r: int|
                0 <= r < before.len() && together(
                    features,
                    labels,
                    (#[trigger] before[r])@[0] as int,
                    j,
                );
            assert(after[r]@[0] == before[r]@[0]);
        }
    }
}

/// The next response founds a family.
pub(crate) proof fn found_family(
    before: Seq<Vec<usize>>,
    after: Seq<Vec<usize>>,
    features: Seq<ResponseFeatures>,
    labels: Seq<Option<usize>>,
    i: usize,
)
    requires
        are_families(before, features, labels, i as int),
        labels[i as int] is Some,
        forall|r: int|
            0 <= r < before.len() ==> !together(
                features,
                labels,
                (#[trigger] before[r])@[0] as int,
                i as int,
            ),
        after.len() == before.len() + 1,
        after.last()@ == seq![i],
        forall|r: int| 0 <= r < before.len() ==> #[trigger] after[r] == before[r],
    ensures
        are_families(after, features, labels, i + 1),
{
    let n = before.len() as int;
    assert(positions::lists(seq![i], i + 1, |j: int| together(features, labels, i as int, j))) by {
        assert forall|k: usize|
            k < i + 1 && together(features, labels, i as int, k as int) implies #[trigger] seq![
            i,
        ].contains(k) by {
            if k < i {
                let r = choose|r: int|
                    0 <= r < before.len() && together(
                        features,
                        labels,
                        (#[trigger] before[r])@[0] as int,
                        k as int,
                    );
                assert(labels[k as int] is Some);
                assert(!together(features, labels, before[r]@[0] as int, i as int));
            } else {
                assert(seq![i][0] == k);
            }
        }
    }
    assert forall|r: int| 0 <= r < after.len() implies is_family(
        (#[trigger] after[r])@,
        features,
        labels,
        i + 1,
    ) by {
        if r < n {
            let head = before[r]@[0] as int;
            assert(is_family(before[r]@, features, labels, i as int));
            positions::skip_lists(before[r]@, i, |j: int| together(features, labels, head, j));
        } else {
            assert(after[r]@ == seq![i]);
            assert(after[r]@[0] == i);
        }
    }
    assert forall|p: int, r: int| 0 <= p < r < after.len() implies (#[trigger] after[p])@[0] < (
    #[trigger] after[r])@[0] && !together(
        features,
        labels,
        after[p]@[0] as int,
        after[r]@[0] as int,
    ) by {
        assert(is_family(before[p]@, features, labels, i as int));
        if r < n {
            assert(before[p]@[0] < before[r]@[0]);
        } else {
            assert(after[r]@[0] == i);
        }
    }
    assert forall|j: int| 0 <= j < i + 1 && (#[trigger] labels[j]) is Some implies exists|r: int|
        0 <= r < after.len() && together(
            features,
            labels,
            (#[trigger] after[r])@[0] as int,
            j,
        ) by {
        if j == i {
            assert(after[n]@[0] == i);
        } else {
            let r = choose|r: int|
                0 <= r < before.len() && together(
                    features,
                    labels,
                    (#[trigger] before[r])@[0] as int,
                    j,
                );
            assert(after[r] == before[r]);
        }
    }
}

/// The next response is in no cluster.
pub(crate) proof fn pass_families(
    families: Seq<Vec<usize>>,
    features: Seq<ResponseFeatures>,
    labels: Seq<Option<usize>>,
    i: usize,
)
    requires
        are_families(families, features, labels, i as int),
        labels[i as int] is None,
    ensures
        are_families(families, features, labels, i + 1),
{
    assert forall|r: int| 0 <= r < families.len() implies is_family(
        (#[trigger] families[r])@,
        features,
        labels,
        i + 1,
    ) by {
        let head = families[r]@[0] as int;
        assert(is_family(families[r]@, features, labels, i as int));
        positions::skip_lists(families[r]@, i, |j: int| together(features, labels, head, j));
    }
}

/// Collects the clusters, each as the list of its members, in the order of
/// their first members.
pub(crate) fn collect_families(
    features: &[ResponseFeatures],
    labels: &[Option<usize>],
) -> (families: Vec<Vec<usize>>)
    requires
        labels@.len() == features@.len(),
    ensures
        are_families(families@, features@, labels@, features@.len() as int),
{
    let mut families: Vec<Vec<usize>> = Vec::new();
    let mut i: usize = 0;
    while i < features.len()
        invariant
            i <= features.len(),
            labels@.len() == features@.len(),
            are_families(families@, features@, labels@, i as int),
        decreases features.len() - i,
    {
        let ghost before = families@;
        if labels[i].is_some() {
            let mut q: usize = 0;
            while q < families.len() && !same_cluster(features, labels, families[q][0], i)
                invariant
                    i < features.len(),
                    labels@.len() == features@.len(),
                    q <= families@.len(),
                    are_families(families@, features@, labels@, i as int),
                    forall|r: int|
                        0 <= r < q ==> !together(
                            features@,
                            labels@,
                            (#[trigger] families@[r])@[0] as int,
                            i as int,
                        ),
                decreases families.len() - q,
            {
                q += 1;
            }
            if q < families.len() {
                families[q].push(i);
                proof {
                    join_family(before, families@, features@, labels@, i, q as int);
                }
            } else {
                let mut alone: Vec<usize> = Vec::new();
                alone.push(i);
                families.push(alone);
                proof {
                    found_family(before, families@, features@, labels@, i);
                }
            }
        } else {
            proof {
                pass_families(families@, features@, labels@, i);
            }
        }
        i += 1;
    }
    families
}

/// The family with the first member `i` is headed by it, and the other way
/// round.
pub(crate) proof fn heads_lead(
    families: Seq<Vec<usize>>,
    features: Seq<ResponseFeatures>,
    labels: Seq<Option<usize>>,
    i: int,
) -> (q: int)
    requires
        are_families(families, features, labels, features.len() as int),
        0 <= i < features.len() <= usize::MAX,
        leads(features, labels, i),
    ensures
        0 <= q < families.len(),
        families[q]@[0] == i,
{
    let q = choose|q: int|
        0 <= q < families.len() && together(
            features,
            labels,
            (#[trigger] families[q])@[0] as int,
            i,
        );
    assert(labels[i] is Some);
    assert(is_family(families[q]@, features, labels, features.len() as int));
    let head = families[q]@[0];
    assert(families[q]@.contains(i as usize));
    let at = families[q]@.index_of(i as usize);
    if at > 0 {
        assert(families[q]@[0] < families[q]@[at]);
        assert(together(features, labels, head as int, i));
    }
    q
}

/// The families in order of their ranks.
pub(crate) proof fn ranked_families(
    families: Seq<Vec<usize>>,
    features: Seq<ResponseFeatures>,
    labels: Seq<Option<usize>>,
    keys: Seq<u128>,
    order: Seq<usize>,
)
    requires
        are_families(families, features, labels, features.len() as int),
        features.len() <= usize::MAX,
        keys.len() == families.len(),
        ranking::is_ranking(order, keys),
        forall|r: int|
            0 <= r < families.len() ==> #[trigger] keys[r] == status::rank_key(
                families[r]@.len() as usize,
                features[families[r]@[0] as int].status_code,
            ),
    ensures
        forall|a: int, b: int|
            0 <= a < b < order.len() ==> outranks(
                features,
                labels,
                families[#[trigger] order[a] as int]@[0] as int,
                families[#[trigger] order[b] as int]@[0] as int,
            ),
{
    assert forall|a: int, b: int| 0 <= a < b < order.len() implies outranks(
        features,
        labels,
        families[#[trigger] order[a] as int]@[0] as int,
        families[#[trigger] order[b] as int]@[0] as int,
    ) by {
        let fa = families[order[a] as int]@;
        let fb = families[order[b] as int]@;
        assert(fa.len() == families[order[a] as int].len());
        assert(fb.len() == families[order[b] as int].len());
        assert(is_family(fa, features, labels, features.len() as int));
        assert(is_family(fb, features, labels, features.len() as int));
        positions::lists_len(
            fa,
            features.len(),
            |j: int| together(features, labels, fa[0] as int, j),
        );
        positions::lists_len(
            fb,
            features.len(),
            |j: int| together(features, labels, fb[0] as int, j),
        );
        assert(ranking::comes_before(keys, order[a] as int, order[b] as int));
        let ca = features[fa[0] as int].status_code;
        let cb = features[fb[0] as int].status_code;
        status::rank_key_order((fa.len() as usize, ca), (fb.len() as usize, cb));
    }
}

} // verus!
