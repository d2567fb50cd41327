//! Clusters of responses.
//!
//! Responses are clustered within each status code. The distances are
//! computed elsewhere; what comes back is a label for each response, and the
//! labels decide which clusters there are, which of them are reported, and
//! which responses are outliers.

use std::collections::HashMap;
use vstd::prelude::*;

use crate::families;
use crate::families::collect_families;
use crate::http_client::ResponseFeatures;
use crate::numbers;
use crate::numbers::sum_of;
use crate::positions;
use crate::positions::{mark, unmarked};
use crate::ranking;
use crate::ranking::ranking;
use crate::status;
use crate::status::{most_common, rank_key_of, tally};
use crate::text;

verus! {

broadcast use vstd::std_specs::hash::group_hash_axioms;

/// A group of responses that belong together.
#[derive(Debug, Clone)]
pub struct Cluster {
    pub id: usize,
    /// Positions of the members among all responses, ascending.
    pub members: Vec<usize>,
    pub features: Vec<ResponseFeatures>,
    pub centroid: ClusterCentroid,
    /// Position among the members of the one nearest to the centroid.
    pub representative_response: Option<usize>,
    pub sample_payloads: Vec<String>,
}

/// The centre of a cluster: its most common status code, and the totals whose
/// quotients by `size` are its averages.
#[derive(Debug, Clone, Copy, PartialEq, Eq)]
pub struct ClusterCentroid {
    pub mode_status_code: u16,
    pub size: usize,
    pub total_response_length: u128,
    pub total_ttfb_ms: u128,
    pub total_response_words: u128,
    pub total_response_lines: u128,
    pub total_content_length_minus_payload: i128,
}

/// The outcome of clustering.
#[derive(Debug, Clone)]
pub struct DbscanResult {
    /// The clusters, largest first.
    pub clusters: Vec<Cluster>,
    /// Positions of the responses that are in no reported cluster, ascending.
    pub outliers: Vec<usize>,
    pub noise_count: usize,
    /// Status families where reflection was detected: the status, and
    /// Pearson's r to two decimals.
    pub reflection: Vec<(u16, String)>,
}

/// Sums over the features of some responses.
pub struct Totals {
    pub length: int,
    pub ttfb: int,
    pub words: int,
    pub lines: int,
    pub length_minus_payload: int,
}

/// The sums over the features of the given responses.
pub open spec fn totals(list: Seq<ResponseFeatures>) -> Totals
    decreases list.len(),
{
    if list.len() == 0 {
        Totals { length: 0, ttfb: 0, words: 0, lines: 0, length_minus_payload: 0 }
    } else {
        let rest = totals(list.drop_last());
        let last = list.last();
        Totals {
            length: rest.length + last.response_length,
            ttfb: rest.ttfb + last.time_to_first_byte_ms,
            words: rest.words + last.response_words,
            lines: rest.lines + last.response_lines,
            length_minus_payload: rest.length_minus_payload + last.content_length_minus_payload,
        }
    }
}

/// How many of the responses have the given status code.
pub open spec fn status_count(list: Seq<ResponseFeatures>, code: u16) -> nat
    decreases list.len(),
{
    if list.len() == 0 {
        0
    } else {
        status_count(list.drop_last(), code) + (if list.last().status_code == code {
            1nat
        } else {
            0nat
        })
    }
}

/// The centre of the given responses. The status code is a most common one,
/// the smallest of these; of no responses it is 0.
pub open spec fn is_centroid(centroid: ClusterCentroid, list: Seq<ResponseFeatures>) -> bool {
    let mode = centroid.mode_status_code;
    &&& list.len() == 0 ==> mode == 0
    &&& list.len() > 0 ==> status_count(list, mode) > 0
    &&& forall|code: u16| #[trigger]
        status_count(list, code) <= status_count(list, mode) && (list.len() > 0 && status_count(
            list,
            code,
        ) == status_count(list, mode) ==> mode <= code)
    &&& centroid.size == list.len()
    &&& centroid.total_response_length == totals(list).length
    &&& centroid.total_ttfb_ms == totals(list).ttfb
    &&& centroid.total_response_words == totals(list).words
    &&& centroid.total_response_lines == totals(list).lines
    &&& centroid.total_content_length_minus_payload == totals(list).length_minus_payload
}

/// A response has its own status code among the counted ones.
proof fn counted(list: Seq<ResponseFeatures>, i: int)
    requires
        0 <= i < list.len(),
    ensures
        status_count(list, list[i].status_code) > 0,
    decreases list.len(),
{
    if i < list.len() - 1 {
        counted(list.drop_last(), i);
        assert(list.drop_last()[i] == list[i]);
    }
}

/// Computes the centre of some responses.
pub fn calculate_centroid(features: &[ResponseFeatures]) -> (centroid: ClusterCentroid)
    ensures
        is_centroid(centroid, features@),
{
    let mut counts: HashMap<u16, usize> = HashMap::new();
    let mut length: u128 = 0;
    let mut ttfb: u128 = 0;
    let mut words: u128 = 0;
    let mut lines: u128 = 0;
    let mut minus: i128 = 0;
    let mut i: usize = 0;
    while i < features.len()
        invariant
            i <= features.len(),
            forall|code: u16| #[trigger]
                status::count_of(counts@, code) == status_count(features@.take(i as int), code),
            forall|code: u16| #[trigger] counts@.contains_key(code) ==> counts@[code] > 0,
            forall|code: u16| #[trigger] status::count_of(counts@, code) <= i,
            length == totals(features@.take(i as int)).length,
            ttfb == totals(features@.take(i as int)).ttfb,
            words == totals(features@.take(i as int)).words,
            lines == totals(features@.take(i as int)).lines,
            minus == totals(features@.take(i as int)).length_minus_payload,
            length <= i * 0xffff_ffff_ffff_ffff,
            ttfb <= i * 0xffff_ffff_ffff_ffff,
            words <= i * 0xffff_ffff_ffff_ffff,
            lines <= i * 0xffff_ffff_ffff_ffff,
            -(i * 0x8000_0000_0000_0000) <= minus <= i * 0x8000_0000_0000_0000,
        decreases features.len() - i,
    {
        let feature = &features[i];
        let ghost before = counts@;
        assert(features@.take(i + 1).drop_last() =~= features@.take(i as int));
        assert(status::count_of(before, feature.status_code) <= i);
        tally(&mut counts, feature.status_code);
        assert forall|code: u16| #[trigger]
            status::count_of(counts@, code) == status_count(features@.take(i + 1), code)
                && status::count_of(counts@, code) <= i + 1 by {
            assert(status::count_of(before, code) == status_count(features@.take(i as int), code));
        }
        length = length + feature.response_length as u128;
        ttfb = ttfb + feature.time_to_first_byte_ms as u128;
        words = words + feature.response_words as u128;
        lines = lines + feature.response_lines as u128;
        minus = minus + feature.content_length_minus_payload as i128;
        i += 1;
    }
    assert(features@.take(features@.len() as int) =~= features@);
    let mode = match most_common(&counts) {
        Some(code) => code,
        None => 0,
    };
    proof {
        if features@.len() > 0 {
            counted(features@, 0);
            let first = features@[0].status_code;
            assert(status::count_of(counts@, first) > 0);
            assert(counts@.contains_key(first));
            assert(counts@.contains_key(mode));
            assert(status::count_of(counts@, mode) > 0);
        } else if counts@.contains_key(mode) {
            assert(status::count_of(counts@, mode) == status_count(features@, mode));
        }
        assert forall|code: u16| #[trigger]
            status_count(features@, code) <= status_count(features@, mode) && (features@.len() > 0
                && status_count(features@, code) == status_count(features@, mode) ==> mode
                <= code) by {
            assert(status::count_of(counts@, code) == status_count(features@, code));
            assert(status::count_of(counts@, mode) == status_count(features@, mode));
            if counts@.contains_key(code) {
            }
        }
    }
    ClusterCentroid {
        mode_status_code: mode,
        size: features.len(),
        total_response_length: length,
        total_ttfb_ms: ttfb,
        total_response_words: words,
        total_response_lines: lines,
        total_content_length_minus_payload: minus,
    }
}

/// The payloads of the given responses, in order; a response without one is
/// passed over.
pub open spec fn payloads_of(list: Seq<ResponseFeatures>) -> Seq<Seq<char>>
    decreases list.len(),
{
    if list.len() == 0 {
        seq![]
    } else {
        match list.last().payload {
            Some(payload) => payloads_of(list.drop_last()).push(payload@),
            None => payloads_of(list.drop_last()),
        }
    }
}

/// The first `max` payloads of the given responses.
pub open spec fn first_payloads(list: Seq<ResponseFeatures>, max: int) -> Seq<Seq<char>> {
    let all = payloads_of(list);
    if all.len() <= max {
        all
    } else {
        all.take(max)
    }
}

/// More responses only append payloads.
proof fn payloads_extend(list: Seq<ResponseFeatures>, n: int)
    requires
        0 <= n <= list.len(),
    ensures
        payloads_of(list.take(n)).is_prefix_of(payloads_of(list)),
    decreases list.len() - n,
{
    if n == list.len() {
        assert(list.take(n) =~= list);
    } else {
        payloads_extend(list, n + 1);
        assert(list.take(n + 1).drop_last() =~= list.take(n));
    }
}

/// The responses at the given positions.
pub open spec fn at_positions(features: Seq<ResponseFeatures>, at: Seq<usize>) -> Seq<
    ResponseFeatures,
> {
    at.map_values(|i: usize| features[i as int])
}

/// Sample payloads from a cluster: the first `max_samples` there are.
pub fn collect_sample_payloads(
    indices: &[usize],
    features: &[ResponseFeatures],
    max_samples: usize,
) -> (samples: Vec<String>)
    requires
        forall|k: int| 0 <= k < indices@.len() ==> #[trigger] indices@[k] < features@.len(),
    ensures
        text::texts(samples@) == first_payloads(
            at_positions(features@, indices@),
            max_samples as int,
        ),
{
    let mut samples: Vec<String> = Vec::new();
    let mut k: usize = 0;
    let ghost list = at_positions(features@, indices@);
    assert(text::texts(samples@) =~= payloads_of(list.take(0)));
    while k < indices.len() && samples.len() < max_samples
        invariant
            k <= indices.len(),
            forall|k: int| 0 <= k < indices@.len() ==> #[trigger] indices@[k] < features@.len(),
            list == at_positions(features@, indices@),
            samples@.len() <= max_samples,
            text::texts(samples@) == payloads_of(list.take(k as int)),
        decreases indices.len() - k,
    {
        let ghost before = text::texts(samples@);
        assert(list.take(k + 1).drop_last() =~= list.take(k as int));
        match &features[indices[k]].payload {
            Some(payload) => {
                samples.push(payload.clone());
                assert(text::texts(samples@) =~= before.push(payload@));
            },
            None => {},
        }
        k += 1;
    }
    proof {
        assert(list.take(list.len() as int) =~= list);
        payloads_extend(list, k as int);
        assert(text::texts(samples@).len() == samples@.len());
        assert(text::texts(samples@) =~= first_payloads(list, max_samples as int));
    }
    samples
}

/// A copy of the features.
fn copy_features(features: &ResponseFeatures) -> (copy: ResponseFeatures)
    ensures
        copy == *features,
{
    ResponseFeatures {
        status_code: features.status_code,
        content_type: features.content_type.clone(),
        response_length: features.response_length,
        time_to_first_byte_ms: features.time_to_first_byte_ms,
        response_words: features.response_words,
        response_lines: features.response_lines,
        content_length_minus_payload: features.content_length_minus_payload,
        payload: match &features.payload {
            Some(payload) => Some(payload.clone()),
            None => None,
        },
    }
}

/// How many sample payloads a cluster shows.
pub const MAX_SAMPLES: usize = 5;

/// The cluster that the labels give the responses at `members`, under the
/// given id; its representative is not chosen yet.
pub open spec fn is_cluster(
    cluster: Cluster,
    features: Seq<ResponseFeatures>,
    labels: Seq<Option<usize>>,
    id: int,
) -> bool {
    let members = cluster.members@;
    &&& cluster.id == id
    &&& members.len() > 0
    &&& labels[members[0] as int] is Some
    &&& positions::lists(
        members,
        features.len() as int,
        |j: int| families::together(features, labels, members[0] as int, j),
    )
    &&& cluster.features@ == at_positions(features, members)
    &&& is_centroid(cluster.centroid, cluster.features@)
    &&& cluster.representative_response is None
    &&& text::texts(cluster.sample_payloads@) == first_payloads(
        cluster.features@,
        MAX_SAMPLES as int,
    )
}

/// Makes a cluster out of its members.
fn make_cluster(
    features: &[ResponseFeatures],
    Ghost(labels): Ghost<Seq<Option<usize>>>,
    members: &Vec<usize>,
    id: usize,
) -> (cluster: Cluster)
    requires
        families::is_family(members@, features@, labels, features@.len() as int),
    ensures
        cluster.members@ == members@,
        is_cluster(cluster, features@, labels, id as int),
{
    let mut own: Vec<ResponseFeatures> = Vec::new();
    let mut at: Vec<usize> = Vec::new();
    let mut k: usize = 0;
    while k < members.len()
        invariant
            k <= members@.len(),
            families::is_family(members@, features@, labels, features@.len() as int),
            at@ == members@.take(k as int),
            own@ == at_positions(features@, members@.take(k as int)),
        decreases members.len() - k,
    {
        let i = members[k];
        own.push(copy_features(&features[i]));
        at.push(i);
        assert(members@.take(k + 1) =~= members@.take(k as int).push(i));
        assert(own@ =~= at_positions(features@, members@.take(k + 1)));
        k += 1;
    }
    assert(members@.take(members@.len() as int) =~= members@);
    let centroid = calculate_centroid(own.as_slice());
    let sample_payloads = collect_sample_payloads(members.as_slice(), features, MAX_SAMPLES);
    Cluster {
        id,
        members: at,
        features: own,
        centroid,
        representative_response: None,
        sample_payloads,
    }
}

/// The response is a member of one of the clusters.
pub open spec fn in_a_cluster(clusters: Seq<Cluster>, i: int) -> bool {
    exists|k: int|
        0 <= k < clusters.len() && (#[trigger] clusters[k]).members@.contains(i as usize)
}

/// The clusters that the labels give, the largest first, as many as are
/// reported; every other response is an outlier.
pub open spec fn is_assembled(
    clusters: Seq<Cluster>,
    outliers: Seq<usize>,
    features: Seq<ResponseFeatures>,
    labels: Seq<Option<usize>>,
    max_clusters: int,
) -> bool {
    &&& clusters.len() <= max_clusters
    &&& forall|k: int|
        0 <= k < clusters.len() ==> is_cluster(#[trigger] clusters[k], features, labels, k)
    &&& forall|a: int, b: int|
        0 <= a < b < clusters.len() ==> families::outranks(
            features,
            labels,
            (#[trigger] clusters[a]).members@[0] as int,
            (#[trigger] clusters[b]).members@[0] as int,
        )
    &&& forall|i: int|
        0 <= i < features.len() && #[trigger] families::leads(features, labels, i) ==> (exists|
            k: int,
        |
            0 <= k < clusters.len() && (#[trigger] clusters[k]).members@[0] == i) || (
        clusters.len() == max_clusters && forall|k: int|
            0 <= k < clusters.len() ==> families::outranks(
                features,
                labels,
                (#[trigger] clusters[k]).members@[0] as int,
                i,
            ))
    &&& positions::lists(outliers, features.len() as int, |i: int| !in_a_cluster(clusters, i))
}

/// The outcome of clustering for the given labels: the clusters in order,
/// capped at `max_clusters` over all status codes; the smaller clusters beyond
/// the cap are demoted to outliers, along with the responses that have no
/// label.
pub fn perform_clustering(
    features: &[ResponseFeatures],
    labels: &[Option<usize>],
    max_clusters: usize,
    reflection: Vec<(u16, String)>,
) -> (result: DbscanResult)
    requires
        labels@.len() == features@.len(),
    ensures
        is_assembled(
            result.clusters@,
            result.outliers@,
            features@,
            labels@,
            max_clusters as int,
        ),
        result.noise_count == result.outliers@.len(),
        result.reflection == reflection,
{
    let families = collect_families(features, labels);
    let ghost n = features@.len() as int;
    let mut keys: Vec<u128> = Vec::new();
    let mut q: usize = 0;
    while q < families.len()
        invariant
            q <= families.len(),
            families::are_families(families@, features@, labels@, features@.len() as int),
            keys@.len() == q,
            forall|r: int|
                0 <= r < q ==> #[trigger] keys@[r] == status::rank_key(
                    families@[r]@.len() as usize,
                    features@[families@[r]@[0] as int].status_code,
                ),
        decreases families.len() - q,
    {
        assert(families::is_family(
            families@[q as int]@,
            features@,
            labels@,
            features@.len() as int,
        ));
        keys.push(rank_key_of(families[q].len(), features[families[q][0]].status_code));
        q += 1;
    }
    let order = ranking(keys.as_slice());
    let kept: usize = if order.len() < max_clusters {
        order.len()
    } else {
        max_clusters
    };
    let mut taken: Vec<bool> = Vec::new();
    let mut i: usize = 0;
    while i < features.len()
        invariant
            i <= features.len(),
            taken@.len() == i,
            forall|k: int| 0 <= k < i ==> !#[trigger] taken@[k],
        decreases features.len() - i,
    {
        taken.push(false);
        i += 1;
    }
    let mut clusters: Vec<Cluster> = Vec::new();
    let mut p: usize = 0;
    while p < kept
        invariant
            p <= kept <= order@.len(),
            ranking::is_ranking(order@, keys@),
            keys@.len() == families@.len(),
            families::are_families(families@, features@, labels@, features@.len() as int),
            clusters@.len() == p,
            taken@.len() == features@.len(),
            forall|k: int|
                0 <= k < p ==> is_cluster(#[trigger] clusters@[k], features@, labels@, k)
                    && clusters@[k].members@ == families@[order@[k] as int]@,
            forall|k: int|
                0 <= k < taken@.len() ==> #[trigger] taken@[k] == in_a_cluster(clusters@, k),
        decreases kept - p,
    {
        let family = &families[order[p]];
        assert(families::is_family(family@, features@, labels@, features@.len() as int));
        let ghost before = clusters@;
        let ghost taken_before = taken@;
        mark(&mut taken, family);
        clusters.push(make_cluster(features, Ghost(labels@), family, p));
        assert forall|k: int| 0 <= k < taken@.len() implies #[trigger] taken@[k] == in_a_cluster(
            clusters@,
            k,
        ) by {
            assert(taken_before[k] == in_a_cluster(before, k));
            if in_a_cluster(before, k) {
                let c = choose|c: int|
                    0 <= c < before.len() && (#[trigger] before[c]).members@.contains(k as usize);
                assert(clusters@[c] == before[c]);
            }
            if family@.contains(k as usize) {
                assert(clusters@[p as int].members@.contains(k as usize));
            }
            if in_a_cluster(clusters@, k) {
                let c = choose|c: int|
                    0 <= c < clusters@.len() && (#[trigger] clusters@[c]).members@.contains(
                        k as usize,
                    );
                if c < p {
                    assert(before[c] == clusters@[c]);
                }
            }
        }
        p += 1;
    }
    let outliers = unmarked(taken.as_slice());
    proof {
        assert(features@.len() == features.len());
        families::ranked_families(families@, features@, labels@, keys@, order@);
        assert forall|a: int, b: int| 0 <= a < b < clusters@.len() implies families::outranks(
            features@,
            labels@,
            (#[trigger] clusters@[a]).members@[0] as int,
            (#[trigger] clusters@[b]).members@[0] as int,
        ) by {
            assert(clusters@[a].members@ == families@[order@[a] as int]@);
            assert(clusters@[b].members@ == families@[order@[b] as int]@);
        }
        assert forall|i: int|
            0 <= i < features@.len() && #[trigger] families::leads(
                features@,
                labels@,
                i,
            ) implies (
        exists|k: int| 0 <= k < clusters@.len() && (#[trigger] clusters@[k]).members@[0] == i) || (
        clusters@.len() == max_clusters && forall|k: int|
            0 <= k < clusters@.len() ==> families::outranks(
                features@,
                labels@,
                (#[trigger] clusters@[k]).members@[0] as int,
                i,
            )) by {
            let q = families::heads_lead(families@, features@, labels@, i);
            assert(order@.contains(q as usize));
            let at = order@.index_of(q as usize);
            if at < kept {
                assert(clusters@[at].members@[0] == i);
            } else {
                assert forall|k: int| 0 <= k < clusters@.len() implies families::outranks(
                    features@,
                    labels@,
                    (#[trigger] clusters@[k]).members@[0] as int,
                    i,
                ) by {
                    assert(clusters@[k].members@ == families@[order@[k] as int]@);
                    assert(families@[order@[at] as int]@[0] == i);
                }
            }
        }
        assert(positions::lists(
            outliers@,
            features@.len() as int,
            |i: int| !in_a_cluster(clusters@, i),
        )) by {
            assert forall|k: int| 0 <= k < outliers@.len() implies #[trigger] outliers@[k] < n
                && !in_a_cluster(clusters@, outliers@[k] as int) by {
                assert(!taken@[outliers@[k] as int]);
            }
            assert forall|k: usize| k < n && !in_a_cluster(clusters@, k as int) implies
            #[trigger] outliers@.contains(k) by {
                assert(!taken@[k as int]);
            }
        }
    }
    let noise_count = outliers.len();
    DbscanResult { clusters, outliers, noise_count, reflection }
}

/// A response is in at most one cluster.
proof fn one_cluster_each(
    clusters: Seq<Cluster>,
    outliers: Seq<usize>,
    features: Seq<ResponseFeatures>,
    labels: Seq<Option<usize>>,
    max_clusters: int,
    i: usize,
    a: int,
    b: int,
)
    requires
        features.len() <= usize::MAX,
        labels.len() == features.len(),
        is_assembled(clusters, outliers, features, labels, max_clusters),
        i < features.len(),
        0 <= a < clusters.len(),
        0 <= b < clusters.len(),
        clusters[a].members@.contains(i),
        clusters[b].members@.contains(i),
    ensures
        a == b,
{
    let ma = clusters[a].members@;
    let mb = clusters[b].members@;
    assert(is_cluster(clusters[a], features, labels, a));
    assert(is_cluster(clusters[b], features, labels, b));
    let ia = ma.index_of(i);
    let ib = mb.index_of(i);
    assert(families::together(features, labels, ma[0] as int, ma[ia] as int));
    assert(families::together(features, labels, mb[0] as int, mb[ib] as int));
    assert(mb[0] < features.len());
    assert(ma[0] < features.len());
    assert(ma.contains(mb[0]));
    assert(mb.contains(ma[0]));
    let xa = ma.index_of(mb[0]);
    let xb = mb.index_of(ma[0]);
    assert(xa > 0 ==> ma[0] < ma[xa]);
    assert(xb > 0 ==> mb[0] < mb[xb]);
    assert(ma[0] == mb[0]);
    if a < b {
        assert(families::outranks(
            features,
            labels,
            clusters[a].members@[0] as int,
            clusters[b].members@[0] as int,
        ));
    } else if b < a {
        assert(families::outranks(
            features,
            labels,
            clusters[b].members@[0] as int,
            clusters[a].members@[0] as int,
        ));
    }
}

/// Every response is in exactly one reported cluster, or it is an outlier; a
/// response without a label is an outlier.
pub proof fn every_response_is_placed_once(
    clusters: Seq<Cluster>,
    outliers: Seq<usize>,
    features: Seq<ResponseFeatures>,
    labels: Seq<Option<usize>>,
    max_clusters: int,
    i: usize,
)
    requires
        features.len() <= usize::MAX,
        labels.len() == features.len(),
        is_assembled(clusters, outliers, features, labels, max_clusters),
        i < features.len(),
    ensures
        outliers.contains(i) <==> !in_a_cluster(clusters, i as int),
        labels[i as int] is None ==> outliers.contains(i),
        forall|a: int, b: int|
            0 <= a < clusters.len() && 0 <= b < clusters.len() && (
            #[trigger] clusters[a]).members@.contains(i) && (
            #[trigger] clusters[b]).members@.contains(i) ==> a == b,
{
    if outliers.contains(i) {
        let at = outliers.index_of(i);
        assert(!in_a_cluster(clusters, outliers[at] as int));
    }
    if in_a_cluster(clusters, i as int) {
        let k = choose|k: int|
            0 <= k < clusters.len() && (#[trigger] clusters[k]).members@.contains(
                (i as int) as usize,
            );
        let members = clusters[k].members@;
        assert(is_cluster(clusters[k], features, labels, k));
        let at = members.index_of(i);
        assert(families::together(features, labels, members[0] as int, members[at] as int));
    }
    assert forall|a: int, b: int|
        0 <= a < clusters.len() && 0 <= b < clusters.len() && (
        #[trigger] clusters[a]).members@.contains(i) && (
        #[trigger] clusters[b]).members@.contains(i) implies a == b by {
        one_cluster_each(clusters, outliers, features, labels, max_clusters, i, a, b);
    }
}

/// Where all responses have one status code, no other code is counted.
proof fn only_one_status(list: Seq<ResponseFeatures>, code: u16, other: u16)
    requires
        forall|k: int| 0 <= k < list.len() ==> (#[trigger] list[k]).status_code == code,
        status_count(list, other) > 0,
    ensures
        other == code,
    decreases list.len(),
{
    assert(list.len() > 0);
    if list.last().status_code != other {
        let rest = list.drop_last();
        assert forall|k: int| 0 <= k < rest.len() implies (#[trigger] rest[k]).status_code
            == code by {
            assert(rest[k] == list[k]);
        }
        only_one_status(rest, code, other);
    }
}

/// No cluster mixes status codes: all its responses have the status code of
/// its centre.
pub proof fn clusters_are_homogeneous(
    cluster: Cluster,
    features: Seq<ResponseFeatures>,
    labels: Seq<Option<usize>>,
    id: int,
    k: int,
)
    requires
        is_cluster(cluster, features, labels, id),
        0 <= k < cluster.features@.len(),
    ensures
        cluster.features@[k].status_code == cluster.centroid.mode_status_code,
{
    let members = cluster.members@;
    let code = features[members[0] as int].status_code;
    assert forall|j: int| 0 <= j < cluster.features@.len() implies (
    #[trigger] cluster.features@[j]).status_code == code by {
        assert(families::together(features, labels, members[0] as int, members[j] as int));
    }
    only_one_status(cluster.features@, code, cluster.centroid.mode_status_code);
}

/// Larger clusters come first.
pub proof fn larger_clusters_come_first(
    clusters: Seq<Cluster>,
    outliers: Seq<usize>,
    features: Seq<ResponseFeatures>,
    labels: Seq<Option<usize>>,
    max_clusters: int,
    a: int,
    b: int,
)
    requires
        features.len() <= usize::MAX,
        is_assembled(clusters, outliers, features, labels, max_clusters),
        0 <= a < b < clusters.len(),
    ensures
        clusters[a].features@.len() >= clusters[b].features@.len(),
{
    let ma = clusters[a].members@;
    let mb = clusters[b].members@;
    assert(is_cluster(clusters[a], features, labels, a));
    assert(is_cluster(clusters[b], features, labels, b));
    positions::lists_len(
        ma,
        features.len(),
        |j: int| families::together(features, labels, ma[0] as int, j),
    );
    positions::lists_len(
        mb,
        features.len(),
        |j: int| families::together(features, labels, mb[0] as int, j),
    );
    assert(families::outranks(features, labels, ma[0] as int, mb[0] as int));
}

/// The numbers of responses in the clusters, added up.
pub open spec fn clustered_count(clusters: Seq<Cluster>) -> nat
    decreases clusters.len(),
{
    if clusters.len() == 0 {
        0
    } else {
        clustered_count(clusters.drop_last()) + clusters.last().features@.len()
    }
}

/// As many positions are in clusters as the clusters have members.
proof fn count_clustered(clusters: Seq<Cluster>, n: nat)
    requires
        n <= usize::MAX,
        forall|k: int|
            0 <= k < clusters.len() ==> (#[trigger] clusters[k]).members@.len()
                == clusters[k].features@.len() && positions::ascending(clusters[k].members@) && (forall|i: int|
                0 <= i < clusters[k].members@.len() ==> clusters[k].members@[i] < n),
        forall|i: usize, a: int, b: int|
            i < n && 0 <= a < clusters.len() && 0 <= b < clusters.len()
                && #[trigger] clusters[a].members@.contains(i)
                && #[trigger] clusters[b].members@.contains(i) ==> a == b,
    ensures
        positions::count_below(n, |i: int| in_a_cluster(clusters, i)) == clustered_count(clusters),
    decreases clusters.len(),
{
    let whole = |i: int| in_a_cluster(clusters, i);
    if clusters.len() == 0 {
        positions::count_nothing(n, whole);
    } else {
        let rest = clusters.drop_last();
        let last = clusters.last();
        let one = |i: int| in_a_cluster(rest, i);
        let other = |i: int| last.members@.contains(i as usize);
        assert forall|i: int| 0 <= i < n implies #[trigger] whole(i) == (one(i) || other(i)) && !(
        one(i) && other(i)) by {
            if one(i) {
                let k = choose|k: int|
                    0 <= k < rest.len() && (#[trigger] rest[k]).members@.contains(i as usize);
                assert(clusters[k].members@.contains(i as usize));
                if other(i) {
                    assert(clusters[clusters.len() - 1].members@.contains(i as usize));
                }
            }
            if other(i) {
                assert(clusters[clusters.len() - 1].members@.contains(i as usize));
            }
            if whole(i) {
                let k = choose|k: int|
                    0 <= k < clusters.len() && (#[trigger] clusters[k]).members@.contains(
                        i as usize,
                    );
                if k < rest.len() {
                    assert(rest[k].members@.contains(i as usize));
                }
            }
        }
        positions::count_splits(n, whole, one, other);
        assert forall|k: int| 0 <= k < rest.len() implies (#[trigger] rest[k]).members@.len()
            == rest[k].features@.len() && positions::ascending(rest[k].members@) && (forall|i: int|
            0 <= i < rest[k].members@.len() ==> rest[k].members@[i] < n) by {
            assert(rest[k] == clusters[k]);
        }
        assert forall|i: usize, a: int, b: int|
            i < n && 0 <= a < rest.len() && 0 <= b < rest.len()
                && #[trigger] rest[a].members@.contains(i)
                && #[trigger] rest[b].members@.contains(i) implies a == b by {
            assert(clusters[a].members@.contains(i));
            assert(clusters[b].members@.contains(i));
        }
        count_clustered(rest, n);
        assert(last == clusters[clusters.len() - 1]);
        assert(positions::lists(last.members@, n as int, other)) by {
            assert forall|i: int| 0 <= i < last.members@.len() implies #[trigger] last.members@[i]
                < n && other(last.members@[i] as int) by {}
        }
        positions::lists_len(last.members@, n, other);
    }
}

/// No response is lost and none is counted twice: the sizes of the clusters
/// and the number of outliers add up to the number of responses.
pub proof fn sizes_add_up(
    clusters: Seq<Cluster>,
    outliers: Seq<usize>,
    features: Seq<ResponseFeatures>,
    labels: Seq<Option<usize>>,
    max_clusters: int,
)
    requires
        features.len() <= usize::MAX,
        labels.len() == features.len(),
        is_assembled(clusters, outliers, features, labels, max_clusters),
    ensures
        clustered_count(clusters) + outliers.len() == features.len(),
{
    let n = features.len();
    let inside = |i: int| in_a_cluster(clusters, i);
    let outside = |i: int| !in_a_cluster(clusters, i);
    let all = |i: int| true;
    assert forall|k: int| 0 <= k < clusters.len() implies (#[trigger] clusters[k]).members@.len()
        == clusters[k].features@.len() && positions::ascending(clusters[k].members@) && (forall|i: int|
        0 <= i < clusters[k].members@.len() ==> clusters[k].members@[i] < n) by {
        assert(is_cluster(clusters[k], features, labels, k));
    }
    assert forall|i: usize, a: int, b: int|
        i < n && 0 <= a < clusters.len() && 0 <= b < clusters.len()
            && #[trigger] clusters[a].members@.contains(i)
            && #[trigger] clusters[b].members@.contains(i) implies a == b by {
        one_cluster_each(clusters, outliers, features, labels, max_clusters, i, a, b);
    }
    count_clustered(clusters, n);
    positions::lists_len(outliers, n, outside);
    positions::count_splits(n, all, inside, outside);
    positions::count_everything(n, all);
}

/// The first members of clusters lead them.
proof fn heads_are_leaders(
    cluster: Cluster,
    features: Seq<ResponseFeatures>,
    labels: Seq<Option<usize>>,
    id: int,
)
    requires
        features.len() <= usize::MAX,
        is_cluster(cluster, features, labels, id),
    ensures
        families::leads(features, labels, cluster.members@[0] as int),
        cluster.members@[0] < features.len(),
{
    let members = cluster.members@;
    let head = members[0] as int;
    assert(members[0] < features.len());
    assert forall|j: int| 0 <= j < head implies !families::together(features, labels, j, head) by {
        if families::together(features, labels, j, head) {
            assert(families::together(features, labels, head, j));
            assert(members.contains(j as usize));
            let at = members.index_of(j as usize);
            assert(at > 0 ==> members[0] < members[at]);
        }
    }
}

/// Two assemblies agree on the clusters up to the `k`-th.
proof fn heads_agree(
    a: Seq<Cluster>,
    a_out: Seq<usize>,
    b: Seq<Cluster>,
    b_out: Seq<usize>,
    features: Seq<ResponseFeatures>,
    labels: Seq<Option<usize>>,
    max_clusters: int,
    k: int,
)
    requires
        features.len() <= usize::MAX,
        is_assembled(a, a_out, features, labels, max_clusters),
        is_assembled(b, b_out, features, labels, max_clusters),
        0 <= k < a.len(),
    ensures
        k < b.len(),
        a[k].members@[0] == b[k].members@[0],
    decreases k, 
{
    assert forall|j: int| 0 <= j < k implies j < b.len() && a[j].members@[0]
        == #[trigger] b[j].members@[0] by {
        heads_agree(a, a_out, b, b_out, features, labels, max_clusters, j);
    }
    let ha = a[k].members@[0] as int;
    assert(is_cluster(a[k], features, labels, k));
    heads_are_leaders(a[k], features, labels, k);
    assert(families::leads(features, labels, ha));
    if k < b.len() {
        let hb = b[k].members@[0] as int;
        assert(is_cluster(b[k], features, labels, k));
        heads_are_leaders(b[k], features, labels, k);
        assert(families::leads(features, labels, hb));
        if ha != hb {
            if families::outranks(features, labels, ha, hb) {
                assert(exists|j: int| 0 <= j < b.len() && (#[trigger] b[j]).members@[0] == ha);
                let j = choose|j: int| 0 <= j < b.len() && (#[trigger] b[j]).members@[0] == ha;
                if j < k {
                    assert(b[j].members@[0] == a[j].members@[0]);
                    assert(families::outranks(
                        features,
                        labels,
                        a[j].members@[0] as int,
                        a[k].members@[0] as int,
                    ));
                } else {
                    assert(families::outranks(
                        features,
                        labels,
                        b[k].members@[0] as int,
                        b[j].members@[0] as int,
                    ));
                }
            } else {
                assert(families::outranks(features, labels, hb, ha));
                assert(exists|j: int| 0 <= j < a.len() && (#[trigger] a[j]).members@[0] == hb);
                let j = choose|j: int| 0 <= j < a.len() && (#[trigger] a[j]).members@[0] == hb;
                if j < k {
                    assert(b[j].members@[0] == a[j].members@[0]);
                    assert(families::outranks(
                        features,
                        labels,
                        b[j].members@[0] as int,
                        b[k].members@[0] as int,
                    ));
                } else {
                    assert(families::outranks(
                        features,
                        labels,
                        a[k].members@[0] as int,
                        a[j].members@[0] as int,
                    ));
                }
            }
        }
    } else {
        assert(exists|j: int| 0 <= j < b.len() && (#[trigger] b[j]).members@[0] == ha);
        let j = choose|j: int| 0 <= j < b.len() && (#[trigger] b[j]).members@[0] == ha;
        assert(b[j].members@[0] == a[j].members@[0]);
        assert(families::outranks(
            features,
            labels,
            a[j].members@[0] as int,
            a[k].members@[0] as int,
        ));
    }
}

/// Clustering is deterministic: the same responses with the same labels give
/// the same clusters in the same order, and the same outliers.
pub proof fn clustering_is_deterministic(
    a: Seq<Cluster>,
    a_out: Seq<usize>,
    b: Seq<Cluster>,
    b_out: Seq<usize>,
    features: Seq<ResponseFeatures>,
    labels: Seq<Option<usize>>,
    max_clusters: int,
)
    requires
        features.len() <= usize::MAX,
        is_assembled(a, a_out, features, labels, max_clusters),
        is_assembled(b, b_out, features, labels, max_clusters),
    ensures
        a.len() == b.len(),
        a_out == b_out,
        forall|k: int|
            0 <= k < a.len() ==> {
                &&& (#[trigger] a[k]).id == b[k].id
                &&& a[k].members@ == b[k].members@
                &&& a[k].features@ == b[k].features@
                &&& a[k].centroid == b[k].centroid
                &&& text::texts(a[k].sample_payloads@) == text::texts(b[k].sample_payloads@)
            },
{
    if a.len() > 0 {
        heads_agree(a, a_out, b, b_out, features, labels, max_clusters, a.len() - 1);
    }
    if b.len() > 0 {
        heads_agree(b, b_out, a, a_out, features, labels, max_clusters, b.len() - 1);
    }
    assert forall|k: int| 0 <= k < a.len() implies {
        &&& (#[trigger] a[k]).id == b[k].id
        &&& a[k].members@ == b[k].members@
        &&& a[k].features@ == b[k].features@
        &&& a[k].centroid == b[k].centroid
        &&& text::texts(a[k].sample_payloads@) == text::texts(b[k].sample_payloads@)
    } by {
        heads_agree(a, a_out, b, b_out, features, labels, max_clusters, k);
        assert(is_cluster(a[k], features, labels, k));
        assert(is_cluster(b[k], features, labels, k));
        let head = a[k].members@[0] as int;
        positions::lists_unique(
            a[k].members@,
            b[k].members@,
            features.len(),
            |j: int| families::together(features, labels, head, j),
        );
        same_centroid(a[k].centroid, b[k].centroid, a[k].features@);
    }
    let outside = |i: int| !in_a_cluster(a, i);
    assert forall|i: int| in_a_cluster(a, i) == in_a_cluster(b, i) by {
        if in_a_cluster(a, i) {
            let k = choose|k: int|
                0 <= k < a.len() && (#[trigger] a[k]).members@.contains(i as usize);
            assert(b[k].members@.contains(i as usize));
        }
        if in_a_cluster(b, i) {
            let k = choose|k: int|
                0 <= k < b.len() && (#[trigger] b[k]).members@.contains(i as usize);
            assert(a[k].members@.contains(i as usize));
        }
    }
    assert((|i: int| !in_a_cluster(b, i)) =~= outside);
    positions::lists_unique(a_out, b_out, features.len(), outside);
}

/// Responses have one centre.
pub(crate) proof fn same_centroid(a: ClusterCentroid, b: ClusterCentroid, list: Seq<ResponseFeatures>)
    requires
        is_centroid(a, list),
        is_centroid(b, list),
    ensures
        a == b,
{
    assert(status_count(list, a.mode_status_code) == status_count(list, b.mode_status_code));
}

/// The largest finite distance, as the bits of its double.
pub const FARTHEST: u64 = 0x7FEF_FFFF_FFFF_FFFF;

/// The member nearest to the centre, given the distances of the members as the
/// bits of doubles: the first of the nearest ones, or the first member where
/// no distance is below the largest finite one. No members have none.
pub open spec fn is_representative(found: Option<usize>, distances: Seq<u64>) -> bool {
    match found {
        None => distances.len() == 0,
        Some(r) => {
            &&& r < distances.len()
            &&& if exists|i: int| 0 <= i < distances.len() && #[trigger] distances[i] < FARTHEST {
                &&& forall|i: int|
                    0 <= i < distances.len() ==> distances[r as int] <= #[trigger] distances[i]
                &&& forall|i: int| 0 <= i < r ==> distances[r as int] < #[trigger] distances[i]
            } else {
                r == 0
            }
        },
    }
}

/// Finds the member nearest to the centre. The order of non-negative doubles
/// is that of their bits; what is no number comes after all of them.
pub fn find_representative(distances: &[u64]) -> (found: Option<usize>)
    ensures
        is_representative(found, distances@),
{
    if distances.len() == 0 {
        return None;
    }
    let mut nearest: u64 = FARTHEST;
    let mut representative: usize = 0;
    let mut i: usize = 0;
    while i < distances.len()
        invariant
            i <= distances.len(),
            representative < distances.len(),
            nearest <= FARTHEST,
            nearest == FARTHEST ==> representative == 0,
            nearest < FARTHEST ==> representative < i && distances@[representative as int]
                == nearest,
            forall|k: int| 0 <= k < i ==> nearest <= #[trigger] distances@[k],
            forall|k: int| 0 <= k < representative ==> nearest < #[trigger] distances@[k],
        decreases distances.len() - i,
    {
        if distances[i] < nearest {
            nearest = distances[i];
            representative = i;
        }
        i += 1;
    }
    Some(representative)
}

/// Chooses the representatives of the clusters, given the distances of each
/// cluster's members from its centre. Nothing else changes.
pub fn choose_representatives(result: &mut DbscanResult, distances: &[Vec<u64>])
    requires
        distances@.len() == old(result).clusters@.len(),
        forall|k: int|
            0 <= k < distances@.len() ==> (#[trigger] distances@[k])@.len() == old(
                result,
            ).clusters@[k].features@.len(),
    ensures
        final(result).clusters@.len() == old(result).clusters@.len(),
        forall|k: int|
            0 <= k < final(result).clusters@.len() ==> {
                let chosen = (#[trigger] final(result).clusters@[k]).representative_response;
                &&& is_representative(chosen, distances@[k]@)
                &&& final(result).clusters@[k] == (Cluster {
                    representative_response: chosen,
                    ..old(result).clusters@[k]
                })
            },
        final(result).outliers == old(result).outliers,
        final(result).noise_count == old(result).noise_count,
        final(result).reflection == old(result).reflection,
{
    let ghost before = *result;
    let mut k: usize = 0;
    while k < distances.len()
        invariant
            k <= distances.len(),
            distances@.len() == before.clusters@.len(),
            result.clusters@.len() == before.clusters@.len(),
            forall|j: int|
                0 <= j < k ==> {
                    let chosen = (#[trigger] result.clusters@[j]).representative_response;
                    &&& is_representative(chosen, distances@[j]@)
                    &&& result.clusters@[j] == (Cluster {
                        representative_response: chosen,
                        ..before.clusters@[j]
                    })
                },
            forall|j: int|
                k <= j < result.clusters@.len() ==> #[trigger] result.clusters@[j]
                    == before.clusters@[j],
            result.outliers == before.outliers,
            result.noise_count == before.noise_count,
            result.reflection == before.reflection,
        decreases distances.len() - k,
    {
        let found = find_representative(distances[k].as_slice());
        result.clusters[k].representative_response = found;
        k += 1;
    }
}

/// The timing of the baseline: its most common status code, and how many times
/// to first byte there are and what they add up to.
#[derive(Debug, Clone, Copy, PartialEq, Eq)]
pub struct TtfbBaseline {
    pub status: u16,
    pub count: usize,
    pub total_ms: u128,
}

/// The timing reference of the baseline: for the family of its most common
/// status code, of several such codes the smallest. `None` with fewer than two
/// samples, or without any status code.
pub fn ttfb_baseline_ref(status_codes: &HashMap<u16, usize>, ttfbs: &[u64]) -> (reference: Option<
    TtfbBaseline,
>)
    ensures
        reference is Some <==> ttfbs@.len() >= 2 && exists|code: u16| #[trigger]
            status_codes@.contains_key(code),
        reference matches Some(r) ==> {
            &&& status::is_most_common(status_codes@, r.status)
            &&& r.count == ttfbs@.len()
            &&& r.total_ms == numbers::total(ttfbs@)
        },
{
    let status = match most_common(status_codes) {
        Some(status) => status,
        None => {
            return None;
        },
    };
    if ttfbs.len() < 2 {
        return None;
    }
    Some(TtfbBaseline { status, count: ttfbs.len(), total_ms: sum_of(ttfbs) })
}

/// Sums over responses go piece by piece, and those of one response are its own
/// measures.
pub proof fn totals_add_up(
    a: Seq<ResponseFeatures>,
    b: Seq<ResponseFeatures>,
    feature: ResponseFeatures,
)
    ensures
        totals(a + b).length == totals(a).length + totals(b).length,
        totals(a + b).ttfb == totals(a).ttfb + totals(b).ttfb,
        totals(a + b).words == totals(a).words + totals(b).words,
        totals(a + b).lines == totals(a).lines + totals(b).lines,
        totals(a + b).length_minus_payload == totals(a).length_minus_payload + totals(
            b,
        ).length_minus_payload,
        totals(seq![feature]).length == feature.response_length,
        totals(seq![feature]).ttfb == feature.time_to_first_byte_ms,
        totals(seq![feature]).words == feature.response_words,
        totals(seq![feature]).lines == feature.response_lines,
        totals(seq![feature]).length_minus_payload == feature.content_length_minus_payload,
    decreases b.len(),
{
    assert(seq![feature].drop_last() =~= seq![]);
    assert(totals(seq![feature].drop_last()).length == 0);
    if b.len() == 0 {
        assert(a + b =~= a);
    } else {
        totals_add_up(a, b.drop_last(), feature);
        assert((a + b).drop_last() =~= a + b.drop_last());
    }
}

/// Status codes are counted piece by piece: a response counts once, under its
/// own code.
pub proof fn status_counts_add_up(
    a: Seq<ResponseFeatures>,
    b: Seq<ResponseFeatures>,
    feature: ResponseFeatures,
    code: u16,
)
    ensures
        status_count(a + b, code) == status_count(a, code) + status_count(b, code),
        feature.status_code == code ==> status_count(seq![feature], code) == 1,
        feature.status_code != code ==> status_count(seq![feature], code) == 0,
    decreases b.len(),
{
    assert(seq![feature].drop_last() =~= seq![]);
    assert(status_count(seq![feature].drop_last(), code) == 0);
    if b.len() == 0 {
        assert(a + b =~= a);
    } else {
        status_counts_add_up(a, b.drop_last(), feature, code);
        assert((a + b).drop_last() =~= a + b.drop_last());
    }
}

/// The centre of some responses holds their number, the sums of their measures,
/// and the status code that most of them have, of several such codes the
/// smallest.
pub proof fn the_centre_sums_up(
    centroid: ClusterCentroid,
    list: Seq<ResponseFeatures>,
    code: u16,
)
    requires
        is_centroid(centroid, list),
    ensures
        centroid.size == list.len(),
        centroid.total_response_length == totals(list).length,
        centroid.total_ttfb_ms == totals(list).ttfb,
        centroid.total_response_words == totals(list).words,
        centroid.total_response_lines == totals(list).lines,
        centroid.total_content_length_minus_payload == totals(list).length_minus_payload,
        status_count(list, code) <= status_count(list, centroid.mode_status_code),
        list.len() > 0 && status_count(list, code) == status_count(list, centroid.mode_status_code)
            ==> centroid.mode_status_code <= code,
        list.len() > 0 ==> exists|i: int|
            0 <= i < list.len() && (#[trigger] list[i]).status_code == centroid.mode_status_code,
        list.len() == 0 ==> centroid.mode_status_code == 0,
{
    if list.len() > 0 {
        counted_somewhere(list, centroid.mode_status_code);
    }
}

/// A code that is counted is that of a response.
proof fn counted_somewhere(list: Seq<ResponseFeatures>, code: u16)
    requires
        status_count(list, code) > 0,
    ensures
        exists|i: int| 0 <= i < list.len() && (#[trigger] list[i]).status_code == code,
    decreases list.len(),
{
    assert(list.len() > 0);
    if list.last().status_code == code {
        assert(list[list.len() - 1].status_code == code);
    } else {
        counted_somewhere(list.drop_last(), code);
        let i = choose|i: int|
            0 <= i < list.drop_last().len() && (#[trigger] list.drop_last()[i]).status_code
                == code;
        assert(list[i].status_code == code);
    }
}

/// Payloads are collected piece by piece, in order; a response without a
/// payload gives none.
pub proof fn payloads_are_collected_in_order(
    a: Seq<ResponseFeatures>,
    b: Seq<ResponseFeatures>,
    feature: ResponseFeatures,
)
    ensures
        payloads_of(a + b) == payloads_of(a) + payloads_of(b),
        feature.payload matches Some(payload) ==> payloads_of(seq![feature]) == seq![payload@],
        feature.payload is None ==> payloads_of(seq![feature]).len() == 0,
    decreases b.len(),
{
    assert(seq![feature].drop_last() =~= seq![]);
    assert(payloads_of(seq![feature].drop_last()) =~= seq![]);
    if let Some(payload) = feature.payload {
        assert(payloads_of(seq![feature]) =~= seq![payload@]);
    }
    if b.len() == 0 {
        assert(a + b =~= a);
        assert(payloads_of(a) + payloads_of(b) =~= payloads_of(a));
    } else {
        payloads_are_collected_in_order(a, b.drop_last(), feature);
        assert((a + b).drop_last() =~= a + b.drop_last());
        assert(payloads_of(a + b) =~= payloads_of(a) + payloads_of(b));
    }
}

/// The samples are the first payloads: as many as asked for, or all where there
/// are fewer.
pub proof fn samples_are_the_first_payloads(list: Seq<ResponseFeatures>, max: int)
    requires
        0 <= max,
    ensures
        first_payloads(list, max).is_prefix_of(payloads_of(list)),
        first_payloads(list, max).len() == (if payloads_of(list).len() < max {
            payloads_of(list).len() as int
        } else {
            max
        }),
{
}

/// A reported cluster is numbered by its place, holds the responses of its
/// members in their order, their centre, and at most five of their payloads,
/// the first ones.
pub proof fn a_cluster_is_made_of_its_members(
    clusters: Seq<Cluster>,
    outliers: Seq<usize>,
    features: Seq<ResponseFeatures>,
    labels: Seq<Option<usize>>,
    max_clusters: int,
    k: int,
    m: int,
)
    requires
        is_assembled(clusters, outliers, features, labels, max_clusters),
        0 <= k < clusters.len(),
    ensures
        clusters.len() <= max_clusters,
        clusters[k].id == k,
        clusters[k].members@.len() > 0,
        clusters[k].features@.len() == clusters[k].members@.len(),
        0 <= m < clusters[k].members@.len() ==> clusters[k].members@[m] < features.len()
            && clusters[k].features@[m] == features[clusters[k].members@[m] as int],
        0 < m < clusters[k].members@.len() ==> clusters[k].members@[m - 1] < clusters[k].members@[m],
        is_centroid(clusters[k].centroid, clusters[k].features@),
        text::texts(clusters[k].sample_payloads@).is_prefix_of(
            payloads_of(clusters[k].features@),
        ),
        clusters[k].sample_payloads@.len() == (if payloads_of(clusters[k].features@).len() < 5 {
            payloads_of(clusters[k].features@).len()
        } else {
            5
        }),
{
    assert(is_cluster(clusters[k], features, labels, k));
    samples_are_the_first_payloads(clusters[k].features@, 5);
    assert(text::texts(clusters[k].sample_payloads@).len() == clusters[k].sample_payloads@.len());
}

/// The labels decide who is together: two clustered responses are in one
/// cluster exactly where they have the same label and the same status code.
pub proof fn labels_decide_who_is_together(
    clusters: Seq<Cluster>,
    outliers: Seq<usize>,
    features: Seq<ResponseFeatures>,
    labels: Seq<Option<usize>>,
    max_clusters: int,
    i: usize,
    a: int,
    j: usize,
    b: int,
)
    requires
        features.len() <= usize::MAX,
        labels.len() == features.len(),
        is_assembled(clusters, outliers, features, labels, max_clusters),
        0 <= a < clusters.len(),
        clusters[a].members@.contains(i),
        0 <= b < clusters.len(),
        clusters[b].members@.contains(j),
    ensures
        a == b <==> labels[i as int] == labels[j as int] && features[i as int].status_code
            == features[j as int].status_code,
{
    let ma = clusters[a].members@;
    let mb = clusters[b].members@;
    assert(is_cluster(clusters[a], features, labels, a));
    assert(is_cluster(clusters[b], features, labels, b));
    let x = ma.index_of(i);
    let y = mb.index_of(j);
    assert(families::together(features, labels, ma[0] as int, ma[x] as int));
    assert(families::together(features, labels, mb[0] as int, mb[y] as int));
    if labels[i as int] == labels[j as int] && features[i as int].status_code
        == features[j as int].status_code {
        assert(mb[y] < features.len());
        assert(families::together(features, labels, ma[0] as int, j as int));
        assert(ma.contains(j));
        one_cluster_each(clusters, outliers, features, labels, max_clusters, j, a, b);
    }
}

/// Only the cap makes an outlier of a response with a label: then as many
/// clusters are reported as may be, and none of them is smaller than the one
/// that the response would be in. A cap that is not reached demotes nobody.
pub proof fn only_the_cap_demotes(
    clusters: Seq<Cluster>,
    outliers: Seq<usize>,
    features: Seq<ResponseFeatures>,
    labels: Seq<Option<usize>>,
    max_clusters: int,
    i: usize,
    mates: Seq<usize>,
    k: int,
)
    requires
        features.len() <= usize::MAX,
        labels.len() == features.len(),
        is_assembled(clusters, outliers, features, labels, max_clusters),
        i < features.len(),
        labels[i as int] is Some,
        outliers.contains(i),
        forall|x: int, y: int|
            0 <= x < y < mates.len() ==> #[trigger] mates[x] < #[trigger] mates[y],
        forall|x: int|
            0 <= x < mates.len() ==> #[trigger] mates[x] < features.len()
                && labels[mates[x] as int] == labels[i as int]
                && features[mates[x] as int].status_code == features[i as int].status_code,
    ensures
        clusters.len() == max_clusters,
        0 <= k < clusters.len() ==> clusters[k].members@.len() >= mates.len(),
{
    let n = features.len();
    let l = first_mate(features, labels, i as int);
    every_response_is_placed_once(clusters, outliers, features, labels, max_clusters, i);
    if exists|c: int| 0 <= c < clusters.len() && (#[trigger] clusters[c]).members@[0] == l {
        let c = choose|c: int| 0 <= c < clusters.len() && (#[trigger] clusters[c]).members@[0] == l;
        assert(is_cluster(clusters[c], features, labels, c));
        assert(families::together(features, labels, l, i as int));
        assert(clusters[c].members@.contains(i));
        assert(clusters[c].members@.contains((i as int) as usize));
        assert(in_a_cluster(clusters, i as int));
    }
    assert(clusters.len() == max_clusters);
    if 0 <= k < clusters.len() {
        let head = clusters[k].members@[0] as int;
        assert(is_cluster(clusters[k], features, labels, k));
        assert(families::outranks(features, labels, head, l));
        let own = |j: int| families::together(features, labels, head, j);
        let others = |j: int| families::together(features, labels, l, j);
        positions::lists_len(clusters[k].members@, n, own);
        let listed = |j: int| mates.contains(j as usize);
        let unlisted = |j: int| others(j) && !mates.contains(j as usize);
        assert(positions::lists(mates, n as int, listed));
        positions::lists_len(mates, n, listed);
        assert forall|j: int| 0 <= j < n implies #[trigger] others(j) == (listed(j) || unlisted(j))
            && !(listed(j) && unlisted(j)) by {
            if mates.contains(j as usize) {
                let x = mates.index_of(j as usize);
                assert(mates[x] == j);
            }
        }
        positions::count_splits(n, others, listed, unlisted);
        assert(families::cluster_size(features, labels, l) == positions::count_below(n, others));
        assert(families::cluster_size(features, labels, head) == positions::count_below(n, own));
    }
}

/// The first response with the label and the status code of the given one.
proof fn first_mate(
    features: Seq<ResponseFeatures>,
    labels: Seq<Option<usize>>,
    i: int,
) -> (l: int)
    requires
        0 <= i < features.len(),
        labels[i] is Some,
    ensures
        0 <= l <= i,
        families::leads(features, labels, l),
        families::together(features, labels, l, i),
    decreases i,
{
    if families::leads(features, labels, i) {
        i
    } else {
        let j = choose|j: int| 0 <= j < i && families::together(features, labels, j, i);
        first_mate(features, labels, j)
    }
}

/// Clusters of one size are reported by ascending status code, and within one
/// status code in the order of their first members.
pub proof fn equal_clusters_go_by_status(
    clusters: Seq<Cluster>,
    outliers: Seq<usize>,
    features: Seq<ResponseFeatures>,
    labels: Seq<Option<usize>>,
    max_clusters: int,
    a: int,
    b: int,
)
    requires
        features.len() <= usize::MAX,
        labels.len() == features.len(),
        is_assembled(clusters, outliers, features, labels, max_clusters),
        0 <= a < b < clusters.len(),
        clusters[a].features@.len() == clusters[b].features@.len(),
    ensures
        clusters[a].centroid.mode_status_code <= clusters[b].centroid.mode_status_code,
        clusters[a].centroid.mode_status_code == clusters[b].centroid.mode_status_code
            ==> clusters[a].members@[0] < clusters[b].members@[0],
{
    let ma = clusters[a].members@;
    let mb = clusters[b].members@;
    assert(is_cluster(clusters[a], features, labels, a));
    assert(is_cluster(clusters[b], features, labels, b));
    clusters_are_homogeneous(clusters[a], features, labels, a, 0);
    clusters_are_homogeneous(clusters[b], features, labels, b, 0);
    positions::lists_len(
        ma,
        features.len(),
        |j: int| families::together(features, labels, ma[0] as int, j),
    );
    positions::lists_len(
        mb,
        features.len(),
        |j: int| families::together(features, labels, mb[0] as int, j),
    );
    assert(families::outranks(features, labels, ma[0] as int, mb[0] as int));
}

/// The representative is a member that no other is nearer than, of several such
/// the first; where no distance is below the largest finite one it is the first
/// member. There is one exactly where there are members.
pub proof fn the_nearest_member_represents(found: Option<usize>, distances: Seq<u64>, i: int)
    requires
        is_representative(found, distances),
    ensures
        found is Some <==> distances.len() > 0,
        found matches Some(r) ==> {
            &&& r < distances.len()
            &&& 0 <= i < distances.len() && distances[i] < 0x7FEF_FFFF_FFFF_FFFF
                ==> distances[r as int] <= distances[i] && (i < r ==> distances[r as int]
                < distances[i])
            &&& (forall|j: int|
                0 <= j < distances.len() ==> #[trigger] distances[j] >= 0x7FEF_FFFF_FFFF_FFFF)
                ==> r == 0
        },
{
}

/// Where the cap demotes a cluster, it keeps those that come before it: larger
/// ones, or as large with a smaller status code, or as large with the same code
/// and an earlier first member.
pub proof fn the_cap_keeps_what_comes_first(
    clusters: Seq<Cluster>,
    outliers: Seq<usize>,
    features: Seq<ResponseFeatures>,
    labels: Seq<Option<usize>>,
    max_clusters: int,
    demoted: Seq<usize>,
    k: int,
)
    requires
        features.len() <= usize::MAX,
        labels.len() == features.len(),
        is_assembled(clusters, outliers, features, labels, max_clusters),
        demoted.len() > 0,
        demoted[0] < features.len(),
        labels[demoted[0] as int] is Some,
        outliers.contains(demoted[0]),
        forall|x: int, y: int|
            0 <= x < y < demoted.len() ==> #[trigger] demoted[x] < #[trigger] demoted[y],
        forall|j: usize| #[trigger]
            demoted.contains(j) <==> j < features.len() && labels[j as int]
                == labels[demoted[0] as int] && features[j as int].status_code
                == features[demoted[0] as int].status_code,
        0 <= k < clusters.len(),
    ensures
        ({
            let size = clusters[k].members@.len();
            let code = features[demoted[0] as int].status_code;
            &&& size >= demoted.len()
            &&& size == demoted.len() ==> clusters[k].centroid.mode_status_code <= code
            &&& size == demoted.len() && clusters[k].centroid.mode_status_code == code
                ==> clusters[k].members@[0] < demoted[0]
        }),
{
    let n = features.len();
    let i = demoted[0];
    let l = first_mate(features, labels, i as int);
    assert(demoted.contains(l as usize));
    let at = demoted.index_of(l as usize);
    if at > 0 {
        assert(demoted[0] < demoted[at]);
    }
    assert(l == i);
    every_response_is_placed_once(clusters, outliers, features, labels, max_clusters, i);
    if exists|c: int| 0 <= c < clusters.len() && (#[trigger] clusters[c]).members@[0] == l {
        let c = choose|c: int| 0 <= c < clusters.len() && (#[trigger] clusters[c]).members@[0] == l;
        assert(is_cluster(clusters[c], features, labels, c));
        assert(clusters[c].members@.contains(i));
        assert(clusters[c].members@.contains((i as int) as usize));
        assert(in_a_cluster(clusters, i as int));
    }
    let head = clusters[k].members@[0] as int;
    assert(is_cluster(clusters[k], features, labels, k));
    assert(families::outranks(features, labels, head, l));
    clusters_are_homogeneous(clusters[k], features, labels, k, 0);
    let own = |j: int| families::together(features, labels, head, j);
    let others = |j: int| families::together(features, labels, l, j);
    positions::lists_len(clusters[k].members@, n, own);
    assert forall|x: int| 0 <= x < demoted.len() implies #[trigger] demoted[x] < n && others(
        demoted[x] as int,
    ) by {
        assert(demoted.contains(demoted[x]));
    }
    assert forall|j: usize| j < n && others(j as int) implies #[trigger] demoted.contains(j) by {}
    assert(positions::lists(demoted, n as int, others));
    positions::lists_len(demoted, n, others);
    assert(families::cluster_size(features, labels, l) == positions::count_below(n, others));
    assert(families::cluster_size(features, labels, head) == positions::count_below(n, own));
}

} // verus!
