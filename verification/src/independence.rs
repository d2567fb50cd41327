//! Status codes do not influence each other.
//!
//! The responses of one status code are grouped, measured and clustered as they
//! would be if there were no others.

use vstd::prelude::*;

use crate::clustering;
use crate::clustering::Cluster;
use crate::families;
use crate::feature_rows;
use crate::grouping;
use crate::grouping::StatusGroup;
use crate::http_client::ResponseFeatures;
use crate::positions;

verus! {

/// The responses of one group, by themselves.
pub open spec fn family_of(features: Seq<ResponseFeatures>, group: StatusGroup) -> Seq<
    ResponseFeatures,
> {
    clustering::at_positions(features, group.members@)
}

/// Positions within a group as positions among all responses.
pub open spec fn mapped(members: Seq<usize>, at: Seq<usize>) -> Seq<usize> {
    members.map_values(|m: usize| at[m as int])
}

/// The two are the same cluster: one with positions among all responses, one
/// with positions within the group.
pub open spec fn same_cluster(whole: Cluster, alone: Cluster, at: Seq<usize>) -> bool {
    &&& whole.members@ == mapped(alone.members@, at)
    &&& whole.features@ == alone.features@
    &&& whole.centroid == alone.centroid
}

/// The cluster of a group's responses alone is one of the clusters of all
/// responses.
pub open spec fn stands_among(alone: Cluster, whole: Seq<Cluster>, at: Seq<usize>) -> bool {
    exists|j: int| 0 <= j < whole.len() && same_cluster(#[trigger] whole[j], alone, at)
}

/// The cluster of all responses is one of the clusters of a group's responses
/// alone.
pub open spec fn stands_alone(whole: Cluster, alone: Seq<Cluster>, at: Seq<usize>) -> bool {
    exists|k: int| 0 <= k < alone.len() && same_cluster(whole, #[trigger] alone[k], at)
}

/// By themselves, the responses of a group are one group, in the same order.
pub proof fn a_family_is_one_group(
    features: Seq<ResponseFeatures>,
    groups: Seq<StatusGroup>,
    g: int,
    alone: Seq<StatusGroup>,
)
    requires
        features.len() <= usize::MAX,
        grouping::is_grouping(groups, features),
        0 <= g < groups.len(),
        grouping::is_grouping(alone, family_of(features, groups[g])),
    ensures
        alone.len() == 1,
        alone[0].status == groups[g].status,
        alone[0].members@ == Seq::new(groups[g].members@.len(), |i: int| i as usize),
{
    let family = family_of(features, groups[g]);
    let at = groups[g].members@;
    let code = groups[g].status;
    let n = family.len();
    group_size(features, groups, g);
    assert forall|i: int| 0 <= i < n implies (#[trigger] family[i]).status_code == code by {
        assert(features[at[i] as int].status_code == code);
    }
    assert forall|h: int| 0 <= h < alone.len() implies (#[trigger] alone[h]).status == code by {
        let m = alone[h].members@[0];
        assert(family[m as int].status_code == alone[h].status);
    }
    assert(family[0].status_code == code);
    if alone.len() > 1 {
        assert(alone[0].status < alone[1].status);
    }
    let all = Seq::new(n, |i: int| i as usize);
    let chosen = |i: int| family[i].status_code == alone[0].status;
    assert forall|k: usize| k < n && chosen(k as int) implies #[trigger] all.contains(k) by {
        assert(all[k as int] == k);
    }
    assert(positions::lists(all, n as int, chosen));
    positions::lists_unique(alone[0].members@, all, n, chosen);
}

/// The responses of a group are measured alike by themselves: they have the
/// same rows and the same lengths, in the same order.
pub proof fn a_family_is_measured_alone(
    features: Seq<ResponseFeatures>,
    group: StatusGroup,
    include_timing: bool,
    reflected: bool,
    types: Seq<Seq<char>>,
    k: int,
)
    requires
        0 <= k < group.members@.len(),
    ensures
        ({
            let among_all = features[group.members@[k] as int];
            let alone = family_of(features, group)[k];
            &&& feature_rows::row_of(among_all, include_timing, reflected, types)
                == feature_rows::row_of(alone, include_timing, reflected, types)
            &&& feature_rows::spec_payload_len(among_all) == feature_rows::spec_payload_len(alone)
            &&& among_all.response_length == alone.response_length
        }),
{
}

/// A group has no more members than there are responses.
proof fn group_size(features: Seq<ResponseFeatures>, groups: Seq<StatusGroup>, g: int)
    requires
        features.len() <= usize::MAX,
        grouping::is_grouping(groups, features),
        0 <= g < groups.len(),
    ensures
        0 < groups[g].members@.len() <= features.len(),
{
    let chosen = |i: int| features[i].status_code == groups[g].status;
    assert(positions::lists(groups[g].members@, features.len() as int, chosen));
    positions::lists_len(groups[g].members@, features.len(), chosen);
    positions::count_bound(features.len(), chosen);
}

/// Each response with a label has a leader.
proof fn leader_of(features: Seq<ResponseFeatures>, labels: Seq<Option<usize>>, i: int) -> (l: int)
    requires
        0 <= i < features.len(),
        labels[i] is Some,
    ensures
        0 <= l <= i,
        families::leads(features, labels, l),
        families::together(features, labels, l, i),
    decreases i,
{
    if families::leads(features, labels, i) {
        i
    } else {
        let j = choose|j: int| 0 <= j < i && families::together(features, labels, j, i);
        leader_of(features, labels, j)
    }
}

/// There are at least as many clustered responses as clusters.
proof fn clusters_are_not_empty(clusters: Seq<Cluster>)
    requires
        forall|k: int| 0 <= k < clusters.len() ==> (#[trigger] clusters[k]).features@.len() > 0,
    ensures
        clustering::clustered_count(clusters) >= clusters.len(),
    decreases clusters.len(),
{
    if clusters.len() > 0 {
        let rest = clusters.drop_last();
        assert forall|k: int| 0 <= k < rest.len() implies (#[trigger] rest[k]).features@.len()
            > 0 by {
            assert(rest[k] == clusters[k]);
        }
        clusters_are_not_empty(rest);
        assert(clusters[clusters.len() - 1].features@.len() > 0);
    }
}

/// Where the cap leaves room for all clusters, each response with a label is in
/// one.
proof fn labelled_is_clustered(
    clusters: Seq<Cluster>,
    outliers: Seq<usize>,
    features: Seq<ResponseFeatures>,
    labels: Seq<Option<usize>>,
    max_clusters: int,
    i: usize,
) -> (k: int)
    requires
        features.len() <= usize::MAX,
        features.len() <= max_clusters,
        labels.len() == features.len(),
        clustering::is_assembled(clusters, outliers, features, labels, max_clusters),
        i < features.len(),
        labels[i as int] is Some,
    ensures
        0 <= k < clusters.len(),
        clusters[k].members@.contains(i),
{
    let l = leader_of(features, labels, i as int);
    if exists|k: int| 0 <= k < clusters.len() && (#[trigger] clusters[k]).members@[0] == l {
        let k = choose|k: int| 0 <= k < clusters.len() && (#[trigger] clusters[k]).members@[0] == l;
        assert(clustering::is_cluster(clusters[k], features, labels, k));
        assert(families::together(features, labels, l, i as int));
        assert(clusters[k].members@.contains(i));
        k
    } else {
        assert forall|k: int| 0 <= k < clusters.len() implies (
        #[trigger] clusters[k]).features@.len() > 0 by {
            assert(clustering::is_cluster(clusters[k], features, labels, k));
        }
        clusters_are_not_empty(clusters);
        clustering::sizes_add_up(clusters, outliers, features, labels, max_clusters);
        clustering::every_response_is_placed_once(
            clusters,
            outliers,
            features,
            labels,
            max_clusters,
            i,
        );
        assert(outliers.len() == 0);
        assert(clustering::in_a_cluster(clusters, i as int));
        choose|k: int|
            0 <= k < clusters.len() && (#[trigger] clusters[k]).members@.contains(
                (i as int) as usize,
            )
    }
}

/// A cluster holds all that is together with one of its members.
proof fn cluster_around(
    cluster: Cluster,
    features: Seq<ResponseFeatures>,
    labels: Seq<Option<usize>>,
    id: int,
    i: usize,
)
    requires
        clustering::is_cluster(cluster, features, labels, id),
        cluster.members@.contains(i),
    ensures
        positions::lists(
            cluster.members@,
            features.len() as int,
            |j: int| families::together(features, labels, i as int, j),
        ),
        labels[i as int] is Some,
        i < features.len(),
{
    let members = cluster.members@;
    let head = members[0] as int;
    let at = members.index_of(i);
    assert(families::together(features, labels, head, members[at] as int));
    assert forall|k: int| 0 <= k < members.len() implies #[trigger] members[k] < features.len()
        && families::together(features, labels, i as int, members[k] as int) by {
        assert(families::together(features, labels, head, members[k] as int));
    }
    assert forall|k: usize|
        k < features.len() && families::together(
            features,
            labels,
            i as int,
            k as int,
        ) implies #[trigger] members.contains(k) by {
        assert(families::together(features, labels, head, k as int));
    }
}

/// Clusters that hold the same response are the same.
proof fn shared_member(
    features: Seq<ResponseFeatures>,
    labels: Seq<Option<usize>>,
    group: StatusGroup,
    own_labels: Seq<Option<usize>>,
    whole: Cluster,
    whole_id: int,
    alone: Cluster,
    alone_id: int,
    m: usize,
)
    requires
        features.len() <= usize::MAX,
        positions::lists(
            group.members@,
            features.len() as int,
            |i: int| features[i].status_code == group.status,
        ),
        forall|k: int|
            0 <= k < group.members@.len() ==> labels[#[trigger] group.members@[k] as int]
                == own_labels[k],
        clustering::is_cluster(whole, features, labels, whole_id),
        clustering::is_cluster(alone, family_of(features, group), own_labels, alone_id),
        m < group.members@.len(),
        alone.members@.contains(m),
        whole.members@.contains(group.members@[m as int]),
    ensures
        same_cluster(whole, alone, group.members@),
{
    let at = group.members@;
    let family = family_of(features, group);
    let own = alone.members@;
    let i = at[m as int];
    let list = mapped(own, at);
    let chosen = |p: int| families::together(features, labels, i as int, p);
    cluster_around(whole, features, labels, whole_id, i);
    cluster_around(alone, family, own_labels, alone_id, m);
    assert forall|k: int| 0 <= k < own.len() implies #[trigger] own[k] < at.len() by {
        assert(own[k] < family.len());
    }
    assert forall|x: int, y: int| 0 <= x < y < list.len() implies #[trigger] list[x]
        < #[trigger] list[y] by {
        assert(own[x] < own[y]);
        assert(at[own[x] as int] < at[own[y] as int]);
    }
    assert forall|k: int| 0 <= k < list.len() implies #[trigger] list[k] < features.len() && chosen(
        list[k] as int,
    ) by {
        let q = own[k];
        assert(families::together(family, own_labels, m as int, q as int));
        assert(labels[at[q as int] as int] == own_labels[q as int]);
        assert(labels[at[m as int] as int] == own_labels[m as int]);
        assert(family[q as int] == features[at[q as int] as int]);
        assert(family[m as int] == features[at[m as int] as int]);
    }
    assert forall|p: usize| p < features.len() && chosen(p as int) implies #[trigger] list.contains(
        p,
    ) by {
        assert(features[i as int].status_code == group.status);
        assert(at.contains(p));
        let q = at.index_of(p);
        assert(at[q] == p);
        assert(q < usize::MAX) by {
            at_is_short(at, features.len());
        }
        assert(labels[at[q] as int] == own_labels[q]);
        assert(labels[at[m as int] as int] == own_labels[m as int]);
        assert(family[q] == features[at[q] as int]);
        assert(family[m as int] == features[at[m as int] as int]);
        assert(families::together(family, own_labels, m as int, q));
        assert(own.contains(q as usize));
        let x = own.index_of(q as usize);
        assert(list[x] == p);
    }
    positions::lists_unique(whole.members@, list, features.len(), chosen);
    assert(whole.features@ =~= alone.features@) by {
        assert forall|k: int| 0 <= k < own.len() implies whole.features@[k]
            == alone.features@[k] by {
            assert(whole.members@[k] == at[own[k] as int]);
        }
    }
    clustering::same_centroid(whole.centroid, alone.centroid, whole.features@);
}

/// An ascending list of positions is no longer than there are positions.
proof fn at_is_short(at: Seq<usize>, n: nat)
    requires
        n <= usize::MAX,
        positions::ascending(at),
        forall|k: int| 0 <= k < at.len() ==> #[trigger] at[k] < n,
    ensures
        at.len() <= n,
{
    let chosen = |i: int| at.contains(i as usize);
    assert(positions::lists(at, n as int, chosen));
    positions::lists_len(at, n, chosen);
    positions::count_bound(n, chosen);
}

/// The responses of one status code are clustered as if there were no others.
/// Where the cap leaves room for all clusters, the clusters of that status code
/// among all responses are those of its responses alone, with the same labels,
/// and so are the outliers.
pub proof fn families_are_clustered_alone(
    features: Seq<ResponseFeatures>,
    groups: Seq<StatusGroup>,
    group_labels: Seq<Vec<Option<usize>>>,
    labels: Seq<Option<usize>>,
    max_clusters: int,
    g: int,
    whole: Seq<Cluster>,
    whole_outliers: Seq<usize>,
    alone: Seq<Cluster>,
    alone_outliers: Seq<usize>,
)
    requires
        features.len() <= usize::MAX,
        features.len() <= max_clusters,
        grouping::is_grouping(groups, features),
        group_labels.len() == groups.len(),
        labels.len() == features.len(),
        grouping::are_spread(labels, groups, group_labels),
        0 <= g < groups.len(),
        group_labels[g]@.len() == groups[g].members@.len(),
        clustering::is_assembled(whole, whole_outliers, features, labels, max_clusters),
        clustering::is_assembled(
            alone,
            alone_outliers,
            family_of(features, groups[g]),
            group_labels[g]@,
            max_clusters,
        ),
    ensures
        forall|k: int|
            0 <= k < alone.len() ==> stands_among(
                #[trigger] alone[k],
                whole,
                groups[g].members@,
            ),
        forall|j: int|
            0 <= j < whole.len() && (#[trigger] whole[j]).centroid.mode_status_code
                == groups[g].status ==> stands_alone(whole[j], alone, groups[g].members@),
        forall|m: usize|
            m < groups[g].members@.len() ==> (#[trigger] alone_outliers.contains(m)
                <==> whole_outliers.contains(groups[g].members@[m as int])),
{
    let group = groups[g];
    let at = group.members@;
    let family = family_of(features, group);
    let own_labels = group_labels[g]@;
    let n = features.len() as int;
    let chosen = |i: int| features[i].status_code == group.status;
    group_size(features, groups, g);
    assert(positions::lists(at, n, chosen));
    assert forall|k: int| 0 <= k < at.len() implies labels[#[trigger] at[k] as int]
        == own_labels[k] by {
        assert(labels[groups[g].members@[k] as int] == group_labels[g]@[k]);
    }
    assert forall|k: int| 0 <= k < alone.len() implies stands_among(
        #[trigger] alone[k],
        whole,
        at,
    ) by {
        assert(clustering::is_cluster(alone[k], family, own_labels, k));
        let m = alone[k].members@[0];
        assert(alone[k].members@.contains(m));
        assert(m < family.len());
        let i = at[m as int];
        let j = labelled_is_clustered(whole, whole_outliers, features, labels, max_clusters, i);
        assert(clustering::is_cluster(whole[j], features, labels, j));
        shared_member(features, labels, group, own_labels, whole[j], j, alone[k], k, m);
    }
    assert forall|j: int|
        0 <= j < whole.len() && (#[trigger] whole[j]).centroid.mode_status_code
            == group.status implies stands_alone(whole[j], alone, at) by {
        assert(clustering::is_cluster(whole[j], features, labels, j));
        clustering::clusters_are_homogeneous(whole[j], features, labels, j, 0);
        let i = whole[j].members@[0];
        assert(whole[j].members@.contains(i));
        assert(whole[j].features@[0] == features[i as int]);
        assert(i < n && chosen(i as int));
        assert(at.contains(i));
        let m = at.index_of(i) as usize;
        assert(at[m as int] == i);
        assert(labels[at[m as int] as int] == own_labels[m as int]);
        let k = labelled_is_clustered(
            alone,
            alone_outliers,
            family,
            own_labels,
            max_clusters,
            m,
        );
        assert(clustering::is_cluster(alone[k], family, own_labels, k));
        shared_member(features, labels, group, own_labels, whole[j], j, alone[k], k, m);
    }
    assert forall|m: usize| m < at.len() implies (#[trigger] alone_outliers.contains(m)
        <==> whole_outliers.contains(at[m as int])) by {
        let i = at[m as int];
        assert(labels[at[m as int] as int] == own_labels[m as int]);
        clustering::every_response_is_placed_once(
            whole,
            whole_outliers,
            features,
            labels,
            max_clusters,
            i,
        );
        clustering::every_response_is_placed_once(
            alone,
            alone_outliers,
            family,
            own_labels,
            max_clusters,
            m,
        );
        if own_labels[m as int] is Some {
            let j = labelled_is_clustered(
                whole,
                whole_outliers,
                features,
                labels,
                max_clusters,
                i,
            );
            assert(whole[j].members@.contains((i as int) as usize));
            let k = labelled_is_clustered(
                alone,
                alone_outliers,
                family,
                own_labels,
                max_clusters,
                m,
            );
            assert(alone[k].members@.contains((m as int) as usize));
        }
    }
}

} // verus!
