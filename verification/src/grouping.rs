//! Responses grouped by status code.

use vstd::prelude::*;

use crate::http_client::ResponseFeatures;
use crate::positions;

verus! {

/// The responses with one status code.
#[derive(Debug, Clone)]
pub struct StatusGroup {
    pub status: u16,
    /// Positions of the members among all responses, ascending.
    pub members: Vec<usize>,
}

/// The groups, by ascending status code, with all the responses of each code.
pub open spec fn is_grouping(groups: Seq<StatusGroup>, features: Seq<ResponseFeatures>) -> bool {
    &&& forall|g: int, h: int|
        0 <= g < h < groups.len() ==> (#[trigger] groups[g]).status < (#[trigger] groups[h]).status
    &&& forall|g: int|
        0 <= g < groups.len() ==> (#[trigger] groups[g]).members@.len() > 0 && positions::lists(
            groups[g].members@,
            features.len() as int,
            |i: int| features[i].status_code == groups[g].status,
        )
    &&& forall|i: int|
        0 <= i < features.len() ==> exists|g: int|
            0 <= g < groups.len() && (#[trigger] groups[g]).status == (
            #[trigger] features[i]).status_code
}

/// The positions of the responses with the given status code.
fn members_with_status(features: &[ResponseFeatures], code: u16) -> (members: Vec<usize>)
    ensures
        positions::lists(
            members@,
            features@.len() as int,
            |i: int| features@[i].status_code == code,
        ),
{
    let mut members: Vec<usize> = Vec::new();
    let mut i: usize = 0;
    while i < features.len()
        invariant
            i <= features.len(),
            positions::lists(members@, i as int, |i: int| features@[i].status_code == code),
        decreases features.len() - i,
    {
        if features[i].status_code == code {
            let ghost before = members@;
            members.push(i);
            proof {
                positions::push_lists(before, i, |i: int| features@[i].status_code == code);
            }
        } else {
            proof {
                positions::skip_lists(members@, i, |i: int| features@[i].status_code == code);
            }
        }
        i += 1;
    }
    members
}

/// The code has been passed: it is no larger than the floor.
spec fn passed(code: u16, floor: Option<u16>) -> bool {
    match floor {
        Some(f) => code <= f,
        None => false,
    }
}

/// The smallest status code above `floor`, if there is one.
fn next_status(features: &[ResponseFeatures], floor: Option<u16>) -> (next: Option<u16>)
    ensures
        match next {
            Some(code) => {
                &&& !passed(code, floor)
                &&& exists|i: int|
                    0 <= i < features@.len() && (#[trigger] features@[i]).status_code == code
                &&& forall|i: int|
                    0 <= i < features@.len() ==> (#[trigger] features@[i]).status_code >= code
                        || passed(features@[i].status_code, floor)
            },
            None => forall|i: int|
                0 <= i < features@.len() ==> passed((#[trigger] features@[i]).status_code, floor),
        },
{
    let mut next: Option<u16> = None;
    let mut i: usize = 0;
    while i < features.len()
        invariant
            i <= features.len(),
            match next {
                Some(code) => {
                    &&& !passed(code, floor)
                    &&& exists|k: int| 0 <= k < i && (#[trigger] features@[k]).status_code == code
                    &&& forall|k: int|
                        0 <= k < i ==> (#[trigger] features@[k]).status_code >= code || passed(
                            features@[k].status_code,
                            floor,
                        )
                },
                None => forall|k: int|
                    0 <= k < i ==> passed((#[trigger] features@[k]).status_code, floor),
            },
        decreases features.len() - i,
    {
        let code = features[i].status_code;
        let above = match floor {
            Some(f) => f < code,
            None => true,
        };
        let smaller = match next {
            Some(best) => code < best,
            None => true,
        };
        if above && smaller {
            assert(features@[i as int].status_code == code);
            next = Some(code);
        }
        i += 1;
    }
    next
}

/// Groups the responses by status code, in ascending order of the codes.
pub fn group_by_status(features: &[ResponseFeatures]) -> (groups: Vec<StatusGroup>)
    ensures
        is_grouping(groups@, features@),
{
    let mut groups: Vec<StatusGroup> = Vec::new();
    let mut floor: Option<u16> = None;
    loop
        invariant
            features@.len() == features.len(),
            match floor {
                Some(f) => groups@.len() > 0 && groups@.last().status == f,
                None => groups@.len() == 0,
            },
            forall|g: int, h: int|
                0 <= g < h < groups@.len() ==> (#[trigger] groups@[g]).status < (
                #[trigger] groups@[h]).status,
            forall|g: int|
                0 <= g < groups@.len() ==> (#[trigger] groups@[g]).members@.len() > 0 && positions::lists(
                    groups@[g].members@,
                    features@.len() as int,
                    |i: int| features@[i].status_code == groups@[g].status,
                ),
            forall|i: int|
                0 <= i < features@.len() && passed(
                    (#[trigger] features@[i]).status_code,
                    floor,
                ) ==> exists|g: int|
                    0 <= g < groups@.len() && (#[trigger] groups@[g]).status
                        == features@[i].status_code,
        decreases
                (match floor {
                    Some(f) => 65536 - f,
                    None => 65537int,
                }),
    {
        let code = match next_status(features, floor) {
            Some(code) => code,
            None => {
                assert forall|i: int| 0 <= i < features@.len() implies exists|g: int|
                    0 <= g < groups@.len() && (#[trigger] groups@[g]).status == (
                    #[trigger] features@[i]).status_code by {
                    assert(passed(features@[i].status_code, floor));
                }
                return groups;
            },
        };
        let members = members_with_status(features, code);
        let ghost before = groups@;
        groups.push(StatusGroup { status: code, members });
        proof {
            let i = choose|i: int|
                0 <= i < features@.len() && (#[trigger] features@[i]).status_code == code;
            assert(members@.contains(i as usize));
            assert forall|g: int| 0 <= g < groups@.len() implies (
            #[trigger] groups@[g]).members@.len() > 0 && positions::lists(
                groups@[g].members@,
                features@.len() as int,
                |i: int| features@[i].status_code == groups@[g].status,
            ) by {
                if g < before.len() {
                    assert(groups@[g] == before[g]);
                }
            }
            assert forall|i: int|
                0 <= i < features@.len() && (
                #[trigger] features@[i]).status_code <= code implies exists|g: int|
                0 <= g < groups@.len() && (#[trigger] groups@[g]).status
                    == features@[i].status_code by {
                if features@[i].status_code == code {
                    assert(groups@[before.len() as int].status == code);
                } else {
                    let g = choose|g: int|
                        0 <= g < before.len() && (#[trigger] before[g]).status
                            == features@[i].status_code;
                    assert(groups@[g] == before[g]);
                }
            }
        }
        floor = Some(code);
    }
}

/// The `k`-th member of a group has the `k`-th label of that group.
pub open spec fn are_spread(
    labels: Seq<Option<usize>>,
    groups: Seq<StatusGroup>,
    group_labels: Seq<Vec<Option<usize>>>,
) -> bool {
    forall|g: int, k: int|
        0 <= g < groups.len() && 0 <= k < groups[g].members@.len()
            ==> labels[#[trigger] groups[g].members@[k] as int] == group_labels[g]@[k]
}

/// Spreads the labels of the groups over all responses: the `k`-th member of a
/// group gets the `k`-th label of that group.
pub fn spread_labels(
    features: &[ResponseFeatures],
    groups: &[StatusGroup],
    group_labels: &[Vec<Option<usize>>],
) -> (labels: Vec<Option<usize>>)
    requires
        is_grouping(groups@, features@),
        group_labels@.len() == groups@.len(),
        forall|g: int|
            0 <= g < groups@.len() ==> (#[trigger] group_labels@[g])@.len()
                == groups@[g].members@.len(),
    ensures
        labels@.len() == features@.len(),
        are_spread(labels@, groups@, group_labels@),
{
    let mut labels: Vec<Option<usize>> = Vec::new();
    let mut i: usize = 0;
    while i < features.len()
        invariant
            i <= features.len(),
            labels@.len() == i,
        decreases features.len() - i,
    {
        labels.push(None);
        i += 1;
    }
    let mut g: usize = 0;
    while g < groups.len()
        invariant
            g <= groups.len(),
            is_grouping(groups@, features@),
            group_labels@.len() == groups@.len(),
            forall|h: int|
                0 <= h < groups@.len() ==> (#[trigger] group_labels@[h])@.len()
                    == groups@[h].members@.len(),
            labels@.len() == features@.len(),
            forall|h: int, k: int|
                0 <= h < g && 0 <= k < groups@[h].members@.len()
                    ==> labels@[#[trigger] groups@[h].members@[k] as int] == group_labels@[h]@[k],
        decreases groups.len() - g,
    {
        let mut m: usize = 0;
        assert(group_labels@[g as int]@.len() == groups@[g as int].members@.len());
        while m < groups[g].members.len()
            invariant
                g < groups.len(),
                m <= groups@[g as int].members@.len(),
                is_grouping(groups@, features@),
                group_labels@.len() == groups@.len(),
                group_labels@[g as int]@.len() == groups@[g as int].members@.len(),
                labels@.len() == features@.len(),
                forall|h: int, k: int|
                    ((0 <= h < g && 0 <= k < groups@[h].members@.len()) || (h == g && 0 <= k < m))
                        ==> labels@[#[trigger] groups@[h].members@[k] as int]
                        == group_labels@[h]@[k],
            decreases groups@[g as int].members@.len() - m,
        {
            let at = groups[g].members[m];
            let ghost before = labels@;
            labels.set(at, group_labels[g][m]);
            assert forall|h: int, k: int|
                ((0 <= h < g && 0 <= k < groups@[h].members@.len()) || (h == g && 0 <= k
                    < m + 1)) implies labels@[#[trigger] groups@[h].members@[k] as int]
                == group_labels@[h]@[k] by {
                let other = groups@[h].members@[k];
                if h < g {
                    assert(features@[other as int].status_code == groups@[h].status);
                    assert(features@[at as int].status_code == groups@[g as int].status);
                    assert(groups@[h].status < groups@[g as int].status);
                    assert(before[other as int] == group_labels@[h]@[k]);
                } else if k < m {
                    assert(other < groups@[g as int].members@[m as int]);
                    assert(before[other as int] == group_labels@[h]@[k]);
                }
            }
            m += 1;
        }
        g += 1;
    }
    labels
}

/// Every response is in exactly one group, that of its status code, and the
/// groups come by ascending status code, their members in the order of the
/// responses.
pub proof fn every_response_is_in_its_group(
    groups: Seq<StatusGroup>,
    features: Seq<ResponseFeatures>,
    i: usize,
    g: int,
    h: int,
    k: int,
)
    requires
        is_grouping(groups, features),
        i < features.len(),
    ensures
        exists|x: int| 0 <= x < groups.len() && (#[trigger] groups[x]).members@.contains(i),
        0 <= g < groups.len() ==> (groups[g].members@.contains(i) <==> groups[g].status
            == features[i as int].status_code),
        0 <= g < h < groups.len() ==> groups[g].status < groups[h].status,
        0 <= g < groups.len() ==> groups[g].members@.len() > 0,
        0 <= g < groups.len() && 0 < k < groups[g].members@.len() ==> groups[g].members@[k - 1]
            < groups[g].members@[k],
{
    let code = features[i as int].status_code;
    let x = choose|x: int| 0 <= x < groups.len() && (#[trigger] groups[x]).status == code;
    assert(groups[x].members@.contains(i));
    if 0 <= g < groups.len() {
        let members = groups[g].members@;
        if members.contains(i) {
            let at = members.index_of(i);
            assert(features[members[at] as int].status_code == groups[g].status);
        }
    }
}

/// Spread labels are those of the groups: the label of a response is the one
/// that its group gives it at its place.
pub proof fn labels_come_from_the_group(
    labels: Seq<Option<usize>>,
    groups: Seq<StatusGroup>,
    group_labels: Seq<Vec<Option<usize>>>,
    g: int,
    k: int,
)
    requires
        are_spread(labels, groups, group_labels),
        0 <= g < groups.len(),
        0 <= k < groups[g].members@.len(),
    ensures
        labels[groups[g].members@[k] as int] == group_labels[g]@[k],
{
}

} // verus!
