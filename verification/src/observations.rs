//! What is reported of the clusters.

use vstd::prelude::*;

use crate::clustering::{Cluster, DbscanResult};
use crate::http_client::ResponseFeatures;
use crate::numbers;
use crate::numbers::describe_range;
use crate::text;
use crate::text::{decimal, join3, pad_left, push_line, push_lines};

verus! {

/// The timing reference of the baseline as it is reported: the status code of
/// the family, and mean and standard deviation in milliseconds, each to one
/// decimal.
#[derive(Debug, Clone)]
pub struct TtfbReference {
    pub status: u16,
    pub mean: String,
    pub sigma: String,
}

/// The lines on the timing reference.
pub open spec fn reference_lines(reference: Option<TtfbReference>) -> Seq<Seq<char>> {
    match reference {
        Some(r) => seq![
            "TTFB scaled against baseline jitter (mean "@ + r.mean@ + " ms, std "@ + r.sigma@
                + " ms)."@,
        ],
        None => seq![],
    }
}

/// The line on reflection in a status family.
pub open spec fn reflection_line(status: u16, r: Seq<char>) -> Seq<char> {
    "Reflection detected on status "@ + text::decimal_digits(status as nat) + " (r = "@ + r + ")"@
}

/// One line for each status family with reflection.
pub open spec fn reflection_lines(reflection: Seq<(u16, String)>) -> Seq<Seq<char>> {
    reflection.map_values(|f: (u16, String)| reflection_line(f.0, f.1@))
}

/// The response lengths of some responses.
pub open spec fn lengths_of(features: Seq<ResponseFeatures>) -> Seq<u64> {
    features.map_values(|f: ResponseFeatures| f.response_length as u64)
}

/// The times to first byte of some responses.
pub open spec fn ttfbs_of(features: Seq<ResponseFeatures>) -> Seq<u64> {
    features.map_values(|f: ResponseFeatures| f.time_to_first_byte_ms)
}

/// The line on a sample payload.
pub open spec fn sample_line(payload: Seq<char>) -> Seq<char> {
    "    Sample payload: '"@ + payload + "'"@
}

/// The lines on one cluster: its size and status, the ranges of length and
/// time to first byte, and its sample payloads.
pub open spec fn cluster_lines(cluster: Cluster) -> Seq<Seq<char>> {
    seq![
        "Cluster "@ + text::decimal_digits(cluster.id as nat) + ": "@ + text::decimal_digits(
            cluster.features@.len(),
        ) + " responses (status: "@ + text::padded(
            text::decimal_digits(cluster.centroid.mode_status_code as nat),
            3,
        ) + ")"@,
        "    length: "@ + numbers::range_text(lengths_of(cluster.features@)) + " bytes"@,
        "    ttfb:   "@ + numbers::range_text(ttfbs_of(cluster.features@)) + " ms"@,
    ] + text::texts(cluster.sample_payloads@).map_values(|p: Seq<char>| sample_line(p))
}

/// The lines on the clusters, one cluster after the other.
pub open spec fn all_cluster_lines(clusters: Seq<Cluster>) -> Seq<Seq<char>>
    decreases clusters.len(),
{
    if clusters.len() == 0 {
        seq![]
    } else {
        all_cluster_lines(clusters.drop_last()) + cluster_lines(clusters.last())
    }
}

/// The lines on how many clusters there are, and on each of them, unless all
/// responses are alike.
pub open spec fn group_lines(clusters: Seq<Cluster>, noise_count: usize) -> Seq<Seq<char>> {
    if clusters.len() == 1 && noise_count == 0 {
        seq!["All responses belong to a single cluster - responses are consistent."@]
    } else {
        seq![
            "Found "@ + text::decimal_digits(clusters.len()) + " distinct response clusters."@,
        ] + all_cluster_lines(clusters)
    }
}

/// The line on the outliers, where there are any.
pub open spec fn noise_lines(noise_count: usize) -> Seq<Seq<char>> {
    if noise_count > 0 {
        seq![
            "Found "@ + text::decimal_digits(noise_count as nat)
                + " outlier(s) that don't fit any cluster."@,
        ]
    } else {
        seq![]
    }
}

/// All that is reported of the clusters.
pub open spec fn cluster_report(
    result: DbscanResult,
    reference: Option<TtfbReference>,
) -> Seq<Seq<char>> {
    reference_lines(reference) + reflection_lines(result.reflection@) + group_lines(
        result.clusters@,
        result.noise_count,
    ) + noise_lines(result.noise_count)
}

/// The response lengths of some responses.
fn response_lengths(features: &[ResponseFeatures]) -> (lengths: Vec<u64>)
    ensures
        lengths@ == lengths_of(features@),
{
    let mut lengths: Vec<u64> = Vec::new();
    let mut i: usize = 0;
    while i < features.len()
        invariant
            i <= features.len(),
            lengths@ == lengths_of(features@).take(i as int),
        decreases features.len() - i,
    {
        lengths.push(features[i].response_length as u64);
        assert(lengths@ =~= lengths_of(features@).take(i + 1));
        i += 1;
    }
    assert(lengths@ =~= lengths_of(features@));
    lengths
}

/// The times to first byte of some responses.
fn response_ttfbs(features: &[ResponseFeatures]) -> (ttfbs: Vec<u64>)
    ensures
        ttfbs@ == ttfbs_of(features@),
{
    let mut ttfbs: Vec<u64> = Vec::new();
    let mut i: usize = 0;
    while i < features.len()
        invariant
            i <= features.len(),
            ttfbs@ == ttfbs_of(features@).take(i as int),
        decreases features.len() - i,
    {
        ttfbs.push(features[i].time_to_first_byte_ms);
        assert(ttfbs@ =~= ttfbs_of(features@).take(i + 1));
        i += 1;
    }
    assert(ttfbs@ =~= ttfbs_of(features@));
    ttfbs
}

/// The lines on one cluster.
fn describe_cluster(cluster: &Cluster) -> (lines: Vec<String>)
    ensures
        text::texts(lines@) == cluster_lines(*cluster),
{
    let mut lines: Vec<String> = Vec::new();
    let mut head = join3("Cluster ", decimal(cluster.id as u128).as_str(), ": ");
    head.append(decimal(cluster.features.len() as u128).as_str());
    head.append(" responses (status: ");
    head.append(pad_left(decimal(cluster.centroid.mode_status_code as u128).as_str(), 3).as_str());
    head.append(")");
    let lengths = response_lengths(cluster.features.as_slice());
    let ttfbs = response_ttfbs(cluster.features.as_slice());
    push_line(&mut lines, head);
    push_line(
        &mut lines,
        join3("    length: ", describe_range(lengths.as_slice()).as_str(), " bytes"),
    );
    push_line(&mut lines, join3("    ttfb:   ", describe_range(ttfbs.as_slice()).as_str(), " ms"));
    let ghost whole = cluster_lines(*cluster);
    assert(text::texts(lines@) =~= whole.take(3));
    let mut i: usize = 0;
    while i < cluster.sample_payloads.len()
        invariant
            i <= cluster.sample_payloads@.len(),
            whole == cluster_lines(*cluster),
            text::texts(lines@) == whole.take(3 + i),
        decreases cluster.sample_payloads.len() - i,
    {
        push_line(
            &mut lines,
            join3("    Sample payload: '", cluster.sample_payloads[i].as_str(), "'"),
        );
        assert(text::texts(lines@) =~= whole.take(3 + i + 1));
        i += 1;
    }
    assert(text::texts(lines@) =~= whole);
    lines
}

/// What is reported of the clusters.
pub fn analyze_clusters(result: &DbscanResult, reference: &Option<TtfbReference>) -> (lines: Vec<
    String,
>)
    ensures
        text::texts(lines@) == cluster_report(*result, *reference),
{
    let mut lines: Vec<String> = Vec::new();
    if let Some(r) = reference {
        let mut line = join3(
            "TTFB scaled against baseline jitter (mean ",
            r.mean.as_str(),
            " ms, std ",
        );
        line.append(r.sigma.as_str());
        line.append(" ms).");
        push_line(&mut lines, line);
    }
    let ghost first = reference_lines(*reference);
    assert(text::texts(lines@) =~= first);
    let ghost second = reflection_lines(result.reflection@);
    let mut i: usize = 0;
    while i < result.reflection.len()
        invariant
            i <= result.reflection@.len(),
            second == reflection_lines(result.reflection@),
            text::texts(lines@) == first + second.take(i as int),
        decreases result.reflection.len() - i,
    {
        let mut line = join3(
            "Reflection detected on status ",
            decimal(result.reflection[i].0 as u128).as_str(),
            " (r = ",
        );
        line.append(result.reflection[i].1.as_str());
        line.append(")");
        push_line(&mut lines, line);
        assert(text::texts(lines@) =~= first + second.take(i + 1));
        i += 1;
    }
    assert(text::texts(lines@) =~= first + second);
    if result.clusters.len() == 1 && result.noise_count == 0 {
        push_line(
            &mut lines,
            "All responses belong to a single cluster - responses are consistent.".to_owned(),
        );
        assert(text::texts(lines@) =~= first + second + group_lines(
            result.clusters@,
            result.noise_count,
        ));
    } else {
        let count = join3(
            "Found ",
            decimal(result.clusters.len() as u128).as_str(),
            " distinct response clusters.",
        );
        let ghost count_line = count@;
        push_line(&mut lines, count);
        let ghost before = text::texts(lines@);
        assert(before =~= first + second + seq![count_line]);
        let mut k: usize = 0;
        assert(all_cluster_lines(result.clusters@.take(0)) =~= seq![]);
        while k < result.clusters.len()
            invariant
                k <= result.clusters@.len(),
                text::texts(lines@) == before + all_cluster_lines(result.clusters@.take(k as int)),
            decreases result.clusters.len() - k,
        {
            let more = describe_cluster(&result.clusters[k]);
            push_lines(&mut lines, more);
            assert(result.clusters@.take(k + 1).drop_last() =~= result.clusters@.take(k as int));
            assert(text::texts(lines@) =~= before + all_cluster_lines(
                result.clusters@.take(k + 1),
            ));
            k += 1;
        }
        assert(result.clusters@.take(result.clusters@.len() as int) =~= result.clusters@);
        assert(text::texts(lines@) =~= first + second + group_lines(
            result.clusters@,
            result.noise_count,
        ));
    }
    if result.noise_count > 0 {
        push_line(
            &mut lines,
            join3(
                "Found ",
                decimal(result.noise_count as u128).as_str(),
                " outlier(s) that don't fit any cluster.",
            ),
        );
    }
    assert(text::texts(lines@) =~= cluster_report(*result, *reference));
    lines
}

/// The lines that begin with the given character, in order.
pub open spec fn beginning_with(lines: Seq<Seq<char>>, c: char) -> Seq<Seq<char>>
    decreases lines.len(),
{
    if lines.len() == 0 {
        seq![]
    } else if lines.last().len() > 0 && lines.last()[0] == c {
        beginning_with(lines.drop_last(), c).push(lines.last())
    } else {
        beginning_with(lines.drop_last(), c)
    }
}

/// Lines are picked piece by piece.
proof fn picked_piece_by_piece(a: Seq<Seq<char>>, b: Seq<Seq<char>>, c: char)
    ensures
        beginning_with(a + b, c) == beginning_with(a, c) + beginning_with(b, c),
    decreases b.len(),
{
    if b.len() == 0 {
        assert(a + b =~= a);
        assert(beginning_with(a, c) + beginning_with(b, c) =~= beginning_with(a, c));
    } else {
        picked_piece_by_piece(a, b.drop_last(), c);
        assert((a + b).drop_last() =~= a + b.drop_last());
        assert(beginning_with(a + b, c) =~= beginning_with(a, c) + beginning_with(b, c));
    }
}

/// Where all lines begin alike, all of them are picked or none.
proof fn picked_all_or_none(lines: Seq<Seq<char>>, first: char, c: char)
    requires
        forall|i: int|
            0 <= i < lines.len() ==> (#[trigger] lines[i]).len() > 0 && lines[i][0] == first,
    ensures
        beginning_with(lines, c) == (if first == c {
            lines
        } else {
            seq![]
        }),
    decreases lines.len(),
{
    if lines.len() > 0 {
        let rest = lines.drop_last();
        assert(lines[lines.len() - 1] == lines.last());
        assert forall|i: int| 0 <= i < rest.len() implies (#[trigger] rest[i]).len() > 0
            && rest[i][0] == first by {
            assert(rest[i] == lines[i]);
        }
        picked_all_or_none(rest, first, c);
        if first == c {
            assert(rest.push(lines.last()) =~= lines);
        }
    } else if first == c {
        assert(beginning_with(lines, c) =~= lines);
    }
}

/// The lines on one cluster: the first begins with a capital, and all others
/// are set in.
proof fn picked_of_a_cluster(cluster: Cluster, c: char)
    ensures
        cluster_lines(cluster).len() == 3 + cluster.sample_payloads@.len(),
        c == 'C' ==> beginning_with(cluster_lines(cluster), c) == seq![cluster_lines(cluster)[0]],
        c != 'C' && c != ' ' ==> beginning_with(cluster_lines(cluster), c).len() == 0,
{
    let lines = cluster_lines(cluster);
    let head = seq![lines[0]];
    let rest = lines.skip(1);
    reveal_strlit("Cluster ");
    reveal_strlit("    length: ");
    reveal_strlit("    ttfb:   ");
    reveal_strlit("    Sample payload: '");
    assert(head[0][0] == 'C');
    picked_all_or_none(head, 'C', c);
    assert forall|i: int| 0 <= i < rest.len() implies (#[trigger] rest[i]).len() > 0 && rest[i][0]
        == ' ' by {
        assert(rest[i] == lines[i + 1]);
        if i >= 2 {
            assert(rest[i] == sample_line(text::texts(cluster.sample_payloads@)[i - 2]));
        }
    }
    picked_all_or_none(rest, ' ', c);
    assert(lines =~= head + rest);
    picked_piece_by_piece(head, rest, c);
    if c == 'C' {
        assert(beginning_with(lines, c) =~= head);
    } else if c != ' ' {
        assert(beginning_with(lines, c) =~= seq![]);
    }
}

/// The line that a cluster is announced with.
spec fn announcement(id: nat, size: nat, status: nat) -> Seq<char> {
    "Cluster "@ + text::decimal_digits(id) + ": "@ + text::decimal_digits(size)
        + " responses (status: "@ + text::padded(text::decimal_digits(status), 3) + ")"@
}

/// Of the lines on the clusters, those that begin with a capital announce one
/// cluster each.
proof fn picked_of_clusters(clusters: Seq<Cluster>, c: char)
    ensures
        c == 'C' ==> beginning_with(all_cluster_lines(clusters), c) == clusters.map_values(
            |cluster: Cluster|
                announcement(
                    cluster.id as nat,
                    cluster.features@.len(),
                    cluster.centroid.mode_status_code as nat,
                ),
        ),
        c != 'C' && c != ' ' ==> beginning_with(all_cluster_lines(clusters), c).len() == 0,
    decreases clusters.len(),
{
    let announce = |cluster: Cluster|
        announcement(
            cluster.id as nat,
            cluster.features@.len(),
            cluster.centroid.mode_status_code as nat,
        );
    if clusters.len() > 0 {
        let rest = clusters.drop_last();
        picked_of_clusters(rest, c);
        picked_of_a_cluster(clusters.last(), c);
        picked_piece_by_piece(all_cluster_lines(rest), cluster_lines(clusters.last()), c);
        if c == 'C' {
            assert(clusters.map_values(announce) =~= rest.map_values(announce).push(
                announce(clusters.last()),
            ));
            assert(beginning_with(all_cluster_lines(clusters), c) =~= clusters.map_values(
                announce,
            ));
        } else if c != ' ' {
            assert(beginning_with(all_cluster_lines(clusters), c) =~= seq![]);
        }
    } else if c == 'C' {
        assert(beginning_with(all_cluster_lines(clusters), c) =~= clusters.map_values(announce));
    }
}

/// The report says that all responses belong to a single cluster exactly where
/// there is one cluster and no outlier. In every other case it names the number
/// of clusters and announces each of them, in order, with its id, its size and
/// its status. It names the number of outliers exactly where there are any, and
/// the timing reference and each reflection where there is one.
pub proof fn the_report_names_every_cluster(result: DbscanResult, reference: Option<TtfbReference>)
    ensures
        ({
            let report = cluster_report(result, reference);
            let clusters = result.clusters@;
            let alike = clusters.len() == 1 && result.noise_count == 0;
            &&& beginning_with(report, 'A') == (if alike {
                seq!["All responses belong to a single cluster - responses are consistent."@]
            } else {
                seq![]
            })
            &&& beginning_with(report, 'C') == (if alike {
                seq![]
            } else {
                clusters.map_values(
                    |cluster: Cluster|
                        "Cluster "@ + text::decimal_digits(cluster.id as nat) + ": "@
                            + text::decimal_digits(cluster.features@.len())
                            + " responses (status: "@ + text::padded(
                            text::decimal_digits(cluster.centroid.mode_status_code as nat),
                            3,
                        ) + ")"@,
                )
            })
            &&& beginning_with(report, 'F') == (if alike {
                seq![]
            } else {
                seq![
                    "Found "@ + text::decimal_digits(clusters.len())
                        + " distinct response clusters."@,
                ]
            }) + (if result.noise_count > 0 {
                seq![
                    "Found "@ + text::decimal_digits(result.noise_count as nat)
                        + " outlier(s) that don't fit any cluster."@,
                ]
            } else {
                seq![]
            })
            &&& beginning_with(report, 'T') == (match reference {
                Some(r) => seq![
                    "TTFB scaled against baseline jitter (mean "@ + r.mean@ + " ms, std "@
                        + r.sigma@ + " ms)."@,
                ],
                None => seq![],
            })
            &&& beginning_with(report, 'R') == result.reflection@.map_values(
                |f: (u16, String)|
                    "Reflection detected on status "@ + text::decimal_digits(f.0 as nat) + " (r = "@
                        + f.1@ + ")"@,
            )
        }),
{
    let report = cluster_report(result, reference);
    picked_parts(result, reference, 'A');
    picked_parts(result, reference, 'C');
    picked_parts(result, reference, 'F');
    picked_parts(result, reference, 'T');
    picked_parts(result, reference, 'R');
    let clusters = result.clusters@;
    let groups = group_lines(clusters, result.noise_count);
    assert(beginning_with(report, 'A') =~= beginning_with(groups, 'A'));
    assert(beginning_with(report, 'C') =~= beginning_with(groups, 'C'));
    assert(clusters.map_values(
        |cluster: Cluster|
            announcement(
                cluster.id as nat,
                cluster.features@.len(),
                cluster.centroid.mode_status_code as nat,
            ),
    ) =~= clusters.map_values(
        |cluster: Cluster|
            "Cluster "@ + text::decimal_digits(cluster.id as nat) + ": "@ + text::decimal_digits(
                cluster.features@.len(),
            ) + " responses (status: "@ + text::padded(
                text::decimal_digits(cluster.centroid.mode_status_code as nat),
                3,
            ) + ")"@,
    ));
    assert(beginning_with(report, 'F') =~= beginning_with(groups, 'F') + noise_lines(
        result.noise_count,
    ));
    assert(beginning_with(report, 'T') =~= reference_lines(reference));
    assert(beginning_with(report, 'R') =~= reflection_lines(result.reflection@));
    assert(reflection_lines(result.reflection@) =~= result.reflection@.map_values(
        |f: (u16, String)|
            "Reflection detected on status "@ + text::decimal_digits(f.0 as nat) + " (r = "@ + f.1@
                + ")"@,
    ));
}

/// What each part of the report contributes to the lines that begin with one
/// capital.
proof fn picked_parts(result: DbscanResult, reference: Option<TtfbReference>, c: char)
    requires
        c != ' ',
    ensures
        ({
            let first = reference_lines(reference);
            let second = reflection_lines(result.reflection@);
            let clusters = result.clusters@;
            let third = group_lines(clusters, result.noise_count);
            let fourth = noise_lines(result.noise_count);
            let alike = clusters.len() == 1 && result.noise_count == 0;
            &&& beginning_with(cluster_report(result, reference), c) == (if c == 'T' {
                first
            } else {
                seq![]
            }) + (if c == 'R' {
                second
            } else {
                seq![]
            }) + beginning_with(third, c) + (if c == 'F' {
                fourth
            } else {
                seq![]
            })
            &&& alike ==> beginning_with(third, c) == (if c == 'A' {
                third
            } else {
                seq![]
            })
            &&& !alike ==> beginning_with(third, c) == (if c == 'F' {
                seq![third[0]]
            } else if c == 'C' {
                clusters.map_values(
                    |cluster: Cluster|
                        announcement(
                            cluster.id as nat,
                            cluster.features@.len(),
                            cluster.centroid.mode_status_code as nat,
                        ),
                )
            } else {
                seq![]
            })
        }),
{
    let first = reference_lines(reference);
    let second = reflection_lines(result.reflection@);
    let clusters = result.clusters@;
    let third = group_lines(clusters, result.noise_count);
    let fourth = noise_lines(result.noise_count);
    reveal_strlit("TTFB scaled against baseline jitter (mean ");
    reveal_strlit("Reflection detected on status ");
    reveal_strlit("All responses belong to a single cluster - responses are consistent.");
    reveal_strlit("Found ");
    picked_all_or_none(first, 'T', c);
    assert forall|i: int| 0 <= i < second.len() implies (#[trigger] second[i]).len() > 0
        && second[i][0] == 'R' by {
        assert(second[i] == reflection_line(result.reflection@[i].0, result.reflection@[i].1@));
    }
    picked_all_or_none(second, 'R', c);
    picked_all_or_none(fourth, 'F', c);
    picked_piece_by_piece(first, second, c);
    picked_piece_by_piece(first + second, third, c);
    picked_piece_by_piece(first + second + third, fourth, c);
    if clusters.len() == 1 && result.noise_count == 0 {
        picked_all_or_none(third, 'A', c);
    } else {
        let count = seq![third[0]];
        assert(third =~= count + all_cluster_lines(clusters));
        picked_all_or_none(count, 'F', c);
        picked_of_clusters(clusters, c);
        picked_piece_by_piece(count, all_cluster_lines(clusters), c);
        if c == 'F' {
            assert(beginning_with(third, c) =~= count);
        } else {
            assert(beginning_with(third, c) =~= beginning_with(all_cluster_lines(clusters), c));
        }
    }
}

/// Where the lines on a cluster stand among those on all clusters.
proof fn lines_of_a_cluster(clusters: Seq<Cluster>, k: int) -> (at: int)
    requires
        0 <= k < clusters.len(),
    ensures
        0 <= at,
        at + cluster_lines(clusters[k]).len() <= all_cluster_lines(clusters).len(),
        all_cluster_lines(clusters).subrange(at, at + cluster_lines(clusters[k]).len())
            == cluster_lines(clusters[k]),
    decreases clusters.len(),
{
    let rest = clusters.drop_last();
    let all = all_cluster_lines(clusters);
    let n = cluster_lines(clusters[k]).len() as int;
    if k == clusters.len() - 1 {
        let at = all_cluster_lines(rest).len() as int;
        assert(all.subrange(at, at + n) =~= cluster_lines(clusters[k]));
        at
    } else {
        assert(rest[k] == clusters[k]);
        let at = lines_of_a_cluster(rest, k);
        assert(all.subrange(at, at + n) =~= all_cluster_lines(rest).subrange(at, at + n));
        at
    }
}

/// Unless all responses are alike, the report describes each cluster in lines
/// that follow each other: its announcement, the range of its lengths, the
/// range of its times to first byte, and each of its sample payloads.
pub proof fn each_cluster_is_described(
    result: DbscanResult,
    reference: Option<TtfbReference>,
    k: int,
) -> (at: int)
    requires
        !(result.clusters@.len() == 1 && result.noise_count == 0),
        0 <= k < result.clusters@.len(),
    ensures
        ({
            let report = cluster_report(result, reference);
            let cluster = result.clusters@[k];
            let lengths = cluster.features@.map_values(
                |f: ResponseFeatures| f.response_length as u64,
            );
            let times = cluster.features@.map_values(|f: ResponseFeatures| f.time_to_first_byte_ms);
            &&& 0 <= at
            &&& at + 3 + cluster.sample_payloads@.len() <= report.len()
            &&& report[at] == "Cluster "@ + text::decimal_digits(cluster.id as nat) + ": "@
                + text::decimal_digits(cluster.features@.len()) + " responses (status: "@
                + text::padded(
                text::decimal_digits(cluster.centroid.mode_status_code as nat),
                3,
            ) + ")"@
            &&& report[at + 1] == "    length: "@ + numbers::range_text(lengths) + " bytes"@
            &&& report[at + 2] == "    ttfb:   "@ + numbers::range_text(times) + " ms"@
            &&& forall|i: int|
                0 <= i < cluster.sample_payloads@.len() ==> report[at + 3 + i]
                    == "    Sample payload: '"@ + (#[trigger] cluster.sample_payloads@[i])@ + "'"@
        }),
{
    let cluster = result.clusters@[k];
    let lines = cluster_lines(cluster);
    let n = lines.len() as int;
    let all = all_cluster_lines(result.clusters@);
    let p = lines_of_a_cluster(result.clusters@, k);
    let front = reference_lines(reference) + reflection_lines(result.reflection@);
    let at = front.len() + 1 + p;
    let report = cluster_report(result, reference);
    assert forall|i: int| 0 <= i < n implies report[at + i] == #[trigger] lines[i] by {
        assert(report[at + i] == all[p + i]);
        assert(all.subrange(p, p + n)[i] == lines[i]);
    }
    assert(report[at] == lines[0] && report[at + 1] == lines[1] && report[at + 2] == lines[2]);
    assert(lengths_of(cluster.features@) =~= cluster.features@.map_values(
        |f: ResponseFeatures| f.response_length as u64,
    ));
    assert(ttfbs_of(cluster.features@) =~= cluster.features@.map_values(
        |f: ResponseFeatures| f.time_to_first_byte_ms,
    ));
    assert forall|i: int| 0 <= i < cluster.sample_payloads@.len() implies report[at + 3 + i]
        == "    Sample payload: '"@ + (#[trigger] cluster.sample_payloads@[i])@ + "'"@ by {
        assert(report[at + (3 + i)] == lines[3 + i]);
        assert(text::texts(cluster.sample_payloads@)[i] == cluster.sample_payloads@[i]@);
    }
    at
}

/// The sample payloads of clusters, counted.
pub open spec fn sample_count(clusters: Seq<Cluster>) -> nat
    decreases clusters.len(),
{
    if clusters.len() == 0 {
        0
    } else {
        sample_count(clusters.drop_last()) + clusters.last().sample_payloads@.len()
    }
}

/// How many lines there are on some clusters.
proof fn cluster_line_count(clusters: Seq<Cluster>)
    ensures
        all_cluster_lines(clusters).len() == 3 * clusters.len() + sample_count(clusters),
    decreases clusters.len(),
{
    if clusters.len() > 0 {
        cluster_line_count(clusters.drop_last());
    }
}

/// The report holds nothing beyond that: one line for the timing reference, one
/// for each reflection, one that all is alike or one for the number of clusters
/// and three for each with its samples, and one for the outliers.
pub proof fn the_report_holds_nothing_else(result: DbscanResult, reference: Option<TtfbReference>)
    ensures
        cluster_report(result, reference).len() == (if reference is Some {
            1nat
        } else {
            0nat
        }) + result.reflection@.len() + (if result.clusters@.len() == 1 && result.noise_count
            == 0 {
            1nat
        } else {
            1 + 3 * result.clusters@.len() + sample_count(result.clusters@)
        }) + (if result.noise_count > 0 {
            1nat
        } else {
            0nat
        }),
{
    cluster_line_count(result.clusters@);
}

} // verus!
