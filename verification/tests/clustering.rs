use linfa::traits::Transformer;
use linfa::DatasetBase;
use linfa_clustering::Dbscan;
use ndarray::Array2;
use std::collections::HashMap;
use webfuzzy::clustering::{
    calculate_centroid, choose_representatives, collect_sample_payloads, find_representative,
    perform_clustering as assemble, ttfb_baseline_ref as baseline_timing, Cluster,
    ClusterCentroid, DbscanResult,
};
use webfuzzy::feature_rows::{features_to_rows, length_pairs, TTFB_COLUMN};
use webfuzzy::grouping::{group_by_status, spread_labels};
use webfuzzy::http_client::ResponseFeatures;

/// Pearson's r and the slope of response length on payload length, where the
/// payload counts as reflected.
fn reflection_regression(pairs: &[(usize, usize)]) -> Option<(f64, f64)> {
    let pairs: Vec<(f64, f64)> = pairs.iter().map(|&(x, y)| (x as f64, y as f64)).collect();
    let n = pairs.len() as f64;
    if n < 2.0 {
        return None;
    }
    let mean_x = pairs.iter().map(|&(x, _)| x).sum::<f64>() / n;
    let mean_y = pairs.iter().map(|&(_, y)| y).sum::<f64>() / n;
    let var_x = pairs.iter().map(|&(x, _)| (x - mean_x).powi(2)).sum::<f64>() / n;
    let var_y = pairs.iter().map(|&(_, y)| (y - mean_y).powi(2)).sum::<f64>() / n;
    if var_x == 0.0 || var_y == 0.0 {
        return None;
    }
    let cov = pairs.iter().map(|&(x, y)| (x - mean_x) * (y - mean_y)).sum::<f64>() / n;
    let r = cov / (var_x.sqrt() * var_y.sqrt());
    if r < 0.8 {
        return None;
    }
    Some((r, cov / var_x))
}

/// z-scores each column, with the given timing reference and jitter floor.
fn scale(
    rows: &[Vec<f64>],
    include_timing: bool,
    reference: Option<(f64, f64)>,
    jitter_ms: f64,
) -> Array2<f64> {
    let n = rows.len() as f64;
    let columns = rows[0].len();
    let mut data = Array2::zeros((rows.len(), columns));
    for j in 0..columns {
        let mut mean = rows.iter().map(|r| r[j]).sum::<f64>() / n;
        let mut std = (rows.iter().map(|r| (r[j] - mean).powi(2)).sum::<f64>() / n).sqrt();
        if include_timing && j == TTFB_COLUMN {
            if let Some((m, s)) = reference {
                mean = m;
                std = s;
            }
            std = std.max(jitter_ms);
        }
        for (i, row) in rows.iter().enumerate() {
            data[[i, j]] = if std == 0.0 { 0.0 } else { (row[j] - mean) / std };
        }
    }
    data
}

/// The whole of clustering: the numeric part here, the decisions in the
/// library.
fn perform_clustering(
    features: &[ResponseFeatures],
    tolerance: f64,
    min_samples: usize,
    max_clusters: usize,
    include_timing: bool,
    ttfb_ref: Option<(u16, f64, f64)>,
    jitter_ms: f64,
) -> DbscanResult {
    let groups = group_by_status(features);
    let mut group_labels: Vec<Vec<Option<usize>>> = Vec::new();
    let mut reflection = Vec::new();
    for group in &groups {
        let pairs = length_pairs(features, &group.members);
        let regression = reflection_regression(&pairs);
        if let Some((r, _)) = regression {
            reflection.push((group.status, format!("{:.2}", r)));
        }
        let rows =
            features_to_rows(features, &group.members, include_timing, regression.is_some(), &[]);
        let rows: Vec<Vec<f64>> = rows
            .iter()
            .zip(&pairs)
            .map(|(row, pair)| {
                let mut row: Vec<f64> = row.iter().map(|&v| v as f64).collect();
                if let Some((_, slope)) = regression {
                    row[0] -= slope * pair.0 as f64;
                }
                row
            })
            .collect();
        let reference = match ttfb_ref {
            Some((status, mean, sigma)) if status == group.status => Some((mean, sigma)),
            _ => None,
        };
        let data = scale(&rows, include_timing, reference, jitter_ms);
        let memberships = Dbscan::params(min_samples)
            .tolerance(tolerance)
            .transform(DatasetBase::from(data))
            .unwrap();
        group_labels.push(memberships.targets().to_vec());
    }
    let labels = spread_labels(features, &groups, &group_labels);
    assemble(features, &labels, max_clusters, reflection)
}

/// The timing reference: mean and standard deviation, floored.
fn ttfb_baseline_ref(
    status_codes: &HashMap<u16, usize>,
    ttfbs: &[u64],
    jitter_floor_ms: f64,
) -> Option<(u16, f64, f64)> {
    let timing = baseline_timing(status_codes, ttfbs)?;
    let mean = timing.total_ms as f64 / timing.count as f64;
    let variance = ttfbs.iter().map(|t| (*t as f64 - mean).powi(2)).sum::<f64>()
        / (timing.count - 1) as f64;
    Some((timing.status, mean, variance.sqrt().max(jitter_floor_ms)))
}

fn feat(
    status: u16,
    len: usize,
    ttfb: u64,
    words: usize,
    lines: usize,
    payload: &str,
) -> ResponseFeatures {
    ResponseFeatures {
        status_code: status,
        content_type: "text/html".into(),
        response_length: len,
        time_to_first_byte_ms: ttfb,
        response_words: words,
        response_lines: lines,
        content_length_minus_payload: len as i64 - 10,
        payload: Some(payload.to_string()),
    }
}

/// Mixed-status fixture:
/// - 6x 200s at (1000, 100ms, 100w, 10l)  -> one cluster
/// - 1x 200  at (9000, 100ms, 100w, 10l)   -> outlier (global index 6)
/// - 3x 500s at (300, 50ms, 30w, 3l)       -> own cluster
fn mixed_features() -> Vec<ResponseFeatures> {
    let mut v = Vec::new();
    for i in 0..6 {
        v.push(feat(200, 1000, 100, 100, 10, &format!("bulk-{}", i)));
    }
    v.push(feat(200, 9000, 100, 100, 10, "far"));
    for i in 0..3 {
        v.push(feat(500, 300, 50, 30, 3, &format!("err-{}", i)));
    }
    v
}

#[test]
fn clusters_are_homogeneous_and_indices_are_global() {
    let features = mixed_features();
    let result = perform_clustering(&features, 1.0, 3, 6, true, None, 0.0);

    // Two clusters: 6x200 and 3x500, largest first
    assert_eq!(result.clusters.len(), 2);
    assert_eq!(result.clusters[0].features.len(), 6);
    assert_eq!(result.clusters[1].features.len(), 3);
    for c in &result.clusters {
        let status = c.centroid.mode_status_code;
        assert!(c.features.iter().all(|f| f.status_code == status),
            "cluster {} mixes status codes", c.id);
    }
    assert_eq!(result.clusters[0].centroid.mode_status_code, 200);
    assert_eq!(result.clusters[1].centroid.mode_status_code, 500);

    // Outlier is the far 200, addressed by GLOBAL index
    assert_eq!(result.outliers, vec![6]);
    assert_eq!(result.noise_count, 1);
    assert_eq!(features[6].payload.as_deref(), Some("far"));

    // Sample payloads come from the cluster's real members
    assert!(result.clusters[0]
        .sample_payloads
        .iter()
        .all(|p| p.starts_with("bulk-")));
    assert!(result.clusters[1]
        .sample_payloads
        .iter()
        .all(|p| p.starts_with("err-")));
}

#[test]
fn max_clusters_is_a_global_cap() {
    let features = mixed_features();
    let result = perform_clustering(&features, 1.0, 3, 1, true, None, 0.0);

    // Only the largest cluster survives; the 500s are demoted to outliers
    assert_eq!(result.clusters.len(), 1);
    assert_eq!(result.clusters[0].centroid.mode_status_code, 200);
    assert_eq!(result.outliers, vec![6, 7, 8, 9]);
    assert_eq!(result.noise_count, 4);
}

#[test]
fn clustering_is_deterministic_across_runs() {
    let features = mixed_features();
    let a = perform_clustering(&features, 1.0, 3, 6, true, None, 0.0);
    let b = perform_clustering(&features, 1.0, 3, 6, true, None, 0.0);
    let sig = |r: &DbscanResult| {
        (
            r.clusters
                .iter()
                .map(|c| (c.id, c.centroid.mode_status_code, c.features.len()))
                .collect::<Vec<_>>(),
            r.outliers.clone(),
        )
    };
    assert_eq!(sig(&a), sig(&b));
}

#[test]
fn ttfb_baseline_ref_helper() {
    let mut statuses = HashMap::new();
    statuses.insert(200, 8);
    statuses.insert(500, 2);
    // mode status, mean, ddof=1 stddev above the floor: kept as-is
    let ref_ = ttfb_baseline_ref(&statuses, &[90, 110, 80, 120, 95, 105], 5.0).unwrap();
    assert_eq!(ref_.0, 200);
    assert!((ref_.1 - 100.0).abs() < 1e-9);
    assert!((ref_.2 - 14.4914).abs() < 1e-3);
    // near-stable endpoint: sigma floored to the given jitter
    let ref_ = ttfb_baseline_ref(&statuses, &[100; 10], 50.0).unwrap();
    assert!((ref_.2 - 50.0).abs() < 1e-9);
    // too few samples, or no statuses: no reference
    assert!(ttfb_baseline_ref(&statuses, &[100], 50.0).is_none());
    assert!(ttfb_baseline_ref(&HashMap::new(), &[100, 101], 50.0).is_none());
}

#[test]
fn baseline_scale_flags_anomaly_within_infamily_sigma() {
    // Bulk at 96..109 ms around a 100 ms baseline (sigma 5 ms), plus a
    // +50 ms anomaly and a +5 s sleep. In-family scaling would absorb the
    // +50 ms anomaly into the bulk (its sigma is inflated by the sleep);
    // the baseline reference must flag it.
    let mut features = Vec::new();
    for (i, ttfb) in [96u64, 98, 100, 101, 103, 105, 107, 109].into_iter().enumerate() {
        features.push(feat(200, 1000, ttfb, 100, 10, &format!("bulk-{}", i)));
    }
    features.push(feat(200, 1000, 150, 100, 10, "slow"));
    features.push(feat(200, 1000, 6000, 100, 10, "sleep"));

    let result = perform_clustering(&features, 1.0, 3, 6, true, Some((200, 100.0, 5.0)), 0.0);

    assert_eq!(result.clusters.len(), 1);
    assert_eq!(result.clusters[0].features.len(), 8);
    assert_eq!(result.outliers, vec![8, 9]);
}

#[test]
fn other_status_families_keep_their_own_scale() {
    // The reference is for 200s; 500s must be scaled in-family. If the
    // reference were (wrongly) applied to them, their 45..54 ms TTFBs
    // would sit at -110..-92 sigma and all be noise.
    let mut features = Vec::new();
    for (i, ttfb) in (45..=54).enumerate() {
        features.push(feat(500, 300, ttfb as u64, 30, 3, &format!("err-{}", i)));
    }
    let result = perform_clustering(&features, 1.0, 3, 6, true, Some((200, 100.0, 0.5)), 50.0);

    assert_eq!(result.clusters.len(), 1);
    assert_eq!(result.clusters[0].features.len(), 10);
    assert_eq!(result.noise_count, 0);
}

#[test]
fn no_timing_ignores_the_reference() {
    // With --disable-timing the TTFB column is absent; the reference
    // must be a no-op and the layout [length, words, lines] holds.
    let features = mixed_features();
    let result = perform_clustering(&features, 1.0, 3, 6, false, Some((200, 100.0, 5.0)), 50.0);
    assert_eq!(result.clusters.len(), 2);
    assert_eq!(result.outliers, vec![6]);
}

#[test]
fn jitter_floor_applies_to_other_families() {
    // A 500 family split 40/60 ms: in-family sigma (10 ms) breaks it
    // into two clusters, the 50 ms floor merges it into one.
    let mut features = Vec::new();
    for (i, ttfb) in [40u64, 40, 40, 60, 60, 60].into_iter().enumerate() {
        features.push(feat(500, 300, ttfb, 30, 3, &format!("err-{}", i)));
    }
    let no_floor = perform_clustering(&features, 1.0, 3, 6, true, None, 0.0);
    assert_eq!(no_floor.clusters.len(), 2);
    let floored = perform_clustering(&features, 1.0, 3, 6, true, None, 50.0);
    assert_eq!(floored.clusters.len(), 1);
    assert_eq!(floored.clusters[0].features.len(), 6);
    assert_eq!(floored.noise_count, 0);
}

#[test]
fn reflected_payloads_do_not_split_a_family() {
    // the response length tracks the payload length
    let mut features = Vec::new();
    for n in 1..=8usize {
        features.push(feat(404, 100 + n * 50, 10, n, n, &"x".repeat(n * 50)));
    }
    let result = perform_clustering(&features, 0.5, 3, 6, true, None, 50.0);
    assert_eq!(result.clusters.len(), 1);
    assert_eq!(result.noise_count, 0);
    assert_eq!(result.reflection, vec![(404, "1.00".to_string())]);
}

#[test]
fn no_responses_make_no_clusters() {
    let result = perform_clustering(&[], 1.0, 3, 6, true, None, 0.0);
    assert_eq!(result.clusters.len(), 0);
    assert_eq!(result.outliers, Vec::<usize>::new());
    assert_eq!(result.noise_count, 0);
    assert_eq!(result.reflection, vec![]);
}

#[test]
fn labels_count_within_a_status_code() {
    let features = vec![
        feat(200, 1, 1, 1, 1, "a"),
        feat(404, 2, 2, 2, 2, "b"),
        feat(200, 3, 3, 3, 3, "c"),
        feat(404, 4, 4, 4, 4, "d"),
        feat(301, 5, 5, 5, 5, "e"),
    ];
    let groups = group_by_status(&features);
    let seen: Vec<(u16, Vec<usize>)> =
        groups.iter().map(|g| (g.status, g.members.clone())).collect();
    assert_eq!(seen, vec![(200, vec![0, 2]), (301, vec![4]), (404, vec![1, 3])]);
    let labels = spread_labels(
        &features,
        &groups,
        &[vec![Some(0), Some(0)], vec![None], vec![Some(0), Some(7)]],
    );
    assert_eq!(labels, vec![Some(0), Some(0), Some(0), Some(7), None]);
    let result = assemble(&features, &labels, 6, vec![]);
    let members: Vec<Vec<usize>> = result.clusters.iter().map(|c| c.members.clone()).collect();
    assert_eq!(members, vec![vec![0, 2], vec![1], vec![3]]);
    let ids: Vec<usize> = result.clusters.iter().map(|c| c.id).collect();
    assert_eq!(ids, vec![0, 1, 2]);
    assert_eq!(result.outliers, vec![4]);
    // every response is placed once
    let sizes: usize = result.clusters.iter().map(|c| c.features.len()).sum();
    assert_eq!(sizes + result.noise_count, features.len());
}

#[test]
fn clusters_of_one_size_are_ordered_by_status_and_place() {
    let features = vec![
        feat(500, 1, 1, 1, 1, "a"),
        feat(200, 1, 1, 1, 1, "b"),
        feat(200, 1, 1, 1, 1, "c"),
    ];
    let result = assemble(&features, &[Some(3), Some(2), Some(1)], 2, vec![]);
    let members: Vec<Vec<usize>> = result.clusters.iter().map(|c| c.members.clone()).collect();
    assert_eq!(members, vec![vec![1], vec![2]]);
    assert_eq!(result.outliers, vec![0]);
    let none = assemble(&features, &[Some(3), Some(2), Some(1)], 0, vec![]);
    assert_eq!(none.clusters.len(), 0);
    assert_eq!(none.outliers, vec![0, 1, 2]);
}

#[test]
fn a_centroid_holds_totals_and_the_mode() {
    let features = vec![
        feat(500, 10, 1, 2, 3, "a"),
        feat(404, 20, 2, 4, 6, "b"),
        feat(404, 0, 3, 6, 9, "c"),
        feat(500, 5, 0, 0, 0, "d"),
    ];
    assert_eq!(
        calculate_centroid(&features),
        ClusterCentroid {
            mode_status_code: 404,
            size: 4,
            total_response_length: 35,
            total_ttfb_ms: 6,
            total_response_words: 12,
            total_response_lines: 18,
            total_content_length_minus_payload: -5,
        }
    );
    assert_eq!(calculate_centroid(&[]).mode_status_code, 0);
}

#[test]
fn the_first_payloads_are_samples() {
    let mut features: Vec<ResponseFeatures> =
        (0..8).map(|i| feat(200, 1, 1, 1, 1, &format!("p{}", i))).collect();
    features[1].payload = None;
    assert_eq!(collect_sample_payloads(&[7, 1, 0, 2], &features, 2), vec!["p7", "p0"]);
    assert_eq!(collect_sample_payloads(&[1], &features, 5), Vec::<String>::new());
    let labels = vec![Some(0); 8];
    let result = assemble(&features, &labels, 6, vec![]);
    assert_eq!(result.clusters[0].sample_payloads, vec!["p0", "p2", "p3", "p4", "p5"]);
}

#[test]
fn the_nearest_member_represents_a_cluster() {
    let bits = |d: f64| d.to_bits();
    assert_eq!(find_representative(&[]), None);
    assert_eq!(find_representative(&[bits(2.0), bits(0.5), bits(0.5)]), Some(1));
    assert_eq!(find_representative(&[bits(f64::NAN), bits(3.0)]), Some(1));
    assert_eq!(find_representative(&[bits(f64::NAN), bits(f64::INFINITY)]), Some(0));
    assert_eq!(find_representative(&[bits(f64::MAX), bits(f64::MAX)]), Some(0));
    assert_eq!(find_representative(&[bits(1.0), bits(0.0)]), Some(1));

    let features = mixed_features();
    let mut result = perform_clustering(&features, 1.0, 3, 6, true, None, 0.0);
    let before: Vec<Cluster> = result.clusters.clone();
    assert!(before.iter().all(|c| c.representative_response.is_none()));
    let distances = vec![vec![bits(1.0); 6], vec![bits(3.0), bits(2.0), bits(1.0)]];
    choose_representatives(&mut result, &distances);
    assert_eq!(result.clusters[0].representative_response, Some(0));
    assert_eq!(result.clusters[1].representative_response, Some(2));
    assert_eq!(result.clusters[1].members, before[1].members);
    assert_eq!(result.outliers, vec![6]);
}

#[test]
fn the_reference_is_that_of_the_most_common_status() {
    let mut statuses = HashMap::new();
    statuses.insert(503, 4);
    statuses.insert(200, 4);
    statuses.insert(404, 1);
    let timing = baseline_timing(&statuses, &[u64::MAX, u64::MAX, 1]).unwrap();
    assert_eq!(timing.status, 200);
    assert_eq!(timing.count, 3);
    assert_eq!(timing.total_ms, 2 * (u64::MAX as u128) + 1);
}

#[test]
fn other_status_codes_have_no_influence() {
    let features = mixed_features();
    for status in [200, 500] {
        let at: Vec<usize> =
            (0..features.len()).filter(|&i| features[i].status_code == status).collect();
        let family: Vec<ResponseFeatures> = at.iter().map(|&i| features[i].clone()).collect();
        let whole = perform_clustering(&features, 1.0, 3, features.len(), true, None, 0.0);
        let alone = perform_clustering(&family, 1.0, 3, features.len(), true, None, 0.0);
        let of_status: Vec<Vec<usize>> = whole
            .clusters
            .iter()
            .filter(|c| c.centroid.mode_status_code == status)
            .map(|c| c.members.clone())
            .collect();
        let by_itself: Vec<Vec<usize>> = alone
            .clusters
            .iter()
            .map(|c| c.members.iter().map(|&m| at[m]).collect())
            .collect();
        assert_eq!(of_status, by_itself);
        let outliers: Vec<usize> = alone.outliers.iter().map(|&m| at[m]).collect();
        let expected: Vec<usize> =
            whole.outliers.iter().copied().filter(|i| at.contains(i)).collect();
        assert_eq!(outliers, expected);
    }
}
