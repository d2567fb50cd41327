use std::collections::HashMap;
use webfuzzy::numbers::{describe_range, mean_of, sum_of, widen};
use webfuzzy::ranking::ranking;
use webfuzzy::status::{distribution, highest_count, most_common, tally};

#[test]
fn status_codes_are_counted() {
    let mut counts = HashMap::new();
    assert_eq!(most_common(&counts), None);
    assert_eq!(highest_count(&counts), 0);
    for code in [200, 404, 200, 500, 404] {
        tally(&mut counts, code);
    }
    assert_eq!(most_common(&counts), Some(200));
    assert_eq!(highest_count(&counts), 2);
    assert_eq!(distribution(&counts), vec![(200, 2), (404, 2), (500, 1)]);
}

#[test]
fn ties_keep_their_order() {
    assert_eq!(ranking(&[3, 1, 2, 1, 3]), vec![1, 3, 2, 0, 4]);
    assert_eq!(ranking(&[]), Vec::<usize>::new());
    let keys: Vec<u128> = vec![5, 9, 5, 0, u128::MAX, 9];
    let mut sorted: Vec<usize> = (0..keys.len()).collect();
    sorted.sort_by_key(|&i| keys[i]);
    assert_eq!(ranking(&keys), sorted);
}

#[test]
fn columns_are_described() {
    assert_eq!(describe_range(&[33, 132, 3]), "mean 56, min 3, max 132");
    assert_eq!(describe_range(&[7]), "mean 7, min 7, max 7");
    assert_eq!(describe_range(&[]), "mean 0, min 0, max 0");
    assert_eq!(sum_of(&[u64::MAX, u64::MAX]), 2 * (u64::MAX as u128));
    assert_eq!(mean_of(&[u64::MAX, u64::MAX]), u64::MAX);
    assert_eq!(mean_of(&[1, 2]), 1);
    assert_eq!(widen(&[1, 2]), vec![1, 2]);
}
