use tdigest::cluster::{Cluster, DigestError};
use tdigest::merge::{interleave, merge};

#[test]
fn interleave_follows_the_order() {
    let a = vec![1, 2, 3];
    let b = vec![10, 20];
    let t = vec![true, false, true, false, true];
    assert_eq!(interleave(&a, &b, &t), Some(vec![1, 10, 2, 20, 3]));
    let t = vec![false, false, true, true, true];
    assert_eq!(interleave(&a, &b, &t), Some(vec![10, 20, 1, 2, 3]));
}

#[test]
fn interleave_rejects_wrong_counts() {
    let a = vec![1, 2];
    let b = vec![10];
    assert_eq!(interleave(&a, &b, &vec![true, true, true]), None);
    assert_eq!(interleave(&a, &b, &vec![false, false, true]), None);
    assert_eq!(interleave(&a, &b, &vec![true, false]), None);
    assert_eq!(interleave(&a, &b, &vec![true, false, true, true]), None);
}

#[test]
fn merge_keeps_total_weight() {
    let a = vec![3, 5, 2];
    let b = vec![4, 1];
    let t = vec![true, false, true, false, true];
    // cumulative weights 3, 7, 12, 13, 15
    let ks = vec![3, 7, 12, 13, 15];
    let r = merge(&a, &b, &t, &ks, 4).unwrap();
    assert_eq!(
        r,
        vec![
            Cluster { first: 0, count: 2, weight: 7 },
            Cluster { first: 2, count: 1, weight: 5 },
            Cluster { first: 3, count: 2, weight: 3 },
        ]
    );
    let total: u64 = r.iter().map(|c| c.weight).sum();
    assert_eq!(total, 10 + 5);
}

#[test]
fn merge_with_bad_order_is_refused() {
    let a = vec![3, 5];
    let b = vec![4];
    let t = vec![true, true, true];
    assert_eq!(merge(&a, &b, &t, &vec![0, 0, 0], 1), Err(DigestError::MismatchedOrder));
}

#[test]
fn merge_of_nothing_is_invalid_input() {
    let e: Vec<u64> = vec![];
    assert_eq!(merge(&e, &e, &vec![], &vec![], 1), Err(DigestError::InvalidInput));
}
