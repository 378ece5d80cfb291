use tdigest::query::{locate, Located};

fn straddle(index: usize, cum_weight: u64, left: usize, right: usize, halved: bool) -> Located {
    Located::Straddle { index, cum_weight, left, right, halved }
}

#[test]
fn fewer_than_three_centroids_is_degenerate() {
    for t in [-5i64, 0, 1, 2, 100] {
        assert_eq!(locate(&vec![1, 1], t), Located::Degenerate);
        assert_eq!(locate(&vec![4], t), Located::Degenerate);
        assert_eq!(locate(&vec![], t), Located::Degenerate);
    }
}

#[test]
fn target_zero_lands_in_first_centroid() {
    assert_eq!(locate(&vec![2, 3, 4], 0), straddle(0, 0, 0, 1, false));
}

#[test]
fn negative_target_lands_in_first_centroid() {
    assert_eq!(locate(&vec![2, 3, 4], -7), straddle(0, 0, 0, 1, false));
}

#[test]
fn interior_centroid_takes_half_span() {
    // ends at 2, 5, 9, 10
    assert_eq!(locate(&vec![2, 3, 4, 1], 2), straddle(1, 2, 0, 2, true));
    assert_eq!(locate(&vec![2, 3, 4, 1], 4), straddle(1, 2, 0, 2, true));
    assert_eq!(locate(&vec![2, 3, 4, 1], 5), straddle(2, 5, 1, 3, true));
}

#[test]
fn last_centroid_takes_span_from_previous() {
    assert_eq!(locate(&vec![2, 3, 4, 1], 9), straddle(3, 9, 2, 3, false));
}

#[test]
fn target_at_total_is_past_end() {
    assert_eq!(locate(&vec![2, 3, 4, 1], 10), Located::PastEnd);
    assert_eq!(locate(&vec![2, 3, 4, 1], 11), Located::PastEnd);
}

#[test]
fn larger_target_never_lands_earlier() {
    let ws = vec![1, 5, 2, 2, 7, 1];
    let mut last = 0usize;
    for t in 0..18i64 {
        match locate(&ws, t) {
            Located::Straddle { index, .. } => {
                assert!(index >= last);
                last = index;
            }
            Located::PastEnd => assert!(t >= 18),
            Located::Degenerate => panic!("three or more centroids"),
        }
    }
}
