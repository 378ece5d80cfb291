use tdigest::cluster::{build, DigestError};
use tdigest::query::{locate, Located};

const UNIT: u64 = 1 << 20;

fn scale(q: f32, delta: f32) -> f32 {
    delta / (2.0 * std::f32::consts::PI) * (2.0 * q - 1.0).asin()
}

fn offset(q: f32, delta: f32) -> u64 {
    let d = (scale(q, delta) - scale(0.0, delta)) as f64 * UNIT as f64;
    if d > 0.0 {
        d.round() as u64
    } else {
        0
    }
}

fn digest(samples: &[f32], delta: f32) -> Result<(Vec<f32>, Vec<u64>), DigestError> {
    let n = samples.len();
    let ks: Vec<u64> = (0..n).map(|i| offset((i as f32 + 1.0) / n as f32, delta)).collect();
    let cs = build(&ks, UNIT)?;
    let means = cs
        .iter()
        .map(|c| samples[c.first..c.first + c.count].iter().sum::<f32>() / c.count as f32)
        .collect();
    let weights = cs.iter().map(|c| c.weight).collect();
    Ok((means, weights))
}

fn quantile(means: &[f32], weights: &[u64], x: f32) -> f32 {
    let total: u64 = weights.iter().sum();
    let q = x * total as f32;
    match locate(&weights.to_vec(), q.floor() as i64) {
        Located::Degenerate => 0.0,
        Located::PastEnd => means[means.len() - 1],
        Located::Straddle { index, cum_weight, left, right, halved } => {
            let mut slope = means[right] - means[left];
            if halved {
                slope /= 2.0;
            }
            means[index] + ((q - cum_weight as f32) / weights[index] as f32 - 0.5) * slope
        }
    }
}

fn one_to_ten() -> Vec<f32> {
    (1..=10).map(|i| i as f32).collect()
}

#[test]
fn loose_delta_compresses_to_one_centroid() {
    let (means, weights) = digest(&one_to_ten(), 0.01).unwrap();
    assert_eq!(weights, vec![10]);
    assert!((means[0] - 5.5).abs() < 1e-6);
    // a single centroid is below the three that interpolation needs
    assert_eq!(quantile(&means, &weights, 0.5), 0.0);
}

#[test]
fn tight_delta_keeps_every_sample() {
    let (means, weights) = digest(&one_to_ten(), 1000.0).unwrap();
    assert_eq!(weights, vec![1; 10]);
    assert_eq!(means, one_to_ten());
    assert!((quantile(&means, &weights, 0.5) - 5.5).abs() < 1e-5);
}

#[test]
fn empty_input_is_invalid() {
    assert_eq!(digest(&[], 10.0), Err(DigestError::InvalidInput));
}

#[test]
fn two_samples_give_the_sentinel() {
    let (means, weights) = digest(&[1.0, 2.0], 1000.0).unwrap();
    assert_eq!(weights.iter().sum::<u64>(), 2);
    for x in [0.0f32, 0.25, 0.5, 1.0, 3.0, -1.0] {
        assert_eq!(quantile(&means, &weights, x), 0.0);
    }
}

#[test]
fn identical_values_give_one_centroid() {
    let samples = vec![4.25f32; 50];
    let (means, weights) = digest(&samples, 1.5).unwrap();
    assert_eq!(weights, vec![50]);
    assert_eq!(means, vec![4.25]);
}

#[test]
fn conservation_and_order_on_sorted_samples() {
    let samples: Vec<f32> = (0..1000).map(|i| ((i * i) % 997) as f32).collect();
    let mut samples = samples;
    samples.sort_by(|a, b| a.total_cmp(b));
    let (means, weights) = digest(&samples, 100.0).unwrap();
    assert_eq!(weights.iter().sum::<u64>(), 1000);
    assert!(means.len() >= 3);
    for w in means.windows(2) {
        assert!(w[0] <= w[1]);
    }
    assert!(quantile(&means, &weights, 0.0) <= quantile(&means, &weights, 1.0));
    assert_eq!(quantile(&means, &weights, 1.0), means[means.len() - 1]);
}
