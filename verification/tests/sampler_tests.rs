use finalfrontier::config::ConfigError;
use finalfrontier::sampling::{NegativeSampler, TrainRng};

#[test]
fn sampler_rejects_zero_total() {
    let r = NegativeSampler::new(&vec![0, 0, 0]);
    assert!(matches!(r, Err(ConfigError::EmptyVocab)));
    let r2 = NegativeSampler::new(&vec![]);
    assert!(matches!(r2, Err(ConfigError::EmptyVocab)));
}

#[test]
fn draw_blocks_follow_weights_exactly() {
    let weights = vec![400_000u64, 283_000, 231_000, 200_000];
    let s = NegativeSampler::new(&weights).unwrap();
    assert_eq!(s.len(), 4);
    assert_eq!(s.total(), 1_114_000);
    // each rank owns a block of draws of exactly its weight
    assert_eq!(s.draw_at(0), 0);
    assert_eq!(s.draw_at(399_999), 0);
    assert_eq!(s.draw_at(400_000), 1);
    assert_eq!(s.draw_at(682_999), 1);
    assert_eq!(s.draw_at(683_000), 2);
    assert_eq!(s.draw_at(913_999), 2);
    assert_eq!(s.draw_at(914_000), 3);
    assert_eq!(s.draw_at(1_113_999), 3);
}

#[test]
fn draw_distribution_matches_zipfian_weights() {
    // rank weights proportional to 1 / sqrt(rank + 1), the default
    // Zipf exponent of one half
    let n = 8usize;
    let weights: Vec<u64> = (0..n)
        .map(|r| (1_000_000.0 / ((r + 1) as f64).sqrt()) as u64)
        .collect();
    let s = NegativeSampler::new(&weights).unwrap();
    let total: u64 = weights.iter().sum();
    let draws = 200_000usize;
    let mut observed = vec![0u64; n];
    let mut rng = TrainRng::from_seed(7);
    for _ in 0..draws {
        let r = s.draw(&mut rng);
        assert!(r < n);
        observed[r] += 1;
    }
    // chi-squared goodness of fit against the normalized weights
    let mut chi2 = 0.0f64;
    for r in 0..n {
        let expected = draws as f64 * weights[r] as f64 / total as f64;
        let diff = observed[r] as f64 - expected;
        chi2 += diff * diff / expected;
    }
    // 7 degrees of freedom: the 99.9% quantile is about 24.3
    assert!(chi2 < 24.3, "chi-squared too large: {}", chi2);
}

#[test]
fn seeded_generators_are_reproducible() {
    let mut a = TrainRng::from_seed(99);
    let mut b = TrainRng::from_seed(99);
    for _ in 0..32 {
        assert_eq!(a.next_u32(), b.next_u32());
    }
    let mut c = TrainRng::from_seed(100);
    let first_diff = (0..32).any(|_| a.next_u32() != c.next_u32());
    assert!(first_diff);
}

#[test]
fn single_rank_sampler_always_draws_it() {
    let s = NegativeSampler::new(&vec![5]).unwrap();
    let mut rng = TrainRng::from_seed(3);
    for _ in 0..50 {
        assert_eq!(s.draw(&mut rng), 0);
    }
}
