use finalfrontier::config::ConfigError;
use finalfrontier::util::{discard_probability, isqrt, DISCARD_SCALE};
use finalfrontier::vocab::{Cutoff, Vocab, VocabBuilder};

fn builder_from(tokens: &[&str]) -> VocabBuilder {
    let mut b = VocabBuilder::new();
    for t in tokens {
        b.count(t);
    }
    b
}

#[test]
fn isqrt_exact() {
    assert_eq!(isqrt(0), 0);
    assert_eq!(isqrt(1), 1);
    assert_eq!(isqrt(3), 1);
    assert_eq!(isqrt(4), 2);
    assert_eq!(isqrt(15), 3);
    assert_eq!(isqrt(16), 4);
    assert_eq!(isqrt(u64::MAX), 4294967295);
}

#[test]
fn discard_probability_zero_at_implied_frequency() {
    // threshold 0.1 (1e8 ppb), total 1000: implied frequency is 100.
    assert_eq!(discard_probability(100, 1000, 100_000_000), 0);
}

#[test]
fn discard_probability_zero_below_threshold() {
    // rarer than the implied frequency: ratio above one, never discarded
    assert_eq!(discard_probability(5, 1000, 100_000_000), 0);
}

#[test]
fn discard_probability_one_in_the_limit() {
    // a zero threshold drives the ratio to zero: certain discard
    assert_eq!(discard_probability(5, 10, 0), DISCARD_SCALE);
}

#[test]
fn discard_probability_in_unit_range() {
    for count in [1u64, 2, 10, 500, 1000] {
        for t in [0u64, 1, 1000, 100_000, 1_000_000_000] {
            let p = discard_probability(count, 1000, t);
            assert!(p <= DISCARD_SCALE);
        }
    }
}

#[test]
fn vocab_ids_dense_and_sorted() {
    let b = builder_from(&["the", "cat", "the", "dog", "the", "cat"]);
    let v = Vocab::from_builder(b, Cutoff::MinCount(2), 100_000).unwrap();
    assert_eq!(v.n_types(), 2);
    assert_eq!(v.n_tokens(), 6);
    assert_eq!(v.word(0), "the");
    assert_eq!(v.count(0), 3);
    assert_eq!(v.word(1), "cat");
    assert_eq!(v.count(1), 2);
    // every surviving id's frequency reaches the cutoff
    for id in 0..v.n_types() {
        assert!(v.count(id) >= 2);
    }
    assert_eq!(v.idx("the"), Some(0));
    assert_eq!(v.idx("cat"), Some(1));
    assert_eq!(v.idx("dog"), None);
    assert_eq!(v.idx("unseen"), None);
}

#[test]
fn vocab_ties_break_by_first_seen() {
    let b = builder_from(&["b", "a", "b", "a"]);
    let v = Vocab::from_builder(b, Cutoff::MinCount(1), 100_000).unwrap();
    // equal counts: "b" was seen first and takes the lower id
    assert_eq!(v.word(0), "b");
    assert_eq!(v.word(1), "a");
    assert_eq!(v.first_seen(0), 0);
    assert_eq!(v.first_seen(1), 1);
}

#[test]
fn vocab_target_size_keeps_top() {
    let b = builder_from(&["x", "y", "x", "z", "x", "y"]);
    let v = Vocab::from_builder(b, Cutoff::TargetSize(2), 100_000).unwrap();
    assert_eq!(v.n_types(), 2);
    assert_eq!(v.word(0), "x");
    assert_eq!(v.count(0), 3);
    assert_eq!(v.word(1), "y");
    assert_eq!(v.count(1), 2);
    assert_eq!(v.idx("z"), None);
}

#[test]
fn vocab_empty_after_cutoff_is_error() {
    let b = builder_from(&["rare", "words"]);
    let r = Vocab::from_builder(b, Cutoff::MinCount(10), 100_000);
    assert!(matches!(r, Err(ConfigError::EmptyVocab)));
}

#[test]
fn vocab_discard_probabilities_attached() {
    let b = builder_from(&["w", "w", "w", "w"]);
    // threshold 1: every token far above it, discard certain
    let v = Vocab::from_builder(b, Cutoff::MinCount(1), 0).unwrap();
    assert_eq!(v.discard(0), DISCARD_SCALE);
    let b2 = builder_from(&["w", "w", "w", "w"]);
    // threshold one billion ppb: nothing is ever discarded
    let v2 = Vocab::from_builder(b2, Cutoff::MinCount(1), 1_000_000_000).unwrap();
    assert_eq!(v2.discard(0), 0);
}

#[test]
fn builder_add_count_aggregates() {
    let mut b = VocabBuilder::new();
    b.add_count("ng", 5);
    b.add_count("ng", 3);
    b.add_count("other", 2);
    let items = b.into_items();
    assert_eq!(items.len(), 2);
    assert_eq!(items[0].label(), "ng");
    assert_eq!(items[0].count(), 8);
    assert_eq!(items[1].label(), "other");
    assert_eq!(items[1].count(), 2);
}
