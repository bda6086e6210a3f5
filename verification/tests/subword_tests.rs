use finalfrontier::config::{BucketIndexerType, ConfigError};
use finalfrontier::subword::{
    count_vocab_ngrams, explicit_subword_ids, hash_fasttext, hash_fnv1a, ngrams, pow2_u64,
    BucketIndexer, ExplicitIndexer, SubwordVocab,
};
use finalfrontier::vocab::{CountedType, Cutoff, Vocab, VocabBuilder};

#[test]
fn fnv1a_known_values() {
    assert_eq!(hash_fnv1a(&vec![]), 0xcbf29ce484222325);
    // standard FNV-1a-64 test vector for "a"
    assert_eq!(hash_fnv1a(&vec![b'a']), 0xaf63dc4c8601ec8c);
}

#[test]
fn fasttext_hash_known_values() {
    assert_eq!(hash_fasttext(&vec![]), 2166136261);
    // one step by hand: (2166136261 ^ 'a') * 16777619 mod 2^32
    let expected = (2166136261u32 ^ (b'a' as u32)).wrapping_mul(16777619);
    assert_eq!(hash_fasttext(&vec![b'a']), expected);
}

#[test]
fn bucket_range_is_exactly_two_to_the_exponent() {
    assert_eq!(pow2_u64(0), 1);
    assert_eq!(pow2_u64(4), 16);
    assert_eq!(pow2_u64(21), 2_097_152);
    let ix = BucketIndexer::new(21, BucketIndexerType::Finalfusion);
    assert_eq!(ix.n_buckets(), 2_097_152);
}

#[test]
fn identical_ngrams_hash_to_identical_buckets() {
    let ix = BucketIndexer::new(10, BucketIndexerType::Finalfusion);
    let a = ix.index_ngram("tion");
    let b = ix.index_ngram("tion");
    assert_eq!(a, b);
    assert!(a < 1024);
    let fx = BucketIndexer::new(10, BucketIndexerType::FastText);
    assert_eq!(fx.index_ngram("tion"), fx.index_ngram("tion"));
    assert!(fx.index_ngram("tion") < 1024);
}

#[test]
fn bucket_id_is_hash_mod_buckets() {
    let ix = BucketIndexer::new(4, BucketIndexerType::Finalfusion);
    let expected = hash_fnv1a(&"tion".as_bytes().to_vec()) % 16;
    assert_eq!(ix.index_ngram("tion"), expected);
    let fx = BucketIndexer::new(4, BucketIndexerType::FastText);
    let expected_ft = (hash_fasttext(&"tion".as_bytes().to_vec()) as u64) % 16;
    assert_eq!(fx.index_ngram("tion"), expected_ft);
}

#[test]
fn ngrams_of_bracketed_word() {
    let g = ngrams("ab", 3, 3);
    assert_eq!(g, vec!["<ab".to_string(), "ab>".to_string()]);
    let g2 = ngrams("a", 1, 2);
    assert_eq!(
        g2,
        vec![
            "<".to_string(),
            "<a".to_string(),
            "a".to_string(),
            "a>".to_string(),
            ">".to_string()
        ]
    );
}

#[test]
fn subword_vocab_ids_live_past_word_range() {
    let mut b = VocabBuilder::new();
    for t in ["ab", "ab", "cd"] {
        b.count(t);
    }
    let v = Vocab::from_builder(b, Cutoff::MinCount(1), 100_000).unwrap();
    let n_types = v.n_types() as u64;
    let ix = BucketIndexer::new(4, BucketIndexerType::Finalfusion);
    let sv = SubwordVocab::new(v, ix, 2, 2).unwrap();
    // "ab" brackets to "<ab>": three 2-grams
    let ids = sv.subword_ids(0);
    assert_eq!(ids.len(), 3);
    for id in ids {
        assert!(*id >= n_types);
        assert!(*id < n_types + 16);
    }
    // cross-check one bucket id against the hash directly
    let expected = n_types + hash_fnv1a(&"<a".as_bytes().to_vec()) % 16;
    assert_eq!(ids[0], expected);
}

#[test]
fn subword_vocab_rejects_bad_bounds() {
    let mut b = VocabBuilder::new();
    b.count("w");
    let v = Vocab::from_builder(b, Cutoff::MinCount(1), 100_000).unwrap();
    let ix = BucketIndexer::new(4, BucketIndexerType::Finalfusion);
    let r = SubwordVocab::new(v, ix, 3, 2);
    assert!(matches!(r, Err(ConfigError::InvalidSubwordBounds)));
}

#[test]
fn rare_ngram_gets_no_id() {
    let counts = vec![
        CountedType {
            label: "ab".to_string(),
            count: 5,
        },
        CountedType {
            label: "cd".to_string(),
            count: 1,
        },
    ];
    let ix = ExplicitIndexer::from_counts(counts, 2);
    assert_eq!(ix.len(), 1);
    assert_eq!(ix.index_of("ab"), Some(0));
    assert_eq!(ix.index_of("cd"), None);
    // "cd" is below the cutoff: it appears in no word's id list
    let ids = explicit_subword_ids(&ix, "cd", 2, 2, 10);
    assert!(ids.is_empty());
    // "ab" holds an id: it appears, offset past the word range
    let ids_ab = explicit_subword_ids(&ix, "ab", 2, 2, 10);
    assert_eq!(ids_ab, vec![10]);
}

#[test]
fn cutoff_above_all_frequencies_empties_every_list() {
    let counts = vec![
        CountedType {
            label: "ab".to_string(),
            count: 5,
        },
        CountedType {
            label: "b>".to_string(),
            count: 7,
        },
    ];
    let ix = ExplicitIndexer::from_counts(counts, 100);
    assert_eq!(ix.len(), 0);
    for word in ["ab", "cd", "abcd"] {
        assert!(explicit_subword_ids(&ix, word, 2, 3, 0).is_empty());
    }
}

#[test]
fn fasttext_hash_sign_extends_high_bytes() {
    // a byte at or above 128 is folded in sign-extended, as fastText
    // reads bytes as signed chars
    let ext = 0xFFFFFF00u32 + 0xC3u32;
    let expected = (2166136261u32 ^ ext).wrapping_mul(16777619);
    assert_eq!(hash_fasttext(&vec![0xC3]), expected);
    // a non-ASCII n-gram runs through the same path end to end
    let ix = BucketIndexer::new(8, BucketIndexerType::FastText);
    assert_eq!(ix.index_ngram("é"), ix.index_ngram("é"));
    assert!(ix.index_ngram("é") < 256);
}

#[test]
fn pow2_u64_at_the_top() {
    assert_eq!(pow2_u64(63), 1u64 << 63);
}

#[test]
fn ngram_frequencies_weighted_by_word_counts() {
    let mut b = VocabBuilder::new();
    for t in ["ab", "ab", "cd"] {
        b.count(t);
    }
    let v = Vocab::from_builder(b, Cutoff::MinCount(1), 100_000).unwrap();
    let mut counter = VocabBuilder::new();
    assert!(count_vocab_ngrams(&v, 2, 2, &mut counter));
    let items = counter.into_items();
    // an n-gram's frequency is the sum of its words' counts
    let count_of = |label: &str| {
        items
            .iter()
            .find(|t| t.label() == label)
            .map(|t| t.count())
            .unwrap_or(0)
    };
    assert_eq!(count_of("<a"), 2);
    assert_eq!(count_of("ab"), 2);
    assert_eq!(count_of("b>"), 2);
    assert_eq!(count_of("<c"), 1);
    assert_eq!(count_of("cd"), 1);
    assert_eq!(count_of("d>"), 1);
    assert_eq!(count_of("xy"), 0);
}
