use finalfrontier::config::{DepembedsConfig, ModelType, SkipGramConfig};
use finalfrontier::deps::{dependency_contexts, projectivize, DepToken};
use finalfrontier::sampling::TrainRng;
use finalfrontier::skipgram::{context_positions, lookup_sentence, output_row, train_pairs};
use finalfrontier::train_info::TrainInfo;
use finalfrontier::vocab::{Cutoff, Vocab, VocabBuilder};

fn dep_config() -> DepembedsConfig {
    DepembedsConfig {
        depth: 1,
        use_root: false,
        normalize: false,
        projectivize: false,
        untyped: true,
    }
}

#[test]
fn window_positions_clip_to_sentence() {
    assert_eq!(context_positions(0, 4, 2), vec![1, 2]);
    assert_eq!(context_positions(2, 4, 1), vec![1, 3]);
    assert_eq!(context_positions(3, 4, 2), vec![1, 2]);
    assert_eq!(context_positions(0, 1, 5), Vec::<usize>::new());
}

#[test]
fn directional_rows_distinguish_before_from_after() {
    // offsets -3 and +3 of the same pair map to different rows
    let before = output_row(ModelType::DirectionalSkipgram, 7, -3, 5);
    let after = output_row(ModelType::DirectionalSkipgram, 7, 3, 5);
    assert_ne!(before, after);
    assert_eq!(before, 14);
    assert_eq!(after, 15);
}

#[test]
fn structured_rows_distinguish_offsets() {
    // offsets -3 and -2 of the same pair map to different rows
    let a = output_row(ModelType::StructuredSkipGram, 7, -3, 5);
    let b = output_row(ModelType::StructuredSkipGram, 7, -2, 5);
    assert_ne!(a, b);
    assert_eq!(a, 7 * 10 + 2);
    assert_eq!(b, 7 * 10 + 3);
    // plain skip-gram keeps the id itself
    assert_eq!(output_row(ModelType::SkipGram, 7, -3, 5), 7);
}

fn two_word_vocab() -> Vocab {
    let mut b = VocabBuilder::new();
    for t in ["a", "b", "b", "a", "a", "b", "a"] {
        b.count(t);
    }
    // threshold of one billion ppb: no token is ever discarded
    Vocab::from_builder(b, Cutoff::MinCount(1), 1_000_000_000).unwrap()
}

#[test]
fn lookup_maps_unknown_words_to_none() {
    let v = two_word_vocab();
    let ids = lookup_sentence(
        &v,
        &vec!["a".to_string(), "x".to_string(), "b".to_string()],
    );
    assert_eq!(ids, vec![Some(0), None, Some(1)]);
}

#[test]
fn skipgram_pairs_of_synthetic_corpus() {
    // a three-sentence corpus over a two-word vocabulary,
    // context size one; with no subsampling the pair stream is
    // exactly the window enumeration
    let v = two_word_vocab();
    assert_eq!(v.n_types(), 2);
    assert_eq!(v.idx("a"), Some(0));
    assert_eq!(v.idx("b"), Some(1));
    let config = SkipGramConfig {
        model: ModelType::SkipGram,
        context_size: 1,
    };
    let mut rng = TrainRng::from_seed(42);
    let sentences = vec![
        vec!["a".to_string(), "b".to_string()],
        vec!["b".to_string(), "a".to_string()],
        vec!["a".to_string(), "b".to_string(), "a".to_string()],
    ];
    let mut stream = Vec::new();
    for s in &sentences {
        let ids = lookup_sentence(&v, s);
        for p in train_pairs(&v, &ids, config, &mut rng) {
            stream.push((p.focus, p.output));
        }
    }
    assert_eq!(
        stream,
        vec![
            (0, 1),
            (1, 0),
            (1, 0),
            (0, 1),
            (0, 1),
            (1, 0),
            (1, 0),
            (0, 1)
        ]
    );
}

#[test]
fn skipgram_pairs_deterministic_across_runs() {
    // the same seed gives the same pair stream, run twice
    let v = two_word_vocab();
    let config = SkipGramConfig {
        model: ModelType::SkipGram,
        context_size: 1,
    };
    let sentence = vec!["a".to_string(), "b".to_string(), "a".to_string()];
    let ids = lookup_sentence(&v, &sentence);
    let mut r1 = TrainRng::from_seed(5);
    let mut r2 = TrainRng::from_seed(5);
    let p1: Vec<(usize, u64)> = train_pairs(&v, &ids, config, &mut r1)
        .into_iter()
        .map(|p| (p.focus, p.output))
        .collect();
    let p2: Vec<(usize, u64)> = train_pairs(&v, &ids, config, &mut r2)
        .into_iter()
        .map(|p| (p.focus, p.output))
        .collect();
    assert_eq!(p1, p2);
}

#[test]
fn projectivize_is_noop_on_projective_tree() {
    // a chain is projective
    let heads = vec![None, Some(0), Some(1)];
    let once = projectivize(&heads).unwrap();
    assert_eq!(once, heads);
    // idempotence: a second application changes nothing either
    let twice = projectivize(&once).unwrap();
    assert_eq!(twice, once);
}

#[test]
fn projectivize_lifts_crossing_arcs() {
    // arcs (0,2) and (1,3) cross
    let heads = vec![Some(2), Some(3), None, None];
    let fixed = projectivize(&heads).unwrap();
    assert_ne!(fixed, heads);
    // the result is projective: a further application is a no-op
    assert_eq!(projectivize(&fixed).unwrap(), fixed);
}

fn chain_tokens() -> Vec<DepToken> {
    vec![
        DepToken {
            form: "Root_w".to_string(),
            relation: "-".to_string(),
        },
        DepToken {
            form: "B".to_string(),
            relation: "nsubj".to_string(),
        },
        DepToken {
            form: "C".to_string(),
            relation: "obj".to_string(),
        },
    ]
}

#[test]
fn dependency_contexts_untyped_depth_one() {
    let tokens = chain_tokens();
    let heads = vec![None, Some(0), Some(1)];
    let ctxs = dependency_contexts(&tokens, &heads, 1, dep_config());
    let mut got: Vec<(Option<usize>, String)> = ctxs
        .into_iter()
        .map(|c| (c.position, c.label))
        .collect();
    got.sort();
    assert_eq!(
        got,
        vec![
            (Some(0), "Root_w".to_string()),
            (Some(2), "C".to_string())
        ]
    );
}

#[test]
fn dependency_contexts_normalize_lowercases() {
    let tokens = chain_tokens();
    let heads = vec![None, Some(0), Some(1)];
    let mut config = dep_config();
    config.normalize = true;
    let ctxs = dependency_contexts(&tokens, &heads, 1, config);
    let mut labels: Vec<String> = ctxs.into_iter().map(|c| c.label).collect();
    labels.sort();
    assert_eq!(labels, vec!["c".to_string(), "root_w".to_string()]);
}

#[test]
fn dependency_contexts_typed_labels() {
    let tokens = chain_tokens();
    let heads = vec![None, Some(0), Some(1)];
    let mut config = dep_config();
    config.untyped = false;
    let ctxs = dependency_contexts(&tokens, &heads, 1, config);
    let mut labels: Vec<String> = ctxs.into_iter().map(|c| c.label).collect();
    labels.sort();
    assert_eq!(
        labels,
        vec!["nsubj-1/Root_w".to_string(), "obj/C".to_string()]
    );
}

#[test]
fn dependency_contexts_root_only_when_asked() {
    let tokens = chain_tokens();
    let heads = vec![None, Some(0), Some(1)];
    let without = dependency_contexts(&tokens, &heads, 0, dep_config());
    assert!(without.iter().all(|c| c.position.is_some()));
    let mut config = dep_config();
    config.use_root = true;
    let with = dependency_contexts(&tokens, &heads, 0, config);
    assert!(with.iter().any(|c| c.position.is_none() && c.label == "ROOT"));
}

#[test]
fn dependency_contexts_depth_two_reaches_grandparent() {
    let tokens = chain_tokens();
    let heads = vec![None, Some(0), Some(1)];
    let mut config = dep_config();
    config.depth = 2;
    let ctxs = dependency_contexts(&tokens, &heads, 2, config);
    let mut positions: Vec<Option<usize>> =
        ctxs.into_iter().map(|c| c.position).collect();
    positions.sort();
    assert_eq!(positions, vec![Some(0), Some(1)]);
}

#[test]
fn train_info_records_run_metadata() {
    let mut info = TrainInfo::new("corpus.txt".to_string(), "out.fifu".to_string(), 4);
    assert_eq!(info.corpus(), "corpus.txt");
    assert_eq!(info.output(), "out.fifu");
    assert_eq!(info.n_threads(), 4);
    assert_eq!(info.start_datetime().len(), 19);
    assert!(info.end_datetime().is_none());
    info.set_end();
    assert!(info.end_datetime().is_some());
    assert_eq!(info.end_datetime().unwrap().len(), 19);
}

#[test]
fn structured_pairs_tag_each_offset() {
    let v = two_word_vocab();
    let config = SkipGramConfig {
        model: ModelType::StructuredSkipGram,
        context_size: 1,
    };
    let sentence = vec!["a".to_string(), "b".to_string()];
    let ids = lookup_sentence(&v, &sentence);
    let mut rng = TrainRng::from_seed(1);
    let pairs: Vec<(usize, u64)> = train_pairs(&v, &ids, config, &mut rng)
        .into_iter()
        .map(|p| (p.focus, p.output))
        .collect();
    // two slots per id: context id * 2 + offset index (0 for -1, 1 for +1)
    assert_eq!(pairs, vec![(0, 1 * 2 + 1), (1, 0 * 2 + 0)]);
}

#[test]
fn directional_pairs_tag_the_direction() {
    let v = two_word_vocab();
    let config = SkipGramConfig {
        model: ModelType::DirectionalSkipgram,
        context_size: 1,
    };
    let sentence = vec!["a".to_string(), "b".to_string()];
    let ids = lookup_sentence(&v, &sentence);
    let mut rng = TrainRng::from_seed(1);
    let pairs: Vec<(usize, u64)> = train_pairs(&v, &ids, config, &mut rng)
        .into_iter()
        .map(|p| (p.focus, p.output))
        .collect();
    // two slots per id: "after" for the first focus, "before" for the second
    assert_eq!(pairs, vec![(0, 2 * 1 + 1), (1, 2 * 0 + 0)]);
}

#[test]
fn zero_threshold_discards_every_token() {
    // a zero threshold makes every frequent token's discard certain;
    // no pairs survive
    let mut b = VocabBuilder::new();
    for t in ["a", "b", "a", "b"] {
        b.count(t);
    }
    let v = Vocab::from_builder(b, Cutoff::MinCount(1), 0).unwrap();
    let config = SkipGramConfig {
        model: ModelType::SkipGram,
        context_size: 1,
    };
    let sentence = vec!["a".to_string(), "b".to_string()];
    let ids = lookup_sentence(&v, &sentence);
    let mut rng = TrainRng::from_seed(1);
    let pairs = train_pairs(&v, &ids, config, &mut rng);
    assert!(pairs.is_empty());
}

#[test]
fn dependency_contexts_root_reached_through_the_walk() {
    // the focus sits two arcs below the root-attached token; a walk
    // deep enough to expand that token meets the ROOT
    let tokens = chain_tokens();
    let heads = vec![None, Some(0), Some(1)];
    let mut config = dep_config();
    config.use_root = true;
    config.depth = 3;
    let ctxs = dependency_contexts(&tokens, &heads, 2, config);
    assert!(ctxs.iter().any(|c| c.position.is_none() && c.label == "ROOT"));
}
