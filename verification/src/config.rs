//! Model hyperparameter types.

use crate::vocab::Cutoff;
use vstd::prelude::*;

verus! {

broadcast use vstd::string::group_string_axioms;

/// Reasons a configuration value is rejected.
#[derive(Clone, Copy, Debug, PartialEq, Eq, Structural)]
pub enum ConfigError {
    /// The model type is not one of the known model types.
    UnknownModelType,
    /// The loss type is not one of the known loss types.
    UnknownLossType,
    /// The indexer type is not one of the known indexer types.
    UnknownIndexerType,
    /// No type survived the vocabulary cutoff.
    EmptyVocab,
    /// The subword length or bucket bounds are unusable.
    InvalidSubwordBounds,
}

/// Model types.
#[derive(Clone, Copy, Debug, PartialEq, Eq, Structural)]
pub enum ModelType {
    /// The skip-gram model (Mikolov, 2013).
    SkipGram,
    /// The structured skip-gram model (Ling et al., 2015).
    StructuredSkipGram,
    /// The directional skip-gram model (Song et al., 2018).
    DirectionalSkipgram,
}

impl ModelType {
    /// Decode a model type from its numeric identifier.
    pub fn try_from_u8(model: u8) -> (r: Result<ModelType, ConfigError>)
        ensures
            model == 0 ==> r == Ok::<ModelType, ConfigError>(ModelType::SkipGram),
            model == 1 ==> r == Ok::<ModelType, ConfigError>(ModelType::StructuredSkipGram),
            model == 2 ==> r == Ok::<ModelType, ConfigError>(ModelType::DirectionalSkipgram),
            model > 2 ==> r == Err::<ModelType, ConfigError>(ConfigError::UnknownModelType),
    {
        match model {
            0 => Ok(ModelType::SkipGram),
            1 => Ok(ModelType::StructuredSkipGram),
            2 => Ok(ModelType::DirectionalSkipgram),
            _ => Err(ConfigError::UnknownModelType),
        }
    }

    /// Decode a model type from its command-line name.
    pub fn try_from_str(model: &str) -> (r: Result<ModelType, ConfigError>)
        ensures
            model@ == "skipgram"@ ==> r == Ok::<ModelType, ConfigError>(ModelType::SkipGram),
            model@ == "structgram"@ ==> r == Ok::<ModelType, ConfigError>(
                ModelType::StructuredSkipGram,
            ),
            model@ == "dirgram"@ ==> r == Ok::<ModelType, ConfigError>(
                ModelType::DirectionalSkipgram,
            ),
            model@ != "skipgram"@ && model@ != "structgram"@ && model@ != "dirgram"@ ==> r
                == Err::<ModelType, ConfigError>(ConfigError::UnknownModelType),
    {
        proof {
            broadcast use vstd::string::group_string_axioms;
            reveal_strlit("skipgram");
            reveal_strlit("structgram");
            reveal_strlit("dirgram");
            assert("skipgram"@.len() == 8);
            assert("structgram"@.len() == 10);
            assert("dirgram"@.len() == 7);
        }
        let m = String::from_str(model);
        if m == String::from_str("skipgram") {
            Ok(ModelType::SkipGram)
        } else if m == String::from_str("structgram") {
            Ok(ModelType::StructuredSkipGram)
        } else if m == String::from_str("dirgram") {
            Ok(ModelType::DirectionalSkipgram)
        } else {
            Err(ConfigError::UnknownModelType)
        }
    }
}

/// Losses.
#[derive(Clone, Copy, Debug, PartialEq, Eq, Structural)]
pub enum LossType {
    /// Logistic regression with negative sampling.
    LogisticNegativeSampling,
}

impl LossType {
    /// Decode a loss type from its numeric identifier.
    pub fn try_from_u8(loss: u8) -> (r: Result<LossType, ConfigError>)
        ensures
            loss == 0 ==> r == Ok::<LossType, ConfigError>(LossType::LogisticNegativeSampling),
            loss > 0 ==> r == Err::<LossType, ConfigError>(ConfigError::UnknownLossType),
    {
        match loss {
            0 => Ok(LossType::LogisticNegativeSampling),
            _ => Err(ConfigError::UnknownLossType),
        }
    }
}

/// Bucket indexer types.
#[derive(Clone, Copy, Debug, PartialEq, Eq, Structural)]
pub enum BucketIndexerType {
    /// Bucket indexer hashing n-grams with FNV-1a.
    Finalfusion,
    /// Bucket indexer hashing n-grams as fastText does.
    FastText,
}

impl BucketIndexerType {
    /// Decode a bucket indexer type from its command-line name.
    pub fn try_from_str(value: &str) -> (r: Result<BucketIndexerType, ConfigError>)
        ensures
            value@ == "finalfusion"@ ==> r == Ok::<BucketIndexerType, ConfigError>(
                BucketIndexerType::Finalfusion,
            ),
            value@ == "fasttext"@ ==> r == Ok::<BucketIndexerType, ConfigError>(
                BucketIndexerType::FastText,
            ),
            value@ != "finalfusion"@ && value@ != "fasttext"@ ==> r == Err::<
                BucketIndexerType,
                ConfigError,
            >(ConfigError::UnknownIndexerType),
    {
        proof {
            broadcast use vstd::string::group_string_axioms;
            reveal_strlit("finalfusion");
            reveal_strlit("fasttext");
            assert("finalfusion"@.len() == 11);
            assert("fasttext"@.len() == 8);
        }
        let v = String::from_str(value);
        if v == String::from_str("finalfusion") {
            Ok(BucketIndexerType::Finalfusion)
        } else if v == String::from_str("fasttext") {
            Ok(BucketIndexerType::FastText)
        } else {
            Err(ConfigError::UnknownIndexerType)
        }
    }
}

/// Hyperparameters for bucket vocabs.
#[derive(Clone, Copy, Debug, PartialEq, Eq, Structural)]
pub struct BucketConfig {
    /// Bucket exponent. The model will use `2^buckets_exp` buckets.
    pub buckets_exp: u32,
    /// The hash applied to n-grams.
    pub indexer_type: BucketIndexerType,
}

/// Hyperparameters for n-gram vocabs.
#[derive(Clone, Copy, Debug, PartialEq, Eq, Structural)]
pub struct NGramConfig {
    /// N-gram cutoff: n-grams excluded by the cutoff are ignored
    /// during training.
    pub cutoff: Cutoff,
}

/// Hyperparameters for dependency embeddings.
#[derive(Clone, Copy, Debug, PartialEq, Eq, Structural)]
pub struct DepembedsConfig {
    /// Maximum depth to extract dependency contexts from.
    pub depth: u32,
    /// Include the ROOT as dependency context.
    pub use_root: bool,
    /// Lowercase all tokens when used as context.
    pub normalize: bool,
    /// Projectivize dependency graphs before training.
    pub projectivize: bool,
    /// Extract untyped dependency contexts.
    ///
    /// Only takes the attached word-form into account.
    pub untyped: bool,
}

/// Hyperparameters for skip-gram-like models.
#[derive(Clone, Copy, Debug, PartialEq, Eq, Structural)]
pub struct SkipGramConfig {
    /// The model type.
    pub model: ModelType,
    /// The number of preceding and succeeding tokens that will be
    /// considered as context during training.
    pub context_size: u32,
}

} // verus!
