use finalfrontier::config::{BucketIndexerType, ConfigError, LossType, ModelType};

#[test]
fn model_type_from_u8() {
    assert_eq!(ModelType::try_from_u8(0), Ok(ModelType::SkipGram));
    assert_eq!(ModelType::try_from_u8(1), Ok(ModelType::StructuredSkipGram));
    assert_eq!(ModelType::try_from_u8(2), Ok(ModelType::DirectionalSkipgram));
    assert_eq!(ModelType::try_from_u8(3), Err(ConfigError::UnknownModelType));
}

#[test]
fn model_type_from_str() {
    assert_eq!(ModelType::try_from_str("skipgram"), Ok(ModelType::SkipGram));
    assert_eq!(
        ModelType::try_from_str("structgram"),
        Ok(ModelType::StructuredSkipGram)
    );
    assert_eq!(
        ModelType::try_from_str("dirgram"),
        Ok(ModelType::DirectionalSkipgram)
    );
    assert_eq!(
        ModelType::try_from_str("word2vec"),
        Err(ConfigError::UnknownModelType)
    );
}

#[test]
fn loss_type_from_u8() {
    assert_eq!(
        LossType::try_from_u8(0),
        Ok(LossType::LogisticNegativeSampling)
    );
    assert_eq!(LossType::try_from_u8(1), Err(ConfigError::UnknownLossType));
}

#[test]
fn bucket_indexer_type_from_str() {
    assert_eq!(
        BucketIndexerType::try_from_str("finalfusion"),
        Ok(BucketIndexerType::Finalfusion)
    );
    assert_eq!(
        BucketIndexerType::try_from_str("fasttext"),
        Ok(BucketIndexerType::FastText)
    );
    assert_eq!(
        BucketIndexerType::try_from_str("md5"),
        Err(ConfigError::UnknownIndexerType)
    );
}
