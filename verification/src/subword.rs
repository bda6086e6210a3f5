//! Subword n-gram extraction and indexing.
//!
//! A word is bracketed with boundary markers before its character
//! n-grams are taken. An n-gram is mapped to an integer id either by
//! hashing into a fixed bucket range (collisions possible and
//! accepted) or through an explicit frequency-filtered dictionary.

use crate::config::{BucketIndexerType, ConfigError};
use crate::vocab::{find_spec, recorded_count, sat_add_u64, CountedType, Vocab, VocabBuilder, VocabEntry};
use vstd::prelude::*;

verus! {

broadcast use vstd::string::group_string_axioms;

/// One FNV-1a step: fold a byte into the hash state.
pub open spec fn fnv1a_step(h: u64, b: u8) -> u64 {
    vstd::wrapping::u64_specs::wrapping_mul(h ^ (b as u64), 0x100000001b3)
}

/// The 64-bit FNV-1a hash of a byte sequence.
pub open spec fn fnv1a(bytes: Seq<u8>) -> u64
    decreases bytes.len(),
{
    if bytes.len() == 0 {
        0xcbf29ce484222325
    } else {
        fnv1a_step(fnv1a(bytes.drop_last()), bytes.last())
    }
}

/// The 64-bit FNV-1a hash of a byte vector.
pub fn hash_fnv1a(bytes: &Vec<u8>) -> (h: u64)
    ensures
        h == fnv1a(bytes@),
{
    let mut h: u64 = 0xcbf29ce484222325;
    let mut i: usize = 0;
    while i < bytes.len()
        invariant
            i <= bytes@.len(),
            h == fnv1a(bytes@.take(i as int)),
        decreases bytes@.len() - i,
    {
        h = (h ^ (bytes[i] as u64)).wrapping_mul(0x100000001b3);
        proof {
            assert(bytes@.take(i + 1).drop_last() =~= bytes@.take(i as int));
            assert(bytes@.take(i + 1).last() == bytes@[i as int]);
        }
        i = i + 1;
    }
    proof {
        assert(bytes@.take(bytes@.len() as int) =~= bytes@);
    }
    h
}

/// A byte sign-extended to 32 bits, as fastText reads bytes.
pub open spec fn sign_extend_byte(b: u8) -> u32 {
    if b >= 128 {
        (4294967040 + b) as u32
    } else {
        b as u32
    }
}

/// One step of the fastText hash: fold a sign-extended byte in.
pub open spec fn fasttext_step(h: u32, b: u8) -> u32 {
    vstd::wrapping::u32_specs::wrapping_mul(h ^ sign_extend_byte(b), 16777619)
}

/// The 32-bit hash fastText applies to n-gram strings.
pub open spec fn fasttext_hash(bytes: Seq<u8>) -> u32
    decreases bytes.len(),
{
    if bytes.len() == 0 {
        2166136261
    } else {
        fasttext_step(fasttext_hash(bytes.drop_last()), bytes.last())
    }
}

/// The 32-bit fastText hash of a byte vector.
pub fn hash_fasttext(bytes: &Vec<u8>) -> (h: u32)
    ensures
        h == fasttext_hash(bytes@),
{
    let mut h: u32 = 2166136261;
    let mut i: usize = 0;
    while i < bytes.len()
        invariant
            i <= bytes@.len(),
            h == fasttext_hash(bytes@.take(i as int)),
        decreases bytes@.len() - i,
    {
        let b = bytes[i];
        let ext: u32 = if b >= 128 {
            4294967040u32 + (b as u32)
        } else {
            b as u32
        };
        proof {
            assert(ext == sign_extend_byte(bytes@[i as int]));
        }
        h = (h ^ ext).wrapping_mul(16777619);
        proof {
            assert(bytes@.take(i + 1).drop_last() =~= bytes@.take(i as int));
            assert(bytes@.take(i + 1).last() == bytes@[i as int]);
        }
        i = i + 1;
    }
    proof {
        assert(bytes@.take(bytes@.len() as int) =~= bytes@);
    }
    h
}

/// Two to the power `e`.
pub fn pow2_u64(e: u32) -> (r: u64)
    requires
        e <= 63,
    ensures
        r == vstd::arithmetic::power2::pow2(e as nat),
        r >= 1,
{
    let mut r: u64 = 1;
    let mut i: u32 = 0;
    proof {
        vstd::arithmetic::power2::lemma2_to64();
    }
    while i < e
        invariant
            i <= e,
            e <= 63,
            r == vstd::arithmetic::power2::pow2(i as nat),
        decreases e - i,
    {
        proof {
            vstd::arithmetic::power2::lemma2_to64();
            vstd::arithmetic::power2::lemma2_to64_rest();
            if (i as nat) < 63 {
                vstd::arithmetic::power2::lemma_pow2_strictly_increases(i as nat, 63);
            }
            vstd::arithmetic::power2::lemma_pow2_unfold((i + 1) as nat);
        }
        r = r * 2;
        i = i + 1;
    }
    proof {
        vstd::arithmetic::power2::lemma_pow2_pos(e as nat);
    }
    r
}

/// The hash a bucket indexer of the given kind applies to an n-gram.
pub open spec fn bucket_hash(gram: Seq<char>, ty: BucketIndexerType) -> u64 {
    match ty {
        BucketIndexerType::Finalfusion => fnv1a(vstd::utf8::encode_utf8(gram)),
        BucketIndexerType::FastText => fasttext_hash(vstd::utf8::encode_utf8(gram)) as u64,
    }
}

/// The bucket id of an n-gram: its hash, reduced into the bucket range.
pub open spec fn bucket_index_spec(gram: Seq<char>, ty: BucketIndexerType, buckets_exp: u32) -> int {
    (bucket_hash(gram, ty) as int) % (vstd::arithmetic::power2::pow2(buckets_exp as nat) as int)
}

/// Maps n-grams into a fixed range of `2^buckets_exp` bucket ids by
/// hashing; distinct n-grams may share a bucket.
#[derive(Clone, Copy, Debug, PartialEq, Eq, Structural)]
pub struct BucketIndexer {
    /// The bucket range is exactly `2^buckets_exp` ids.
    pub buckets_exp: u32,
    /// The hash applied to n-grams.
    pub indexer_type: BucketIndexerType,
}

impl BucketIndexer {
    /// A bucket indexer with `2^buckets_exp` buckets.
    pub fn new(buckets_exp: u32, indexer_type: BucketIndexerType) -> (r: BucketIndexer)
        requires
            buckets_exp <= 63,
        ensures
            r.buckets_exp == buckets_exp,
            r.indexer_type == indexer_type,
    {
        BucketIndexer { buckets_exp, indexer_type }
    }

    /// The number of bucket ids: exactly `2^buckets_exp`.
    pub fn n_buckets(&self) -> (r: u64)
        requires
            self.buckets_exp <= 63,
        ensures
            r == vstd::arithmetic::power2::pow2(self.buckets_exp as nat),
    {
        pow2_u64(self.buckets_exp)
    }

    /// The bucket id of an n-gram; always below `2^buckets_exp`.
    pub fn index_ngram(&self, gram: &str) -> (r: u64)
        requires
            self.buckets_exp <= 63,
        ensures
            r == bucket_index_spec(gram@, self.indexer_type, self.buckets_exp),
            r < vstd::arithmetic::power2::pow2(self.buckets_exp as nat),
    {
        let bytes = gram.as_bytes_vec();
        let h: u64 = match self.indexer_type {
            BucketIndexerType::Finalfusion => hash_fnv1a(&bytes),
            BucketIndexerType::FastText => hash_fasttext(&bytes) as u64,
        };
        let nb = pow2_u64(self.buckets_exp);
        h % nb
    }
}

/// Within one run — one indexer value — identical n-gram strings
/// always receive the same bucket id.
pub proof fn lemma_same_ngram_same_bucket(
    a: Seq<char>,
    b: Seq<char>,
    ty: BucketIndexerType,
    buckets_exp: u32,
)
    requires
        a == b,
    ensures
        bucket_index_spec(a, ty, buckets_exp) == bucket_index_spec(b, ty, buckets_exp),
{
}

/// The word enclosed in boundary markers, as n-grams see it.
pub open spec fn bracketed(w: Seq<char>) -> Seq<char> {
    seq!['<'] + w + seq!['>']
}

/// The n-grams of `b` starting at `st`, of lengths `n ..= max_n`, in
/// ascending length order.
pub open spec fn ngrams_at(b: Seq<char>, st: int, n: int, max_n: int) -> Seq<Seq<char>>
    decreases max_n + 1 - n,
{
    if n > max_n || n < 0 || st < 0 || st + n > b.len() {
        Seq::empty()
    } else {
        seq![b.subrange(st, st + n)] + ngrams_at(b, st, n + 1, max_n)
    }
}

/// The n-grams of `b` starting at positions `st ..`, outer order by
/// start position, inner order by length.
pub open spec fn ngrams_from(b: Seq<char>, st: int, min_n: int, max_n: int) -> Seq<Seq<char>>
    decreases b.len() - st,
{
    if st < 0 || st >= b.len() {
        Seq::empty()
    } else {
        ngrams_at(b, st, min_n, max_n) + ngrams_from(b, st + 1, min_n, max_n)
    }
}

/// All n-grams of the bracketed word with lengths in
/// `min_n ..= max_n`, by start position, then by length.
pub open spec fn ngrams_spec(w: Seq<char>, min_n: int, max_n: int) -> Seq<Seq<char>> {
    ngrams_from(bracketed(w), 0, min_n, max_n)
}

/// The character n-grams of the bracketed word with lengths in
/// `min_n ..= max_n`, by start position, then by length.
pub fn ngrams(word: &str, min_n: u32, max_n: u32) -> (r: Vec<String>)
    requires
        1 <= min_n <= max_n,
        word@.len() + 2 < usize::MAX,
    ensures
        r@.map_values(|s: String| s@) == ngrams_spec(word@, min_n as int, max_n as int),
{
    let mut br = String::from_str("<");
    br.append(word);
    br.append(">");
    proof {
        reveal_strlit("<");
        reveal_strlit(">");
        assert("<"@.len() == 1);
        assert(">"@.len() == 1);
        assert("<"@[0] == '<');
        assert(">"@[0] == '>');
        assert("<"@ =~= seq!['<']);
        assert(">"@ =~= seq!['>']);
        assert(br@ =~= bracketed(word@));
    }
    let blen = br.as_str().unicode_len();
    let mut r: Vec<String> = Vec::new();
    let mut st: usize = 0;
    while st < blen
        invariant
            blen == br@.len(),
            blen < usize::MAX,
            br@ == bracketed(word@),
            st <= blen,
            1 <= min_n <= max_n,
            r@.map_values(|s: String| s@) + ngrams_from(br@, st as int, min_n as int, max_n as int)
                == ngrams_spec(word@, min_n as int, max_n as int),
        decreases blen - st,
    {
        let mut n: usize = min_n as usize;
        while n <= max_n as usize && n <= blen - st
            invariant
                blen == br@.len(),
                blen < usize::MAX,
                br@ == bracketed(word@),
                st < blen,
                1 <= min_n <= max_n,
                min_n as usize <= n,
                n <= max_n as usize + 1,
                r@.map_values(|s: String| s@) + ngrams_at(
                    br@,
                    st as int,
                    n as int,
                    max_n as int,
                ) + ngrams_from(br@, st as int + 1, min_n as int, max_n as int) == ngrams_spec(
                    word@,
                    min_n as int,
                    max_n as int,
                ),
            decreases max_n as int + 1 - n as int,
        {
            let gram = br.as_str().substring_char(st, st + n).to_owned();
            proof {
                assert(gram@ == br@.subrange(st as int, st as int + n as int));
                let f = |s: String| s@;
                assert(r@.push(gram).map_values(f) =~= r@.map_values(f).push(gram@));
                assert(ngrams_at(br@, st as int, n as int, max_n as int) == seq![
                    br@.subrange(st as int, st as int + n as int),
                ] + ngrams_at(br@, st as int, n as int + 1, max_n as int));
                assert(r@.map_values(f).push(gram@) + ngrams_at(
                    br@,
                    st as int,
                    n as int + 1,
                    max_n as int,
                ) =~= r@.map_values(f) + ngrams_at(br@, st as int, n as int, max_n as int));
            }
            r.push(gram);
            n = n + 1;
        }
        proof {
            assert(ngrams_at(br@, st as int, n as int, max_n as int) =~= Seq::<Seq<char>>::empty());
            assert(r@.map_values(|s: String| s@) + ngrams_from(
                br@,
                st as int + 1,
                min_n as int,
                max_n as int,
            ) =~= r@.map_values(|s: String| s@) + ngrams_at(br@, st as int, n as int, max_n as int)
                + ngrams_from(br@, st as int + 1, min_n as int, max_n as int));
        }
        st = st + 1;
    }
    proof {
        assert(ngrams_from(br@, st as int, min_n as int, max_n as int) =~= Seq::<
            Seq<char>,
        >::empty());
        assert(r@.map_values(|s: String| s@) + Seq::<Seq<char>>::empty() =~= r@.map_values(
            |s: String| s@,
        ));
    }
    r
}


/// The subword id of one n-gram of a word: the word-id range is
/// followed by the bucket range, so a bucket id is offset by the
/// number of word types.
pub open spec fn bucket_subword_id(
    gram: Seq<char>,
    ty: BucketIndexerType,
    buckets_exp: u32,
    offset: int,
) -> int {
    offset + bucket_index_spec(gram, ty, buckets_exp)
}

/// A vocabulary whose words carry bucket-hashed subword ids: word
/// ids stay below `n_types`, n-gram ids live in
/// `[n_types, n_types + 2^buckets_exp)`.
pub struct SubwordVocab {
    vocab: Vocab,
    indexer: BucketIndexer,
    min_n: u32,
    max_n: u32,
    indices: Vec<Vec<u64>>,
}

impl SubwordVocab {
    /// The word vocabulary.
    pub closed spec fn spec_vocab(&self) -> Vocab {
        self.vocab
    }

    /// The bucket indexer.
    pub closed spec fn spec_indexer(&self) -> BucketIndexer {
        self.indexer
    }

    /// Minimum n-gram length.
    pub closed spec fn spec_min_n(&self) -> u32 {
        self.min_n
    }

    /// Maximum n-gram length.
    pub closed spec fn spec_max_n(&self) -> u32 {
        self.max_n
    }

    /// The per-word subword id lists.
    pub closed spec fn spec_indices(&self) -> Seq<Seq<u64>> {
        Seq::new(self.indices@.len() as nat, |i: int| self.indices@[i]@)
    }

    /// Every word's subword ids are exactly the bucket ids of its
    /// n-grams, offset past the word id range, in n-gram order.
    pub open spec fn wf(&self) -> bool {
        &&& self.spec_vocab().wf()
        &&& self.spec_indexer().buckets_exp <= 63
        &&& 1 <= self.spec_min_n() <= self.spec_max_n()
        &&& self.spec_indices().len() == self.spec_vocab().spec_entries().len()
        &&& forall|i: int|
            0 <= i < self.spec_indices().len() ==> (#[trigger] self.spec_indices()[i]).len()
                == ngrams_spec(
                self.spec_vocab().spec_entries()[i].ty.label@,
                self.spec_min_n() as int,
                self.spec_max_n() as int,
            ).len()
        &&& forall|i: int, k: int|
            0 <= i < self.spec_indices().len() && 0 <= k < self.spec_indices()[i].len() ==> (
            #[trigger] self.spec_indices()[i][k]) == bucket_subword_id(
                ngrams_spec(
                    self.spec_vocab().spec_entries()[i].ty.label@,
                    self.spec_min_n() as int,
                    self.spec_max_n() as int,
                )[k],
                self.spec_indexer().indexer_type,
                self.spec_indexer().buckets_exp,
                self.spec_vocab().spec_entries().len() as int,
            )
    }

    /// Attach bucket-hashed subword ids to a finalized vocabulary.
    /// Unusable n-gram bounds, a bucket exponent past 63, or an id
    /// range that cannot hold words and buckets side by side are
    /// configuration errors.
    pub fn new(vocab: Vocab, indexer: BucketIndexer, min_n: u32, max_n: u32) -> (r: Result<
        SubwordVocab,
        ConfigError,
    >)
        requires
            vocab.wf(),
        ensures
            (match r {
                Ok(sv) => sv.wf() && sv.spec_vocab() == vocab && sv.spec_indexer() == indexer
                    && sv.spec_min_n() == min_n && sv.spec_max_n() == max_n,
                Err(e) => e == ConfigError::InvalidSubwordBounds && (min_n < 1 || min_n > max_n
                    || indexer.buckets_exp > 63 || vocab.spec_entries().len()
                    + vstd::arithmetic::power2::pow2(indexer.buckets_exp as nat) > u64::MAX
                    || exists|i: int|
                    0 <= i < vocab.spec_entries().len() && (
                    #[trigger] vocab.spec_entries()[i].ty.label@).len() + 2 >= usize::MAX),
            }),
    {
        if min_n < 1 || min_n > max_n || indexer.buckets_exp > 63 {
            return Err(ConfigError::InvalidSubwordBounds);
        }
        let n_types = vocab.n_types();
        let n_buckets = pow2_u64(indexer.buckets_exp);
        if n_types as u64 > u64::MAX - n_buckets {
            return Err(ConfigError::InvalidSubwordBounds);
        }
        let mut indices: Vec<Vec<u64>> = Vec::new();
        let mut i: usize = 0;
        while i < n_types
            invariant
                vocab.wf(),
                1 <= min_n <= max_n,
                indexer.buckets_exp <= 63,
                n_types == vocab.spec_entries().len(),
                n_types + vstd::arithmetic::power2::pow2(indexer.buckets_exp as nat) <= u64::MAX,
                i <= n_types,
                indices@.len() == i,
                forall|a: int|
                    0 <= a < i ==> (#[trigger] indices@[a]@).len() == ngrams_spec(
                        vocab.spec_entries()[a].ty.label@,
                        min_n as int,
                        max_n as int,
                    ).len(),
                forall|a: int, k: int|
                    0 <= a < i && 0 <= k < indices@[a]@.len() ==> (#[trigger] indices@[a]@[k])
                        == bucket_subword_id(
                        ngrams_spec(
                            vocab.spec_entries()[a].ty.label@,
                            min_n as int,
                            max_n as int,
                        )[k],
                        indexer.indexer_type,
                        indexer.buckets_exp,
                        n_types as int,
                    ),
            decreases n_types - i,
        {
            let word = vocab.word(i);
            let wl = word.unicode_len();
            if wl >= usize::MAX - 2 {
                return Err(ConfigError::InvalidSubwordBounds);
            }
            let grams = ngrams(word, min_n, max_n);
            let mut ids: Vec<u64> = Vec::new();
            let mut k: usize = 0;
            proof {
                assert(grams@.map_values(|s: String| s@).len() == grams@.len());
            }
            while k < grams.len()
                invariant
                    vocab.wf(),
                    1 <= min_n <= max_n,
                    indexer.buckets_exp <= 63,
                    n_types == vocab.spec_entries().len(),
                    n_types + vstd::arithmetic::power2::pow2(indexer.buckets_exp as nat)
                        <= u64::MAX,
                    i < n_types,
                    k <= grams@.len(),
                    ids@.len() == k,
                    grams@.map_values(|s: String| s@) == ngrams_spec(
                        vocab.spec_entries()[i as int].ty.label@,
                        min_n as int,
                        max_n as int,
                    ),
                    forall|t: int|
                        0 <= t < k ==> (#[trigger] ids@[t]) == bucket_subword_id(
                            ngrams_spec(
                                vocab.spec_entries()[i as int].ty.label@,
                                min_n as int,
                                max_n as int,
                            )[t],
                            indexer.indexer_type,
                            indexer.buckets_exp,
                            n_types as int,
                        ),
                decreases grams@.len() - k,
            {
                let b = indexer.index_ngram(grams[k].as_str());
                proof {
                    assert(grams@.map_values(|s: String| s@)[k as int] == grams@[k as int]@);
                }
                ids.push(n_types as u64 + b);
                k = k + 1;
            }
            proof {
                assert(ngrams_spec(
                    vocab.spec_entries()[i as int].ty.label@,
                    min_n as int,
                    max_n as int,
                ).len() == grams@.len());
            }
            indices.push(ids);
            i = i + 1;
        }
        Ok(SubwordVocab { vocab, indexer, min_n, max_n, indices })
    }

    /// The word vocabulary.
    pub fn vocab(&self) -> (r: &Vocab)
        ensures
            r == self.spec_vocab(),
    {
        &self.vocab
    }

    /// The number of word types.
    pub fn n_types(&self) -> (r: usize)
        ensures
            r == self.spec_vocab().spec_entries().len(),
    {
        self.vocab.n_types()
    }

    /// The subword ids of a word.
    pub fn subword_ids(&self, id: usize) -> (r: &Vec<u64>)
        requires
            id < self.spec_indices().len(),
        ensures
            r@ == self.spec_indices()[id as int],
    {
        &self.indices[id]
    }
}

/// The minimum-count predicate on counted n-grams.
pub open spec fn gram_meets_min(m: u64) -> spec_fn(CountedType) -> bool {
    |t: CountedType| t.count >= m
}

/// An explicit n-gram dictionary: an id is assigned only to n-grams
/// meeting their own frequency cutoff; no collisions, rare n-grams
/// excluded.
pub struct ExplicitIndexer {
    ngrams: Vec<CountedType>,
}

impl ExplicitIndexer {
    /// The kept n-grams, in order; an n-gram's id is its index.
    pub closed spec fn spec_ngrams(&self) -> Seq<CountedType> {
        self.ngrams@
    }

    /// Keep exactly the counted n-grams whose frequency reaches the
    /// cutoff, in their given order.
    pub fn from_counts(counts: Vec<CountedType>, min_count: u64) -> (r: ExplicitIndexer)
        ensures
            r.spec_ngrams() == counts@.filter(gram_meets_min(min_count)),
    {
        let ghost counts0 = counts@;
        let mut counts = counts;
        let n0 = counts.len();
        let mut kept: Vec<CountedType> = Vec::new();
        let mut i: usize = 0;
        while counts.len() > 0
            invariant
                i + counts@.len() == counts0.len(),
                counts0.len() == n0,
                kept@ == counts0.take(i as int).filter(gram_meets_min(min_count)),
                forall|j: int| 0 <= j < counts@.len() ==> counts@[j] == counts0[i + j],
            decreases counts@.len(),
        {
            let ghost oldkept = kept@;
            let t = counts.remove(0);
            proof {
                let pr = gram_meets_min(min_count);
                assert(t == counts0[i as int]);
                assert(counts0.take(i + 1) =~= counts0.take(i as int) + seq![t]);
                Seq::<CountedType>::filter_distributes_over_add(
                    counts0.take(i as int),
                    seq![t],
                    pr,
                );
                assert(seq![t].filter(pr) == if pr(t) {
                    seq![t]
                } else {
                    Seq::<CountedType>::empty()
                }) by {
                    reveal_with_fuel(Seq::filter, 2);
                    assert(seq![t].drop_last() =~= Seq::<CountedType>::empty());
                    assert(seq![t].last() == t);
                    assert(Seq::<CountedType>::empty().filter(pr) == Seq::<CountedType>::empty());
                    assert(Seq::<CountedType>::empty().push(t) =~= seq![t]);
                }
                assert(pr(t) == (t.count >= min_count));
            }
            if t.count >= min_count {
                kept.push(t);
                proof {
                    assert(kept@ =~= oldkept + seq![t]);
                }
            } else {
                proof {
                    assert(kept@ =~= oldkept + Seq::<CountedType>::empty());
                }
            }
            i = i + 1;
        }
        proof {
            assert(counts0.take(counts0.len() as int) =~= counts0);
        }
        ExplicitIndexer { ngrams: kept }
    }

    /// The number of n-grams holding an id.
    pub fn len(&self) -> (r: usize)
        ensures
            r == self.spec_ngrams().len(),
    {
        self.ngrams.len()
    }

    /// The id of an n-gram, when the cutoff kept it.
    pub fn index_of(&self, gram: &str) -> (r: Option<usize>)
        ensures
            (match r {
                Some(i) => i < self.spec_ngrams().len() && find_spec(self.spec_ngrams(), gram@)
                    == i && self.spec_ngrams()[i as int].label@ == gram@,
                None => forall|j: int|
                    0 <= j < self.spec_ngrams().len() ==> (
                    #[trigger] self.spec_ngrams()[j]).label@ != gram@,
            }),
    {
        let gs = String::from_str(gram);
        let mut i: usize = 0;
        while i < self.ngrams.len()
            invariant
                i <= self.ngrams@.len(),
                gs@ == gram@,
                forall|j: int| 0 <= j < i ==> (#[trigger] self.ngrams@[j]).label@ != gram@,
            decreases self.ngrams@.len() - i,
        {
            if self.ngrams[i].label == gs {
                proof {
                    crate::vocab::lemma_find_spec_first(self.ngrams@, gram@, i as int);
                }
                return Some(i);
            }
            i = i + 1;
        }
        None
    }
}

/// Every id in `r` points at a dictionary n-gram that occurs in the
/// word, offset past the word id range.
pub open spec fn explicit_ids_sound(
    r: Seq<u64>,
    dict: Seq<CountedType>,
    w: Seq<char>,
    min_n: int,
    max_n: int,
    offset: int,
) -> bool {
    forall|k: int|
        0 <= k < r.len() ==> exists|j: int|
            #![auto]
            0 <= j < dict.len() && (#[trigger] r[k]) == offset + j && ngrams_spec(
                w,
                min_n,
                max_n,
            ).contains(dict[j].label@)
}

/// The subword ids of a gram sequence under a dictionary, in gram
/// order: for each n-gram the dictionary holds, the id of its first
/// dictionary entry, offset past the word id range; an n-gram
/// without an id contributes nothing.
pub open spec fn explicit_ids_spec(
    grams: Seq<Seq<char>>,
    dict: Seq<CountedType>,
    offset: int,
) -> Seq<u64>
    decreases grams.len(),
{
    if grams.len() == 0 {
        Seq::empty()
    } else {
        explicit_ids_spec(grams.drop_last(), dict, offset) + (if find_spec(
            dict,
            grams.last(),
        ) >= 0 {
            seq![(offset + find_spec(dict, grams.last())) as u64]
        } else {
            Seq::empty()
        })
    }
}

/// The subword ids of a word under an explicit dictionary: exactly
/// its n-grams that hold an id, in n-gram order, each offset past
/// the word id range. An n-gram absent from the dictionary is simply
/// omitted.
pub fn explicit_subword_ids(
    indexer: &ExplicitIndexer,
    word: &str,
    min_n: u32,
    max_n: u32,
    offset: u64,
) -> (r: Vec<u64>)
    requires
        1 <= min_n <= max_n,
        word@.len() + 2 < usize::MAX,
        offset + indexer.spec_ngrams().len() <= u64::MAX,
    ensures
        r@ == explicit_ids_spec(
            ngrams_spec(word@, min_n as int, max_n as int),
            indexer.spec_ngrams(),
            offset as int,
        ),
        explicit_ids_sound(
            r@,
            indexer.spec_ngrams(),
            word@,
            min_n as int,
            max_n as int,
            offset as int,
        ),
        indexer.spec_ngrams().len() == 0 ==> r@.len() == 0,
{
    let grams = ngrams(word, min_n, max_n);
    let mut r: Vec<u64> = Vec::new();
    let mut k: usize = 0;
    while k < grams.len()
        invariant
            k <= grams@.len(),
            offset + indexer.spec_ngrams().len() <= u64::MAX,
            grams@.map_values(|s: String| s@) == ngrams_spec(word@, min_n as int, max_n as int),
            indexer.spec_ngrams().len() == 0 ==> r@.len() == 0,
            r@ == explicit_ids_spec(
                ngrams_spec(word@, min_n as int, max_n as int).take(k as int),
                indexer.spec_ngrams(),
                offset as int,
            ),
            explicit_ids_sound(
                r@,
                indexer.spec_ngrams(),
                word@,
                min_n as int,
                max_n as int,
                offset as int,
            ),
        decreases grams@.len() - k,
    {
        let ghost gs = ngrams_spec(word@, min_n as int, max_n as int);
        let ghost dict = indexer.spec_ngrams();
        proof {
            assert(gs.take(k + 1).drop_last() =~= gs.take(k as int));
            assert(gs.take(k + 1).last() == gs[k as int]);
            assert(grams@.map_values(|s: String| s@)[k as int] == grams@[k as int]@);
            assert(gs[k as int] == grams@[k as int]@);
        }
        let ghost oldr = r@;
        match indexer.index_of(grams[k].as_str()) {
            Some(id) => {
                proof {
                    assert(grams@.map_values(|s: String| s@)[k as int] == grams@[k as int]@);
                    assert(ngrams_spec(word@, min_n as int, max_n as int).contains(
                        indexer.spec_ngrams()[id as int].label@,
                    )) by {
                        assert(ngrams_spec(word@, min_n as int, max_n as int)[k as int]
                            == grams@[k as int]@);
                    }
                }
                r.push(offset + id as u64);
                proof {
                    assert(find_spec(dict, gs.take(k + 1).last()) == id);
                    assert(r@ =~= oldr + seq![(offset + id as int) as u64]);
                    assert(r@ == explicit_ids_spec(gs.take(k + 1), dict, offset as int));
                    let t = r@.len() - 1;
                    assert(r@[t] == offset + id);
                    assert(exists|j: int|
                        #![auto]
                        0 <= j < indexer.spec_ngrams().len() && (#[trigger] r@[t]) == offset + j
                            && ngrams_spec(word@, min_n as int, max_n as int).contains(
                            indexer.spec_ngrams()[j].label@,
                        )) by {
                        assert((id as int) < indexer.spec_ngrams().len() && r@[t] == offset
                            + id as int && ngrams_spec(word@, min_n as int, max_n as int).contains(
                            indexer.spec_ngrams()[id as int].label@,
                        ));
                    }
                }
            },
            None => {
                proof {
                    crate::vocab::lemma_find_spec_props(dict, gs[k as int]);
                    if find_spec(dict, gs[k as int]) >= 0 {
                        assert(dict[find_spec(dict, gs[k as int])].label@ == gs[k as int]);
                    }
                    assert(find_spec(dict, gs.take(k + 1).last()) < 0);
                    assert(r@ =~= oldr + Seq::<u64>::empty());
                    assert(r@ == explicit_ids_spec(gs.take(k + 1), dict, offset as int));
                }
            },
        }
        k = k + 1;
    }
    proof {
        let gs = ngrams_spec(word@, min_n as int, max_n as int);
        assert(gs.take(gs.len() as int) =~= gs);
    }
    r
}

/// An n-gram whose frequency falls below the cutoff receives no id,
/// and so appears in no word's subword id list.
pub proof fn lemma_rare_ngram_absent(counts: Seq<CountedType>, m: u64, g: Seq<char>)
    requires
        forall|i: int|
            0 <= i < counts.len() && (#[trigger] counts[i]).label@ == g ==> counts[i].count < m,
    ensures
        forall|i: int|
            0 <= i < counts.filter(gram_meets_min(m)).len() ==> (#[trigger] counts.filter(
                gram_meets_min(m),
            )[i]).label@ != g,
{
    let kept = counts.filter(gram_meets_min(m));
    assert forall|i: int| 0 <= i < kept.len() implies (#[trigger] kept[i]).label@ != g by {
        assert(gram_meets_min(m)(kept[i]));
        assert(kept.contains(kept[i]));
        counts.lemma_filter_contains_rev(gram_meets_min(m), kept[i]);
        let j = choose|j: int| 0 <= j < counts.len() && counts[j] == kept[i];
        if kept[i].label@ == g {
            assert(counts[j].count < m);
        }
    }
}

/// A cutoff above every n-gram's frequency leaves the dictionary
/// empty, and with it every word's subword id list.
pub proof fn lemma_cutoff_above_all_empties(counts: Seq<CountedType>, m: u64)
    requires
        forall|i: int| 0 <= i < counts.len() ==> (#[trigger] counts[i]).count < m,
    ensures
        counts.filter(gram_meets_min(m)).len() == 0,
{
    let kept = counts.filter(gram_meets_min(m));
    if kept.len() > 0 {
        assert(gram_meets_min(m)(kept[0]));
        assert(kept.contains(kept[0]));
        counts.lemma_filter_contains_rev(gram_meets_min(m), kept[0]);
        let j = choose|j: int| 0 <= j < counts.len() && counts[j] == kept[0];
        assert(counts[j].count < m);
    }
}


/// A count clamped to the saturation bound.
pub open spec fn clamp_count(x: int) -> int {
    if x > 0xFFFF_FFFF_FFFF_FFFF {
        0xFFFF_FFFF_FFFF_FFFF
    } else {
        x
    }
}

/// The number of occurrences of `g` in a gram sequence.
pub open spec fn occurrences(grams: Seq<Seq<char>>, g: Seq<char>) -> int
    decreases grams.len(),
{
    if grams.len() == 0 {
        0
    } else {
        occurrences(grams.drop_last(), g) + if grams.last() == g {
            1int
        } else {
            0int
        }
    }
}

/// The corpus frequency of an n-gram over a vocabulary: each word
/// contributes its own frequency once per occurrence of the n-gram.
pub open spec fn gram_frequency(
    entries: Seq<VocabEntry>,
    g: Seq<char>,
    min_n: int,
    max_n: int,
) -> int
    decreases entries.len(),
{
    if entries.len() == 0 {
        0
    } else {
        gram_frequency(entries.drop_last(), g, min_n, max_n) + occurrences(
            ngrams_spec(entries.last().ty.label@, min_n, max_n),
            g,
        ) * entries.last().ty.count
    }
}

/// Count every vocabulary word's n-grams into a counter, each
/// weighted by the word's frequency: afterwards an n-gram's recorded
/// count is exactly its corpus frequency (saturating), on top of
/// whatever the counter already held. Fails, leaving the counter
/// untouched, only when a word is too long to bracket.
pub fn count_vocab_ngrams(
    vocab: &Vocab,
    min_n: u32,
    max_n: u32,
    counter: &mut VocabBuilder,
) -> (ok: bool)
    requires
        old(counter).wf(),
        vocab.wf(),
        1 <= min_n <= max_n,
    ensures
        final(counter).wf(),
        !ok ==> *final(counter) == *old(counter),
        ok ==> forall|g: Seq<char>|
            recorded_count(final(counter).spec_items(), g) == clamp_count(
                recorded_count(old(counter).spec_items(), g) + gram_frequency(
                    vocab.spec_entries(),
                    g,
                    min_n as int,
                    max_n as int,
                ),
            ),
{
    let nt = vocab.n_types();
    let mut i: usize = 0;
    while i < nt
        invariant
            nt == vocab.spec_entries().len(),
            i <= nt,
            *counter == *old(counter),
            counter.wf(),
            forall|a: int|
                0 <= a < i ==> (#[trigger] vocab.spec_entries()[a].ty.label@).len() + 2
                    < usize::MAX,
        decreases nt - i,
    {
        let wl = vocab.word(i).unicode_len();
        if wl >= usize::MAX - 2 {
            return false;
        }
        i = i + 1;
    }
    let ghost init = counter.spec_items();
    let ghost entries = vocab.spec_entries();
    let mut i: usize = 0;
    while i < nt
        invariant
            counter.wf(),
            vocab.wf(),
            1 <= min_n <= max_n,
            nt == entries.len(),
            entries == vocab.spec_entries(),
            i <= nt,
            forall|a: int|
                0 <= a < nt ==> (#[trigger] vocab.spec_entries()[a].ty.label@).len() + 2
                    < usize::MAX,
            forall|g: Seq<char>|
                recorded_count(counter.spec_items(), g) == clamp_count(
                    recorded_count(init, g) + gram_frequency(
                        entries.take(i as int),
                        g,
                        min_n as int,
                        max_n as int,
                    ),
                ),
        decreases nt - i,
    {
        let word = vocab.word(i);
        let wcount = vocab.count(i);
        let grams = ngrams(word, min_n, max_n);
        let ghost gs = ngrams_spec(entries[i as int].ty.label@, min_n as int, max_n as int);
        let mut k: usize = 0;
        while k < grams.len()
            invariant
                counter.wf(),
                1 <= min_n <= max_n,
                i < nt,
                nt == entries.len(),
                entries == vocab.spec_entries(),
                k <= grams@.len(),
                wcount == entries[i as int].ty.count,
                1 <= wcount,
                gs == ngrams_spec(entries[i as int].ty.label@, min_n as int, max_n as int),
                grams@.map_values(|s: String| s@) == gs,
                forall|g: Seq<char>|
                    recorded_count(counter.spec_items(), g) == clamp_count(
                        recorded_count(init, g) + gram_frequency(
                            entries.take(i as int),
                            g,
                            min_n as int,
                            max_n as int,
                        ) + occurrences(gs.take(k as int), g) * wcount,
                    ),
            decreases grams@.len() - k,
        {
            let ghost before = counter.spec_items();
            counter.add_count(grams[k].as_str(), wcount);
            proof {
                let gk = gs[k as int];
                assert(grams@.map_values(|s: String| s@)[k as int] == grams@[k as int]@);
                assert(grams@[k as int]@ == gk);
                assert(gs.take(k + 1).drop_last() =~= gs.take(k as int));
                assert(gs.take(k + 1).last() == gk);
                assert forall|g: Seq<char>|
                    recorded_count(counter.spec_items(), g) == clamp_count(
                        recorded_count(init, g) + gram_frequency(
                            entries.take(i as int),
                            g,
                            min_n as int,
                            max_n as int,
                        ) + occurrences(gs.take(k + 1), g) * wcount,
                    ) by {
                    let base = recorded_count(init, g) + gram_frequency(
                        entries.take(i as int),
                        g,
                        min_n as int,
                        max_n as int,
                    );
                    let occ = occurrences(gs.take(k as int), g);
                    if g == gk {
                        assert(occurrences(gs.take(k + 1), g) == occ + 1);
                        assert((occ + 1) * wcount == occ * wcount + wcount) by (nonlinear_arith);
                        assert(recorded_count(counter.spec_items(), g) == sat_add_u64(
                            recorded_count(before, g),
                            wcount as int,
                        ));
                    } else {
                        assert(occurrences(gs.take(k + 1), g) == occ);
                        assert(recorded_count(counter.spec_items(), g) == recorded_count(
                            before,
                            g,
                        ));
                    }
                }
            }
            k = k + 1;
        }
        proof {
            assert(gs.take(gs.len() as int) =~= gs);
            assert(entries.take(i + 1).drop_last() =~= entries.take(i as int));
            assert(entries.take(i + 1).last() == entries[i as int]);
            assert forall|g: Seq<char>|
                recorded_count(counter.spec_items(), g) == clamp_count(
                    recorded_count(init, g) + gram_frequency(
                        entries.take(i + 1),
                        g,
                        min_n as int,
                        max_n as int,
                    ),
                ) by {
                assert(gram_frequency(entries.take(i + 1), g, min_n as int, max_n as int)
                    == gram_frequency(entries.take(i as int), g, min_n as int, max_n as int)
                    + occurrences(gs, g) * entries[i as int].ty.count);
            }
        }
        i = i + 1;
    }
    proof {
        assert(entries.take(nt as int) =~= entries);
    }
    true
}

} // verus!
