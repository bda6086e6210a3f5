//! Rank-weighted negative sampling.
//!
//! The sampler holds a cumulative table over per-rank integer
//! weights, built once after the vocabulary is finalized. Because
//! vocabulary ids are assigned by descending frequency, a rank is an
//! id: a draw maps a uniform value below the weight total to the
//! unique rank whose cumulative block contains it, so each rank is
//! drawn with probability proportional to its weight.

use crate::config::ConfigError;
use rand_core::SeedableRng;
use vstd::prelude::*;

verus! {

/// The xorshift generator of rand_xorshift, as an opaque value.
#[verifier::external_type_specification]
#[verifier::external_body]
pub struct ExXorShiftRng(rand_xorshift::XorShiftRng);

/// A per-thread pseudo-random generator for training decisions.
/// Threads never share generator state: each worker seeds its own.
pub struct TrainRng {
    rng: rand_xorshift::XorShiftRng,
}

impl TrainRng {
    /// Relies on rand_core's `SeedableRng::seed_from_u64` for
    /// XorShiftRng: builds a generator from a seed; the same seed
    /// gives the same generator state.
    #[verifier::external_body]
    pub fn from_seed(seed: u64) -> TrainRng {
        TrainRng { rng: rand_xorshift::XorShiftRng::seed_from_u64(seed) }
    }

    /// Relies on rand_core's `RngCore::next_u32` for XorShiftRng; the
    /// result depends on the generator state, so nothing is assumed
    /// of it.
    #[verifier::external_body]
    pub fn next_u32(&mut self) -> u32 {
        rand_core::RngCore::next_u32(&mut self.rng)
    }

    /// Relies on rand's `Rng::gen_range` over `0..bound`, which
    /// returns a value of the range; it panics on an empty range, so
    /// the bound must be positive.
    #[verifier::external_body]
    pub fn below(&mut self, bound: u64) -> (r: u64)
        requires
            bound >= 1,
        ensures
            r < bound,
    {
        rand::Rng::gen_range(&mut self.rng, 0..bound)
    }
}

/// The sum of the first `k` weights.
pub open spec fn prefix_sum(w: Seq<u64>, k: int) -> int
    decreases k,
{
    if k <= 0 {
        0
    } else {
        prefix_sum(w, k - 1) + w[k - 1]
    }
}

/// Draws vocabulary ranks with probability proportional to per-rank
/// weights, by inverse transform over a precomputed cumulative
/// table.
pub struct NegativeSampler {
    cum: Vec<u64>,
    total: u64,
}

impl NegativeSampler {
    /// The cumulative table: entry `i` is the weight sum of ranks
    /// `0 ..= i`.
    pub closed spec fn spec_cum(&self) -> Seq<u64> {
        self.cum@
    }

    /// The weight total.
    pub closed spec fn spec_total(&self) -> u64 {
        self.total
    }

    /// The number of ranks.
    pub closed spec fn spec_len(&self) -> int {
        self.cum@.len() as int
    }

    /// The weight of one rank, recovered from the table.
    pub open spec fn spec_weight(&self, r: int) -> int {
        if r == 0 {
            self.spec_cum()[0] as int
        } else {
            self.spec_cum()[r] - self.spec_cum()[r - 1]
        }
    }

    /// The table is a cumulative sum: nondecreasing, ending at the
    /// positive total.
    pub open spec fn wf(&self) -> bool {
        &&& self.spec_len() > 0
        &&& forall|i: int, j: int|
            0 <= i < j < self.spec_len() ==> (#[trigger] self.spec_cum()[i]) <= (
            #[trigger] self.spec_cum()[j])
        &&& self.spec_cum()[self.spec_len() - 1] == self.spec_total()
        &&& self.spec_total() >= 1
    }

    /// Build the sampler from per-rank weights. A zero weight total
    /// is a configuration error: nothing could ever be drawn.
    pub fn new(weights: &Vec<u64>) -> (r: Result<NegativeSampler, ConfigError>)
        requires
            prefix_sum(weights@, weights@.len() as int) <= u64::MAX,
        ensures
            (match r {
                Ok(s) => {
                    &&& s.wf()
                    &&& s.spec_len() == weights@.len()
                    &&& forall|i: int|
                        0 <= i < weights@.len() ==> (#[trigger] s.spec_cum()[i]) == prefix_sum(
                            weights@,
                            i + 1,
                        )
                    &&& s.spec_total() == prefix_sum(weights@, weights@.len() as int)
                },
                Err(e) => e == ConfigError::EmptyVocab && prefix_sum(
                    weights@,
                    weights@.len() as int,
                ) == 0,
            }),
    {
        let mut cum: Vec<u64> = Vec::new();
        let mut acc: u64 = 0;
        let mut i: usize = 0;
        while i < weights.len()
            invariant
                i <= weights@.len(),
                cum@.len() == i,
                acc == prefix_sum(weights@, i as int),
                prefix_sum(weights@, weights@.len() as int) <= u64::MAX,
                forall|j: int|
                    0 <= j < i ==> (#[trigger] cum@[j]) == prefix_sum(weights@, j + 1),
            decreases weights@.len() - i,
        {
            proof {
                lemma_prefix_sum_monotone(weights@, i as int + 1, weights@.len() as int);
            }
            acc = acc + weights[i];
            cum.push(acc);
            i = i + 1;
        }
        if cum.len() == 0 || acc == 0 {
            return Err(ConfigError::EmptyVocab);
        }
        proof {
            assert forall|a: int, b: int| 0 <= a < b < cum@.len() implies (#[trigger] cum@[a]) <= (
            #[trigger] cum@[b]) by {
                lemma_prefix_sum_monotone(weights@, a + 1, b + 1);
            }
        }
        Ok(NegativeSampler { cum, total: acc })
    }

    /// The weight total.
    pub fn total(&self) -> (r: u64)
        ensures
            r == self.spec_total(),
    {
        self.total
    }

    /// The number of ranks.
    pub fn len(&self) -> (r: usize)
        ensures
            r == self.spec_len(),
    {
        self.cum.len()
    }

    /// The rank owning the draw `u`: the unique rank whose cumulative
    /// block `[cum[r-1], cum[r])` contains `u`. Binary search over
    /// the precomputed table.
    pub fn draw_at(&self, u: u64) -> (r: usize)
        requires
            self.wf(),
            u < self.spec_total(),
        ensures
            r < self.spec_len(),
            u < self.spec_cum()[r as int],
            r > 0 ==> self.spec_cum()[r as int - 1] <= u,
    {
        let mut lo: usize = 0;
        let mut hi: usize = self.cum.len() - 1;
        while lo < hi
            invariant
                self.wf(),
                lo <= hi < self.spec_len(),
                u < self.spec_cum()[hi as int],
                lo > 0 ==> self.spec_cum()[lo as int - 1] <= u,
            decreases hi - lo,
        {
            let mid = lo + (hi - lo) / 2;
            if self.cum[mid] <= u {
                lo = mid + 1;
            } else {
                hi = mid;
            }
        }
        lo
    }

    /// Draw one rank from the generator: which rank comes back
    /// depends on the generator state, but it is always a valid rank
    /// owning the uniform value that was drawn.
    pub fn draw(&self, rng: &mut TrainRng) -> (r: usize)
        requires
            self.wf(),
        ensures
            r < self.spec_len(),
    {
        let u = rng.below(self.total);
        self.draw_at(u)
    }
}

/// Prefix sums are monotone in their length.
pub proof fn lemma_prefix_sum_monotone(w: Seq<u64>, a: int, b: int)
    requires
        0 <= a <= b <= w.len(),
    ensures
        prefix_sum(w, a) <= prefix_sum(w, b),
    decreases b - a,
{
    if a < b {
        lemma_prefix_sum_monotone(w, a, b - 1);
    }
}

/// Each rank owns a block of exactly its weight: of the
/// `total` possible uniform draws, exactly `w[r]` map to rank `r`,
/// so the empirical draw distribution follows the weights.
pub proof fn lemma_rank_block_size(w: Seq<u64>, r: int)
    requires
        0 <= r < w.len(),
    ensures
        prefix_sum(w, r + 1) - prefix_sum(w, r) == w[r],
{
}


/// A uniform value below the total is owned by exactly one rank's
/// cumulative block: together with the block sizes this pins the
/// draw distribution to the weights.
pub proof fn lemma_block_owner_unique(c: Seq<u64>, u: int, r1: int, r2: int)
    requires
        forall|i: int, j: int| 0 <= i < j < c.len() ==> (#[trigger] c[i]) <= (#[trigger] c[j]),
        0 <= r1 < c.len(),
        0 <= r2 < c.len(),
        u < c[r1],
        r1 > 0 ==> c[r1 - 1] <= u,
        u < c[r2],
        r2 > 0 ==> c[r2 - 1] <= u,
    ensures
        r1 == r2,
{
    if r1 < r2 {
        assert(c[r1] <= c[r2 - 1]);
    } else if r2 < r1 {
        assert(c[r2] <= c[r1 - 1]);
    }
}

} // verus!
