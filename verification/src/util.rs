//! Fixed-point arithmetic helpers.
//!
//! Probabilities are carried as integers scaled by `DISCARD_SCALE`
//! (so a scaled value of `DISCARD_SCALE` stands for probability one).
//! This keeps the subsampling decision — compare a uniform draw below
//! the scale against the scaled probability — in plain integer
//! arithmetic with an exact contract.

use vstd::prelude::*;

verus! {

/// Scale of fixed-point probabilities: a scaled value of
/// `DISCARD_SCALE` stands for probability one.
pub const DISCARD_SCALE: u64 = 4294967296;

/// The floor of the square root of `n`.
pub open spec fn sqrt_floor(n: nat) -> nat
    decreases n,
{
    if n == 0 {
        0
    } else {
        let r = sqrt_floor((n - 1) as nat);
        if (r + 1) * (r + 1) <= n {
            r + 1
        } else {
            r
        }
    }
}

/// `sqrt_floor(n)` is the unique `r` with `r * r <= n < (r + 1) * (r + 1)`.
pub proof fn lemma_sqrt_floor_bounds(n: nat)
    ensures
        sqrt_floor(n) * sqrt_floor(n) <= n,
        n < (sqrt_floor(n) + 1) * (sqrt_floor(n) + 1),
    decreases n,
{
    if n > 0 {
        lemma_sqrt_floor_bounds((n - 1) as nat);
        let r = sqrt_floor((n - 1) as nat);
        if (r + 1) * (r + 1) <= n {
            assert(sqrt_floor(n) == r + 1);
            assert(n <= (r + 1) * (r + 1));
            assert((r + 2) * (r + 2) > (r + 1) * (r + 1)) by (nonlinear_arith);
            assert(n < (r + 1 + 1) * (r + 1 + 1));
            assert(sqrt_floor(n) * sqrt_floor(n) <= n);
            assert(n < (sqrt_floor(n) + 1) * (sqrt_floor(n) + 1));
        } else {
            assert(sqrt_floor(n) == r);
            assert(r * r <= n - 1);
            assert(sqrt_floor(n) * sqrt_floor(n) <= n);
            assert(n < (sqrt_floor(n) + 1) * (sqrt_floor(n) + 1));
        }
    } else {
        assert(n == 0);
        assert(sqrt_floor(0) == 0);
        assert(sqrt_floor(n) == 0);
        assert(sqrt_floor(n) * sqrt_floor(n) <= n);
        assert((sqrt_floor(n) + 1) * (sqrt_floor(n) + 1) == 1) by (nonlinear_arith)
            requires
                sqrt_floor(n) == 0,
        ;
        assert(n < (sqrt_floor(n) + 1) * (sqrt_floor(n) + 1));
    }
}

/// Any `r` with `r * r <= n < (r + 1) * (r + 1)` equals `sqrt_floor(n)`.
pub proof fn lemma_sqrt_floor_unique(n: nat, r: nat)
    requires
        r * r <= n,
        n < (r + 1) * (r + 1),
    ensures
        r == sqrt_floor(n),
{
    lemma_sqrt_floor_bounds(n);
    let s = sqrt_floor(n);
    if r < s {
        assert((r + 1) * (r + 1) <= s * s) by (nonlinear_arith)
            requires
                r + 1 <= s,
        ;
    } else if s < r {
        assert((s + 1) * (s + 1) <= r * r) by (nonlinear_arith)
            requires
                s + 1 <= r,
        ;
    }
}

/// The floor of the square root, by binary search.
pub fn isqrt(n: u64) -> (r: u64)
    ensures
        r == sqrt_floor(n as nat),
        r * r <= n,
        n < (r + 1) * (r + 1),
{
    let mut lo: u64 = 0;
    let mut hi: u64 = 4294967296;
    while lo + 1 < hi
        invariant
            lo < hi,
            hi <= 4294967296,
            lo * lo <= n,
            n < hi * hi,
        decreases hi - lo,
    {
        let mid = lo + (hi - lo) / 2;
        proof {
            assert((mid as int) * (mid as int) <= 4294967296int * 4294967296int)
                by (nonlinear_arith)
                requires
                    0 <= mid <= 4294967296int,
            ;
        }
        if (mid as u128) * (mid as u128) <= n as u128 {
            lo = mid;
        } else {
            hi = mid;
        }
    }
    proof {
        lemma_sqrt_floor_unique(n as nat, lo as nat);
    }
    lo
}

/// Fixed-point ratio `threshold / frequency`, scaled by `DISCARD_SCALE`.
///
/// `threshold_ppb` is the discard threshold in parts per billion; the
/// token's normalized frequency is `count / total`.
pub open spec fn discard_ratio_fixed(count: nat, total: nat, threshold_ppb: nat) -> int {
    (threshold_ppb * total * 4294967296) as int / (1000000000 * count) as int
}

/// The scaled discard probability: `1 - sqrt(t / f) - t / f`, clamped
/// to `[0, 1]`, carried in fixed point.
pub open spec fn discard_probability_spec(count: nat, total: nat, threshold_ppb: nat) -> int {
    let ratio = discard_ratio_fixed(count, total, threshold_ppb);
    if ratio >= 4294967296 {
        0
    } else {
        let s = sqrt_floor((ratio * 4294967296) as nat);
        if 4294967296 - s - ratio < 0 {
            0
        } else {
            4294967296 - s - ratio
        }
    }
}

/// Scaled probability that a token with `count` occurrences out of
/// `total` is discarded, for a discard threshold of `threshold_ppb`
/// parts per billion.
pub fn discard_probability(count: u64, total: u64, threshold_ppb: u64) -> (p: u64)
    requires
        1 <= count,
        count <= total,
        threshold_ppb <= 1000000000,
    ensures
        p == discard_probability_spec(count as nat, total as nat, threshold_ppb as nat),
        p <= DISCARD_SCALE,
{
    proof {
        assert((threshold_ppb as int) * (total as int) * 4294967296 <= 1000000000int
            * 18446744073709551615int * 4294967296int) by (nonlinear_arith)
            requires
                0 <= threshold_ppb <= 1000000000int,
                0 <= total <= 18446744073709551615int,
        ;
        assert(1000000000int * (count as int) <= 1000000000int * 18446744073709551615int)
            by (nonlinear_arith)
            requires
                0 <= count <= 18446744073709551615int,
        ;
    }
    let num: u128 = (threshold_ppb as u128) * (total as u128) * 4294967296u128;
    let den: u128 = 1000000000u128 * (count as u128);
    let ratio128: u128 = num / den;
    if ratio128 >= 4294967296 {
        0
    } else {
        let ratio: u64 = ratio128 as u64;
        proof {
            assert((ratio as int) * 4294967296 <= 4294967295int * 4294967296int)
                by (nonlinear_arith)
                requires
                    0 <= ratio <= 4294967295int,
            ;
        }
        let s: u64 = isqrt(ratio * 4294967296u64);
        proof {
            assert(s * s <= ratio * 4294967296);
            assert(s < 4294967296) by (nonlinear_arith)
                requires
                    s * s <= ratio * 4294967296,
                    ratio < 4294967296,
                    0 <= s,
                    0 <= ratio,
            ;
        }
        if 4294967296u64 >= s + ratio {
            4294967296u64 - s - ratio
        } else {
            0
        }
    }
}

/// A token whose frequency exactly meets the threshold's implied
/// frequency — `count / total == threshold` — is never discarded.
pub proof fn lemma_discard_zero_at_threshold(count: nat, total: nat, threshold_ppb: nat)
    requires
        1 <= count,
        threshold_ppb * total == 1000000000 * count,
    ensures
        discard_probability_spec(count, total, threshold_ppb) == 0,
{
    let d = (1000000000 * count) as int;
    assert(discard_ratio_fixed(count, total, threshold_ppb) == (d * 4294967296) / d);
    vstd::arithmetic::div_mod::lemma_div_multiples_vanish(4294967296, d);
}

/// As a token's frequency grows without bound relative to the
/// threshold, the discard probability reaches one: when the scaled
/// ratio underflows to zero, the scaled probability is exactly the
/// scale.
pub proof fn lemma_discard_one_for_frequent(count: nat, total: nat, threshold_ppb: nat)
    requires
        1 <= count,
        discard_ratio_fixed(count, total, threshold_ppb) == 0,
    ensures
        discard_probability_spec(count, total, threshold_ppb) == 4294967296,
{
    assert(sqrt_floor(0) == 0);
}


/// At the full threshold — one, in parts per billion — no token is
/// ever discarded: the threshold-to-frequency ratio is at least one
/// for every frequency.
pub proof fn lemma_full_threshold_no_discard(count: nat, total: nat)
    requires
        1 <= count <= total,
    ensures
        discard_probability_spec(count, total, 1000000000) == 0,
{
    let d = (1000000000 * count) as int;
    let num = (1000000000 * total * 4294967296) as int;
    assert(d * 4294967296 <= num) by (nonlinear_arith)
        requires
            1 <= count <= total,
            d == 1000000000 * count,
            num == 1000000000 * total * 4294967296,
    ;
    vstd::arithmetic::div_mod::lemma_div_multiples_vanish(4294967296, d);
    vstd::arithmetic::div_mod::lemma_div_is_ordered(d * 4294967296, num, d);
    assert(discard_ratio_fixed(count, total, 1000000000) >= 4294967296);
}


/// The floor square root is monotone.
pub proof fn lemma_sqrt_floor_monotone(a: nat, b: nat)
    requires
        a <= b,
    ensures
        sqrt_floor(a) <= sqrt_floor(b),
{
    lemma_sqrt_floor_bounds(a);
    lemma_sqrt_floor_bounds(b);
    let sa = sqrt_floor(a);
    let sb = sqrt_floor(b);
    if sa > sb {
        assert((sb + 1) * (sb + 1) <= sa * sa) by (nonlinear_arith)
            requires
                sb + 1 <= sa,
        ;
    }
}

/// The discard probability grows with frequency: of two types, the
/// more frequent one is discarded at least as often.
pub proof fn lemma_discard_monotone_in_frequency(
    count1: nat,
    count2: nat,
    total: nat,
    threshold_ppb: nat,
)
    requires
        1 <= count1 <= count2,
    ensures
        discard_probability_spec(count1, total, threshold_ppb) <= discard_probability_spec(
            count2,
            total,
            threshold_ppb,
        ),
{
    let t = (threshold_ppb * total * 4294967296) as int;
    let r1 = discard_ratio_fixed(count1, total, threshold_ppb);
    let r2 = discard_ratio_fixed(count2, total, threshold_ppb);
    assert(1000000000 * count1 <= 1000000000 * count2) by (nonlinear_arith)
        requires
            count1 <= count2,
    ;
    vstd::arithmetic::div_mod::lemma_div_is_ordered_by_denominator(
        t,
        (1000000000 * count1) as int,
        (1000000000 * count2) as int,
    );
    assert(r2 <= r1);
    vstd::arithmetic::div_mod::lemma_div_pos_is_pos(t, (1000000000 * count2) as int);
    assert(r2 >= 0);
    if r1 < 4294967296 {
        assert((r2 * 4294967296) as nat <= (r1 * 4294967296) as nat) by (nonlinear_arith)
            requires
                0 <= r2 <= r1,
        ;
        lemma_sqrt_floor_monotone((r2 * 4294967296) as nat, (r1 * 4294967296) as nat);
    }
}

} // verus!
