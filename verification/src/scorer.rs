//! Scorer: the expected information gain of a guess over the current
//! candidate set, under a uniform prior.
//!
//! All arithmetic is exact integer arithmetic. Logarithms are computed in
//! fixed point with 16 fractional bits, so a score of `65536` stands for one
//! bit. To keep the value an integer the score is also scaled by the
//! candidate count `n`: the score of a guess is
//! `n * log2(n) - sum over patterns p of h[p] * log2(h[p])`, where `h[p]`
//! counts the candidates that would produce pattern `p` against the guess.
//! This is `n * 2^16` times the Shannon entropy of the pattern distribution,
//! up to the rounding of the fixed-point logarithm, and ranking guesses by it
//! ranks them by expected information gained.

use vstd::prelude::*;
use vstd::arithmetic::div_mod::{
    lemma_div_is_ordered,
    lemma_div_denominator,
    lemma_div_multiples_vanish,
    lemma_fundamental_div_mod,
};
use crate::codec::Word;
use crate::oracle::pattern;
use crate::candidates::{filter_spec, cands_in_range, buckets_upto, lemma_filter_partition};

verus! {

/// Two to the power `n` (1 for nonpositive `n`).
pub open spec fn p2(n: int) -> int
    decreases n,
{
    if n <= 0 {
        1
    } else {
        2 * p2(n - 1)
    }
}

/// Powers of two are positive and weakly increasing.
pub proof fn lemma_p2_pos(n: int)
    ensures
        p2(n) >= 1,
    decreases n,
{
    if n > 0 {
        lemma_p2_pos(n - 1);
    }
}

/// Monotonicity of `p2`.
pub proof fn lemma_p2_mono(m: int, n: int)
    requires
        m <= n,
    ensures
        p2(m) <= p2(n),
    decreases n - m,
{
    if m < n {
        lemma_p2_mono(m, n - 1);
        lemma_p2_pos(n - 1);
    }
}

/// The integer part of the base-2 logarithm (0 for values below 2).
pub open spec fn ilog2(x: int) -> int
    decreases x,
{
    if x < 2 {
        0
    } else {
        1 + ilog2(x / 2)
    }
}

/// `ilog2` is nonnegative.
proof fn lemma_ilog2_nonneg(x: int)
    ensures
        ilog2(x) >= 0,
    decreases x,
{
    if x >= 2 {
        lemma_ilog2_nonneg(x / 2);
    }
}

/// `x` lies between consecutive powers of two around its `ilog2`.
proof fn lemma_ilog2_bounds(x: int)
    requires
        x >= 1,
    ensures
        ilog2(x) >= 0,
        p2(ilog2(x)) <= x < 2 * p2(ilog2(x)),
    decreases x,
{
    if x < 2 {
    } else {
        lemma_ilog2_bounds(x / 2);
        lemma_fundamental_div_mod(x, 2);
    }
}

/// `ilog2` is weakly increasing.
proof fn lemma_ilog2_mono(x: int, y: int)
    requires
        1 <= x <= y,
    ensures
        ilog2(x) <= ilog2(y),
    decreases y,
{
    if x < 2 {
        lemma_ilog2_nonneg(y);
    } else {
        lemma_div_is_ordered(x, y, 2);
        lemma_ilog2_mono(x / 2, y / 2);
    }
}

/// The normalized mantissa of `x` in fixed point: `x * 65536 / 2^ilog2(x)`,
/// a value in `[65536, 131072)` for positive `x`.
pub open spec fn mant(x: int) -> int {
    x * 65536 / p2(ilog2(x))
}

/// The fractional bits of the base-2 logarithm, by `j` squaring steps of the
/// mantissa: the classical digit-by-digit method, each step yielding one bit.
pub open spec fn frac_steps(m: int, j: int) -> int
    decreases j,
{
    if j <= 0 {
        0
    } else {
        let t = m * m / 65536;
        if t >= 131072 {
            p2(j - 1) + frac_steps(t / 2, j - 1)
        } else {
            frac_steps(t, j - 1)
        }
    }
}

/// The fractional part is a nonnegative `j`-bit value.
proof fn lemma_frac_range(m: int, j: int)
    ensures
        0 <= frac_steps(m, j) < p2(j),
    decreases j,
{
    if j <= 0 {
    } else {
        let t = m * m / 65536;
        if t >= 131072 {
            lemma_frac_range(t / 2, j - 1);
        } else {
            lemma_frac_range(t, j - 1);
        }
    }
}

/// The fractional part is weakly increasing in the mantissa.
proof fn lemma_frac_mono(m1: int, m2: int, j: int)
    requires
        0 <= m1 <= m2,
    ensures
        frac_steps(m1, j) <= frac_steps(m2, j),
    decreases j,
{
    if j > 0 {
        let t1 = m1 * m1 / 65536;
        let t2 = m2 * m2 / 65536;
        assert(m1 * m1 <= m2 * m2) by (nonlinear_arith)
            requires
                0 <= m1 <= m2,
        ;
        lemma_div_is_ordered(m1 * m1, m2 * m2, 65536);
        assert(t1 >= 0) by {
            assert(m1 * m1 >= 0) by (nonlinear_arith);
            lemma_div_is_ordered(0, m1 * m1, 65536);
        }
        if t1 >= 131072 {
            lemma_div_is_ordered(t1, t2, 2);
            lemma_frac_mono(t1 / 2, t2 / 2, j - 1);
        } else if t2 >= 131072 {
            lemma_frac_range(t1, j - 1);
            lemma_frac_range(t2 / 2, j - 1);
        } else {
            lemma_frac_mono(t1, t2, j - 1);
        }
    }
}

/// A mantissa of exactly one contributes no fractional bits.
proof fn lemma_frac_unit(j: int)
    ensures
        frac_steps(65536, j) == 0,
    decreases j,
{
    if j > 0 {
        assert(65536int * 65536 / 65536 == 65536) by (nonlinear_arith);
        lemma_frac_unit(j - 1);
    }
}

/// A mantissa of zero contributes no fractional bits.
proof fn lemma_frac_zero(j: int)
    ensures
        frac_steps(0, j) == 0,
    decreases j,
{
    if j > 0 {
        lemma_frac_zero(j - 1);
    }
}

/// The base-2 logarithm of `x` in fixed point with 16 fractional bits,
/// rounded toward zero step by step (0 for `x <= 1`).
pub open spec fn flog2(x: int) -> int {
    65536 * ilog2(x) + frac_steps(mant(x), 16)
}

/// The mantissa of a positive `x` is normalized into `[65536, 131072)`.
proof fn lemma_mant_bounds(x: int)
    requires
        x >= 1,
    ensures
        65536 <= mant(x) < 131072,
{
    let p = p2(ilog2(x));
    lemma_ilog2_bounds(x);
    lemma_p2_pos(ilog2(x));
    assert(x * 65536 >= 65536 * p) by (nonlinear_arith)
        requires
            x >= p,
    ;
    lemma_div_is_ordered(65536 * p, x * 65536, p);
    lemma_div_multiples_vanish(65536, p);
    assert(p * 65536 == 65536 * p) by (nonlinear_arith);
    assert(mant(x) >= 65536);
    assert(x * 65536 <= 2 * p * 65536 - 65536) by (nonlinear_arith)
        requires
            x <= 2 * p - 1,
    ;
    assert(mant(x) < 131072) by {
        lemma_fundamental_div_mod(x * 65536, p);
        assert(x * 65536 / p >= 131072 ==> x * 65536 >= 131072 * p) by (nonlinear_arith)
            requires
                p >= 1,
                x * 65536 == p * (x * 65536 / p) + (x * 65536) % p,
                (x * 65536) % p >= 0,
        ;
        assert(2 * p * 65536 - 65536 < 131072 * p) by (nonlinear_arith)
            requires
                p >= 1,
        ;
    }
}

/// `flog2` of zero and one is zero.
pub proof fn lemma_flog2_low(x: int)
    requires
        0 <= x <= 1,
    ensures
        flog2(x) == 0,
{
    if x == 0 {
        assert(mant(0) == 0);
        lemma_frac_zero(16);
    } else {
        assert(ilog2(1) == 0);
        assert(p2(0) == 1);
        assert(mant(1) == 65536);
        lemma_frac_unit(16);
    }
}

/// `flog2` of anything at least two is at least one whole bit.
pub proof fn lemma_flog2_ge_one_bit(x: int)
    requires
        x >= 2,
    ensures
        flog2(x) >= 65536,
{
    lemma_ilog2_nonneg(x / 2);
    lemma_mant_bounds(x);
    lemma_frac_range(mant(x), 16);
}

/// `flog2` is nonnegative.
pub proof fn lemma_flog2_nonneg(x: int)
    requires
        x >= 0,
    ensures
        flog2(x) >= 0,
{
    if x <= 1 {
        lemma_flog2_low(x);
    } else {
        lemma_flog2_ge_one_bit(x);
    }
}

/// `flog2` is weakly increasing.
pub proof fn lemma_flog2_mono(x: int, y: int)
    requires
        0 <= x <= y,
    ensures
        flog2(x) <= flog2(y),
{
    if x <= 1 {
        lemma_flog2_low(x);
        if y >= 1 {
            lemma_flog2_nonneg(y);
        }
    } else {
        let kx = ilog2(x);
        let ky = ilog2(y);
        lemma_ilog2_mono(x, y);
        if kx == ky {
            lemma_ilog2_bounds(x);
            lemma_p2_pos(kx);
            assert(x * 65536 <= y * 65536) by (nonlinear_arith)
                requires
                    x <= y,
            ;
            lemma_div_is_ordered(x * 65536, y * 65536, p2(kx));
            lemma_mant_bounds(x);
            lemma_frac_mono(mant(x), mant(y), 16);
        } else {
            lemma_frac_range(mant(x), 16);
            lemma_frac_range(mant(y), 16);
            assert(p2(16) == 65536) by {
                reveal_with_fuel(p2, 17);
            }
            assert(flog2(x) < 65536 * kx + 65536);
            assert(65536 * (kx + 1) <= 65536 * ky) by (nonlinear_arith)
                requires
                    kx + 1 <= ky,
            ;
        }
    }
}

/// `flog2` stays below 33 whole bits for inputs below `2^32`.
pub proof fn lemma_flog2_upper(x: int)
    requires
        0 <= x < 0x1_0000_0000,
    ensures
        flog2(x) < 0x21_0000,
{
    if x <= 1 {
        lemma_flog2_low(x);
    } else {
        lemma_ilog2_bounds(x);
        assert(p2(32) == 0x1_0000_0000) by {
            reveal_with_fuel(p2, 33);
        }
        if ilog2(x) >= 32 {
            lemma_p2_mono(32, ilog2(x));
            assert(false);
        }
        lemma_frac_range(mant(x), 16);
        assert(p2(16) == 65536) by {
            reveal_with_fuel(p2, 17);
        }
        assert(65536 * ilog2(x) <= 65536 * 31) by (nonlinear_arith)
            requires
                ilog2(x) <= 31,
        ;
    }
}

/// The fixed-point base-2 logarithm, as executable code.
pub fn log2_fixed(x: u64) -> (r: u64)
    requires
        1 <= x < 0x1_0000_0000,
    ensures
        r as int == flog2(x as int),
        r < 0x21_0000,
{
    let mut y: u64 = x;
    let mut k: u64 = 0;
    let mut p: u64 = 1;
    while y >= 2
        invariant
            1 <= y,
            p as int == p2(k as int),
            y as int == x as int / p as int,
            p <= x < 0x1_0000_0000,
            ilog2(x as int) == k + ilog2(y as int),
            k <= 32,
        decreases y,
    {
        proof {
            lemma_p2_pos(k as int);
            lemma_div_denominator(x as int, p as int, 2);
            lemma_fundamental_div_mod(x as int, 2 * p as int);
            assert(((2 * p) as int) * (x as int / (2 * p as int)) >= 2 * p as int)
                by (nonlinear_arith)
                requires
                    x as int / (2 * p as int) >= 1,
                    p >= 1,
            ;
            if k + 1 > 32 {
                lemma_p2_mono(32, k as int + 1);
                assert(p2(32) == 0x1_0000_0000) by {
                    reveal_with_fuel(p2, 33);
                }
                assert(false);
            }
        }
        y = y / 2;
        k = k + 1;
        p = p * 2;
    }
    proof {
        assert(ilog2(x as int) == k as int);
        lemma_mant_bounds(x as int);
        lemma_p2_pos(k as int);
        if k >= 32 {
            lemma_p2_mono(32, k as int);
            assert(p2(32) == 0x1_0000_0000) by {
                reveal_with_fuel(p2, 33);
            }
            assert(false);
        }
    }
    let mut m: u64 = (x * 65536) / p;
    let mut r: u64 = 65536 * k;
    let mut w: u64 = 32768;
    let mut j: u64 = 16;
    proof {
        assert(p2(15) == 32768 && p2(16) == 65536) by {
            reveal_with_fuel(p2, 17);
        }
        lemma_frac_range(m as int, 16);
    }
    while j > 0
        invariant
            j <= 16,
            65536 <= m < 131072,
            k <= 31,
            j >= 1 ==> w as int == p2(j as int - 1),
            flog2(x as int) == r + frac_steps(m as int, j as int),
            r as int + p2(j as int) <= 65536 * (k as int + 1),
        decreases j,
    {
        proof {
            lemma_step_bounds(m as int);
        }
        let t: u64 = (m * m) / 65536;
        if t >= 131072 {
            m = t / 2;
            r = r + w;
        } else {
            m = t;
        }
        j = j - 1;
        if j > 0 {
            w = w / 2;
            proof {
                lemma_p2_pos(j as int - 1);
            }
        }
    }
    proof {
        lemma_flog2_upper(x as int);
    }
    r
}

/// One squaring step keeps the mantissa normalized.
proof fn lemma_step_bounds(m: int)
    requires
        65536 <= m < 131072,
    ensures
        65536 <= m * m / 65536 < 262144,
        m * m / 65536 >= 131072 ==> 65536 <= m * m / 65536 / 2 < 131072,
        m * m < 0x4_0000_0000,
{
    let t = m * m / 65536;
    assert(65536 * 65536 <= m * m <= 131071 * 131071) by (nonlinear_arith)
        requires
            65536 <= m <= 131071,
    ;
    lemma_div_is_ordered(65536int * 65536, m * m, 65536);
    assert(65536int * 65536 / 65536 == 65536) by (nonlinear_arith);
    lemma_div_is_ordered(m * m, 131071int * 131071, 65536);
    assert(131071int * 131071 / 65536 < 262144) by (nonlinear_arith);
    if t >= 131072 {
        lemma_div_is_ordered(131072, t, 2);
        lemma_div_is_ordered(t, 262143, 2);
    }
}

/// The number of candidates whose word yields pattern `p` against the guess.
pub open spec fn bucket_size(cands: Seq<usize>, words: Seq<Word>, g: int, p: int) -> int {
    filter_spec(cands, words, g, p).len() as int
}

/// The total size of the buckets for patterns below `k`.
pub open spec fn hist_sum(cands: Seq<usize>, words: Seq<Word>, g: int, k: int) -> int
    decreases k,
{
    if k <= 0 {
        0
    } else {
        hist_sum(cands, words, g, k - 1) + bucket_size(cands, words, g, k - 1)
    }
}

/// The surprisal-weighted bucket total for patterns below `k`: each bucket of
/// size `h` contributes `h * flog2(h)`.
pub open spec fn weighted_sum(cands: Seq<usize>, words: Seq<Word>, g: int, k: int) -> int
    decreases k,
{
    if k <= 0 {
        0
    } else {
        let h = bucket_size(cands, words, g, k - 1);
        weighted_sum(cands, words, g, k - 1) + h * flog2(h)
    }
}

/// The score of guess `g` against candidate set `cands`: the scaled expected
/// information gain `n * flog2(n) - sum over patterns of h * flog2(h)`.
pub open spec fn score_spec(cands: Seq<usize>, words: Seq<Word>, g: int) -> int {
    cands.len() * flog2(cands.len() as int) - weighted_sum(cands, words, g, 243)
}

/// The buckets for all 243 patterns together hold each candidate exactly
/// once, so their sizes add up to the number of candidates.
pub proof fn lemma_hist_sum_total(cands: Seq<usize>, words: Seq<Word>, g: int)
    ensures
        hist_sum(cands, words, g, 243) == cands.len(),
{
    broadcast use vstd::seq_lib::group_to_multiset_ensures;
    broadcast use vstd::multiset::axiom_len_add;

    lemma_filter_partition(cands, words, g);
    lemma_hist_sum_is_bucket_len(cands, words, g, 243);
}

/// The running bucket total equals the size of the merged bucket multiset.
proof fn lemma_hist_sum_is_bucket_len(cands: Seq<usize>, words: Seq<Word>, g: int, k: int)
    ensures
        hist_sum(cands, words, g, k) == buckets_upto(cands, words, g, k).len(),
    decreases k,
{
    broadcast use vstd::seq_lib::group_to_multiset_ensures;
    broadcast use vstd::multiset::axiom_len_add;

    if k > 0 {
        lemma_hist_sum_is_bucket_len(cands, words, g, k - 1);
    }
}

/// Bucket totals grow with the pattern range.
proof fn lemma_hist_sum_mono(cands: Seq<usize>, words: Seq<Word>, g: int, k1: int, k2: int)
    requires
        k1 <= k2,
    ensures
        hist_sum(cands, words, g, k1) <= hist_sum(cands, words, g, k2),
    decreases k2 - k1,
{
    if k1 < k2 {
        lemma_hist_sum_mono(cands, words, g, k1, k2 - 1);
    }
}

/// Each prefix of the weighted sum is nonnegative and bounded by the largest
/// possible surprisal, `flog2(n)`, applied to the whole prefix total.
proof fn lemma_weighted_sum_bounds(cands: Seq<usize>, words: Seq<Word>, g: int, k: int)
    ensures
        0 <= weighted_sum(cands, words, g, k),
        weighted_sum(cands, words, g, k) <= flog2(cands.len() as int) * hist_sum(
            cands,
            words,
            g,
            k,
        ),
    decreases k,
{
    let n = cands.len() as int;
    if k > 0 {
        lemma_weighted_sum_bounds(cands, words, g, k - 1);
        let h = bucket_size(cands, words, g, k - 1);
        crate::candidates::lemma_filter_elements(cands, words, g, k - 1);
        assert(0 <= h <= n);
        lemma_flog2_nonneg(h);
        lemma_flog2_mono(h, n);
        lemma_flog2_nonneg(n);
        assert(0 <= h * flog2(h) <= h * flog2(n)) by (nonlinear_arith)
            requires
                0 <= h,
                0 <= flog2(h) <= flog2(n),
        ;
        assert(weighted_sum(cands, words, g, k - 1) + h * flog2(h) <= flog2(n) * (hist_sum(
            cands,
            words,
            g,
            k - 1,
        ) + h)) by (nonlinear_arith)
            requires
                weighted_sum(cands, words, g, k - 1) <= flog2(n) * hist_sum(cands, words, g, k - 1),
                h * flog2(h) <= h * flog2(n),
        ;
    }
}

/// The expected information gain of any guess is nonnegative.
pub proof fn lemma_score_nonneg(cands: Seq<usize>, words: Seq<Word>, g: int)
    ensures
        score_spec(cands, words, g) >= 0,
{
    let n = cands.len() as int;
    lemma_weighted_sum_bounds(cands, words, g, 243);
    lemma_hist_sum_total(cands, words, g);
    lemma_flog2_nonneg(n);
    assert(flog2(n) * n == n * flog2(n)) by (nonlinear_arith);
}

/// When every candidate yields the same pattern against the guess, the guess
/// gains no information: its score is zero.
pub proof fn lemma_score_zero_when_uniform(cands: Seq<usize>, words: Seq<Word>, g: int, p0: int)
    requires
        0 <= p0 < 243,
        forall|i: int|
            0 <= i < cands.len() ==> crate::oracle::pattern_spec(
                words[g]@,
                (#[trigger] words[cands[i] as int])@,
            ) == p0,
    ensures
        score_spec(cands, words, g) == 0,
{
    lemma_uniform_buckets(cands, words, g, p0);
    lemma_uniform_weighted(cands, words, g, p0, 243);
    let n = cands.len() as int;
    assert(weighted_sum(cands, words, g, 243) == n * flog2(n));
}

/// With a single occupied bucket, the filter keeps everything at `p0` and
/// nothing elsewhere.
proof fn lemma_uniform_buckets(cands: Seq<usize>, words: Seq<Word>, g: int, p0: int)
    requires
        forall|i: int|
            0 <= i < cands.len() ==> crate::oracle::pattern_spec(
                words[g]@,
                (#[trigger] words[cands[i] as int])@,
            ) == p0,
    ensures
        filter_spec(cands, words, g, p0) =~= cands,
        forall|p: int| p != p0 ==> filter_spec(cands, words, g, p) =~= Seq::<usize>::empty(),
    decreases cands.len(),
{
    if cands.len() > 0 {
        let rest = cands.drop_last();
        assert(forall|i: int|
            0 <= i < rest.len() ==> crate::oracle::pattern_spec(
                words[g]@,
                (#[trigger] words[rest[i] as int])@,
            ) == p0) by {
            assert(forall|i: int| 0 <= i < rest.len() ==> rest[i] == cands[i]);
        }
        lemma_uniform_buckets(rest, words, g, p0);
        assert(cands[cands.len() - 1] == cands.last());
        assert forall|p: int| p != p0 implies filter_spec(cands, words, g, p) =~= Seq::<
            usize,
        >::empty() by {
            assert(filter_spec(rest, words, g, p) =~= Seq::<usize>::empty());
        }
    }
}

/// With a single occupied bucket the weighted sum collapses to one term.
proof fn lemma_uniform_weighted(cands: Seq<usize>, words: Seq<Word>, g: int, p0: int, k: int)
    requires
        0 <= p0,
        filter_spec(cands, words, g, p0) == cands,
        forall|p: int| p != p0 ==> filter_spec(cands, words, g, p) =~= Seq::<usize>::empty(),
    ensures
        weighted_sum(cands, words, g, k) == if p0 < k {
            cands.len() * flog2(cands.len() as int)
        } else {
            0
        },
    decreases k,
{
    if k > 0 {
        lemma_uniform_weighted(cands, words, g, p0, k - 1);
        if k - 1 != p0 {
            let h = bucket_size(cands, words, g, k - 1);
            assert(h == 0);
            lemma_flog2_low(0);
        }
    }
}

/// Equal fixed-point logarithms force values within a factor of two: the
/// whole-bit parts must agree, so both values share a power-of-two bracket.
proof fn lemma_flog2_eq_close(h: int, n: int)
    requires
        1 <= h <= n,
        flog2(h) == flog2(n),
    ensures
        2 * h > n,
{
    lemma_frac_range(mant(h), 16);
    lemma_frac_range(mant(n), 16);
    assert(p2(16) == 65536) by {
        reveal_with_fuel(p2, 17);
    }
    lemma_ilog2_mono(h, n);
    lemma_ilog2_bounds(h);
    lemma_ilog2_bounds(n);
    if ilog2(h) < ilog2(n) {
        assert(65536 * ilog2(h) + 65536 <= 65536 * ilog2(n)) by (nonlinear_arith)
            requires
                ilog2(h) + 1 <= ilog2(n),
        ;
        assert(false);
    }
}

/// A weighted sum that attains its bound does so term by term: every
/// occupied bucket's logarithm equals the logarithm of the whole.
proof fn lemma_weighted_tight(cands: Seq<usize>, words: Seq<Word>, g: int, k: int)
    requires
        weighted_sum(cands, words, g, k) == flog2(cands.len() as int) * hist_sum(
            cands,
            words,
            g,
            k,
        ),
    ensures
        forall|p: int|
            0 <= p < k ==> (#[trigger] bucket_size(cands, words, g, p)) == 0 || flog2(
                bucket_size(cands, words, g, p),
            ) == flog2(cands.len() as int),
    decreases k,
{
    let n = cands.len() as int;
    if k > 0 {
        let h = bucket_size(cands, words, g, k - 1);
        crate::candidates::lemma_filter_elements(cands, words, g, k - 1);
        lemma_weighted_sum_bounds(cands, words, g, k - 1);
        lemma_flog2_nonneg(h);
        lemma_flog2_mono(h, n);
        assert(h * flog2(h) <= h * flog2(n)) by (nonlinear_arith)
            requires
                0 <= h,
                flog2(h) <= flog2(n),
        ;
        assert(flog2(n) * hist_sum(cands, words, g, k) == flog2(n) * hist_sum(cands, words, g, k - 1)
            + flog2(n) * h) by (nonlinear_arith)
            requires
                hist_sum(cands, words, g, k) == hist_sum(cands, words, g, k - 1) + h,
        ;
        assert(h * flog2(n) == flog2(n) * h) by (nonlinear_arith);
        assert(weighted_sum(cands, words, g, k - 1) == flog2(n) * hist_sum(cands, words, g, k - 1));
        lemma_weighted_tight(cands, words, g, k - 1);
        if h >= 1 {
            assert(h * flog2(h) == h * flog2(n));
            assert(flog2(h) == flog2(n)) by (nonlinear_arith)
                requires
                    h >= 1,
                    h * flog2(h) == h * flog2(n),
            ;
        }
    }
}

/// The bucket total dominates each single bucket.
proof fn lemma_hist_sum_at_least(cands: Seq<usize>, words: Seq<Word>, g: int, p0: int, k: int)
    requires
        0 <= p0 < k,
    ensures
        hist_sum(cands, words, g, k) >= bucket_size(cands, words, g, p0),
    decreases k,
{
    if p0 < k - 1 {
        lemma_hist_sum_at_least(cands, words, g, p0, k - 1);
    } else {
        lemma_hist_sum_nonneg(cands, words, g, k - 1);
    }
}

/// Bucket totals are nonnegative.
proof fn lemma_hist_sum_nonneg(cands: Seq<usize>, words: Seq<Word>, g: int, k: int)
    ensures
        hist_sum(cands, words, g, k) >= 0,
    decreases k,
{
    if k > 0 {
        lemma_hist_sum_nonneg(cands, words, g, k - 1);
    }
}

/// The bucket total dominates any pair of distinct buckets.
proof fn lemma_hist_sum_pair(cands: Seq<usize>, words: Seq<Word>, g: int, p1: int, p2: int, k: int)
    requires
        0 <= p1 < p2 < k,
    ensures
        hist_sum(cands, words, g, k) >= bucket_size(cands, words, g, p1) + bucket_size(
            cands,
            words,
            g,
            p2,
        ),
    decreases k,
{
    if p2 < k - 1 {
        lemma_hist_sum_pair(cands, words, g, p1, p2, k - 1);
    } else {
        lemma_hist_sum_at_least(cands, words, g, p1, k - 1);
    }
}

/// A positive bucket total has an occupied bucket.
proof fn lemma_occupied_exists(cands: Seq<usize>, words: Seq<Word>, g: int, k: int)
    requires
        hist_sum(cands, words, g, k) > 0,
    ensures
        exists|p: int| 0 <= p < k && (#[trigger] bucket_size(cands, words, g, p)) > 0,
    decreases k,
{
    if k > 0 {
        if bucket_size(cands, words, g, k - 1) > 0 {
            assert(0 <= k - 1 < k && bucket_size(cands, words, g, k - 1) > 0);
        } else {
            lemma_occupied_exists(cands, words, g, k - 1);
        }
    }
}

/// With a single occupied bucket the total is that bucket.
proof fn lemma_hist_single(cands: Seq<usize>, words: Seq<Word>, g: int, p1: int, k: int)
    requires
        forall|p: int|
            0 <= p < k && p != p1 ==> (#[trigger] bucket_size(cands, words, g, p)) == 0,
    ensures
        hist_sum(cands, words, g, k) == if 0 <= p1 < k {
            bucket_size(cands, words, g, p1)
        } else {
            0
        },
    decreases k,
{
    if k > 0 {
        lemma_hist_single(cands, words, g, p1, k - 1);
    }
}

/// A filter that keeps everything means every candidate matched.
proof fn lemma_filter_full(cands: Seq<usize>, words: Seq<Word>, g: int, p0: int)
    requires
        filter_spec(cands, words, g, p0).len() == cands.len(),
    ensures
        forall|i: int|
            0 <= i < cands.len() ==> crate::oracle::pattern_spec(
                words[g]@,
                (#[trigger] words[cands[i] as int])@,
            ) == p0,
    decreases cands.len(),
{
    if cands.len() > 0 {
        let rest = cands.drop_last();
        crate::candidates::lemma_filter_elements(rest, words, g, p0);
        if crate::candidates::cand_matches(words, g, cands.last() as int, p0) {
            lemma_filter_full(rest, words, g, p0);
            assert(forall|i: int|
                0 <= i < rest.len() ==> rest[i] == cands[i]);
            assert(cands[cands.len() - 1] == cands.last());
        } else {
            assert(filter_spec(cands, words, g, p0).len() <= rest.len());
            assert(false);
        }
    }
}

/// A guess gains no information only when every candidate yields the same
/// pattern against it: the converse of `lemma_score_zero_when_uniform`.
pub proof fn lemma_score_zero_only_if_uniform(cands: Seq<usize>, words: Seq<Word>, g: int)
    requires
        cands.len() >= 1,
        score_spec(cands, words, g) == 0,
    ensures
        exists|p0: int|
            #![trigger bucket_size(cands, words, g, p0)]
            0 <= p0 < 243 && forall|i: int|
                0 <= i < cands.len() ==> crate::oracle::pattern_spec(
                    words[g]@,
                    (#[trigger] words[cands[i] as int])@,
                ) == p0,
{
    let n = cands.len() as int;
    lemma_hist_sum_total(cands, words, g);
    assert(n * flog2(n) == flog2(n) * n) by (nonlinear_arith);
    lemma_weighted_tight(cands, words, g, 243);
    lemma_occupied_exists(cands, words, g, 243);
    let p1 = choose|p: int| 0 <= p < 243 && (#[trigger] bucket_size(cands, words, g, p)) > 0;
    let h1 = bucket_size(cands, words, g, p1);
    crate::candidates::lemma_filter_elements(cands, words, g, p1);
    if h1 == n {
        lemma_filter_full(cands, words, g, p1);
        assert(0 <= p1 < 243 && forall|i: int|
            0 <= i < cands.len() ==> crate::oracle::pattern_spec(
                words[g]@,
                (#[trigger] words[cands[i] as int])@,
            ) == p1);
    } else {
        if forall|p: int|
            0 <= p < 243 && p != p1 ==> (#[trigger] bucket_size(cands, words, g, p)) == 0 {
            lemma_hist_single(cands, words, g, p1, 243);
            assert(false);
        }
        let p2 = choose|p: int|
            0 <= p < 243 && p != p1 && (#[trigger] bucket_size(cands, words, g, p)) != 0;
        let h2 = bucket_size(cands, words, g, p2);
        crate::candidates::lemma_filter_elements(cands, words, g, p2);
        assert(h2 >= 1);
        lemma_flog2_eq_close(h1, n);
        lemma_flog2_eq_close(h2, n);
        if p1 < p2 {
            lemma_hist_sum_pair(cands, words, g, p1, p2, 243);
        } else {
            lemma_hist_sum_pair(cands, words, g, p2, p1, 243);
        }
        assert(false);
    }
}

/// The score never exceeds `n * flog2(n)`, the scaled form of `log2(n)` bits,
/// and attains it exactly when every pattern bucket holds at most one
/// candidate.
pub proof fn lemma_score_max_iff(cands: Seq<usize>, words: Seq<Word>, g: int)
    ensures
        score_spec(cands, words, g) <= cands.len() * flog2(cands.len() as int),
        score_spec(cands, words, g) == cands.len() * flog2(cands.len() as int) <==> forall|p: int|
            0 <= p < 243 ==> bucket_size(cands, words, g, p) <= 1,
{
    lemma_weighted_sum_bounds(cands, words, g, 243);
    if forall|p: int| 0 <= p < 243 ==> bucket_size(cands, words, g, p) <= 1 {
        lemma_small_buckets_weighted(cands, words, g, 243);
    } else {
        let p0 = choose|p: int| 0 <= p < 243 && bucket_size(cands, words, g, p) > 1;
        lemma_weighted_sum_at_least(cands, words, g, p0, 243);
        let h = bucket_size(cands, words, g, p0);
        lemma_flog2_ge_one_bit(h);
        assert(h * flog2(h) >= 2 * 65536) by (nonlinear_arith)
            requires
                h >= 2,
                flog2(h) >= 65536,
        ;
    }
}

/// When every bucket holds at most one candidate, no bucket contributes.
proof fn lemma_small_buckets_weighted(cands: Seq<usize>, words: Seq<Word>, g: int, k: int)
    requires
        forall|p: int| 0 <= p < 243 ==> bucket_size(cands, words, g, p) <= 1,
        k <= 243,
    ensures
        weighted_sum(cands, words, g, k) == 0,
    decreases k,
{
    if k > 0 {
        lemma_small_buckets_weighted(cands, words, g, k - 1);
        let h = bucket_size(cands, words, g, k - 1);
        if h <= 0 {
            lemma_flog2_low(0);
        } else {
            assert(h == 1);
            lemma_flog2_low(1);
        }
    }
}

/// The weighted sum dominates each of its terms.
proof fn lemma_weighted_sum_at_least(cands: Seq<usize>, words: Seq<Word>, g: int, p0: int, k: int)
    requires
        0 <= p0 < k,
    ensures
        weighted_sum(cands, words, g, k) >= bucket_size(cands, words, g, p0) * flog2(
            bucket_size(cands, words, g, p0),
        ),
    decreases k,
{
    let h = bucket_size(cands, words, g, k - 1);
    lemma_flog2_nonneg(h);
    assert(h * flog2(h) >= 0) by (nonlinear_arith)
        requires
            h >= 0,
            flog2(h) >= 0,
    ;
    if p0 < k - 1 {
        lemma_weighted_sum_at_least(cands, words, g, p0, k - 1);
    } else {
        lemma_weighted_sum_bounds(cands, words, g, k - 1);
    }
}

/// Tallies how many candidates produce each of the 243 patterns against the
/// guess.
pub fn histogram(words: &Vec<Word>, cands: &Vec<usize>, guess: usize) -> (h: Vec<u64>)
    requires
        guess < words@.len(),
        cands_in_range(cands@, words@.len() as int),
        forall|i: int| 0 <= i < words@.len() ==> (#[trigger] words@[i])@.len() == 5,
        cands@.len() < 0x1_0000_0000,
    ensures
        h@.len() == 243,
        forall|p: int|
            0 <= p < 243 ==> (#[trigger] h@[p]) as int == bucket_size(
                cands@,
                words@,
                guess as int,
                p,
            ),
        forall|p: int| 0 <= p < 243 ==> (#[trigger] h@[p]) as int <= cands@.len(),
{
    let mut h: Vec<u64> = Vec::new();
    let mut i: usize = 0;
    while i < 243
        invariant
            i <= 243,
            h@.len() == i,
            forall|p: int| 0 <= p < i ==> (#[trigger] h@[p]) == 0,
        decreases 243 - i,
    {
        h.push(0);
        i += 1;
    }
    proof {
        assert forall|p: int| 0 <= p < 243 implies (#[trigger] h@[p]) as int == bucket_size(
            cands@.take(0),
            words@,
            guess as int,
            p,
        ) by {
            assert(cands@.take(0) =~= Seq::<usize>::empty());
        }
    }
    let mut i: usize = 0;
    while i < cands.len()
        invariant
            i <= cands@.len(),
            guess < words@.len(),
            cands_in_range(cands@, words@.len() as int),
            forall|q: int| 0 <= q < words@.len() ==> (#[trigger] words@[q])@.len() == 5,
            cands@.len() < 0x1_0000_0000,
            h@.len() == 243,
            forall|p: int|
                0 <= p < 243 ==> (#[trigger] h@[p]) as int == bucket_size(
                    cands@.take(i as int),
                    words@,
                    guess as int,
                    p,
                ),
            forall|p: int| 0 <= p < 243 ==> (#[trigger] h@[p]) as int <= i,
        decreases cands@.len() - i,
    {
        let w = cands[i];
        let p = pattern(&words[guess], &words[w]);
        let ghost hold = h@;
        let cur = h[p as usize];
        h.set(p as usize, cur + 1);
        proof {
            assert(cands@.take(i as int + 1).drop_last() =~= cands@.take(i as int));
            assert(cands@.take(i as int + 1).last() == cands@[i as int]);
            assert forall|q: int| 0 <= q < 243 implies (#[trigger] h@[q]) as int == bucket_size(
                cands@.take(i as int + 1),
                words@,
                guess as int,
                q,
            ) by {
                if q == p as int {
                    assert(h@[q] == hold[q] + 1);
                } else {
                    assert(h@[q] == hold[q]);
                }
            }
        }
        i += 1;
    }
    proof {
        assert(cands@.take(cands@.len() as int) =~= cands@);
    }
    h
}

/// The scaled expected information gain of playing `guess` against the
/// current candidate set.
pub fn entropy_score(words: &Vec<Word>, cands: &Vec<usize>, guess: usize) -> (s: u64)
    requires
        guess < words@.len(),
        cands_in_range(cands@, words@.len() as int),
        forall|i: int| 0 <= i < words@.len() ==> (#[trigger] words@[i])@.len() == 5,
        1 <= cands@.len() < 0x1_0000_0000,
    ensures
        s as int == score_spec(cands@, words@, guess as int),
{
    let ghost gi = guess as int;
    let h = histogram(words, cands, guess);
    let n: u64 = cands.len() as u64;
    let logn = log2_fixed(n);
    let mut acc: u64 = 0;
    let mut p: usize = 0;
    while p < 243
        invariant
            p <= 243,
            h@.len() == 243,
            n as int == cands@.len(),
            1 <= n < 0x1_0000_0000,
            logn as int == flog2(n as int),
            logn < 0x21_0000,
            forall|q: int|
                0 <= q < 243 ==> (#[trigger] h@[q]) as int == bucket_size(cands@, words@, gi, q),
            forall|q: int| 0 <= q < 243 ==> (#[trigger] h@[q]) as int <= cands@.len(),
            acc as int == weighted_sum(cands@, words@, gi, p as int),
            acc as int <= flog2(n as int) * hist_sum(cands@, words@, gi, p as int),
        decreases 243 - p,
    {
        let b = h[p];
        proof {
            lemma_hist_sum_mono(cands@, words@, gi, p as int + 1, 243);
            lemma_hist_sum_total(cands@, words@, gi);
            lemma_weighted_sum_bounds(cands@, words@, gi, p as int + 1);
            lemma_flog2_upper(n as int);
            lemma_flog2_nonneg(n as int);
            assert(flog2(n as int) * hist_sum(cands@, words@, gi, p as int + 1) <= flog2(n as int)
                * (n as int)) by (nonlinear_arith)
                requires
                    flog2(n as int) >= 0,
                    hist_sum(cands@, words@, gi, p as int + 1) <= n as int,
            ;
            assert(flog2(n as int) * (n as int) < 0x21_0000 * 0x1_0000_0000) by (nonlinear_arith)
                requires
                    0 <= flog2(n as int) < 0x21_0000,
                    0 <= (n as int) && (n as int) < 0x1_0000_0000,
            ;
        }
        if b >= 2 {
            let lb = log2_fixed(b);
            proof {
                lemma_flog2_mono(b as int, n as int);
                assert((b as int) * (lb as int) <= (b as int) * flog2(n as int)) by (nonlinear_arith)
                    requires
                        lb as int <= flog2(n as int),
                        b as int >= 0,
                ;
                assert((b as int) * flog2(n as int) <= (n as int) * flog2(n as int))
                    by (nonlinear_arith)
                    requires
                        b as int <= n as int,
                        flog2(n as int) >= 0,
                ;
                assert((n as int) * flog2(n as int) < 0x1_0000_0000 * 0x21_0000)
                    by (nonlinear_arith)
                    requires
                        0 <= (n as int) && (n as int) < 0x1_0000_0000,
                        0 <= flog2(n as int) < 0x21_0000,
                ;
            }
            acc = acc + b * lb;
        } else {
            proof {
                if b == 0 {
                    lemma_flog2_low(0);
                } else {
                    lemma_flog2_low(1);
                }
                assert((b as int) * flog2(b as int) == 0);
            }
        }
        p += 1;
    }
    proof {
        lemma_weighted_sum_bounds(cands@, words@, gi, 243);
        lemma_hist_sum_total(cands@, words@, gi);
        assert(flog2(n as int) * (n as int) == (n as int) * flog2(n as int)) by (nonlinear_arith);
        assert((n as int) * (logn as int) < 0x1_0000_0000 * 0x21_0000) by (nonlinear_arith)
            requires
                0 <= (n as int) && (n as int) < 0x1_0000_0000,
                0 <= (logn as int) && (logn as int) < 0x21_0000,
        ;
    }
    n * logn - acc
}

} // verus!
