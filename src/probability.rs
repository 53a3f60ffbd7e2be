use vstd::prelude::*;

verus! {

/// Probabilities are integers in parts per million.
pub const PROB_SCALE: u64 = 1_000_000;

/// Lower clamp bound, 0.01.
pub const MIN_PROB: u64 = 10_000;

/// Upper clamp bound, 0.99.
pub const MAX_PROB: u64 = 990_000;

/// `num / den` in parts per million, rounded down; 0 when `den` is 0.
pub open spec fn ratio_ppm(num: int, den: int) -> int {
    if den > 0 { (num * 1_000_000) / den } else { 0 }
}

pub open spec fn clamp_spec(p: int) -> int {
    if p < 10_000 { 10_000 } else if p > 990_000 { 990_000 } else { p }
}

pub open spec fn abs_diff(a: int, b: int) -> int {
    if a >= b { a - b } else { b - a }
}

/// Clamped P(TRUE), clamped P(FALSE) and their distance, from the matching
/// and total amounts of each polarity.
pub open spec fn assembled(tm: int, tt: int, fm: int, ft: int) -> (int, int, int) {
    let ct = clamp_spec(ratio_ppm(tm, tt));
    let cf = clamp_spec(ratio_ppm(fm, ft));
    (ct, cf, abs_diff(ct, cf))
}

/// `num / den` in parts per million, capped at 1; 0 when `den` is 0.
pub fn probability_ppm(num: u64, den: u64) -> (r: u64)
    ensures
        r <= PROB_SCALE,
        ratio_ppm(num as int, den as int) <= PROB_SCALE ==> r == ratio_ppm(num as int, den as int),
        ratio_ppm(num as int, den as int) > PROB_SCALE ==> r == PROB_SCALE,
{
    if den == 0 {
        return 0;
    }
    assert(num as u128 * 1_000_000 <= 0xffff_ffff_ffff_ffff * 1_000_000) by (nonlinear_arith)
        requires num <= 0xffff_ffff_ffff_ffff;
    let n: u128 = num as u128 * 1_000_000;
    let d: u128 = den as u128;
    let r = n / d;
    if r > PROB_SCALE as u128 {
        PROB_SCALE
    } else {
        r as u64
    }
}

/// Clamps a probability to `[0.01, 0.99]`.
pub fn clamp_probability(p: u64) -> (r: u64)
    ensures
        r == clamp_spec(p as int),
{
    if p < MIN_PROB {
        MIN_PROB
    } else if p > MAX_PROB {
        MAX_PROB
    } else {
        p
    }
}

/// Clamps both probabilities to `[0.01, 0.99]`, each on its own.
pub fn clamp_preserve_discrimination(prob_true: u64, prob_false: u64) -> (r: (u64, u64))
    ensures
        r.0 == clamp_spec(prob_true as int),
        r.1 == clamp_spec(prob_false as int),
{
    (clamp_probability(prob_true), clamp_probability(prob_false))
}

/// Distance between two probabilities.
pub fn discrimination_power(clamped_true: u64, clamped_false: u64) -> (r: u64)
    ensures
        r == abs_diff(clamped_true as int, clamped_false as int),
{
    if clamped_true >= clamped_false { clamped_true - clamped_false } else { clamped_false - clamped_true }
}

/// Clamped probabilities given TRUE and given FALSE, and the discrimination
/// power, from matching and total amounts.
pub fn assemble_probabilities(true_matching: u64, true_total: u64, false_matching: u64, false_total: u64) -> (r: (u64, u64, u64))
    ensures
        (r.0 as int, r.1 as int, r.2 as int) == assembled(true_matching as int, true_total as int, false_matching as int, false_total as int),
{
    let pt = probability_ppm(true_matching, true_total);
    let pf = probability_ppm(false_matching, false_total);
    let (ct, cf) = clamp_preserve_discrimination(pt, pf);
    (ct, cf, discrimination_power(ct, cf))
}

/// Clamping is idempotent, and leaves a probability within `[0.01, 0.99]`
/// unchanged.
pub proof fn lemma_clamp_idempotent(p: int)
    ensures
        clamp_spec(clamp_spec(p)) == clamp_spec(p),
        10_000 <= p <= 990_000 ==> clamp_spec(p) == p,
{
}

/// Swapping the TRUE and FALSE labels swaps the two probabilities and keeps
/// the discrimination power.
pub proof fn lemma_swap_polarity(tm: int, tt: int, fm: int, ft: int)
    ensures
        assembled(fm, ft, tm, tt).0 == assembled(tm, tt, fm, ft).1,
        assembled(fm, ft, tm, tt).1 == assembled(tm, tt, fm, ft).0,
        assembled(fm, ft, tm, tt).2 == assembled(tm, tt, fm, ft).2,
{
}

} // verus!
