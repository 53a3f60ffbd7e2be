use vstd::prelude::*;
use vstd::string::*;
use crate::sensor_analysis::{NumericStateStats, ValueDuration};
use crate::text::{fixed2, fixed2_text, signed_decimal, signed_decimal_text};

verus! {

/// A membership test `above < value <= below`; an absent bound leaves that
/// side open, and two absent bounds match nothing.
#[derive(Debug, Clone, Copy, PartialEq, Eq, Structural)]
pub struct OptimalThresholds {
    pub above: Option<i64>,
    pub below: Option<i64>,
}

/// What `value_matches_thresholds` decides.
pub open spec fn matches_spec(v: int, t: OptimalThresholds) -> bool {
    match (t.above, t.below) {
        (Some(a), Some(b)) => a < v && v <= b,
        (Some(a), None) => a < v,
        (None, Some(b)) => v <= b,
        (None, None) => false,
    }
}

/// Range test used while scoring: an absent bound is unconstrained, so two
/// absent bounds admit every value.
pub open spec fn in_range(v: int, above: Option<i64>, below: Option<i64>) -> bool {
    (above is None || above.unwrap() < v) && (below is None || v <= below.unwrap())
}

/// Sum of the durations of the chunks whose value lies in the range.
pub open spec fn matched_duration(s: Seq<ValueDuration>, above: Option<i64>, below: Option<i64>) -> int
    decreases s.len(),
{
    if s.len() == 0 {
        0
    } else {
        matched_duration(s.drop_last(), above, below) + if in_range(s.last().value as int, above, below) {
            s.last().duration as int
        } else {
            0
        }
    }
}

/// Sum of all chunk durations.
pub open spec fn total_duration(s: Seq<ValueDuration>) -> int {
    matched_duration(s, None, None)
}

/// Chunks with positive durations whose total fits an `i64`.
pub open spec fn chunks_wf(s: Seq<ValueDuration>) -> bool {
    &&& forall|i: int| 0 <= i < s.len() ==> #[trigger] s[i].duration > 0
    &&& total_duration(s) <= i64::MAX
}

/// Chunks in non-decreasing order of value.
pub open spec fn sorted_by_value(s: Seq<ValueDuration>) -> bool {
    forall|i: int, j: int| 0 <= i <= j < s.len() ==> s[i].value <= s[j].value
}

/// Absolute value.
pub open spec fn abs(x: int) -> int {
    if x < 0 { -x } else { x }
}

/// The score `|matched_t / total_t - matched_f / total_f|` scaled by the
/// positive constant `total_t * total_f`: within one search the denominator
/// is fixed, so scores compare exactly through this numerator.
pub open spec fn score_num(ts: Seq<ValueDuration>, fs: Seq<ValueDuration>, above: Option<i64>, below: Option<i64>) -> int {
    abs(matched_duration(ts, above, below) * total_duration(fs) - matched_duration(fs, above, below) * total_duration(ts))
}

/// Score numerator of a threshold.
pub open spec fn threshold_score(ts: Seq<ValueDuration>, fs: Seq<ValueDuration>, t: OptimalThresholds) -> int {
    score_num(ts, fs, t.above, t.below)
}

/// With positive durations, a matched duration lies between 0 and the
/// total, and a non-empty list has a positive total.
pub proof fn lemma_matched_bounds(s: Seq<ValueDuration>, above: Option<i64>, below: Option<i64>)
    requires
        forall|i: int| 0 <= i < s.len() ==> #[trigger] s[i].duration > 0,
    ensures
        0 <= matched_duration(s, above, below) <= total_duration(s),
        s.len() > 0 ==> total_duration(s) > 0,
    decreases s.len(),
{
    if s.len() > 0 {
        assert forall|i: int| 0 <= i < s.drop_last().len() implies #[trigger] s.drop_last()[i].duration > 0 by {
            assert(s.drop_last()[i] == s[i]);
        }
        assert(s.last().duration > 0);
        lemma_matched_bounds(s.drop_last(), above, below);
    }
}

/// Inserting a chunk anywhere adds its duration when it is in range.
pub proof fn lemma_matched_insert(s: Seq<ValueDuration>, k: int, x: ValueDuration, above: Option<i64>, below: Option<i64>)
    requires
        0 <= k <= s.len(),
    ensures
        matched_duration(s.insert(k, x), above, below) == matched_duration(s, above, below) + if in_range(x.value as int, above, below) {
            x.duration as int
        } else {
            0
        },
    decreases s.len(),
{
    if k == s.len() {
        assert(s.insert(k, x).drop_last() =~= s);
    } else {
        assert(s.insert(k, x).drop_last() =~= s.drop_last().insert(k, x));
        lemma_matched_insert(s.drop_last(), k, x, above, below);
    }
}

/// Extending a prefix by one chunk adds its duration when it is in range.
pub proof fn lemma_matched_take(s: Seq<ValueDuration>, i: int, above: Option<i64>, below: Option<i64>)
    requires
        0 <= i < s.len(),
    ensures
        matched_duration(s.take(i + 1), above, below) == matched_duration(s.take(i), above, below) + if in_range(s[i].value as int, above, below) {
            s[i].duration as int
        } else {
            0
        },
{
    assert(s.take(i + 1).drop_last() =~= s.take(i));
}

/// Whether `value` satisfies `above < value <= below`, an absent bound being
/// open and two absent bounds matching nothing.
pub fn value_matches_thresholds(value: i64, thresholds: &OptimalThresholds) -> (r: bool)
    ensures
        r == matches_spec(value as int, *thresholds),
{
    match (thresholds.above, thresholds.below) {
        (Some(above), Some(below)) => value > above && value <= below,
        (Some(above), None) => value > above,
        (None, Some(below)) => value <= below,
        (None, None) => false,
    }
}

/// Index of the first chunk whose value exceeds `threshold`.
pub fn binary_search_first_above(chunks: &[ValueDuration], threshold: i64) -> (r: usize)
    requires
        sorted_by_value(chunks@),
    ensures
        r <= chunks@.len(),
        forall|k: int| 0 <= k < r ==> chunks@[k].value <= threshold,
        forall|k: int| r <= k < chunks@.len() ==> chunks@[k].value > threshold,
{
    let mut left: usize = 0;
    let mut right: usize = chunks.len();
    while left < right
        invariant
            left <= right <= chunks@.len(),
            sorted_by_value(chunks@),
            forall|k: int| 0 <= k < left ==> chunks@[k].value <= threshold,
            forall|k: int| right <= k < chunks@.len() ==> chunks@[k].value > threshold,
        decreases right - left,
    {
        let mid = left + (right - left) / 2;
        if chunks[mid].value <= threshold {
            left = mid + 1;
        } else {
            right = mid;
        }
    }
    left
}

/// Exclusive end of the chunks whose value is at most `threshold`.
pub fn binary_search_last_below(chunks: &[ValueDuration], threshold: i64) -> (r: usize)
    requires
        sorted_by_value(chunks@),
    ensures
        r <= chunks@.len(),
        forall|k: int| 0 <= k < r ==> chunks@[k].value <= threshold,
        forall|k: int| r <= k < chunks@.len() ==> chunks@[k].value > threshold,
{
    let mut left: usize = 0;
    let mut right: usize = chunks.len();
    while left < right
        invariant
            left <= right <= chunks@.len(),
            sorted_by_value(chunks@),
            forall|k: int| 0 <= k < left ==> chunks@[k].value <= threshold,
            forall|k: int| right <= k < chunks@.len() ==> chunks@[k].value > threshold,
        decreases right - left,
    {
        let mid = left + (right - left) / 2;
        if chunks[mid].value <= threshold {
            left = mid + 1;
        } else {
            right = mid;
        }
    }
    left
}

/// Matching and total duration of a chunk list for one range test.
pub struct ChunkStats {
    pub matching_duration: i64,
    pub total_duration: i64,
}

/// Durations of the sorted chunks within `above < value <= below` (an absent
/// bound unconstrained), found through the two boundary indices.
pub fn calculate_chunks_in_range(sorted_chunks: &[ValueDuration], above: Option<i64>, below: Option<i64>) -> (r: ChunkStats)
    requires
        sorted_by_value(sorted_chunks@),
        chunks_wf(sorted_chunks@),
    ensures
        r.matching_duration == matched_duration(sorted_chunks@, above, below),
        r.total_duration == total_duration(sorted_chunks@),
{
    let s = Ghost(sorted_chunks@);
    let start_idx = match above {
        Some(t) => binary_search_first_above(sorted_chunks, t),
        None => 0,
    };
    let end_idx = match below {
        Some(t) => binary_search_last_below(sorted_chunks, t),
        None => sorted_chunks.len(),
    };
    let mut total: i64 = 0;
    let mut matching: i64 = 0;
    let mut i: usize = 0;
    while i < sorted_chunks.len()
        invariant
            s@ == sorted_chunks@,
            i <= s@.len(),
            chunks_wf(s@),
            above is Some ==> forall|k: int| 0 <= k < start_idx ==> s@[k].value <= above.unwrap(),
            above is Some ==> forall|k: int| start_idx <= k < s@.len() ==> s@[k].value > above.unwrap(),
            above is None ==> start_idx == 0,
            below is Some ==> forall|k: int| 0 <= k < end_idx ==> s@[k].value <= below.unwrap(),
            below is Some ==> forall|k: int| end_idx <= k < s@.len() ==> s@[k].value > below.unwrap(),
            below is None ==> end_idx == s@.len(),
            total == total_duration(s@.take(i as int)),
            matching == matched_duration(s@.take(i as int), above, below),
        decreases s@.len() - i,
    {
        proof {
            lemma_matched_take(s@, i as int, None, None);
            lemma_matched_take(s@, i as int, above, below);
            assert(s@.take(i as int + 1).take(i as int) =~= s@.take(i as int));
            assert forall|k: int| 0 <= k < s@.take(i as int + 1).len() implies #[trigger] s@.take(i as int + 1)[k].duration > 0 by {
                assert(s@.take(i as int + 1)[k] == s@[k]);
            }
            lemma_matched_bounds(s@.take(i as int + 1), None, None);
            lemma_matched_bounds(s@.take(i as int + 1), above, below);
            lemma_prefix_total(s@, i as int + 1);
        }
        let d = sorted_chunks[i].duration;
        total = total + d;
        if i >= start_idx && i < end_idx {
            matching = matching + d;
        }
        i = i + 1;
    }
    proof {
        assert(s@.take(s@.len() as int) =~= s@);
    }
    ChunkStats { matching_duration: matching, total_duration: total }
}

/// A prefix of positive-duration chunks has no more total than the whole.
pub proof fn lemma_prefix_total(s: Seq<ValueDuration>, n: int)
    requires
        0 <= n <= s.len(),
        forall|i: int| 0 <= i < s.len() ==> #[trigger] s[i].duration > 0,
    ensures
        total_duration(s.take(n)) <= total_duration(s),
    decreases s.len() - n,
{
    if n < s.len() {
        lemma_prefix_total(s, n + 1);
        lemma_matched_take(s, n, None, None);
    } else {
        assert(s.take(n) =~= s);
    }
}

/// Score numerator of a range test over two sorted, non-empty chunk lists
/// (see `score_num`).
pub fn calculate_threshold_score(
    sorted_true_chunks: &[ValueDuration],
    sorted_false_chunks: &[ValueDuration],
    above: Option<i64>,
    below: Option<i64>,
) -> (r: i128)
    requires
        sorted_true_chunks@.len() > 0,
        sorted_false_chunks@.len() > 0,
        sorted_by_value(sorted_true_chunks@),
        sorted_by_value(sorted_false_chunks@),
        chunks_wf(sorted_true_chunks@),
        chunks_wf(sorted_false_chunks@),
    ensures
        r == score_num(sorted_true_chunks@, sorted_false_chunks@, above, below),
{
    let t = calculate_chunks_in_range(sorted_true_chunks, above, below);
    let f = calculate_chunks_in_range(sorted_false_chunks, above, below);
    proof {
        lemma_matched_bounds(sorted_true_chunks@, above, below);
        lemma_matched_bounds(sorted_false_chunks@, above, below);
    }
    let mt = t.matching_duration as i128;
    let tt = t.total_duration as i128;
    let mf = f.matching_duration as i128;
    let tf = f.total_duration as i128;
    assert(0 <= mt * tf <= 0x7fff_ffff_ffff_ffff * 0x7fff_ffff_ffff_ffff) by (nonlinear_arith)
        requires 0 <= mt <= 0x7fff_ffff_ffff_ffff, 0 <= tf <= 0x7fff_ffff_ffff_ffff;
    assert(0 <= mf * tt <= 0x7fff_ffff_ffff_ffff * 0x7fff_ffff_ffff_ffff) by (nonlinear_arith)
        requires 0 <= mf <= 0x7fff_ffff_ffff_ffff, 0 <= tt <= 0x7fff_ffff_ffff_ffff;
    let a = mt * tf;
    let b = mf * tt;
    if a >= b { a - b } else { b - a }
}

/// A copy of `chunks` ordered by value, with the same durations in every
/// range.
pub fn sort_chunks_by_value(chunks: &Vec<ValueDuration>) -> (r: Vec<ValueDuration>)
    requires
        chunks_wf(chunks@),
    ensures
        r@.len() == chunks@.len(),
        sorted_by_value(r@),
        chunks_wf(r@),
        forall|above: Option<i64>, below: Option<i64>| #[trigger] matched_duration(r@, above, below) == matched_duration(chunks@, above, below),
{
    let mut res: Vec<ValueDuration> = Vec::new();
    let mut i: usize = 0;
    while i < chunks.len()
        invariant
            i <= chunks@.len(),
            res@.len() == i,
            sorted_by_value(res@),
            chunks_wf(chunks@),
            forall|k: int| 0 <= k < res@.len() ==> #[trigger] res@[k].duration > 0,
            forall|above: Option<i64>, below: Option<i64>| #[trigger] matched_duration(res@, above, below) == matched_duration(chunks@.take(i as int), above, below),
        decreases chunks@.len() - i,
    {
        let x = chunks[i];
        let mut p: usize = 0;
        while p < res.len() && res[p].value <= x.value
            invariant
                p <= res@.len(),
                forall|k: int| 0 <= k < p ==> res@[k].value <= x.value,
            decreases res@.len() - p,
        {
            p = p + 1;
        }
        let ghost old_res = res@;
        res.insert(p, x);
        proof {
            assert forall|above: Option<i64>, below: Option<i64>| #[trigger] matched_duration(res@, above, below) == matched_duration(chunks@.take(i as int + 1), above, below) by {
                lemma_matched_insert(old_res, p as int, x, above, below);
                lemma_matched_take(chunks@, i as int, above, below);
            }
            assert(x.duration > 0);
        }
        i = i + 1;
    }
    proof {
        assert(chunks@.take(chunks@.len() as int) =~= chunks@);
        assert(matched_duration(res@, None, None) == matched_duration(chunks@, None, None));
    }
    res
}

/// Strictly increasing, hence free of duplicates.
pub open spec fn strictly_increasing(s: Seq<i64>) -> bool {
    forall|i: int, j: int| 0 <= i < j < s.len() ==> s[i] < s[j]
}

/// Adds `x` to a strictly increasing list unless it is already there.
pub fn insert_sorted_unique(v: &mut Vec<i64>, x: i64)
    requires
        strictly_increasing(old(v)@),
    ensures
        strictly_increasing(final(v)@),
        forall|y: i64| #[trigger] final(v)@.contains(y) <==> (old(v)@.contains(y) || y == x),
{
    let mut p: usize = 0;
    while p < v.len() && v[p] < x
        invariant
            p <= v@.len(),
            forall|k: int| 0 <= k < p ==> v@[k] < x,
        decreases v@.len() - p,
    {
        p = p + 1;
    }
    if p < v.len() && v[p] == x {
        return;
    }
    let ghost old_v = v@;
    v.insert(p, x);
    proof {
        assert forall|y: i64| #[trigger] v@.contains(y) <==> (old_v.contains(y) || y == x) by {
            if old_v.contains(y) {
                let k = choose|k: int| 0 <= k < old_v.len() && old_v[k] == y;
                if k < p {
                    assert(v@[k] == y);
                } else {
                    assert(v@[k + 1] == y);
                }
            }
            if y == x {
                assert(v@[p as int] == x);
            }
            if v@.contains(y) {
                let k = choose|k: int| 0 <= k < v@.len() && v@[k] == y;
                if k < p {
                    assert(old_v[k] == y);
                } else if k > p {
                    assert(old_v[k - 1] == y);
                }
            }
        }
    }
}

/// Whether `v` is the value of some chunk of either polarity.
pub open spec fn is_observed(stats: NumericStateStats, v: i64) -> bool {
    (exists|k: int| 0 <= k < stats.true_chunks@.len() && #[trigger] stats.true_chunks@[k].value == v)
    || (exists|k: int| 0 <= k < stats.false_chunks@.len() && #[trigger] stats.false_chunks@[k].value == v)
}

/// Point `i` of the 21 evenly spaced points from `min` to `max`.
pub open spec fn spaced_point(min: int, max: int, i: int) -> int {
    if max >= min { min + ((max - min) * i) / 20 } else { min - ((min - max) * i) / 20 }
}

/// Midpoint of `a <= b`, rounded down.
pub open spec fn midpoint(a: int, b: int) -> int {
    a + (b - a) / 2
}

/// `a < b` are observed values with no observed value between them.
pub open spec fn adjacent_values(stats: NumericStateStats, a: i64, b: i64) -> bool {
    &&& a < b
    &&& is_observed(stats, a)
    &&& is_observed(stats, b)
    &&& forall|c: i64| a < c < b ==> !#[trigger] is_observed(stats, c)
}

/// Lower end of the evenly spaced points (0 when unknown).
pub open spec fn range_min(stats: NumericStateStats) -> int {
    match stats.min { Some(m) => m as int, None => 0 }
}

/// Upper end of the evenly spaced points (100 units when unknown).
pub open spec fn range_max(stats: NumericStateStats) -> int {
    match stats.max { Some(m) => m as int, None => 100_000_000 }
}

/// The split points the search tries: every observed value, the midpoint of
/// each pair of neighbouring distinct values, and 21 evenly spaced points
/// over `[min, max]`.
pub open spec fn is_candidate(stats: NumericStateStats, c: i64) -> bool {
    ||| is_observed(stats, c)
    ||| exists|a: i64, b: i64| #[trigger] adjacent_values(stats, a, b) && c == midpoint(a as int, b as int)
    ||| exists|i: int| 0 <= i <= 20 && c == #[trigger] spaced_point(range_min(stats), range_max(stats), i)
}

fn spaced(min: i64, max: i64, i: i64) -> (r: i64)
    requires
        0 <= i <= 20,
    ensures
        r == spaced_point(min as int, max as int, i as int),
{
    if max >= min {
        let span = (max as i128) - (min as i128);
        assert(0 <= span * (i as i128) <= span * 20) by (nonlinear_arith)
            requires 0 <= span, 0 <= i <= 20;
        assert((span * (i as i128)) / 20 <= span) by (nonlinear_arith)
            requires 0 <= span * (i as i128) <= span * 20;
        (min as i128 + (span * (i as i128)) / 20) as i64
    } else {
        let span = (min as i128) - (max as i128);
        assert(0 <= span * (i as i128) <= span * 20) by (nonlinear_arith)
            requires 0 <= span, 0 <= i <= 20;
        assert((span * (i as i128)) / 20 <= span) by (nonlinear_arith)
            requires 0 <= span * (i as i128) <= span * 20;
        (min as i128 - (span * (i as i128)) / 20) as i64
    }
}

/// The sorted, duplicate-free candidate split points of `stats`.
pub fn threshold_candidates(stats: &NumericStateStats) -> (r: Vec<i64>)
    ensures
        strictly_increasing(r@),
        forall|c: i64| #[trigger] r@.contains(c) <==> is_candidate(*stats, c),
{
    let mut values: Vec<i64> = Vec::new();
    let mut i: usize = 0;
    while i < stats.true_chunks.len()
        invariant
            i <= stats.true_chunks@.len(),
            strictly_increasing(values@),
            forall|y: i64| #[trigger] values@.contains(y) <==> exists|k: int| 0 <= k < i && #[trigger] stats.true_chunks@[k].value == y,
        decreases stats.true_chunks@.len() - i,
    {
        insert_sorted_unique(&mut values, stats.true_chunks[i].value);
        proof {
            assert forall|y: i64| #[trigger] values@.contains(y) <==> exists|k: int| 0 <= k < i + 1 && #[trigger] stats.true_chunks@[k].value == y by {
                if y == stats.true_chunks@[i as int].value {
                    assert(stats.true_chunks@[i as int].value == y);
                }
            }
        }
        i = i + 1;
    }
    let mut j: usize = 0;
    while j < stats.false_chunks.len()
        invariant
            j <= stats.false_chunks@.len(),
            strictly_increasing(values@),
            forall|y: i64| #[trigger] values@.contains(y) <==>
                ((exists|k: int| 0 <= k < stats.true_chunks@.len() && #[trigger] stats.true_chunks@[k].value == y)
                || (exists|k: int| 0 <= k < j && #[trigger] stats.false_chunks@[k].value == y)),
        decreases stats.false_chunks@.len() - j,
    {
        insert_sorted_unique(&mut values, stats.false_chunks[j].value);
        proof {
            assert forall|y: i64| #[trigger] values@.contains(y) <==>
                ((exists|k: int| 0 <= k < stats.true_chunks@.len() && #[trigger] stats.true_chunks@[k].value == y)
                || (exists|k: int| 0 <= k < j + 1 && #[trigger] stats.false_chunks@[k].value == y)) by {
                if y == stats.false_chunks@[j as int].value {
                    assert(stats.false_chunks@[j as int].value == y);
                }
            }
        }
        j = j + 1;
    }
    assert(forall|y: i64| #[trigger] values@.contains(y) <==> is_observed(*stats, y));
    let mut cands: Vec<i64> = Vec::new();
    let mut k: usize = 0;
    while k < values.len()
        invariant
            k <= values@.len(),
            strictly_increasing(values@),
            strictly_increasing(cands@),
            forall|y: i64| #[trigger] values@.contains(y) <==> is_observed(*stats, y),
            forall|y: i64| #[trigger] cands@.contains(y) <==>
                ((exists|m: int| 0 <= m < k && values@[m] == y)
                || (exists|m: int| 0 <= m && m + 1 < k && y == #[trigger] midpoint(values@[m] as int, values@[m + 1] as int))),
        decreases values@.len() - k,
    {
        let ghost mid_g: int = 0;
        let ghost c0 = cands@;
        insert_sorted_unique(&mut cands, values[k]);
        let ghost c1 = cands@;
        if k > 0 {
            let a = values[k - 1];
            let b = values[k];
            assert(a < b);
            let mid = (a as i128 + ((b as i128) - (a as i128)) / 2) as i64;
            proof {
                mid_g = midpoint(a as int, b as int);
                assert(mid as int == mid_g);
            }
            insert_sorted_unique(&mut cands, mid);
        }
        proof {
            assert forall|y: i64| #[trigger] cands@.contains(y) <==>
                ((exists|m: int| 0 <= m < k + 1 && values@[m] == y)
                || (exists|m: int| 0 <= m && m + 1 < k + 1 && y == #[trigger] midpoint(values@[m] as int, values@[m + 1] as int))) by {
                assert(c0.contains(y) <==>
                    ((exists|m: int| 0 <= m < k && values@[m] == y)
                    || (exists|m: int| 0 <= m && m + 1 < k && y == #[trigger] midpoint(values@[m] as int, values@[m + 1] as int))));
                assert(c1.contains(y) <==> (c0.contains(y) || y == values@[k as int]));
                if k > 0 {
                    assert(cands@.contains(y) <==> (c1.contains(y) || y == mid_g));
                } else {
                    assert(cands@ == c1);
                }
                if y == values@[k as int] {
                    assert(values@[k as int] == y);
                }
                if exists|m: int| 0 <= m < k + 1 && values@[m] == y {
                    let m = choose|m: int| 0 <= m < k + 1 && values@[m] == y;
                    if m < k {
                        assert(values@[m] == y);
                    }
                }
                if exists|m: int| 0 <= m && m + 1 < k + 1 && y == #[trigger] midpoint(values@[m] as int, values@[m + 1] as int) {
                    let m = choose|m: int| 0 <= m && m + 1 < k + 1 && y == #[trigger] midpoint(values@[m] as int, values@[m + 1] as int);
                    if m + 1 < k {
                        assert(y == midpoint(values@[m] as int, values@[m + 1] as int));
                    }
                }
                if k > 0 && y == mid_g {
                    let m: int = k - 1;
                    assert(values@[m + 1] == values@[k as int]);
                    assert(y == midpoint(values@[m] as int, values@[m + 1] as int));
                }
            }
        }
        k = k + 1;
    }
    let min = match stats.min { Some(m) => m, None => 0 };
    let max = match stats.max { Some(m) => m, None => 100_000_000 };
    let mut p: i64 = 0;
    while p <= 20
        invariant
            0 <= p <= 21,
            min == range_min(*stats),
            max == range_max(*stats),
            strictly_increasing(cands@),
            forall|y: i64| #[trigger] cands@.contains(y) <==>
                ((exists|m: int| 0 <= m < values@.len() && values@[m] == y)
                || (exists|m: int| 0 <= m && m + 1 < values@.len() && y == #[trigger] midpoint(values@[m] as int, values@[m + 1] as int))
                || (exists|q: int| 0 <= q < p && y == #[trigger] spaced_point(min as int, max as int, q))),
        decreases 21 - p,
    {
        let sp = spaced(min, max, p);
        insert_sorted_unique(&mut cands, sp);
        proof {
            assert forall|y: i64| #[trigger] cands@.contains(y) <==>
                ((exists|m: int| 0 <= m < values@.len() && values@[m] == y)
                || (exists|m: int| 0 <= m && m + 1 < values@.len() && y == #[trigger] midpoint(values@[m] as int, values@[m + 1] as int))
                || (exists|q: int| 0 <= q < p + 1 && y == #[trigger] spaced_point(min as int, max as int, q))) by {
                if y == sp {
                    assert(y == spaced_point(min as int, max as int, p as int));
                }
            }
        }
        p = p + 1;
    }
    proof {
        assert forall|y: i64| #[trigger] cands@.contains(y) <==> is_candidate(*stats, y) by {
            lemma_midpoint_adjacent(*stats, values@, y);
            if values@.contains(y) {
                let m = choose|m: int| 0 <= m < values@.len() && values@[m] == y;
                assert(values@[m] == y);
            }
        }
    }
    cands
}

proof fn lemma_midpoint_adjacent(stats: NumericStateStats, values: Seq<i64>, y: i64)
    requires
        strictly_increasing(values),
        forall|v: i64| #[trigger] values.contains(v) <==> is_observed(stats, v),
    ensures
        (exists|m: int| 0 <= m && m + 1 < values.len() && y == #[trigger] midpoint(values[m] as int, values[m + 1] as int))
        <==> (exists|a: i64, b: i64| #[trigger] adjacent_values(stats, a, b) && y == midpoint(a as int, b as int)),
{
    if exists|m: int| 0 <= m && m + 1 < values.len() && y == #[trigger] midpoint(values[m] as int, values[m + 1] as int) {
        let m = choose|m: int| 0 <= m && m + 1 < values.len() && y == #[trigger] midpoint(values[m] as int, values[m + 1] as int);
        let a = values[m];
        let b = values[m + 1];
        assert(values.contains(a));
        assert(values.contains(b));
        assert forall|c: i64| a < c < b implies !#[trigger] is_observed(stats, c) by {
            if is_observed(stats, c) {
                assert(values.contains(c));
                let q = choose|q: int| 0 <= q < values.len() && values[q] == c;
                if q < m {
                    assert(values[q] < values[m]);
                } else if q > m + 1 {
                    assert(values[m + 1] < values[q]);
                }
            }
        }
        assert(adjacent_values(stats, a, b));
    }
    if exists|a: i64, b: i64| #[trigger] adjacent_values(stats, a, b) && y == midpoint(a as int, b as int) {
        let (a, b) = choose|a: i64, b: i64| #[trigger] adjacent_values(stats, a, b) && y == midpoint(a as int, b as int);
        assert(values.contains(a));
        assert(values.contains(b));
        let m1 = choose|q: int| 0 <= q < values.len() && values[q] == a;
        let m2 = choose|q: int| 0 <= q < values.len() && values[q] == b;
        if m2 < m1 {
            assert(values[m2] < values[m1]);
        }
        if m2 > m1 + 1 {
            let c = values[m1 + 1];
            assert(values[m1] < values[m1 + 1]);
            assert(values[m1 + 1] < values[m2]);
            assert(values.contains(c));
            assert(!is_observed(stats, c));
        }
        assert(m2 == m1 + 1);
        assert(y == midpoint(values[m1] as int, values[m1 + 1] as int));
    }
}

/// The search has something to work on: a numeric entity with chunks of
/// both polarities.
pub open spec fn searchable(stats: NumericStateStats) -> bool {
    stats.is_numeric && stats.true_chunks@.len() > 0 && stats.false_chunks@.len() > 0
}

/// Score numerator of a range test over the chunks of `stats`.
pub open spec fn stats_score(stats: NumericStateStats, above: Option<i64>, below: Option<i64>) -> int {
    score_num(stats.true_chunks@, stats.false_chunks@, above, below)
}

/// The threshold without bounds, which matches nothing.
pub open spec fn no_thresholds() -> OptimalThresholds {
    OptimalThresholds { above: None, below: None }
}

/// A threshold with at least one bound, each bound a candidate of `stats`.
pub open spec fn candidate_threshold(stats: NumericStateStats, t: OptimalThresholds) -> bool {
    &&& (t.above is Some || t.below is Some)
    &&& (t.above is Some ==> is_candidate(stats, t.above.unwrap()))
    &&& (t.below is Some ==> is_candidate(stats, t.below.unwrap()))
}

/// No candidate, as a lone lower bound or a lone upper bound, scores
/// strictly higher than `t`.
pub open spec fn scores_at_least_every_candidate(stats: NumericStateStats, t: OptimalThresholds) -> bool {
    forall|c: i64| #[trigger] is_candidate(stats, c) ==> {
        &&& stats_score(stats, Some(c), None) <= stats_score(stats, t.above, t.below)
        &&& stats_score(stats, None, Some(c)) <= stats_score(stats, t.above, t.below)
    }
}

/// What the search guarantees of its result.
pub open spec fn optimal_for(stats: NumericStateStats, t: OptimalThresholds) -> bool {
    &&& !searchable(stats) ==> t == no_thresholds()
    &&& searchable(stats) ==> candidate_threshold(stats, t)
    &&& searchable(stats) ==> scores_at_least_every_candidate(stats, t)
}

/// Searches the candidate split points for the threshold that best separates
/// TRUE chunks from FALSE chunks: every candidate as a lower bound, then as
/// an upper bound, then up to 100 strided (lower, upper) pairs; a later test
/// replaces the best only with a strictly greater score.
/// Each candidate as a lone lower bound (`lower`) or a lone upper bound.
pub open spec fn one_sided(c: Seq<i64>, lower: bool) -> Seq<OptimalThresholds> {
    Seq::new(c.len(), |k: int| if lower {
        OptimalThresholds { above: Some(c[k]), below: None }
    } else {
        OptimalThresholds { above: None, below: Some(c[k]) }
    })
}

/// Stride through the upper bounds of the range tests: `n * n / 100`, at
/// least 1 (and at most `n`, beyond which striding skips the same pairs).
pub open spec fn stride(n: int) -> int {
    let q = (n * n) / 100;
    if q < 1 { 1 } else if q > n { n } else { q }
}

/// Range tests from lower index `i` and upper index `j`, after `count`
/// tests: upper indices `i + 1, i + 1 + step, ...` for each `i` in turn,
/// at most 100 tests in all.
pub open spec fn range_tests(c: Seq<i64>, step: int, i: int, j: int, count: int) -> Seq<OptimalThresholds>
    decreases c.len() - i, c.len() - j,
{
    let n = c.len() as int;
    if count >= 100 || step < 1 || i < 0 || i >= n - 1 || j < 0 || j > n {
        Seq::empty()
    } else if j >= n {
        range_tests(c, step, i + 1, i + 2, count)
    } else {
        seq![OptimalThresholds { above: Some(c[i]), below: Some(c[j]) }]
            + range_tests(c, step, i, if step >= n - j { n } else { j + step }, count + 1)
    }
}

/// Every test of the search, in evaluation order.
pub open spec fn all_tests(c: Seq<i64>) -> Seq<OptimalThresholds> {
    one_sided(c, true) + one_sided(c, false) + range_tests(c, stride(c.len() as int), 0, 1, 0)
}

/// The best of `tests` after `best` with score `best_score`: a later test
/// wins only with a strictly greater score.
pub open spec fn pick(stats: NumericStateStats, tests: Seq<OptimalThresholds>, best: OptimalThresholds, best_score: int) -> OptimalThresholds
    decreases tests.len(),
{
    if tests.len() == 0 {
        best
    } else {
        let t = tests[0];
        let sc = stats_score(stats, t.above, t.below);
        if sc > best_score {
            pick(stats, tests.drop_first(), t, sc)
        } else {
            pick(stats, tests.drop_first(), best, best_score)
        }
    }
}

/// `c` is the candidate list: the candidates in increasing order.
pub open spec fn candidate_list(stats: NumericStateStats, c: Seq<i64>) -> bool {
    strictly_increasing(c) && forall|x: i64| #[trigger] c.contains(x) <==> is_candidate(stats, x)
}

/// The result of the search: the first test with the greatest score, over
/// the candidate list (unique, as a strictly increasing list of a set).
pub open spec fn search_result(stats: NumericStateStats, t: OptimalThresholds) -> bool {
    exists|c: Seq<i64>| #[trigger] candidate_list(stats, c) && t == pick(stats, all_tests(c), no_thresholds(), -1)
}

/// The picked test scores at least as much as every test and as the
/// starting score.
pub proof fn lemma_pick_is_max(stats: NumericStateStats, tests: Seq<OptimalThresholds>, best: OptimalThresholds, best_score: int)
    requires
        best_score <= stats_score(stats, best.above, best.below),
    ensures
        best_score <= stats_score(stats, pick(stats, tests, best, best_score).above, pick(stats, tests, best, best_score).below),
        forall|k: int| 0 <= k < tests.len() ==> stats_score(stats, (#[trigger] tests[k]).above, tests[k].below)
            <= stats_score(stats, pick(stats, tests, best, best_score).above, pick(stats, tests, best, best_score).below),
    decreases tests.len(),
{
    if tests.len() > 0 {
        let t = tests[0];
        let sc = stats_score(stats, t.above, t.below);
        let rest = tests.drop_first();
        if sc > best_score {
            lemma_pick_is_max(stats, rest, t, sc);
        } else {
            lemma_pick_is_max(stats, rest, best, best_score);
        }
        assert forall|k: int| 0 <= k < tests.len() implies stats_score(stats, (#[trigger] tests[k]).above, tests[k].below)
            <= stats_score(stats, pick(stats, tests, best, best_score).above, pick(stats, tests, best, best_score).below) by {
            if k > 0 {
                assert(tests[k] == rest[k - 1]);
            }
        }
    }
}

/// The search's result scores at least as much as every threshold it tests:
/// each candidate as a lone bound and each sampled range.
pub proof fn lemma_search_beats_every_test(stats: NumericStateStats, c: Seq<i64>)
    ensures
        forall|k: int| 0 <= k < all_tests(c).len() ==> stats_score(stats, (#[trigger] all_tests(c)[k]).above, all_tests(c)[k].below)
            <= stats_score(stats, pick(stats, all_tests(c), no_thresholds(), -1).above, pick(stats, all_tests(c), no_thresholds(), -1).below),
{
    lemma_pick_is_max(stats, all_tests(c), no_thresholds(), -1);
}

pub fn find_optimal_numeric_thresholds(stats: &NumericStateStats) -> (r: OptimalThresholds)
    requires
        chunks_wf(stats.true_chunks@),
        chunks_wf(stats.false_chunks@),
    ensures
        optimal_for(*stats, r),
        searchable(*stats) ==> search_result(*stats, r),
        r.above is Some && r.below is Some ==> r.above.unwrap() < r.below.unwrap(),
{
    if !stats.is_numeric || stats.true_chunks.len() == 0 || stats.false_chunks.len() == 0 {
        return OptimalThresholds { above: None, below: None };
    }
    let sorted_true_chunks = sort_chunks_by_value(&stats.true_chunks);
    let sorted_false_chunks = sort_chunks_by_value(&stats.false_chunks);
    let candidates = threshold_candidates(stats);
    proof {
        let v = stats.true_chunks@[0].value;
        assert(is_observed(*stats, v));
        assert(candidates@.contains(v));
    }
    let n = candidates.len();
    let mut best_score: i128 = -1;
    let mut best_thresholds = OptimalThresholds { above: None, below: None };
    assert(one_sided(candidates@, true).subrange(0, n as int) =~= one_sided(candidates@, true));
    assert(all_tests(candidates@) == one_sided(candidates@, true).subrange(0, n as int) + one_sided(candidates@, false) + range_tests(candidates@, stride(n as int), 0, 1, 0));

    let mut i: usize = 0;
    while i < n
        invariant
            strictly_increasing(candidates@),
            best_thresholds.above is Some && best_thresholds.below is Some ==> best_thresholds.above.unwrap() < best_thresholds.below.unwrap(),
            pick(*stats, all_tests(candidates@), no_thresholds(), -1) == pick(*stats, one_sided(candidates@, true).subrange(i as int, n as int) + one_sided(candidates@, false) + range_tests(candidates@, stride(n as int), 0, 1, 0), best_thresholds, best_score as int),
            n == candidates@.len(),
            i <= n,
            forall|c: i64| #[trigger] candidates@.contains(c) <==> is_candidate(*stats, c),
            forall|a: Option<i64>, b: Option<i64>| #[trigger] matched_duration(sorted_true_chunks@, a, b) == matched_duration(stats.true_chunks@, a, b),
            forall|a: Option<i64>, b: Option<i64>| #[trigger] matched_duration(sorted_false_chunks@, a, b) == matched_duration(stats.false_chunks@, a, b),
            sorted_by_value(sorted_true_chunks@),
            sorted_true_chunks@.len() > 0,
            sorted_false_chunks@.len() > 0,
            sorted_by_value(sorted_false_chunks@),
            chunks_wf(sorted_true_chunks@),
            chunks_wf(sorted_false_chunks@),
            i > 0 ==> best_score == stats_score(*stats, best_thresholds.above, best_thresholds.below) && candidate_threshold(*stats, best_thresholds),
            i == 0 ==> best_score == -1,
            forall|k: int| 0 <= k < i ==> stats_score(*stats, Some(#[trigger] candidates@[k]), None) <= best_score,
        decreases n - i,
    {
        let c = candidates[i];
        assert(candidates@.contains(c));
        let score = calculate_threshold_score(&sorted_true_chunks, &sorted_false_chunks, Some(c), None);
        proof {
            let rem = one_sided(candidates@, true).subrange(i as int, n as int) + one_sided(candidates@, false) + range_tests(candidates@, stride(n as int), 0, 1, 0);
            assert(rem[0] == OptimalThresholds { above: Some(c), below: None });
            assert(rem.drop_first() =~= one_sided(candidates@, true).subrange(i + 1, n as int) + one_sided(candidates@, false) + range_tests(candidates@, stride(n as int), 0, 1, 0));
        }
        if score > best_score {
            best_score = score;
            best_thresholds = OptimalThresholds { above: Some(c), below: None };
        }
        i = i + 1;
    }

    assert(one_sided(candidates@, true).subrange(n as int, n as int) + one_sided(candidates@, false) + range_tests(candidates@, stride(n as int), 0, 1, 0) =~= one_sided(candidates@, false).subrange(0, n as int) + range_tests(candidates@, stride(n as int), 0, 1, 0));
    let mut i: usize = 0;
    while i < n
        invariant
            strictly_increasing(candidates@),
            best_thresholds.above is Some && best_thresholds.below is Some ==> best_thresholds.above.unwrap() < best_thresholds.below.unwrap(),
            pick(*stats, all_tests(candidates@), no_thresholds(), -1) == pick(*stats, one_sided(candidates@, false).subrange(i as int, n as int) + range_tests(candidates@, stride(n as int), 0, 1, 0), best_thresholds, best_score as int),
            n == candidates@.len(),
            n > 0,
            i <= n,
            forall|c: i64| #[trigger] candidates@.contains(c) <==> is_candidate(*stats, c),
            forall|a: Option<i64>, b: Option<i64>| #[trigger] matched_duration(sorted_true_chunks@, a, b) == matched_duration(stats.true_chunks@, a, b),
            forall|a: Option<i64>, b: Option<i64>| #[trigger] matched_duration(sorted_false_chunks@, a, b) == matched_duration(stats.false_chunks@, a, b),
            sorted_by_value(sorted_true_chunks@),
            sorted_true_chunks@.len() > 0,
            sorted_false_chunks@.len() > 0,
            sorted_by_value(sorted_false_chunks@),
            chunks_wf(sorted_true_chunks@),
            chunks_wf(sorted_false_chunks@),
            best_score == stats_score(*stats, best_thresholds.above, best_thresholds.below),
            candidate_threshold(*stats, best_thresholds),
            forall|k: int| 0 <= k < n ==> stats_score(*stats, Some(#[trigger] candidates@[k]), None) <= best_score,
            forall|k: int| 0 <= k < i ==> stats_score(*stats, None, Some(#[trigger] candidates@[k])) <= best_score,
        decreases n - i,
    {
        let c = candidates[i];
        assert(candidates@.contains(c));
        let score = calculate_threshold_score(&sorted_true_chunks, &sorted_false_chunks, None, Some(c));
        proof {
            let rem = one_sided(candidates@, false).subrange(i as int, n as int) + range_tests(candidates@, stride(n as int), 0, 1, 0);
            assert(rem[0] == OptimalThresholds { above: None, below: Some(c) });
            assert(rem.drop_first() =~= one_sided(candidates@, false).subrange(i + 1, n as int) + range_tests(candidates@, stride(n as int), 0, 1, 0));
        }
        if score > best_score {
            best_score = score;
            best_thresholds = OptimalThresholds { above: None, below: Some(c) };
        }
        i = i + 1;
    }

    assert(one_sided(candidates@, false).subrange(n as int, n as int) + range_tests(candidates@, stride(n as int), 0, 1, 0) =~= range_tests(candidates@, stride(n as int), 0, 1, 0));
    let max_range_tests: usize = 100;
    assert((n as u128) * (n as u128) <= 0xffff_ffff_ffff_ffff * 0xffff_ffff_ffff_ffff) by (nonlinear_arith)
        requires n as u128 <= 0xffff_ffff_ffff_ffff;
    let sq: u128 = (n as u128) * (n as u128) / 100;
    let step: usize = if sq < 1 { 1 } else if sq > n as u128 { n } else { sq as usize };
    let mut test_count: usize = 0;
    let mut i: usize = 0;
    while i < n - 1 && test_count < max_range_tests
        invariant
            strictly_increasing(candidates@),
            best_thresholds.above is Some && best_thresholds.below is Some ==> best_thresholds.above.unwrap() < best_thresholds.below.unwrap(),
            step == stride(n as int),
            max_range_tests == 100,
            test_count <= 100,
            pick(*stats, all_tests(candidates@), no_thresholds(), -1) == pick(*stats, range_tests(candidates@, step as int, i as int, i + 1, test_count as int), best_thresholds, best_score as int),
            n == candidates@.len(),
            n > 0,
            1 <= step <= n,
            forall|c: i64| #[trigger] candidates@.contains(c) <==> is_candidate(*stats, c),
            forall|a: Option<i64>, b: Option<i64>| #[trigger] matched_duration(sorted_true_chunks@, a, b) == matched_duration(stats.true_chunks@, a, b),
            forall|a: Option<i64>, b: Option<i64>| #[trigger] matched_duration(sorted_false_chunks@, a, b) == matched_duration(stats.false_chunks@, a, b),
            sorted_by_value(sorted_true_chunks@),
            sorted_true_chunks@.len() > 0,
            sorted_false_chunks@.len() > 0,
            sorted_by_value(sorted_false_chunks@),
            chunks_wf(sorted_true_chunks@),
            chunks_wf(sorted_false_chunks@),
            best_score == stats_score(*stats, best_thresholds.above, best_thresholds.below),
            candidate_threshold(*stats, best_thresholds),
            forall|k: int| 0 <= k < n ==> stats_score(*stats, Some(#[trigger] candidates@[k]), None) <= best_score,
            forall|k: int| 0 <= k < n ==> stats_score(*stats, None, Some(#[trigger] candidates@[k])) <= best_score,
        decreases n - i,
    {
        let mut j: usize = i + 1;
        while j < n && test_count < max_range_tests
            invariant
                strictly_increasing(candidates@),
                best_thresholds.above is Some && best_thresholds.below is Some ==> best_thresholds.above.unwrap() < best_thresholds.below.unwrap(),
                step == stride(n as int),
                max_range_tests == 100,
                test_count <= 100,
                j <= n,
                i + 1 < n,
                pick(*stats, all_tests(candidates@), no_thresholds(), -1) == pick(*stats, range_tests(candidates@, step as int, i as int, j as int, test_count as int), best_thresholds, best_score as int),
                n == candidates@.len(),
                i + 1 <= j,
                i < n,
                1 <= step <= n,
                forall|c: i64| #[trigger] candidates@.contains(c) <==> is_candidate(*stats, c),
                forall|a: Option<i64>, b: Option<i64>| #[trigger] matched_duration(sorted_true_chunks@, a, b) == matched_duration(stats.true_chunks@, a, b),
                forall|a: Option<i64>, b: Option<i64>| #[trigger] matched_duration(sorted_false_chunks@, a, b) == matched_duration(stats.false_chunks@, a, b),
                sorted_by_value(sorted_true_chunks@),
                sorted_true_chunks@.len() > 0,
                sorted_false_chunks@.len() > 0,
                sorted_by_value(sorted_false_chunks@),
                chunks_wf(sorted_true_chunks@),
                chunks_wf(sorted_false_chunks@),
                best_score == stats_score(*stats, best_thresholds.above, best_thresholds.below),
                candidate_threshold(*stats, best_thresholds),
                forall|k: int| 0 <= k < n ==> stats_score(*stats, Some(#[trigger] candidates@[k]), None) <= best_score,
                forall|k: int| 0 <= k < n ==> stats_score(*stats, None, Some(#[trigger] candidates@[k])) <= best_score,
            decreases n - j,
        {
            let above = candidates[i];
            let below = candidates[j];
            assert(candidates@.contains(above));
            assert(candidates@.contains(below));
            let score = calculate_threshold_score(&sorted_true_chunks, &sorted_false_chunks, Some(above), Some(below));
            let ghost next_j: int = if step >= n - j { n as int } else { j + step };
            proof {
                let rem = range_tests(candidates@, step as int, i as int, j as int, test_count as int);
                let rest = range_tests(candidates@, step as int, i as int, next_j, test_count + 1);
                assert(rem == seq![OptimalThresholds { above: Some(above), below: Some(below) }] + rest);
                assert(rem[0] == OptimalThresholds { above: Some(above), below: Some(below) });
                assert(rem.drop_first() =~= rest);
                assert(above < below);
            }
            if score > best_score {
                best_score = score;
                best_thresholds = OptimalThresholds { above: Some(above), below: Some(below) };
            }
            test_count = test_count + 1;
            j = if step >= n - j { n } else { j + step };
        }
        proof {
            if test_count < 100 {
                assert(range_tests(candidates@, step as int, i as int, j as int, test_count as int)
                    == range_tests(candidates@, step as int, i + 1, i + 2, test_count as int));
            }
        }
        i = i + 1;
    }
    proof {
        assert(range_tests(candidates@, step as int, i as int, i + 1, test_count as int) =~= Seq::<OptimalThresholds>::empty());
        assert(candidate_list(*stats, candidates@));
    }
    proof {
        assert forall|c: i64| #[trigger] is_candidate(*stats, c) implies {
            &&& stats_score(*stats, Some(c), None) <= stats_score(*stats, best_thresholds.above, best_thresholds.below)
            &&& stats_score(*stats, None, Some(c)) <= stats_score(*stats, best_thresholds.above, best_thresholds.below)
        } by {
            assert(candidates@.contains(c));
            let k = choose|k: int| 0 <= k < candidates@.len() && candidates@[k] == c;
            assert(stats_score(*stats, Some(candidates@[k]), None) <= best_score);
            assert(stats_score(*stats, None, Some(candidates@[k])) <= best_score);
        }
    }
    best_thresholds
}

/// Display text of a threshold.
pub open spec fn description(t: OptimalThresholds) -> Seq<char> {
    match (t.above, t.below) {
        (Some(a), Some(b)) => fixed2(a as int) + " < value <= "@ + fixed2(b as int),
        (Some(a), None) => "> "@ + fixed2(a as int),
        (None, Some(b)) => "<= "@ + fixed2(b as int),
        (None, None) => "numeric"@,
    }
}

/// Display text of a threshold: `"a < value <= b"`, `"> a"`, `"<= b"`, or
/// `"numeric"` when it has no bound; bounds with two decimals.
pub fn format_threshold_description(thresholds: &OptimalThresholds) -> (r: String)
    ensures
        r@ == description(*thresholds),
{
    proof {
        reveal_strlit(" < value <= ");
        reveal_strlit("> ");
        reveal_strlit("<= ");
        reveal_strlit("numeric");
    }
    match (thresholds.above, thresholds.below) {
        (Some(above), Some(below)) => {
            let mut s = fixed2_text(above);
            s.append(" < value <= ");
            let b = fixed2_text(below);
            s.append(b.as_str());
            s
        },
        (Some(above), None) => {
            let mut s = String::from_str("> ");
            let a = fixed2_text(above);
            s.append(a.as_str());
            assert(s@ =~= description(*thresholds));
            s
        },
        (None, Some(below)) => {
            let mut s = String::from_str("<= ");
            let b = fixed2_text(below);
            s.append(b.as_str());
            s
        },
        (None, None) => String::from_str("numeric"),
    }
}

/// `value-duration` of one chunk, the value with two decimals.
pub open spec fn pair_text(c: ValueDuration) -> Seq<char> {
    fixed2(c.value as int) + "-"@ + signed_decimal(c.duration as int)
}

/// The pair texts of `s`, separated by commas.
pub open spec fn joined_pairs(s: Seq<ValueDuration>) -> Seq<char>
    decreases s.len(),
{
    if s.len() == 0 {
        Seq::empty()
    } else if s.len() == 1 {
        pair_text(s[0])
    } else {
        joined_pairs(s.drop_last()) + ","@ + pair_text(s.last())
    }
}

pub open spec fn first_five(s: Seq<ValueDuration>) -> Seq<ValueDuration> {
    if s.len() <= 5 { s } else { s.take(5) }
}

/// Fingerprint of the chunk data: the first five TRUE pairs and the first
/// five FALSE pairs, split by `|`.
pub open spec fn cache_key(stats: NumericStateStats) -> Seq<char> {
    joined_pairs(first_five(stats.true_chunks@)) + "|"@ + joined_pairs(first_five(stats.false_chunks@))
}

fn joined_pairs_text(chunks: &Vec<ValueDuration>) -> (r: String)
    ensures
        r@ == joined_pairs(first_five(chunks@)),
{
    proof {
        reveal_strlit("-");
        reveal_strlit(",");
        reveal_strlit("");
    }
    let n: usize = if chunks.len() < 5 { chunks.len() } else { 5 };
    let mut s = String::from_str("");
    let mut i: usize = 0;
    while i < n
        invariant
            n <= chunks@.len(),
            n == first_five(chunks@).len(),
            i <= n,
            s@ == joined_pairs(chunks@.take(i as int)),
        decreases n - i,
    {
        if i > 0 {
            s.append(",");
        }
        let v = fixed2_text(chunks[i].value);
        s.append(v.as_str());
        s.append("-");
        let d = signed_decimal_text(chunks[i].duration);
        s.append(d.as_str());
        proof {
            let t = chunks@.take(i as int + 1);
            assert(t.drop_last() =~= chunks@.take(i as int));
            assert(t.last() == chunks@[i as int]);
            assert(s@ =~= joined_pairs(t));
        }
        i = i + 1;
    }
    proof {
        assert(chunks@.take(n as int) =~= first_five(chunks@));
    }
    s
}

/// Fingerprint of a numeric entity's chunk data (see `cache_key`).
pub fn get_cache_key(stats: &NumericStateStats) -> (r: String)
    ensures
        r@ == cache_key(*stats),
{
    proof {
        reveal_strlit("|");
    }
    let mut s = joined_pairs_text(&stats.true_chunks);
    s.append("|");
    let f = joined_pairs_text(&stats.false_chunks);
    s.append(f.as_str());
    s
}

/// Duration of the chunks that `t` matches (none when it has no bound).
pub open spec fn matching_duration(s: Seq<ValueDuration>, t: OptimalThresholds) -> int {
    if t.above is None && t.below is None { 0 } else { matched_duration(s, t.above, t.below) }
}

/// Matching and total duration of chunks under a threshold.
pub fn threshold_durations(chunks: &Vec<ValueDuration>, thresholds: &OptimalThresholds) -> (r: (u64, u64))
    requires
        chunks_wf(chunks@),
    ensures
        r.0 == matching_duration(chunks@, *thresholds),
        r.1 == total_duration(chunks@),
        r.0 <= r.1,
{
    let ghost s = chunks@;
    let ghost t = *thresholds;
    let mut matching: u64 = 0;
    let mut total: u64 = 0;
    let mut i: usize = 0;
    while i < chunks.len()
        invariant
            s == chunks@,
            t == *thresholds,
            chunks_wf(s),
            i <= s.len(),
            total == total_duration(s.take(i as int)),
            matching == matching_duration(s.take(i as int), t),
            matching <= total,
        decreases s.len() - i,
    {
        proof {
            lemma_matched_take(s, i as int, None, None);
            lemma_matched_take(s, i as int, t.above, t.below);
            assert forall|k: int| 0 <= k < s.take(i as int + 1).len() implies #[trigger] s.take(i as int + 1)[k].duration > 0 by {
                assert(s.take(i as int + 1)[k] == s[k]);
            }
            lemma_matched_bounds(s.take(i as int + 1), t.above, t.below);
            lemma_prefix_total(s, i as int + 1);
        }
        let c = chunks[i];
        total = total + c.duration as u64;
        if value_matches_thresholds(c.value, thresholds) {
            matching = matching + c.duration as u64;
        }
        i = i + 1;
    }
    proof {
        assert(s.take(s.len() as int) =~= s);
    }
    (matching, total)
}

/// Whether positive chunk durations add up to at most `i64::MAX`.
pub fn chunks_fit(chunks: &Vec<ValueDuration>) -> (r: bool)
    requires
        forall|k: int| 0 <= k < chunks@.len() ==> #[trigger] chunks@[k].duration > 0,
    ensures
        r == (total_duration(chunks@) <= i64::MAX),
{
    let ghost s = chunks@;
    let mut total: i128 = 0;
    let mut i: usize = 0;
    while i < chunks.len()
        invariant
            s == chunks@,
            forall|k: int| 0 <= k < s.len() ==> #[trigger] s[k].duration > 0,
            i <= s.len(),
            total == total_duration(s.take(i as int)),
            total <= i64::MAX,
        decreases s.len() - i,
    {
        proof {
            lemma_matched_take(s, i as int, None, None);
            lemma_prefix_total(s, i as int + 1);
        }
        total = total + chunks[i].duration as i128;
        if total > i64::MAX as i128 {
            return false;
        }
        i = i + 1;
    }
    proof {
        assert(s.take(s.len() as int) =~= s);
    }
    true
}

/// Exchanging the TRUE and FALSE chunk lists leaves every range test's
/// score unchanged.
pub proof fn lemma_score_symmetric(ts: Seq<ValueDuration>, fs: Seq<ValueDuration>, above: Option<i64>, below: Option<i64>)
    ensures
        score_num(fs, ts, above, below) == score_num(ts, fs, above, below),
{
}

/// The statistics with the TRUE and FALSE chunk lists exchanged.
pub open spec fn swapped(stats: NumericStateStats) -> NumericStateStats {
    NumericStateStats { true_chunks: stats.false_chunks, false_chunks: stats.true_chunks, ..stats }
}

/// Two strictly increasing lists with the same elements are equal.
pub proof fn lemma_increasing_unique(a: Seq<i64>, b: Seq<i64>)
    requires
        strictly_increasing(a),
        strictly_increasing(b),
        forall|x: i64| a.contains(x) <==> b.contains(x),
    ensures
        a == b,
    decreases a.len(),
{
    if a.len() == 0 {
        if b.len() > 0 {
            assert(b.contains(b[0]));
        }
        assert(a =~= b);
    } else {
        if b.len() == 0 {
            assert(a.contains(a[0]));
        }
        let la = a.last();
        let lb = b.last();
        assert(a.contains(la));
        assert(b.contains(lb));
        let qa = choose|q: int| 0 <= q < b.len() && b[q] == la;
        if qa < b.len() - 1 {
            assert(b[qa] < b[b.len() - 1]);
        }
        let qb = choose|q: int| 0 <= q < a.len() && a[q] == lb;
        if qb < a.len() - 1 {
            assert(a[qb] < a[a.len() - 1]);
        }
        assert(la == lb);
        let a2 = a.drop_last();
        let b2 = b.drop_last();
        assert forall|x: i64| a2.contains(x) implies b2.contains(x) by {
            let k = choose|k: int| 0 <= k < a2.len() && a2[k] == x;
            assert(a[k] == x && a[k] < a[a.len() - 1]);
            assert(b.contains(x));
            let q = choose|q: int| 0 <= q < b.len() && b[q] == x;
            assert(q != b.len() - 1);
            assert(b2[q] == x);
        }
        assert forall|x: i64| b2.contains(x) implies a2.contains(x) by {
            let k = choose|k: int| 0 <= k < b2.len() && b2[k] == x;
            assert(b[k] == x && b[k] < b[b.len() - 1]);
            assert(a.contains(x));
            let q = choose|q: int| 0 <= q < a.len() && a[q] == x;
            assert(q != a.len() - 1);
            assert(a2[q] == x);
        }
        lemma_increasing_unique(a2, b2);
        assert(a =~= a2.push(la));
        assert(b =~= b2.push(lb));
    }
}

proof fn lemma_pick_swapped(stats: NumericStateStats, tests: Seq<OptimalThresholds>, best: OptimalThresholds, best_score: int)
    ensures
        pick(swapped(stats), tests, best, best_score) == pick(stats, tests, best, best_score),
    decreases tests.len(),
{
    if tests.len() > 0 {
        let t = tests[0];
        lemma_score_symmetric(stats.true_chunks@, stats.false_chunks@, t.above, t.below);
        let sc = stats_score(stats, t.above, t.below);
        lemma_pick_swapped(stats, tests.drop_first(), t, sc);
        lemma_pick_swapped(stats, tests.drop_first(), best, best_score);
    }
}

proof fn lemma_candidates_swapped(stats: NumericStateStats, c: Seq<i64>)
    requires
        candidate_list(stats, c),
    ensures
        candidate_list(swapped(stats), c),
{
    let sw = swapped(stats);
    assert(sw.true_chunks@ == stats.false_chunks@);
    assert(sw.false_chunks@ == stats.true_chunks@);
    assert forall|v: i64| is_observed(sw, v) == is_observed(stats, v) by {
        if is_observed(stats, v) {
            if exists|k: int| 0 <= k < stats.true_chunks@.len() && #[trigger] stats.true_chunks@[k].value == v {
                let k = choose|k: int| 0 <= k < stats.true_chunks@.len() && #[trigger] stats.true_chunks@[k].value == v;
                assert(sw.false_chunks@[k].value == v);
            } else {
                let k = choose|k: int| 0 <= k < stats.false_chunks@.len() && #[trigger] stats.false_chunks@[k].value == v;
                assert(sw.true_chunks@[k].value == v);
            }
        }
        if is_observed(sw, v) {
            if exists|k: int| 0 <= k < sw.true_chunks@.len() && #[trigger] sw.true_chunks@[k].value == v {
                let k = choose|k: int| 0 <= k < sw.true_chunks@.len() && #[trigger] sw.true_chunks@[k].value == v;
                assert(stats.false_chunks@[k].value == v);
            } else {
                let k = choose|k: int| 0 <= k < sw.false_chunks@.len() && #[trigger] sw.false_chunks@[k].value == v;
                assert(stats.true_chunks@[k].value == v);
            }
        }
    }
    assert forall|a: i64, b: i64| adjacent_values(sw, a, b) == adjacent_values(stats, a, b) by {}
    assert(range_min(sw) == range_min(stats) && range_max(sw) == range_max(stats));
    assert forall|x: i64| is_candidate(sw, x) == is_candidate(stats, x) by {
        if exists|i: int| 0 <= i <= 20 && x == #[trigger] spaced_point(range_min(stats), range_max(stats), i) {
            let i = choose|i: int| 0 <= i <= 20 && x == #[trigger] spaced_point(range_min(stats), range_max(stats), i);
            assert(x == spaced_point(range_min(sw), range_max(sw), i));
        }
        if exists|i: int| 0 <= i <= 20 && x == #[trigger] spaced_point(range_min(sw), range_max(sw), i) {
            let i = choose|i: int| 0 <= i <= 20 && x == #[trigger] spaced_point(range_min(sw), range_max(sw), i);
            assert(x == spaced_point(range_min(stats), range_max(stats), i));
        }
        if is_candidate(stats, x) && !is_observed(stats, x) {
            if exists|a: i64, b: i64| #[trigger] adjacent_values(stats, a, b) && x == midpoint(a as int, b as int) {
                let (a, b) = choose|a: i64, b: i64| #[trigger] adjacent_values(stats, a, b) && x == midpoint(a as int, b as int);
                assert(adjacent_values(sw, a, b));
            }
        }
        if is_candidate(sw, x) && !is_observed(sw, x) {
            if exists|a: i64, b: i64| #[trigger] adjacent_values(sw, a, b) && x == midpoint(a as int, b as int) {
                let (a, b) = choose|a: i64, b: i64| #[trigger] adjacent_values(sw, a, b) && x == midpoint(a as int, b as int);
                assert(adjacent_values(stats, a, b));
            }
        }
    }
}

/// Exchanging the TRUE and FALSE chunk lists leaves the search's result
/// unchanged.
pub proof fn lemma_search_swap_polarity(stats: NumericStateStats, r1: OptimalThresholds, r2: OptimalThresholds)
    requires
        optimal_for(stats, r1),
        searchable(stats) ==> search_result(stats, r1),
        optimal_for(swapped(stats), r2),
        searchable(swapped(stats)) ==> search_result(swapped(stats), r2),
    ensures
        r1 == r2,
{
    let sw = swapped(stats);
    if searchable(stats) {
        let c1 = choose|c: Seq<i64>| #[trigger] candidate_list(stats, c) && r1 == pick(stats, all_tests(c), no_thresholds(), -1);
        let c2 = choose|c: Seq<i64>| #[trigger] candidate_list(sw, c) && r2 == pick(sw, all_tests(c), no_thresholds(), -1);
        lemma_candidates_swapped(stats, c1);
        assert forall|x: i64| c1.contains(x) <==> c2.contains(x) by {}
        lemma_increasing_unique(c1, c2);
        lemma_pick_swapped(stats, all_tests(c1), no_thresholds(), -1);
    }
}

/// Matched durations depend on which chunks there are, not on their order.
pub proof fn lemma_matched_permutation(a: Seq<ValueDuration>, b: Seq<ValueDuration>, above: Option<i64>, below: Option<i64>)
    requires
        a.to_multiset() == b.to_multiset(),
    ensures
        matched_duration(a, above, below) == matched_duration(b, above, below),
    decreases a.len(),
{
    broadcast use vstd::seq_lib::group_to_multiset_ensures;

    if a.len() == 0 {
        assert(a.to_multiset().len() == a.len());
        assert(b.to_multiset().len() == b.len());
        assert(b.len() == 0);
        assert(a =~= b);
    } else {
        let x = a.last();
        let a2 = a.drop_last();
        assert(a2.push(x) =~= a);
        assert(a.to_multiset().count(x) > 0);
        assert(b.contains(x));
        let k = choose|k: int| 0 <= k < b.len() && b[k] == x;
        let b2 = b.remove(k);
        assert(b2.to_multiset() =~= b.to_multiset().remove(x));
        assert(a2.to_multiset() =~= a.to_multiset().remove(x)) by {
            assert(a.to_multiset() =~= a2.to_multiset().insert(x));
        }
        lemma_matched_permutation(a2, b2, above, below);
        assert(b2.insert(k, x) =~= b);
        lemma_matched_insert(b2, k, x, above, below);
    }
}

/// `s2` holds the same chunks as `s1`, possibly in another order.
pub open spec fn reordered(s1: NumericStateStats, s2: NumericStateStats) -> bool {
    &&& s1.is_numeric == s2.is_numeric
    &&& s1.min == s2.min
    &&& s1.max == s2.max
    &&& s1.true_chunks@.to_multiset() == s2.true_chunks@.to_multiset()
    &&& s1.false_chunks@.to_multiset() == s2.false_chunks@.to_multiset()
}

proof fn lemma_pick_same_scores(
    s1: NumericStateStats,
    s2: NumericStateStats,
    tests: Seq<OptimalThresholds>,
    best: OptimalThresholds,
    best_score: int,
)
    requires
        forall|a: Option<i64>, b: Option<i64>| #[trigger] stats_score(s1, a, b) == stats_score(s2, a, b),
    ensures
        pick(s1, tests, best, best_score) == pick(s2, tests, best, best_score),
    decreases tests.len(),
{
    if tests.len() > 0 {
        let t = tests[0];
        assert(stats_score(s1, t.above, t.below) == stats_score(s2, t.above, t.below));
        let sc = stats_score(s1, t.above, t.below);
        lemma_pick_same_scores(s1, s2, tests.drop_first(), t, sc);
        lemma_pick_same_scores(s1, s2, tests.drop_first(), best, best_score);
    }
}

proof fn lemma_observed_reordered(s1: NumericStateStats, s2: NumericStateStats, v: i64)
    requires
        reordered(s1, s2),
    ensures
        is_observed(s1, v) == is_observed(s2, v),
{
    broadcast use vstd::seq_lib::group_to_multiset_ensures;

    let x1 = s1.true_chunks@;
    let x2 = s2.true_chunks@;
    let y1 = s1.false_chunks@;
    let y2 = s2.false_chunks@;
    if is_observed(s1, v) || is_observed(s2, v) {
        if exists|k: int| 0 <= k < x1.len() && #[trigger] x1[k].value == v {
            let k = choose|k: int| 0 <= k < x1.len() && #[trigger] x1[k].value == v;
            assert(x1.contains(x1[k]));
            assert(x1.to_multiset().count(x1[k]) > 0);
            assert(x2.to_multiset().count(x1[k]) > 0);
            assert(x2.contains(x1[k]));
        }
        if exists|k: int| 0 <= k < x2.len() && #[trigger] x2[k].value == v {
            let k = choose|k: int| 0 <= k < x2.len() && #[trigger] x2[k].value == v;
            assert(x2.contains(x2[k]));
            assert(x2.to_multiset().count(x2[k]) > 0);
            assert(x1.to_multiset().count(x2[k]) > 0);
            assert(x1.contains(x2[k]));
        }
        if exists|k: int| 0 <= k < y1.len() && #[trigger] y1[k].value == v {
            let k = choose|k: int| 0 <= k < y1.len() && #[trigger] y1[k].value == v;
            assert(y1.contains(y1[k]));
            assert(y1.to_multiset().count(y1[k]) > 0);
            assert(y2.to_multiset().count(y1[k]) > 0);
            assert(y2.contains(y1[k]));
        }
        if exists|k: int| 0 <= k < y2.len() && #[trigger] y2[k].value == v {
            let k = choose|k: int| 0 <= k < y2.len() && #[trigger] y2[k].value == v;
            assert(y2.contains(y2[k]));
            assert(y2.to_multiset().count(y2[k]) > 0);
            assert(y1.to_multiset().count(y2[k]) > 0);
            assert(y1.contains(y2[k]));
        }
    }
}

/// The search's result does not depend on the order of the chunks.
pub proof fn lemma_search_reorder(s1: NumericStateStats, s2: NumericStateStats, r1: OptimalThresholds, r2: OptimalThresholds)
    requires
        reordered(s1, s2),
        optimal_for(s1, r1),
        searchable(s1) ==> search_result(s1, r1),
        optimal_for(s2, r2),
        searchable(s2) ==> search_result(s2, r2),
    ensures
        r1 == r2,
{
    broadcast use vstd::seq_lib::group_to_multiset_ensures;

    assert(s1.true_chunks@.to_multiset().len() == s1.true_chunks@.len());
    assert(s2.true_chunks@.to_multiset().len() == s2.true_chunks@.len());
    assert(s1.false_chunks@.to_multiset().len() == s1.false_chunks@.len());
    assert(s2.false_chunks@.to_multiset().len() == s2.false_chunks@.len());
    if searchable(s1) {
        assert forall|a: Option<i64>, b: Option<i64>| #[trigger] stats_score(s1, a, b) == stats_score(s2, a, b) by {
            lemma_matched_permutation(s1.true_chunks@, s2.true_chunks@, a, b);
            lemma_matched_permutation(s1.false_chunks@, s2.false_chunks@, a, b);
            lemma_matched_permutation(s1.true_chunks@, s2.true_chunks@, None, None);
            lemma_matched_permutation(s1.false_chunks@, s2.false_chunks@, None, None);
        }
        assert forall|v: i64| is_observed(s1, v) == is_observed(s2, v) by {
            lemma_observed_reordered(s1, s2, v);
        }
        assert forall|a: i64, b: i64| adjacent_values(s1, a, b) == adjacent_values(s2, a, b) by {}
        let c1 = choose|c: Seq<i64>| #[trigger] candidate_list(s1, c) && r1 == pick(s1, all_tests(c), no_thresholds(), -1);
        let c2 = choose|c: Seq<i64>| #[trigger] candidate_list(s2, c) && r2 == pick(s2, all_tests(c), no_thresholds(), -1);
        assert(range_min(s1) == range_min(s2) && range_max(s1) == range_max(s2));
        assert forall|x: i64| is_candidate(s1, x) == is_candidate(s2, x) by {
            if exists|a: i64, b: i64| #[trigger] adjacent_values(s1, a, b) && x == midpoint(a as int, b as int) {
                let (a, b) = choose|a: i64, b: i64| #[trigger] adjacent_values(s1, a, b) && x == midpoint(a as int, b as int);
                assert(adjacent_values(s2, a, b));
            }
            if exists|a: i64, b: i64| #[trigger] adjacent_values(s2, a, b) && x == midpoint(a as int, b as int) {
                let (a, b) = choose|a: i64, b: i64| #[trigger] adjacent_values(s2, a, b) && x == midpoint(a as int, b as int);
                assert(adjacent_values(s1, a, b));
            }
        }
        assert forall|x: i64| c1.contains(x) <==> c2.contains(x) by {}
        lemma_increasing_unique(c1, c2);
        lemma_pick_same_scores(s1, s2, all_tests(c1), no_thresholds(), -1);
    }
}

} // verus!
