//! Duration-weighted discrimination engine: which entity states or numeric
//! value ranges best separate TRUE periods from FALSE periods.
//!
//! Numeric readings are fixed-point integers in millionths of a unit, and
//! probabilities are integers in parts per million.

pub mod probability;
pub mod sensor_analysis;
pub mod text;
pub mod threshold;
pub mod timeline;
pub mod types;

use vstd::prelude::*;
use vstd::string::*;
use crate::sensor_analysis::{
    analyze_numeric_states, bounds_values, has_polarity, is_numeric_entity, numeric_spec, pairs_of, sensor_chunks_of,
    NumericStateStats,
};
use crate::threshold::{
    cache_key, chunks_fit, chunks_wf, description, find_optimal_numeric_thresholds, format_threshold_description,
    get_cache_key, matching_duration, optimal_for, search_result, searchable, threshold_durations, total_duration,
    OptimalThresholds,
};
use crate::probability::{abs_diff, assemble_probabilities, assembled, MAX_PROB, MIN_PROB};
use crate::timeline::{
    analyze_state_segments, counted, create_unified_timeline, has_counted_segment, lemma_occurrences_bounded, occurrence_starts,
    starts_period, unified_segments,
};
use crate::types::{EntityProbability, HAHistoryEntry, SensorChunk, StateAnalysis, StateSegment, TimePeriod};

verus! {

/// A threshold remembered for one entity and one chunk-data fingerprint.
pub struct CachedThreshold {
    pub entity_id: String,
    pub key: String,
    pub thresholds: OptimalThresholds,
}

/// Cache entries as (entity id, fingerprint, threshold).
pub type CacheView = Seq<(Seq<char>, Seq<char>, OptimalThresholds)>;

/// The threshold stored last for `(id, key)`, if any.
pub open spec fn lookup(c: CacheView, id: Seq<char>, key: Seq<char>) -> Option<OptimalThresholds>
    decreases c.len(),
{
    if c.len() == 0 {
        None
    } else if c.last().0 == id && c.last().1 == key {
        Some(c.last().2)
    } else {
        lookup(c.drop_last(), id, key)
    }
}

/// What one cached threshold request does: a hit returns the stored
/// threshold and changes nothing; a miss searches once, stores the result
/// and returns it.
pub open spec fn lookup_post(
    before: CacheView,
    searches_before: nat,
    after: CacheView,
    searches_after: nat,
    id: Seq<char>,
    stats: NumericStateStats,
    r: Option<OptimalThresholds>,
) -> bool {
    let key = cache_key(stats);
    match lookup(before, id, key) {
        Some(t) => r == Some(t) && after == before && searches_after == searches_before,
        None => r matches Some(t) && optimal_for(stats, t) && (searchable(stats) ==> search_result(stats, t))
            && after == before.push((id, key, t))
            && searches_after == if searches_before < u64::MAX { searches_before + 1 } else { searches_before },
    }
}

/// A second request with the same entity and statistics right after a
/// first returns the same threshold, and searches no more.
pub proof fn lemma_cache_repeat(
    c0: CacheView,
    n0: nat,
    c1: CacheView,
    n1: nat,
    c2: CacheView,
    n2: nat,
    id: Seq<char>,
    stats: NumericStateStats,
    r1: Option<OptimalThresholds>,
    r2: Option<OptimalThresholds>,
)
    requires
        lookup_post(c0, n0, c1, n1, id, stats, r1),
        lookup_post(c1, n1, c2, n2, id, stats, r2),
    ensures
        r2 == r1,
        n2 == n1,
        c2 == c1,
{
    let key = cache_key(stats);
    if lookup(c0, id, key) is None {
        assert(c1.last() == (id, key, r1.unwrap()));
        assert(lookup(c1, id, key) == r1);
    }
}

/// Reasons a whole calculation is refused.
#[derive(Debug, Clone, Copy, PartialEq, Eq, Structural)]
pub enum CalculatorError {
    /// The periods hold no TRUE period or no FALSE period.
    MissingTrueOrFalsePeriod,
}

/// Number of periods of one polarity.
pub open spec fn count_polarity(periods: Seq<TimePeriod>, pol: bool) -> nat
    decreases periods.len(),
{
    if periods.len() == 0 {
        0
    } else {
        count_polarity(periods.drop_last(), pol) + if periods.last().is_true_period == pol { 1nat } else { 0nat }
    }
}

/// What every result row satisfies. A numeric row (with statistics and a
/// threshold) takes its probabilities from the share of chunk duration that
/// its threshold matches; a categorical row from its occurrences over the
/// period counts.
pub open spec fn row_ok(row: EntityProbability, n_true: nat, n_false: nat) -> bool {
    &&& row.total_true_periods == n_true
    &&& row.total_false_periods == n_false
    &&& MIN_PROB <= row.prob_given_true <= MAX_PROB
    &&& MIN_PROB <= row.prob_given_false <= MAX_PROB
    &&& row.discrimination_power == abs_diff(row.prob_given_true as int, row.prob_given_false as int)
    &&& match (row.numeric_stats, row.optimal_thresholds) {
        (Some(st), Some(t)) => {
            &&& row.state@ == description(t)
            &&& row.true_occurrences == n_true
            &&& row.false_occurrences == n_false
            &&& (row.prob_given_true as int, row.prob_given_false as int, row.discrimination_power as int) == assembled(
                matching_duration(st.true_chunks@, t),
                total_duration(st.true_chunks@),
                matching_duration(st.false_chunks@, t),
                total_duration(st.false_chunks@),
            )
        },
        (None, None) => {
            &&& row.true_occurrences <= n_true
            &&& row.false_occurrences <= n_false
            &&& (row.prob_given_true as int, row.prob_given_false as int, row.discrimination_power as int) == assembled(
                row.true_occurrences as int,
                n_true as int,
                row.false_occurrences as int,
                n_false as int,
            )
        },
        _ => false,
    }
}

/// Rows ordered by discrimination power, highest first.
pub open spec fn sorted_by_power(rows: Seq<EntityProbability>) -> bool {
    forall|i: int, j: int| 0 <= i < j < rows.len() ==> rows[i].discrimination_power >= rows[j].discrimination_power
}

/// Whether some entity with a non-empty history has the id `id`.
pub open spec fn has_entity(history: Seq<(String, Vec<HAHistoryEntry>)>, id: Seq<char>) -> bool {
    exists|e: int| 0 <= e < history.len() && #[trigger] history[e].0@ == id && history[e].1@.len() > 0
}

/// A categorical row of entity `id` for state `s` of the segments `segs`.
pub open spec fn categorical_row(x: EntityProbability, id: Seq<char>, segs: Seq<StateSegment>, s: Seq<char>) -> bool {
    &&& x.entity_id@ == id
    &&& x.state@ == s
    &&& x.numeric_stats is None
    &&& x.true_occurrences == occurrence_starts(segs, s, true).len()
    &&& x.false_occurrences == occurrence_starts(segs, s, false).len()
}

/// A numeric row of entity `id` over the chunks `chunks`.
pub open spec fn numeric_row(x: EntityProbability, id: Seq<char>, chunks: Seq<SensorChunk>) -> bool {
    &&& x.entity_id@ == id
    &&& x.numeric_stats matches Some(st)
    &&& st.true_chunks@ == pairs_of(chunks, true)
    &&& st.false_chunks@ == pairs_of(chunks, false)
}

/// Some row of `rows` is a categorical row of `id` for state `s`.
pub open spec fn has_categorical_row(rows: Seq<EntityProbability>, id: Seq<char>, segs: Seq<StateSegment>, s: Seq<char>) -> bool {
    exists|x: EntityProbability| rows.contains(x) && #[trigger] categorical_row(x, id, segs, s)
}

/// Some row of `rows` is a numeric row of `id` over `chunks`.
pub open spec fn has_numeric_row(rows: Seq<EntityProbability>, id: Seq<char>, chunks: Seq<SensorChunk>) -> bool {
    exists|x: EntityProbability| rows.contains(x) && #[trigger] numeric_row(x, id, chunks)
}

/// The rows an entity owes: a numeric entity one row over its chunks, when
/// it has chunks whose durations of each polarity add up to at most
/// `i64::MAX`; a categorical entity one row per state of a segment of at
/// least a second.
pub open spec fn entity_covered(rows: Seq<EntityProbability>, id: Seq<char>, h: Seq<HAHistoryEntry>, periods: Seq<TimePeriod>) -> bool {
    if numeric_spec(h) {
        exists|chunks: Seq<SensorChunk>| #[trigger] sensor_chunks_of(h, periods, chunks) && (
            (chunks.len() > 0 && total_duration(pairs_of(chunks, true)) <= i64::MAX
                && total_duration(pairs_of(chunks, false)) <= i64::MAX) ==> has_numeric_row(rows, id, chunks))
    } else {
        exists|segs: Seq<StateSegment>| #[trigger] unified_segments(h, periods, segs)
            && forall|k: int| 0 <= k < segs.len() && counted(#[trigger] segs[k]) ==> has_categorical_row(rows, id, segs, segs[k].state@)
    }
}

proof fn lemma_covered_grows(
    old_rows: Seq<EntityProbability>,
    new_rows: Seq<EntityProbability>,
    id: Seq<char>,
    h: Seq<HAHistoryEntry>,
    periods: Seq<TimePeriod>,
)
    requires
        forall|x: EntityProbability| old_rows.contains(x) ==> #[trigger] new_rows.contains(x),
        entity_covered(old_rows, id, h, periods),
    ensures
        entity_covered(new_rows, id, h, periods),
{
    if numeric_spec(h) {
        let chunks = choose|chunks: Seq<SensorChunk>| #[trigger] sensor_chunks_of(h, periods, chunks) && (
            (chunks.len() > 0 && total_duration(pairs_of(chunks, true)) <= i64::MAX
                && total_duration(pairs_of(chunks, false)) <= i64::MAX) ==> has_numeric_row(old_rows, id, chunks));
        if has_numeric_row(old_rows, id, chunks) {
            let x = choose|x: EntityProbability| old_rows.contains(x) && #[trigger] numeric_row(x, id, chunks);
            assert(new_rows.contains(x));
        }
    } else {
        let segs = choose|segs: Seq<StateSegment>| #[trigger] unified_segments(h, periods, segs)
            && forall|k: int| 0 <= k < segs.len() && counted(#[trigger] segs[k]) ==> has_categorical_row(old_rows, id, segs, segs[k].state@);
        assert forall|k: int| 0 <= k < segs.len() && counted(#[trigger] segs[k]) implies has_categorical_row(new_rows, id, segs, segs[k].state@) by {
            let x = choose|x: EntityProbability| old_rows.contains(x) && #[trigger] categorical_row(x, id, segs, segs[k].state@);
            assert(new_rows.contains(x));
        }
    }
}

proof fn lemma_all_covered_grow(
    old_rows: Seq<EntityProbability>,
    new_rows: Seq<EntityProbability>,
    history: Seq<(String, Vec<HAHistoryEntry>)>,
    periods: Seq<TimePeriod>,
    e: int,
)
    requires
        forall|x: EntityProbability| old_rows.contains(x) ==> #[trigger] new_rows.contains(x),
        forall|e2: int| 0 <= e2 < e && (#[trigger] history[e2]).1@.len() > 0 ==> entity_covered(old_rows, history[e2].0@, history[e2].1@, periods),
    ensures
        forall|e2: int| 0 <= e2 < e && (#[trigger] history[e2]).1@.len() > 0 ==> entity_covered(new_rows, history[e2].0@, history[e2].1@, periods),
{
    assert forall|e2: int| 0 <= e2 < e && (#[trigger] history[e2]).1@.len() > 0 implies entity_covered(new_rows, history[e2].0@, history[e2].1@, periods) by {
        lemma_covered_grows(old_rows, new_rows, history[e2].0@, history[e2].1@, periods);
    }
}

/// `x` is a row owed by the entity `id` with history `h`: its numeric row,
/// or a categorical row for the state of a counted segment.
pub open spec fn row_from_entity(x: EntityProbability, id: Seq<char>, h: Seq<HAHistoryEntry>, periods: Seq<TimePeriod>) -> bool {
    if numeric_spec(h) {
        exists|chunks: Seq<SensorChunk>| #[trigger] sensor_chunks_of(h, periods, chunks) && numeric_row(x, id, chunks)
    } else {
        exists|segs: Seq<StateSegment>| #[trigger] unified_segments(h, periods, segs) && categorical_row(x, id, segs, x.state@)
            && has_counted_segment(segs, x.state@)
    }
}

/// `pos[k]` is the position in `history` of the entity of row `k`: each
/// row is owed by that entity, no entity has two rows of one state, and
/// rows of equal power keep the order of their entities.
pub open spec fn row_positions(
    rows: Seq<EntityProbability>,
    pos: Seq<int>,
    history: Seq<(String, Vec<HAHistoryEntry>)>,
    periods: Seq<TimePeriod>,
) -> bool {
    &&& pos.len() == rows.len()
    &&& forall|k: int| 0 <= k < rows.len() ==> 0 <= #[trigger] pos[k] < history.len()
        && history[pos[k]].0@ == rows[k].entity_id@
        && row_from_entity(rows[k], history[pos[k]].0@, history[pos[k]].1@, periods)
    &&& forall|i: int, j: int| 0 <= i < j < rows.len() && pos[i] == pos[j] ==> rows[i].state@ != rows[j].state@
    &&& forall|i: int, j: int| 0 <= i < j < rows.len() && rows[i].discrimination_power == rows[j].discrimination_power ==> pos[i] <= pos[j]
}

proof fn lemma_insert_row(
    old_rows: Seq<EntityProbability>,
    old_pos: Seq<int>,
    p: int,
    row: EntityProbability,
    e: int,
    history: Seq<(String, Vec<HAHistoryEntry>)>,
    periods: Seq<TimePeriod>,
)
    requires
        row_positions(old_rows, old_pos, history, periods),
        0 <= p <= old_rows.len(),
        0 <= e < history.len(),
        history[e].0@ == row.entity_id@,
        row_from_entity(row, history[e].0@, history[e].1@, periods),
        forall|k: int| 0 <= k < old_pos.len() ==> #[trigger] old_pos[k] <= e,
        forall|k: int| 0 <= k < old_pos.len() && old_pos[k] == e ==> (#[trigger] old_rows[k]).state@ != row.state@,
        forall|k: int| 0 <= k < p ==> old_rows[k].discrimination_power >= row.discrimination_power,
        forall|k: int| p <= k < old_rows.len() ==> old_rows[k].discrimination_power < row.discrimination_power,
    ensures
        row_positions(old_rows.insert(p, row), old_pos.insert(p, e), history, periods),
        forall|k: int| 0 <= k < old_pos.insert(p, e).len() ==> #[trigger] old_pos.insert(p, e)[k] <= e,
{
    let nr = old_rows.insert(p, row);
    let np = old_pos.insert(p, e);
    assert forall|k: int| 0 <= k < nr.len() implies 0 <= #[trigger] np[k] < history.len()
        && history[np[k]].0@ == nr[k].entity_id@
        && row_from_entity(nr[k], history[np[k]].0@, history[np[k]].1@, periods) by {
        if k < p {
            assert(nr[k] == old_rows[k] && np[k] == old_pos[k]);
        } else if k > p {
            assert(nr[k] == old_rows[k - 1] && np[k] == old_pos[k - 1]);
        }
    }
    assert forall|i: int, j: int| 0 <= i < j < nr.len() && np[i] == np[j] implies nr[i].state@ != nr[j].state@ by {
        if j < p {
            assert(nr[i] == old_rows[i] && np[i] == old_pos[i]);
            assert(nr[j] == old_rows[j] && np[j] == old_pos[j]);
        } else if j == p {
            assert(nr[i] == old_rows[i] && np[i] == old_pos[i]);
        } else if i < p {
            assert(nr[i] == old_rows[i] && np[i] == old_pos[i]);
            assert(nr[j] == old_rows[j - 1] && np[j] == old_pos[j - 1]);
        } else if i == p {
            assert(nr[j] == old_rows[j - 1] && np[j] == old_pos[j - 1]);
        } else {
            assert(nr[i] == old_rows[i - 1] && np[i] == old_pos[i - 1]);
            assert(nr[j] == old_rows[j - 1] && np[j] == old_pos[j - 1]);
        }
    }
    assert forall|i: int, j: int| 0 <= i < j < nr.len() && nr[i].discrimination_power == nr[j].discrimination_power implies np[i] <= np[j] by {
        if j < p {
            assert(nr[i] == old_rows[i] && np[i] == old_pos[i]);
            assert(nr[j] == old_rows[j] && np[j] == old_pos[j]);
        } else if j == p {
            assert(nr[i] == old_rows[i] && np[i] == old_pos[i]);
        } else if i < p {
            assert(nr[i] == old_rows[i] && np[i] == old_pos[i]);
            assert(nr[j] == old_rows[j - 1] && np[j] == old_pos[j - 1]);
        } else if i == p {
            assert(nr[j] == old_rows[j - 1] && np[j] == old_pos[j - 1]);
        } else {
            assert(nr[i] == old_rows[i - 1] && np[i] == old_pos[i - 1]);
            assert(nr[j] == old_rows[j - 1] && np[j] == old_pos[j - 1]);
        }
    }
    assert forall|k: int| 0 <= k < np.len() implies #[trigger] np[k] <= e by {
        if k < p {
            assert(np[k] == old_pos[k]);
        } else if k > p {
            assert(np[k] == old_pos[k - 1]);
        }
    }
}

/// Every numeric row's threshold is the one the cache holds for its
/// entity and fingerprint.
pub open spec fn thresholds_cached(rows: Seq<EntityProbability>, c: CacheView) -> bool {
    forall|k: int| 0 <= k < rows.len() && (#[trigger] rows[k]).numeric_stats is Some && rows[k].optimal_thresholds is Some ==>
        lookup(c, rows[k].entity_id@, cache_key(rows[k].numeric_stats.unwrap())) == rows[k].optimal_thresholds
}

/// `after` extends `before`.
pub open spec fn cache_extends(before: CacheView, after: CacheView) -> bool {
    before.len() <= after.len() && forall|i: int| 0 <= i < before.len() ==> #[trigger] after[i] == before[i]
}

proof fn lemma_cached_after_lookup(
    rows: Seq<EntityProbability>,
    before: CacheView,
    nb: nat,
    after: CacheView,
    na: nat,
    id: Seq<char>,
    stats: NumericStateStats,
    r: Option<OptimalThresholds>,
)
    requires
        thresholds_cached(rows, before),
        lookup_post(before, nb, after, na, id, stats, r),
    ensures
        thresholds_cached(rows, after),
        lookup(after, id, cache_key(stats)) == r,
        cache_extends(before, after),
{
    let key = cache_key(stats);
    if lookup(before, id, key) is None {
        assert(after.drop_last() == before);
        assert forall|k: int| 0 <= k < rows.len() && (#[trigger] rows[k]).numeric_stats is Some && rows[k].optimal_thresholds is Some implies
            lookup(after, rows[k].entity_id@, cache_key(rows[k].numeric_stats.unwrap())) == rows[k].optimal_thresholds by {
            let kid = rows[k].entity_id@;
            let kk = cache_key(rows[k].numeric_stats.unwrap());
            if after.last().0 == kid && after.last().1 == kk {
                assert(lookup(before, kid, kk) is Some);
            }
        }
    }
}

proof fn lemma_rows_keep_cache(old_rows: Seq<EntityProbability>, p: int, row: EntityProbability, c: CacheView)
    requires
        0 <= p <= old_rows.len(),
        thresholds_cached(old_rows, c),
        row.numeric_stats is Some && row.optimal_thresholds is Some ==> lookup(c, row.entity_id@, cache_key(row.numeric_stats.unwrap())) == row.optimal_thresholds,
    ensures
        thresholds_cached(old_rows.insert(p, row), c),
{
    let nr = old_rows.insert(p, row);
    assert forall|k: int| 0 <= k < nr.len() && (#[trigger] nr[k]).numeric_stats is Some && nr[k].optimal_thresholds is Some implies
        lookup(c, nr[k].entity_id@, cache_key(nr[k].numeric_stats.unwrap())) == nr[k].optimal_thresholds by {
        if k < p {
            assert(nr[k] == old_rows[k]);
        } else if k > p {
            assert(nr[k] == old_rows[k - 1]);
        }
    }
}

/// Some of the first `j` rows of `analysis` is about state `s`.
pub open spec fn state_among(analysis: Seq<(String, StateAnalysis)>, j: int, s: Seq<char>) -> bool {
    exists|j2: int| 0 <= j2 < j && (#[trigger] analysis[j2]).0@ == s
}

/// Inserts a row after every row of at least its power.
fn insert_by_power(rows: &mut Vec<EntityProbability>, row: EntityProbability) -> (p: usize)
    requires
        sorted_by_power(old(rows)@),
    ensures
        sorted_by_power(final(rows)@),
        p <= old(rows)@.len(),
        final(rows)@ == old(rows)@.insert(p as int, row),
        forall|k: int| 0 <= k < p ==> old(rows)@[k].discrimination_power >= row.discrimination_power,
        forall|k: int| p <= k < old(rows)@.len() ==> old(rows)@[k].discrimination_power < row.discrimination_power,
        forall|x: EntityProbability| old(rows)@.contains(x) ==> #[trigger] final(rows)@.contains(x),
        final(rows)@.contains(row),
{
    let mut p: usize = 0;
    while p < rows.len() && rows[p].discrimination_power >= row.discrimination_power
        invariant
            p <= rows@.len(),
            forall|k: int| 0 <= k < p ==> rows@[k].discrimination_power >= row.discrimination_power,
        decreases rows@.len() - p,
    {
        p = p + 1;
    }
    let ghost old_rows = rows@;
    proof {
        assert forall|k: int| p <= k < old_rows.len() implies old_rows[k].discrimination_power < row.discrimination_power by {
            assert(old_rows[p as int].discrimination_power < row.discrimination_power);
            assert(old_rows[p as int].discrimination_power >= old_rows[k].discrimination_power);
        }
    }
    rows.insert(p, row);
    proof {
        assert forall|i: int, j: int| 0 <= i < j < rows@.len() implies rows@[i].discrimination_power >= rows@[j].discrimination_power by {
            if j < p {
                assert(rows@[i] == old_rows[i]);
                assert(rows@[j] == old_rows[j]);
            } else if j == p {
                assert(rows@[i] == old_rows[i]);
            } else if i < p {
                assert(rows@[i] == old_rows[i]);
                assert(rows@[j] == old_rows[j - 1]);
            } else if i == p {
                assert(rows@[j] == old_rows[j - 1]);
                assert(old_rows[p as int].discrimination_power < row.discrimination_power);
            } else {
                assert(rows@[i] == old_rows[i - 1]);
                assert(rows@[j] == old_rows[j - 1]);
            }
        }
        assert(rows@[p as int] == row);
        assert forall|x: EntityProbability| old_rows.contains(x) implies #[trigger] rows@.contains(x) by {
            let k = choose|k: int| 0 <= k < old_rows.len() && old_rows[k] == x;
            if k < p {
                assert(rows@[k] == x);
            } else {
                assert(rows@[k + 1] == x);
            }
        }
    }
    p
}

/// The engine: computes ranked results and remembers numeric thresholds per
/// entity and fingerprint for its lifetime.
pub struct BayesianCalculator {
    threshold_cache: Vec<CachedThreshold>,
    threshold_searches: u64,
}

impl BayesianCalculator {
    /// The remembered thresholds.
    pub closed spec fn cached(&self) -> CacheView {
        self.threshold_cache@.map_values(|c: CachedThreshold| (c.entity_id@, c.key@, c.thresholds))
    }

    /// How many threshold searches have run (saturating).
    pub closed spec fn searches(&self) -> nat {
        self.threshold_searches as nat
    }

    /// An engine with an empty cache.
    pub fn new() -> (r: Self)
        ensures
            r.cached() == Seq::<(Seq<char>, Seq<char>, OptimalThresholds)>::empty(),
            r.searches() == 0,
    {
        let r = BayesianCalculator { threshold_cache: Vec::new(), threshold_searches: 0 };
        assert(r.cached() =~= Seq::<(Seq<char>, Seq<char>, OptimalThresholds)>::empty());
        r
    }

    /// Number of threshold searches run so far.
    pub fn search_count(&self) -> (r: u64)
        ensures
            r == self.searches(),
    {
        self.threshold_searches
    }

    /// The threshold for an entity's statistics: the remembered one when the
    /// fingerprint was seen for this entity, else a fresh search, remembered.
    pub fn get_or_calculate_thresholds(&mut self, entity_id: &str, stats: &NumericStateStats) -> (r: Option<OptimalThresholds>)
        requires
            chunks_wf(stats.true_chunks@),
            chunks_wf(stats.false_chunks@),
        ensures
            lookup_post(old(self).cached(), old(self).searches(), final(self).cached(), final(self).searches(), entity_id@, *stats, r),
    {
        let cache_key_text = get_cache_key(stats);
        let id = String::from_str(entity_id);
        let ghost c = self.cached();
        let mut i: usize = self.threshold_cache.len();
        proof {
            assert(c.take(i as int) =~= c);
        }
        while i > 0
            invariant
                *self == *old(self),
                id@ == entity_id@,
                cache_key_text@ == cache_key(*stats),
                c.len() == self.threshold_cache@.len(),
                i <= self.threshold_cache@.len(),
                c == self.cached(),
                lookup(c, id@, cache_key_text@) == lookup(c.take(i as int), id@, cache_key_text@),
            decreases i,
        {
            let e = &self.threshold_cache[i - 1];
            proof {
                assert(c.take(i as int).drop_last() =~= c.take(i as int - 1));
                assert(c.take(i as int).last() == c[i as int - 1]);
                assert(c[i as int - 1] == (e.entity_id@, e.key@, e.thresholds));
            }
            if e.entity_id == id && e.key == cache_key_text {
                proof {
                    assert(lookup(c.take(i as int), id@, cache_key_text@) == Some(e.thresholds));
                    assert(id@ == entity_id@);
                    assert(cache_key_text@ == cache_key(*stats));
                    assert(lookup(old(self).cached(), entity_id@, cache_key(*stats)) == Some(e.thresholds));
                }
                return Some(e.thresholds);
            }
            i = i - 1;
        }
        proof {
            assert(c.take(0) =~= Seq::<(Seq<char>, Seq<char>, OptimalThresholds)>::empty());
        }
        let thresholds = find_optimal_numeric_thresholds(stats);
        if self.threshold_searches < u64::MAX {
            self.threshold_searches = self.threshold_searches + 1;
        }
        self.threshold_cache.push(CachedThreshold { entity_id: id, key: cache_key_text, thresholds });
        proof {
            assert(self.cached() =~= c.push((entity_id@, cache_key(*stats), thresholds)));
        }
        Some(thresholds)
    }

    /// Ranks, for every entity with a history, its states (categorical
    /// entities) or its best threshold (numeric entities) by how well they
    /// separate TRUE periods from FALSE periods, highest first, ties in
    /// input order. Fails when there is no TRUE or no FALSE period. A numeric
    /// entity without chunks, or whose chunk durations of one polarity add up
    /// past `i64::MAX`, gives no row.
    #[verifier::rlimit(60)]
    pub fn calculate_entity_probabilities(
        &mut self,
        history: &Vec<(String, Vec<HAHistoryEntry>)>,
        periods: &Vec<TimePeriod>,
    ) -> (r: Result<Vec<EntityProbability>, CalculatorError>)
        ensures
            r is Err <==> !(has_polarity(periods@, true) && has_polarity(periods@, false)),
            r matches Ok(rows) ==> sorted_by_power(rows@),
            r matches Ok(rows) ==> forall|k: int| 0 <= k < rows@.len() ==>
                row_ok(#[trigger] rows@[k], count_polarity(periods@, true), count_polarity(periods@, false)),
            r matches Ok(rows) ==> forall|k: int| 0 <= k < rows@.len() ==> has_entity(history@, (#[trigger] rows@[k]).entity_id@),
            r matches Ok(rows) ==> forall|e: int| 0 <= e < history@.len() && (#[trigger] history@[e]).1@.len() > 0 ==>
                entity_covered(rows@, history@[e].0@, history@[e].1@, periods@),
            r matches Ok(rows) ==> exists|pos: Seq<int>| #[trigger] row_positions(rows@, pos, history@, periods@),
            r matches Ok(rows) ==> thresholds_cached(rows@, final(self).cached()),
            cache_extends(old(self).cached(), final(self).cached()),
            r is Err ==> final(self).cached() == old(self).cached() && final(self).searches() == old(self).searches(),
    {
        let mut n_true: usize = 0;
        let mut n_false: usize = 0;
        let mut p: usize = 0;
        while p < periods.len()
            invariant
                p <= periods@.len(),
                n_true as nat == count_polarity(periods@.take(p as int), true),
                n_false as nat == count_polarity(periods@.take(p as int), false),
                n_true + n_false == p,
                (n_true > 0) == exists|q: int| 0 <= q < p && #[trigger] periods@[q].is_true_period == true,
                (n_false > 0) == exists|q: int| 0 <= q < p && #[trigger] periods@[q].is_true_period == false,
            decreases periods@.len() - p,
        {
            proof {
                assert(periods@.take(p as int + 1).drop_last() =~= periods@.take(p as int));
                assert(periods@.take(p as int + 1).last() == periods@[p as int]);
            }
            if periods[p].is_true_period {
                n_true = n_true + 1;
            } else {
                n_false = n_false + 1;
            }
            p = p + 1;
        }
        proof {
            assert(periods@.take(periods@.len() as int) =~= periods@);
        }
        if n_true == 0 || n_false == 0 {
            return Err(CalculatorError::MissingTrueOrFalsePeriod);
        }
        let ghost nt = count_polarity(periods@, true);
        let ghost nf = count_polarity(periods@, false);

        let mut results: Vec<EntityProbability> = Vec::new();
        let ghost mut pos: Seq<int> = Seq::empty();
        let mut e: usize = 0;
        while e < history.len()
            invariant
                e <= history@.len(),
                n_true as nat == nt,
                n_false as nat == nf,
                nt == count_polarity(periods@, true),
                nf == count_polarity(periods@, false),
                sorted_by_power(results@),
                forall|k: int| 0 <= k < results@.len() ==> row_ok(#[trigger] results@[k], nt, nf),
                forall|k: int| 0 <= k < results@.len() ==> has_entity(history@, (#[trigger] results@[k]).entity_id@),
                forall|e2: int| 0 <= e2 < e && (#[trigger] history@[e2]).1@.len() > 0 ==>
                    entity_covered(results@, history@[e2].0@, history@[e2].1@, periods@),
                row_positions(results@, pos, history@, periods@),
                forall|k: int| 0 <= k < pos.len() ==> #[trigger] pos[k] < e,
                thresholds_cached(results@, self.cached()),
                cache_extends(old(self).cached(), self.cached()),
            decreases history@.len() - e,
        {
            let entity_id = &history[e].0;
            let entries = history[e].1.as_slice();
            let ghost h = history@[e as int].1@;
            let ghost id = history@[e as int].0@;
            assert(entries@ == h);
            if entries.len() > 0 {
                assert(has_entity(history@, history@[e as int].0@));
                if is_numeric_entity(entries) {
                    let stats_opt = analyze_numeric_states(entries, periods.as_slice());
                    let ghost chunks = choose|chunks: Seq<SensorChunk>| #[trigger] sensor_chunks_of(h, periods@, chunks) && {
                        &&& (chunks.len() == 0 <==> stats_opt is None)
                        &&& stats_opt matches Some(st) ==> {
                            &&& st.true_chunks@ == pairs_of(chunks, true)
                            &&& st.false_chunks@ == pairs_of(chunks, false)
                            &&& bounds_values(chunks, st.min.unwrap(), st.max.unwrap())
                        }
                    };
                    if let Some(stats) = stats_opt {
                        if chunks_fit(&stats.true_chunks) && chunks_fit(&stats.false_chunks) {
                            let ghost c_before = self.cached();
                            let ghost n_before = self.searches();
                            let t_opt = self.get_or_calculate_thresholds(entity_id.as_str(), &stats);
                            proof {
                                lemma_cached_after_lookup(results@, c_before, n_before, self.cached(), self.searches(), id, stats, t_opt);
                                assert forall|i: int| 0 <= i < old(self).cached().len() implies #[trigger] self.cached()[i] == old(self).cached()[i] by {
                                    assert(c_before[i] == old(self).cached()[i]);
                                }
                            }
                            if let Some(t) = t_opt {
                                let (tm, tt) = threshold_durations(&stats.true_chunks, &t);
                                let (fm, ft) = threshold_durations(&stats.false_chunks, &t);
                                let (pt, pf, dp) = assemble_probabilities(tm, tt, fm, ft);
                                let row = EntityProbability {
                                    entity_id: entity_id.clone(),
                                    state: format_threshold_description(&t),
                                    prob_given_true: pt,
                                    prob_given_false: pf,
                                    discrimination_power: dp,
                                    true_occurrences: n_true,
                                    false_occurrences: n_false,
                                    total_true_periods: n_true,
                                    total_false_periods: n_false,
                                    numeric_stats: Some(stats),
                                    optimal_thresholds: Some(t),
                                };
                                assert(row_ok(row, nt, nf));
                                assert(numeric_row(row, id, chunks));
                                assert(row_from_entity(row, id, h, periods@));
                                let ghost old_results = results@;
                                let ghost row_g = row;
                                let ip = insert_by_power(&mut results, row);
                                proof {
                                    lemma_insert_row(old_results, pos, ip as int, row_g, e as int, history@, periods@);
                                    lemma_rows_keep_cache(old_results, ip as int, row_g, self.cached());
                                    pos = pos.insert(ip as int, e as int);
                                    lemma_all_covered_grow(old_results, results@, history@, periods@, e as int);
                                    assert(has_numeric_row(results@, id, chunks));
                                }
                            }
                        }
                    }
                    proof {
                        assert(entity_covered(results@, id, h, periods@));
                    }
                } else {
                    let segments = create_unified_timeline(entries, periods.as_slice());
                    let analysis = analyze_state_segments(segments.as_slice());
                    let ghost segs = segments@;
                    let mut j: usize = 0;
                    while j < analysis.len()
                        invariant
                            segs == segments@,
                            h == history@[e as int].1@,
                            id == history@[e as int].0@,
                            forall|i: int| 0 <= i < analysis@.len() ==> (#[trigger] analysis@[i]).1.true_occurrences == occurrence_starts(segs, analysis@[i].0@, true).len(),
                            forall|i: int| 0 <= i < analysis@.len() ==> (#[trigger] analysis@[i]).1.false_occurrences == occurrence_starts(segs, analysis@[i].0@, false).len(),
                            forall|j2: int| 0 <= j2 < j ==> has_categorical_row(results@, id, segs, (#[trigger] analysis@[j2]).0@),
                            forall|e2: int| 0 <= e2 < e && (#[trigger] history@[e2]).1@.len() > 0 ==>
                                entity_covered(results@, history@[e2].0@, history@[e2].1@, periods@),
                            j <= analysis@.len(),
                            e < history@.len(),
                            has_entity(history@, history@[e as int].0@),
                            *entity_id == history@[e as int].0,
                            n_true as nat == nt,
                            n_false as nat == nf,
                            sorted_by_power(results@),
                            forall|k: int| 0 <= k < results@.len() ==> row_ok(#[trigger] results@[k], nt, nf),
                            forall|k: int| 0 <= k < results@.len() ==> has_entity(history@, (#[trigger] results@[k]).entity_id@),
                            row_positions(results@, pos, history@, periods@),
                            forall|k: int| 0 <= k < pos.len() ==> #[trigger] pos[k] <= e,
                            forall|k: int| 0 <= k < pos.len() && pos[k] == e ==> state_among(analysis@, j as int, (#[trigger] results@[k]).state@),
                            forall|i: int, i2: int| 0 <= i < i2 < analysis@.len() ==> analysis@[i].0@ != analysis@[i2].0@,
                            forall|i: int| 0 <= i < analysis@.len() ==> has_counted_segment(segs, (#[trigger] analysis@[i]).0@),
                            !numeric_spec(h),
                            nt == count_polarity(periods@, true),
                            nf == count_polarity(periods@, false),
                            unified_segments(h, periods@, segs),
                            forall|k: int| 0 <= k < segs.len() ==> starts_period(periods@, (#[trigger] segs[k]).is_true_period, segs[k].period_start),
                            thresholds_cached(results@, self.cached()),
                            cache_extends(old(self).cached(), self.cached()),
                        decreases analysis@.len() - j,
                    {
                        let a = analysis[j].1;
                        proof {
                            lemma_occurrences_bounded(segs, periods@, analysis@[j as int].0@, true);
                            lemma_occurrences_bounded(segs, periods@, analysis@[j as int].0@, false);
                            assert(a.true_occurrences as nat <= nt);
                            assert(a.false_occurrences as nat <= nf);
                        }
                        let (pt, pf, dp) = assemble_probabilities(
                            a.true_occurrences as u64,
                            n_true as u64,
                            a.false_occurrences as u64,
                            n_false as u64,
                        );
                        let row = EntityProbability {
                            entity_id: entity_id.clone(),
                            state: analysis[j].0.clone(),
                            prob_given_true: pt,
                            prob_given_false: pf,
                            discrimination_power: dp,
                            true_occurrences: a.true_occurrences,
                            false_occurrences: a.false_occurrences,
                            total_true_periods: n_true,
                            total_false_periods: n_false,
                            numeric_stats: None,
                            optimal_thresholds: None,
                        };
                        assert(row_ok(row, nt, nf));
                        assert(categorical_row(row, id, segs, analysis@[j as int].0@));
                        assert(row_from_entity(row, id, h, periods@));
                        let ghost old_results = results@;
                        let ghost row_g = row;
                        proof {
                            assert forall|k: int| 0 <= k < pos.len() && pos[k] == e implies (#[trigger] old_results[k]).state@ != row_g.state@ by {
                                assert(state_among(analysis@, j as int, old_results[k].state@));
                            }
                        }
                        let ip = insert_by_power(&mut results, row);
                        proof {
                            lemma_insert_row(old_results, pos, ip as int, row_g, e as int, history@, periods@);
                            lemma_rows_keep_cache(old_results, ip as int, row_g, self.cached());
                            let old_pos = pos;
                            pos = pos.insert(ip as int, e as int);
                            assert forall|k: int| 0 <= k < pos.len() && pos[k] == e implies state_among(analysis@, j + 1, (#[trigger] results@[k]).state@) by {
                                if k < ip {
                                    assert(results@[k] == old_results[k] && pos[k] == old_pos[k]);
                                    assert(state_among(analysis@, j as int, old_results[k].state@));
                                } else if k > ip {
                                    assert(results@[k] == old_results[k - 1] && pos[k] == old_pos[k - 1]);
                                    assert(state_among(analysis@, j as int, old_results[k - 1].state@));
                                } else {
                                    assert(analysis@[j as int].0@ == results@[k].state@);
                                }
                            }
                            lemma_all_covered_grow(old_results, results@, history@, periods@, e as int);
                            assert forall|j2: int| 0 <= j2 < j + 1 implies has_categorical_row(results@, id, segs, (#[trigger] analysis@[j2]).0@) by {
                                if j2 < j {
                                    let x = choose|x: EntityProbability| old_results.contains(x) && #[trigger] categorical_row(x, id, segs, analysis@[j2].0@);
                                    assert(results@.contains(x));
                                }
                            }
                        }
                        j = j + 1;
                    }
                    proof {
                        assert forall|k: int| 0 <= k < segs.len() && counted(#[trigger] segs[k]) implies has_categorical_row(results@, id, segs, segs[k].state@) by {
                            let i = choose|i: int| 0 <= i < analysis@.len() && (#[trigger] analysis@[i]).0@ == segs[k].state@;
                            assert(has_categorical_row(results@, id, segs, analysis@[i].0@));
                        }
                        assert(unified_segments(h, periods@, segs));
                        assert(entity_covered(results@, id, h, periods@));
                    }
                }
            }
            e = e + 1;
        }
        proof {
            assert(row_positions(results@, pos, history@, periods@));
        }
        Ok(results)
    }
}

} // verus!
