use vstd::prelude::*;
use vstd::string::*;
use crate::types::{HAHistoryEntry, SensorChunk, StateChunk, StateDurationStats, TimePeriod};

verus! {

/// One constant-value piece of a period: a reading (in millionths) and how
/// long it lasted (in milliseconds).
#[derive(Debug, Clone, Copy, PartialEq, Eq, Structural)]
pub struct ValueDuration {
    pub value: i64,
    pub duration: i64,
}

/// Value/duration pairs of one numeric entity, split by period polarity.
#[derive(Debug, Clone, PartialEq, Eq)]
pub struct NumericStateStats {
    pub is_numeric: bool,
    pub min: Option<i64>,
    pub max: Option<i64>,
    pub true_chunks: Vec<ValueDuration>,
    pub false_chunks: Vec<ValueDuration>,
}

/// Instant denoted by an RFC 3339 timestamp, in milliseconds since the
/// epoch, or `None` where the text is not RFC 3339.
pub uninterp spec fn rfc3339_millis(s: Seq<char>) -> Option<i64>;

/// Relies on chrono's `DateTime::parse_from_rfc3339` and
/// `DateTime::timestamp_millis`: the parse depends on the characters alone.
#[verifier::external_body]
fn rfc3339_to_millis(s: &str) -> (r: Option<i64>)
    ensures
        r == rfc3339_millis(s@),
{
    match chrono::DateTime::parse_from_rfc3339(s) {
        Ok(dt) => Some(dt.timestamp_millis()),
        Err(_) => None,
    }
}

/// Milliseconds since the epoch of a timestamp, 0 where it does not parse.
pub open spec fn timestamp_of(s: Seq<char>) -> i64 {
    match rfc3339_millis(s) {
        Some(t) => t,
        None => 0,
    }
}

/// Parses an RFC 3339 timestamp to milliseconds since the epoch; text that
/// does not parse gives 0.
pub fn parse_timestamp(iso_string: &str) -> (r: i64)
    ensures
        r == timestamp_of(iso_string@),
{
    match rfc3339_to_millis(iso_string) {
        Some(t) => t,
        None => 0,
    }
}

/// `r` lists the indices of `times` once each, ordered by time, equal
/// times in index order.
pub open spec fn is_stable_order(times: Seq<i64>, r: Seq<usize>) -> bool {
    &&& r.len() == times.len()
    &&& forall|k: int| 0 <= k < r.len() ==> #[trigger] r[k] < times.len()
    &&& forall|j: usize| #[trigger] r.contains(j) <==> j < times.len()
    &&& forall|a: int, b: int| 0 <= a < b < r.len() ==> {
        ||| times[r[a] as int] < times[r[b] as int]
        ||| (times[r[a] as int] == times[r[b] as int] && r[a] < r[b])
    }
}

/// Indices `0..times.len()` ordered by time, equal times kept in index order.
pub fn history_order(times: &Vec<i64>) -> (r: Vec<usize>)
    ensures
        is_stable_order(times@, r@),
{
    let mut r: Vec<usize> = Vec::new();
    let mut i: usize = 0;
    while i < times.len()
        invariant
            i <= times@.len(),
            r@.len() == i,
            forall|k: int| 0 <= k < r@.len() ==> #[trigger] r@[k] < i,
            forall|j: usize| #[trigger] r@.contains(j) <==> j < i,
            forall|a: int, b: int| 0 <= a < b < r@.len() ==> {
                ||| times@[r@[a] as int] < times@[r@[b] as int]
                ||| (times@[r@[a] as int] == times@[r@[b] as int] && r@[a] < r@[b])
            },
        decreases times@.len() - i,
    {
        let t = times[i];
        let mut p: usize = 0;
        while p < r.len() && times[r[p]] <= t
            invariant
                p <= r@.len(),
                r@.len() == i,
                i < times@.len(),
                forall|k: int| 0 <= k < r@.len() ==> #[trigger] r@[k] < i,
                forall|k: int| 0 <= k < p ==> times@[#[trigger] r@[k] as int] <= t,
            decreases r@.len() - p,
        {
            p = p + 1;
        }
        let ghost old_r = r@;
        r.insert(p, i);
        proof {
            assert forall|a: int, b: int| 0 <= a < b < r@.len() implies {
                ||| times@[r@[a] as int] < times@[r@[b] as int]
                ||| (times@[r@[a] as int] == times@[r@[b] as int] && r@[a] < r@[b])
            } by {
                if a < p && b == p {
                    assert(r@[a] == old_r[a]);
                    assert(old_r[a] < i);
                } else if a == p && b > p {
                    assert(r@[b] == old_r[b - 1]);
                    if b - 1 >= p {
                        if p < old_r.len() {
                            assert(times@[old_r[p as int] as int] > t);
                            if b - 1 > p {
                                assert(old_r[p as int] < old_r[b - 1] || times@[old_r[p as int] as int] < times@[old_r[b - 1] as int]);
                            }
                        }
                    }
                } else if a < p && b > p {
                    assert(r@[a] == old_r[a]);
                    assert(r@[b] == old_r[b - 1]);
                } else if b < p {
                    assert(r@[a] == old_r[a]);
                    assert(r@[b] == old_r[b]);
                } else {
                    assert(r@[a] == old_r[a - 1]);
                    assert(r@[b] == old_r[b - 1]);
                }
            }
            assert forall|j: usize| #[trigger] r@.contains(j) <==> j < i + 1 by {
                if j < i {
                    assert(old_r.contains(j));
                    let k = choose|k: int| 0 <= k < old_r.len() && old_r[k] == j;
                    if k < p {
                        assert(r@[k] == j);
                    } else {
                        assert(r@[k + 1] == j);
                    }
                }
                if j == i {
                    assert(r@[p as int] == j);
                }
                if r@.contains(j) {
                    let k = choose|k: int| 0 <= k < r@.len() && r@[k] == j;
                    if k < p {
                        assert(old_r[k] == j);
                    } else if k > p {
                        assert(old_r[k - 1] == j);
                    }
                }
            }
        }
        i = i + 1;
    }
    r
}

/// Timestamps of the entries, in entry order.
fn entry_times(entity_history: &[HAHistoryEntry]) -> (r: Vec<i64>)
    ensures
        r@.len() == entity_history@.len(),
        forall|k: int| 0 <= k < r@.len() ==> #[trigger] r@[k] == timestamp_of(entity_history@[k].last_changed@),
{
    let mut r: Vec<i64> = Vec::new();
    let mut i: usize = 0;
    while i < entity_history.len()
        invariant
            i <= entity_history@.len(),
            r@.len() == i,
            forall|k: int| 0 <= k < r@.len() ==> #[trigger] r@[k] == timestamp_of(entity_history@[k].last_changed@),
        decreases entity_history@.len() - i,
    {
        r.push(parse_timestamp(entity_history[i].last_changed.as_str()));
        i = i + 1;
    }
    r
}

/// Whether some period has the polarity `desired`.
pub open spec fn has_polarity(periods: Seq<TimePeriod>, desired: bool) -> bool {
    exists|p: int| 0 <= p < periods.len() && #[trigger] periods[p].is_true_period == desired
}

/// Whether `v` is the numeric reading of some entry.
pub open spec fn is_reading(entity_history: Seq<HAHistoryEntry>, v: i64) -> bool {
    exists|j: int| 0 <= j < entity_history.len() && #[trigger] entity_history[j].numeric_state == Some(v)
}

/// Length of `[start, end)` in milliseconds, saturated to the range of `i64`.
pub open spec fn span(start: i64, end: i64) -> int {
    let d = end as int - start as int;
    if d > i64::MAX { i64::MAX as int } else if d < i64::MIN { i64::MIN as int } else { d }
}

fn span_exec(start: i64, end: i64) -> (r: i64)
    ensures
        r == span(start, end),
{
    let d = end as i128 - start as i128;
    if d > i64::MAX as i128 {
        i64::MAX
    } else if d < i64::MIN as i128 {
        i64::MIN
    } else {
        d as i64
    }
}

/// Entry timestamps in entry order.
pub open spec fn entry_times_spec(h: Seq<HAHistoryEntry>) -> Seq<i64> {
    Seq::new(h.len(), |i: int| timestamp_of(h[i].last_changed@))
}

/// Entry timestamps in the order `order`.
pub open spec fn ordered_times(h: Seq<HAHistoryEntry>, order: Seq<usize>) -> Seq<i64> {
    Seq::new(order.len(), |k: int| timestamp_of(h[order[k] as int].last_changed@))
}

/// Entry readings in the order `order`.
pub open spec fn ordered_readings(h: Seq<HAHistoryEntry>, order: Seq<usize>) -> Seq<Option<i64>> {
    Seq::new(order.len(), |k: int| h[order[k] as int].numeric_state)
}

/// The times of `st` strictly between `ps` and `pe`, in order.
pub open spec fn inside(st: Seq<i64>, ps: i64, pe: i64) -> Seq<i64>
    decreases st.len(),
{
    if st.len() == 0 {
        Seq::empty()
    } else {
        let r = inside(st.drop_last(), ps, pe);
        if ps < st.last() && st.last() < pe { r.push(st.last()) } else { r }
    }
}

/// Bounds of the pieces of a period: its start, the entry times inside it,
/// its end.
pub open spec fn time_points(st: Seq<i64>, ps: i64, pe: i64) -> Seq<i64> {
    seq![ps] + inside(st, ps, pe) + seq![pe]
}

/// Last of the first `n` positions whose time is at most `ps`.
pub open spec fn last_at_or_before(st: Seq<i64>, ps: i64, n: int) -> Option<int>
    decreases n,
{
    if n <= 0 {
        None
    } else if st[n - 1] <= ps {
        Some(n - 1)
    } else {
        last_at_or_before(st, ps, n - 1)
    }
}

/// Reading in force at a period's start.
pub open spec fn start_reading(st: Seq<i64>, sv: Seq<Option<i64>>, ps: i64) -> Option<i64> {
    match last_at_or_before(st, ps, st.len() as int) {
        Some(k) => sv[k],
        None => None,
    }
}

/// Chunks of the pieces `[tp[i], tp[i + 1])` from `i` on. A piece shorter
/// than a second is dropped; a later piece takes the reading of the last
/// entry at or before its start, when that entry has one.
pub open spec fn piece_chunks(tp: Seq<i64>, st: Seq<i64>, sv: Seq<Option<i64>>, i: int, cur: Option<i64>, pol: bool) -> Seq<SensorChunk>
    decreases tp.len() - i,
{
    if i < 0 || i + 1 >= tp.len() {
        Seq::empty()
    } else {
        let d = span(tp[i], tp[i + 1]);
        if d < 1000 {
            piece_chunks(tp, st, sv, i + 1, cur, pol)
        } else {
            let cur2 = if i > 0 {
                match last_at_or_before(st, tp[i], st.len() as int) {
                    Some(q) => if sv[q] is Some { sv[q] } else { cur },
                    None => cur,
                }
            } else {
                cur
            };
            (if cur2 is Some {
                seq![SensorChunk { sensor_value: cur2.unwrap(), duration: d as i64, desired_output: pol }]
            } else {
                Seq::empty()
            }) + piece_chunks(tp, st, sv, i + 1, cur2, pol)
        }
    }
}

/// Chunks of one period over the time-ordered entries.
pub open spec fn period_chunks(st: Seq<i64>, sv: Seq<Option<i64>>, p: TimePeriod) -> Seq<SensorChunk> {
    let ps = timestamp_of(p.start@);
    let pe = timestamp_of(p.end@);
    piece_chunks(time_points(st, ps, pe), st, sv, 0, start_reading(st, sv, ps), p.is_true_period)
}

/// Chunks of the first `n` periods, period by period.
pub open spec fn sensor_chunks(st: Seq<i64>, sv: Seq<Option<i64>>, periods: Seq<TimePeriod>, n: int) -> Seq<SensorChunk>
    decreases n,
{
    if n <= 0 {
        Seq::empty()
    } else {
        sensor_chunks(st, sv, periods, n - 1) + period_chunks(st, sv, periods[n - 1])
    }
}

/// What `create_sensor_period_chunks` returns, over the entries in stable
/// time order (that order is unique).
pub open spec fn sensor_chunks_of(h: Seq<HAHistoryEntry>, periods: Seq<TimePeriod>, r: Seq<SensorChunk>) -> bool {
    if h.len() == 0 || periods.len() == 0 {
        r.len() == 0
    } else {
        exists|order: Seq<usize>| #[trigger] is_stable_order(entry_times_spec(h), order)
            && r == sensor_chunks(ordered_times(h, order), ordered_readings(h, order), periods, periods.len() as int)
    }
}

fn inside_points(sorted_t: &Vec<i64>, ps: i64, pe: i64) -> (r: Vec<i64>)
    ensures
        r@ == time_points(sorted_t@, ps, pe),
{
    let mut tp: Vec<i64> = Vec::new();
    tp.push(ps);
    let mut k: usize = 0;
    while k < sorted_t.len()
        invariant
            k <= sorted_t@.len(),
            tp@ == seq![ps] + inside(sorted_t@.take(k as int), ps, pe),
        decreases sorted_t@.len() - k,
    {
        proof {
            assert(sorted_t@.take(k as int + 1).drop_last() =~= sorted_t@.take(k as int));
            assert(sorted_t@.take(k as int + 1).last() == sorted_t@[k as int]);
        }
        let t = sorted_t[k];
        if t > ps && t < pe {
            tp.push(t);
        }
        assert(tp@ =~= seq![ps] + inside(sorted_t@.take(k as int + 1), ps, pe));
        k = k + 1;
    }
    assert(sorted_t@.take(sorted_t@.len() as int) =~= sorted_t@);
    tp.push(pe);
    assert(tp@ =~= time_points(sorted_t@, ps, pe));
    tp
}

fn reading_at_start(sorted_t: &Vec<i64>, sorted_v: &Vec<Option<i64>>, ps: i64) -> (r: Option<i64>)
    requires
        sorted_t@.len() == sorted_v@.len(),
    ensures
        r == start_reading(sorted_t@, sorted_v@, ps),
{
    let mut k: usize = sorted_t.len();
    while k > 0
        invariant
            k <= sorted_t@.len(),
            sorted_t@.len() == sorted_v@.len(),
            last_at_or_before(sorted_t@, ps, sorted_t@.len() as int) == last_at_or_before(sorted_t@, ps, k as int),
        decreases k,
    {
        if sorted_t[k - 1] <= ps {
            return sorted_v[k - 1];
        }
        k = k - 1;
    }
    None
}

/// Splits each period, on its own, into pieces of constant reading. A period
/// starts with the last reading at or before its start (no piece where there
/// is none), each entry strictly inside it starts a new piece, and pieces
/// shorter than a second are dropped.
pub fn create_sensor_period_chunks(entity_history: &[HAHistoryEntry], periods: &[TimePeriod]) -> (r: Vec<SensorChunk>)
    ensures
        sensor_chunks_of(entity_history@, periods@, r@),
        (entity_history@.len() == 0 || periods@.len() == 0) ==> r@.len() == 0,
        forall|k: int| 0 <= k < r@.len() ==> (#[trigger] r@[k]).duration >= 1000,
        forall|k: int| 0 <= k < r@.len() ==> has_polarity(periods@, (#[trigger] r@[k]).desired_output),
        forall|k: int| 0 <= k < r@.len() ==> is_reading(entity_history@, (#[trigger] r@[k]).sensor_value),
{
    let mut chunks: Vec<SensorChunk> = Vec::new();
    if entity_history.len() == 0 || periods.len() == 0 {
        return chunks;
    }
    let ghost h = entity_history@;
    let times = entry_times(entity_history);
    assert(times@ =~= entry_times_spec(h));
    let order = history_order(&times);
    let mut sorted_t: Vec<i64> = Vec::new();
    let mut sorted_v: Vec<Option<i64>> = Vec::new();
    let mut i: usize = 0;
    while i < order.len()
        invariant
            h == entity_history@,
            i <= order@.len(),
            order@.len() == times@.len(),
            times@.len() == h.len(),
            forall|k: int| 0 <= k < times@.len() ==> #[trigger] times@[k] == timestamp_of(h[k].last_changed@),
            forall|k: int| 0 <= k < order@.len() ==> #[trigger] order@[k] < times@.len(),
            sorted_t@.len() == i,
            sorted_v@.len() == i,
            forall|k: int| 0 <= k < i ==> #[trigger] sorted_v@[k] == h[order@[k] as int].numeric_state,
            forall|k: int| 0 <= k < i ==> #[trigger] sorted_t@[k] == timestamp_of(h[order@[k] as int].last_changed@),
        decreases order@.len() - i,
    {
        let k = order[i];
        sorted_t.push(times[k]);
        sorted_v.push(entity_history[k].numeric_state);
        i = i + 1;
    }
    let ghost st = sorted_t@;
    let ghost sv = sorted_v@;
    assert(st =~= ordered_times(h, order@));
    assert(sv =~= ordered_readings(h, order@));
    let n = sorted_t.len();
    let mut p: usize = 0;
    while p < periods.len()
        invariant
            h == entity_history@,
            st == sorted_t@,
            sv == sorted_v@,
            p <= periods@.len(),
            n == sorted_t@.len(),
            n == sorted_v@.len(),
            chunks@ == sensor_chunks(st, sv, periods@, p as int),
            forall|k: int| 0 <= k < n ==> (#[trigger] sorted_v@[k] matches Some(v) ==> is_reading(h, v)),
            forall|k: int| 0 <= k < chunks@.len() ==> (#[trigger] chunks@[k]).duration >= 1000,
            forall|k: int| 0 <= k < chunks@.len() ==> has_polarity(periods@, (#[trigger] chunks@[k]).desired_output),
            forall|k: int| 0 <= k < chunks@.len() ==> is_reading(h, (#[trigger] chunks@[k]).sensor_value),
        decreases periods@.len() - p,
    {
        let period_start = parse_timestamp(periods[p].start.as_str());
        let period_end = parse_timestamp(periods[p].end.as_str());
        let desired = periods[p].is_true_period;
        let time_points = inside_points(&sorted_t, period_start, period_end);
        let mut current_value = reading_at_start(&sorted_t, &sorted_v, period_start);
        proof {
            if let Some(k) = last_at_or_before(st, period_start, st.len() as int) {
                assert(0 <= k < st.len()) by {
                    lemma_last_at_or_before_range(st, period_start, st.len() as int);
                }
                assert(sv[k] matches Some(v) ==> is_reading(h, v));
            }
        }
        let ghost prefix = chunks@;
        let ghost tp = time_points@;
        let ghost init = current_value;
        let mut i: usize = 0;
        while i < time_points.len() - 1
            invariant
                h == entity_history@,
                st == sorted_t@,
                sv == sorted_v@,
                tp == time_points@,
                time_points@.len() >= 2,
                n == sorted_t@.len(),
                n == sorted_v@.len(),
                periods@[p as int].is_true_period == desired,
                p < periods@.len(),
                prefix + piece_chunks(tp, st, sv, 0, init, desired) == chunks@ + piece_chunks(tp, st, sv, i as int, current_value, desired),
                forall|q: int| 0 <= q < n ==> (#[trigger] sorted_v@[q] matches Some(v) ==> is_reading(h, v)),
                current_value matches Some(v) ==> is_reading(h, v),
                forall|q: int| 0 <= q < chunks@.len() ==> (#[trigger] chunks@[q]).duration >= 1000,
                forall|q: int| 0 <= q < chunks@.len() ==> has_polarity(periods@, (#[trigger] chunks@[q]).desired_output),
                forall|q: int| 0 <= q < chunks@.len() ==> is_reading(h, (#[trigger] chunks@[q]).sensor_value),
            decreases time_points@.len() - i,
        {
            let ghost before = chunks@;
            let ghost c0 = current_value;
            let duration = span_exec(time_points[i], time_points[i + 1]);
            let ghost mut cur2 = c0;
            if duration >= 1000 {
                if i > 0 {
                    let found = last_index_at_or_before(&sorted_t, time_points[i]);
                    proof {
                        lemma_last_at_or_before_range(st, tp[i as int], st.len() as int);
                        cur2 = match last_at_or_before(st, tp[i as int], st.len() as int) {
                            Some(q) => if sv[q] is Some { sv[q] } else { c0 },
                            None => c0,
                        };
                    }
                    if let Some(q) = found {
                        if let Some(v) = sorted_v[q] {
                            assert(sorted_v@[q as int] matches Some(v) ==> is_reading(h, v));
                            current_value = Some(v);
                        }
                    }
                }
                if let Some(value) = current_value {
                    chunks.push(SensorChunk { sensor_value: value, duration, desired_output: desired });
                    proof {
                        let last = chunks@.len() - 1;
                        assert(chunks@[last].desired_output == periods@[p as int].is_true_period);
                    }
                }
            }
            proof {
                if duration >= 1000 {
                    assert(current_value == cur2);
                }
                assert(piece_chunks(tp, st, sv, i as int, c0, desired) == (chunks@.subrange(before.len() as int, chunks@.len() as int))
                    + piece_chunks(tp, st, sv, i + 1, current_value, desired)) by {
                    assert(chunks@.subrange(before.len() as int, chunks@.len() as int) =~= if chunks@.len() > before.len() {
                        seq![chunks@[chunks@.len() - 1]]
                    } else {
                        Seq::<SensorChunk>::empty()
                    });
                }
                assert(chunks@ =~= before + chunks@.subrange(before.len() as int, chunks@.len() as int));
            }
            i = i + 1;
        }
        proof {
            assert(chunks@ + Seq::<SensorChunk>::empty() =~= chunks@);
            assert(sensor_chunks(st, sv, periods@, p + 1) == sensor_chunks(st, sv, periods@, p as int) + period_chunks(st, sv, periods@[p as int]));
        }
        p = p + 1;
    }
    proof {
        assert(is_stable_order(entry_times_spec(h), order@));
    }
    chunks
}

proof fn lemma_last_at_or_before_range(st: Seq<i64>, ps: i64, n: int)
    requires
        n <= st.len(),
    ensures
        last_at_or_before(st, ps, n) matches Some(k) ==> 0 <= k < n,
    decreases n,
{
    if n > 0 && st[n - 1] > ps {
        lemma_last_at_or_before_range(st, ps, n - 1);
    }
}

/// States that mean "no data".
pub open spec fn is_sentinel(s: Seq<char>) -> bool {
    s == "unavailable"@ || s == "unknown"@
}

/// Number of non-sentinel states among the first `n` entries.
pub open spec fn count_usable(h: Seq<HAHistoryEntry>, n: int) -> int
    decreases n,
{
    if n <= 0 {
        0
    } else {
        count_usable(h, n - 1) + if !is_sentinel(h[n - 1].state@) { 1int } else { 0 }
    }
}

/// Number of non-sentinel numeric states among the first `n` entries.
pub open spec fn count_numeric(h: Seq<HAHistoryEntry>, n: int) -> int
    decreases n,
{
    if n <= 0 {
        0
    } else {
        count_numeric(h, n - 1) + if !is_sentinel(h[n - 1].state@) && h[n - 1].numeric_state is Some { 1int } else { 0 }
    }
}

/// Number of entries sampled: at most the first ten.
pub open spec fn sample_size(h: Seq<HAHistoryEntry>) -> int {
    if h.len() < 10 { h.len() as int } else { 10 }
}

/// At least 70% of the usable states among the first ten are numbers, and
/// there is at least one usable state.
pub open spec fn numeric_spec(h: Seq<HAHistoryEntry>) -> bool {
    let n = sample_size(h);
    count_usable(h, n) > 0 && 10 * count_numeric(h, n) >= 7 * count_usable(h, n)
}

fn is_sentinel_state(state: &String) -> (r: bool)
    ensures
        r == is_sentinel(state@),
{
    let unavailable = String::from_str("unavailable");
    let unknown = String::from_str("unknown");
    proof {
        reveal_strlit("unavailable");
        reveal_strlit("unknown");
    }
    *state == unavailable || *state == unknown
}

/// Whether an entity is numeric, judged on its first ten entries.
pub fn is_numeric_entity(entity_history: &[HAHistoryEntry]) -> (r: bool)
    ensures
        r == numeric_spec(entity_history@),
{
    let sample: usize = if entity_history.len() < 10 { entity_history.len() } else { 10 };
    let mut usable: usize = 0;
    let mut numeric: usize = 0;
    let mut i: usize = 0;
    while i < sample
        invariant
            sample == sample_size(entity_history@),
            i <= sample,
            usable == count_usable(entity_history@, i as int),
            numeric == count_numeric(entity_history@, i as int),
            numeric <= usable <= i,
        decreases sample - i,
    {
        if !is_sentinel_state(&entity_history[i].state) {
            usable = usable + 1;
            if entity_history[i].numeric_state.is_some() {
                numeric = numeric + 1;
            }
        }
        i = i + 1;
    }
    usable > 0 && 10 * numeric >= 7 * usable
}

/// `lo` and `hi` are the smallest and largest values of the chunks.
pub open spec fn bounds_values(chunks: Seq<SensorChunk>, lo: i64, hi: i64) -> bool {
    &&& forall|k: int| 0 <= k < chunks.len() ==> lo <= (#[trigger] chunks[k]).sensor_value <= hi
    &&& exists|k: int| 0 <= k < chunks.len() && (#[trigger] chunks[k]).sensor_value == lo
    &&& exists|k: int| 0 <= k < chunks.len() && (#[trigger] chunks[k]).sensor_value == hi
}

/// Value/duration pairs of the chunks whose polarity is `desired`, in order.
pub open spec fn pairs_of(chunks: Seq<SensorChunk>, desired: bool) -> Seq<ValueDuration>
    decreases chunks.len(),
{
    if chunks.len() == 0 {
        Seq::empty()
    } else {
        let rest = pairs_of(chunks.drop_last(), desired);
        let c = chunks.last();
        if c.desired_output == desired {
            rest.push(ValueDuration { value: c.sensor_value, duration: c.duration })
        } else {
            rest
        }
    }
}

proof fn lemma_pairs_of(chunks: Seq<SensorChunk>, desired: bool, entity_history: Seq<HAHistoryEntry>)
    requires
        forall|k: int| 0 <= k < chunks.len() ==> (#[trigger] chunks[k]).duration >= 1000,
        forall|k: int| 0 <= k < chunks.len() ==> is_reading(entity_history, (#[trigger] chunks[k]).sensor_value),
    ensures
        forall|k: int| 0 <= k < pairs_of(chunks, desired).len() ==> (#[trigger] pairs_of(chunks, desired)[k]).duration >= 1000,
        forall|k: int| 0 <= k < pairs_of(chunks, desired).len() ==> is_reading(entity_history, (#[trigger] pairs_of(chunks, desired)[k]).value),
        forall|k: int| 0 <= k < pairs_of(chunks, desired).len() ==> exists|q: int| 0 <= q < chunks.len() && (#[trigger] chunks[q]).sensor_value == (#[trigger] pairs_of(chunks, desired)[k]).value,
    decreases chunks.len(),
{
    if chunks.len() > 0 {
        let d = chunks.drop_last();
        assert forall|k: int| 0 <= k < d.len() implies (#[trigger] d[k]).duration >= 1000 && is_reading(entity_history, d[k].sensor_value) by {
            assert(d[k] == chunks[k]);
        }
        lemma_pairs_of(d, desired, entity_history);
        let last = chunks.len() - 1;
        assert(chunks[last] == chunks.last());
        assert forall|k: int| 0 <= k < pairs_of(d, desired).len() implies exists|q: int| 0 <= q < chunks.len() && (#[trigger] chunks[q]).sensor_value == (#[trigger] pairs_of(d, desired)[k]).value by {
            let q = choose|q: int| 0 <= q < d.len() && (#[trigger] d[q]).sensor_value == pairs_of(d, desired)[k].value;
            assert(chunks[q] == d[q]);
        }
    }
}

/// Numeric statistics of an entity: its chunks split by polarity, with the
/// smallest and largest chunk value; `None` when no chunk remains.
pub fn analyze_numeric_states(entity_history: &[HAHistoryEntry], periods: &[TimePeriod]) -> (r: Option<NumericStateStats>)
    ensures
        exists|chunks: Seq<SensorChunk>| #[trigger] sensor_chunks_of(entity_history@, periods@, chunks) && {
            &&& (chunks.len() == 0 <==> r is None)
            &&& r matches Some(st) ==> {
                &&& st.true_chunks@ == pairs_of(chunks, true)
                &&& st.false_chunks@ == pairs_of(chunks, false)
                &&& bounds_values(chunks, st.min.unwrap(), st.max.unwrap())
            }
        },
        (entity_history@.len() == 0 || periods@.len() == 0) ==> r is None,
        r matches Some(st) ==> {
            &&& st.is_numeric
            &&& st.true_chunks@.len() + st.false_chunks@.len() > 0
            &&& forall|k: int| 0 <= k < st.true_chunks@.len() ==> (#[trigger] st.true_chunks@[k]).duration >= 1000
            &&& forall|k: int| 0 <= k < st.false_chunks@.len() ==> (#[trigger] st.false_chunks@[k]).duration >= 1000
            &&& forall|k: int| 0 <= k < st.true_chunks@.len() ==> is_reading(entity_history@, (#[trigger] st.true_chunks@[k]).value)
            &&& forall|k: int| 0 <= k < st.false_chunks@.len() ==> is_reading(entity_history@, (#[trigger] st.false_chunks@[k]).value)
            &&& st.true_chunks@.len() > 0 ==> has_polarity(periods@, true)
            &&& st.false_chunks@.len() > 0 ==> has_polarity(periods@, false)
            &&& st.min is Some && st.max is Some
            &&& forall|k: int| 0 <= k < st.true_chunks@.len() ==> st.min.unwrap() <= (#[trigger] st.true_chunks@[k]).value <= st.max.unwrap()
            &&& forall|k: int| 0 <= k < st.false_chunks@.len() ==> st.min.unwrap() <= (#[trigger] st.false_chunks@[k]).value <= st.max.unwrap()
        },
{
    let all_chunks = create_sensor_period_chunks(entity_history, periods);
    if all_chunks.len() == 0 {
        assert(sensor_chunks_of(entity_history@, periods@, all_chunks@));
        return None;
    }
    let mut true_chunks: Vec<ValueDuration> = Vec::new();
    let mut false_chunks: Vec<ValueDuration> = Vec::new();
    let mut min: i64 = all_chunks[0].sensor_value;
    let mut max: i64 = all_chunks[0].sensor_value;
    let mut i: usize = 0;
    while i < all_chunks.len()
        invariant
            i <= all_chunks@.len(),
            all_chunks@.len() > 0,
            true_chunks@ == pairs_of(all_chunks@.take(i as int), true),
            false_chunks@ == pairs_of(all_chunks@.take(i as int), false),
            forall|k: int| 0 <= k < i ==> min <= (#[trigger] all_chunks@[k]).sensor_value <= max,
            min <= all_chunks@[0].sensor_value <= max,
            exists|k: int| 0 <= k < all_chunks@.len() && (#[trigger] all_chunks@[k]).sensor_value == min,
            exists|k: int| 0 <= k < all_chunks@.len() && (#[trigger] all_chunks@[k]).sensor_value == max,
            true_chunks@.len() + false_chunks@.len() == i,
            true_chunks@.len() > 0 ==> has_polarity(periods@, true),
            false_chunks@.len() > 0 ==> has_polarity(periods@, false),
            forall|k: int| 0 <= k < all_chunks@.len() ==> has_polarity(periods@, (#[trigger] all_chunks@[k]).desired_output),
        decreases all_chunks@.len() - i,
    {
        let c = all_chunks[i];
        assert(all_chunks@.take(i as int + 1).drop_last() =~= all_chunks@.take(i as int));
        assert(has_polarity(periods@, all_chunks@[i as int].desired_output));
        if c.desired_output {
            true_chunks.push(ValueDuration { value: c.sensor_value, duration: c.duration });
        } else {
            false_chunks.push(ValueDuration { value: c.sensor_value, duration: c.duration });
        }
        assert(all_chunks@[i as int].sensor_value == c.sensor_value);
        if c.sensor_value < min {
            min = c.sensor_value;
        }
        if c.sensor_value > max {
            max = c.sensor_value;
        }
        i = i + 1;
    }
    proof {
        assert(all_chunks@.take(all_chunks@.len() as int) =~= all_chunks@);
        lemma_pairs_of(all_chunks@, true, entity_history@);
        lemma_pairs_of(all_chunks@, false, entity_history@);
        assert(bounds_values(all_chunks@, min, max));
        assert(sensor_chunks_of(entity_history@, periods@, all_chunks@));
    }
    Some(NumericStateStats { is_numeric: true, min: Some(min), max: Some(max), true_chunks, false_chunks })
}

/// Whether `s` is the state of some entry.
pub open spec fn is_entry_state(entity_history: Seq<HAHistoryEntry>, s: Seq<char>) -> bool {
    exists|j: int| 0 <= j < entity_history.len() && #[trigger] entity_history[j].state@ == s
}

/// Entry states in the order `order`.
pub open spec fn ordered_states(h: Seq<HAHistoryEntry>, order: Seq<usize>) -> Seq<Seq<char>> {
    Seq::new(order.len(), |k: int| h[order[k] as int].state@)
}

/// A state chunk as (state, duration, polarity).
pub open spec fn state_chunk_view(c: StateChunk) -> (Seq<char>, i64, bool) {
    (c.state@, c.duration, c.desired_output)
}

pub open spec fn state_chunk_views(s: Seq<StateChunk>) -> Seq<(Seq<char>, i64, bool)> {
    s.map_values(|c: StateChunk| state_chunk_view(c))
}

/// State chunks of the pieces from `i` on, as `piece_chunks` does for
/// readings: a later piece takes the state of the last entry at or before
/// its start.
pub open spec fn state_piece_chunks(
    tp: Seq<i64>,
    st: Seq<i64>,
    ss: Seq<Seq<char>>,
    i: int,
    cur: Option<Seq<char>>,
    pol: bool,
) -> Seq<(Seq<char>, i64, bool)>
    decreases tp.len() - i,
{
    if i < 0 || i + 1 >= tp.len() {
        Seq::empty()
    } else {
        let d = span(tp[i], tp[i + 1]);
        if d < 1000 {
            state_piece_chunks(tp, st, ss, i + 1, cur, pol)
        } else {
            let cur2 = if i > 0 {
                match last_at_or_before(st, tp[i], st.len() as int) {
                    Some(q) => Some(ss[q]),
                    None => cur,
                }
            } else {
                cur
            };
            (if cur2 is Some { seq![(cur2.unwrap(), d as i64, pol)] } else { Seq::empty() })
                + state_piece_chunks(tp, st, ss, i + 1, cur2, pol)
        }
    }
}

/// State in force at a period's start.
pub open spec fn start_state(st: Seq<i64>, ss: Seq<Seq<char>>, ps: i64) -> Option<Seq<char>> {
    match last_at_or_before(st, ps, st.len() as int) {
        Some(k) => Some(ss[k]),
        None => None,
    }
}

/// State chunks of the first `n` periods, period by period.
pub open spec fn state_chunks(st: Seq<i64>, ss: Seq<Seq<char>>, periods: Seq<TimePeriod>, n: int) -> Seq<(Seq<char>, i64, bool)>
    decreases n,
{
    if n <= 0 {
        Seq::empty()
    } else {
        let p = periods[n - 1];
        let ps = timestamp_of(p.start@);
        let pe = timestamp_of(p.end@);
        state_chunks(st, ss, periods, n - 1)
            + state_piece_chunks(time_points(st, ps, pe), st, ss, 0, start_state(st, ss, ps), p.is_true_period)
    }
}

/// What `create_state_period_chunks` returns, over the entries in stable
/// time order (that order is unique).
pub open spec fn state_chunks_of(h: Seq<HAHistoryEntry>, periods: Seq<TimePeriod>, r: Seq<StateChunk>) -> bool {
    if h.len() == 0 || periods.len() == 0 {
        r.len() == 0
    } else {
        exists|order: Seq<usize>| #[trigger] is_stable_order(entry_times_spec(h), order)
            && state_chunk_views(r) == state_chunks(ordered_times(h, order), ordered_states(h, order), periods, periods.len() as int)
    }
}

pub(crate) fn last_index_at_or_before(sorted_t: &Vec<i64>, ps: i64) -> (r: Option<usize>)
    ensures
        match last_at_or_before(sorted_t@, ps, sorted_t@.len() as int) {
            Some(k) => 0 <= k < sorted_t@.len() && r == Some(k as usize),
            None => r is None,
        },
        r matches Some(k) ==> k < sorted_t@.len() && last_at_or_before(sorted_t@, ps, sorted_t@.len() as int) == Some(k as int),
        r is None ==> last_at_or_before(sorted_t@, ps, sorted_t@.len() as int) is None,
{
    proof {
        lemma_last_at_or_before_range(sorted_t@, ps, sorted_t@.len() as int);
    }
    let mut k: usize = sorted_t.len();
    while k > 0
        invariant
            k <= sorted_t@.len(),
            last_at_or_before(sorted_t@, ps, sorted_t@.len() as int) == last_at_or_before(sorted_t@, ps, k as int),
        decreases k,
    {
        if sorted_t[k - 1] <= ps {
            return Some(k - 1);
        }
        k = k - 1;
    }
    None
}

/// The stable time order of the entries and their times in that order.
pub(crate) fn time_order(entity_history: &[HAHistoryEntry]) -> (r: (Vec<usize>, Vec<i64>))
    ensures
        is_stable_order(entry_times_spec(entity_history@), r.0@),
        r.1@ == ordered_times(entity_history@, r.0@),
        r.0@.len() == entity_history@.len(),
        forall|k: int| 0 <= k < r.0@.len() ==> #[trigger] r.0@[k] < entity_history@.len(),
{
    let ghost h = entity_history@;
    let times = entry_times(entity_history);
    assert(times@ =~= entry_times_spec(h));
    let order = history_order(&times);
    let mut sorted_t: Vec<i64> = Vec::new();
    let mut i: usize = 0;
    while i < order.len()
        invariant
            h == entity_history@,
            i <= order@.len(),
            order@.len() == times@.len(),
            times@.len() == h.len(),
            forall|k: int| 0 <= k < times@.len() ==> #[trigger] times@[k] == timestamp_of(h[k].last_changed@),
            forall|k: int| 0 <= k < order@.len() ==> #[trigger] order@[k] < times@.len(),
            sorted_t@.len() == i,
            forall|k: int| 0 <= k < i ==> #[trigger] sorted_t@[k] == timestamp_of(h[order@[k] as int].last_changed@),
        decreases order@.len() - i,
    {
        sorted_t.push(times[order[i]]);
        i = i + 1;
    }
    assert(sorted_t@ =~= ordered_times(h, order@));
    (order, sorted_t)
}

/// Splits each period, on its own, into pieces of constant state, as
/// `create_sensor_period_chunks` does for readings: a period starts with the
/// last state at or before its start (no piece where there is none), each
/// entry strictly inside it starts a new piece, and pieces shorter than a
/// second are dropped.
pub fn create_state_period_chunks(entity_history: &[HAHistoryEntry], periods: &[TimePeriod]) -> (r: Vec<StateChunk>)
    ensures
        state_chunks_of(entity_history@, periods@, r@),
        (entity_history@.len() == 0 || periods@.len() == 0) ==> r@.len() == 0,
        forall|k: int| 0 <= k < r@.len() ==> (#[trigger] r@[k]).duration >= 1000,
        forall|k: int| 0 <= k < r@.len() ==> has_polarity(periods@, (#[trigger] r@[k]).desired_output),
        forall|k: int| 0 <= k < r@.len() ==> is_entry_state(entity_history@, (#[trigger] r@[k]).state@),
{
    let mut chunks: Vec<StateChunk> = Vec::new();
    if entity_history.len() == 0 || periods.len() == 0 {
        return chunks;
    }
    let ghost h = entity_history@;
    let times = entry_times(entity_history);
    assert(times@ =~= entry_times_spec(h));
    let order = history_order(&times);
    let mut sorted_t: Vec<i64> = Vec::new();
    let mut i: usize = 0;
    while i < order.len()
        invariant
            h == entity_history@,
            i <= order@.len(),
            order@.len() == times@.len(),
            times@.len() == h.len(),
            forall|k: int| 0 <= k < times@.len() ==> #[trigger] times@[k] == timestamp_of(h[k].last_changed@),
            forall|k: int| 0 <= k < order@.len() ==> #[trigger] order@[k] < times@.len(),
            sorted_t@.len() == i,
            forall|k: int| 0 <= k < i ==> #[trigger] sorted_t@[k] == timestamp_of(h[order@[k] as int].last_changed@),
        decreases order@.len() - i,
    {
        sorted_t.push(times[order[i]]);
        i = i + 1;
    }
    let ghost st = sorted_t@;
    let ghost ss = ordered_states(h, order@);
    assert(st =~= ordered_times(h, order@));
    let n = sorted_t.len();
    let mut p: usize = 0;
    while p < periods.len()
        invariant
            h == entity_history@,
            st == sorted_t@,
            ss == ordered_states(h, order@),
            p <= periods@.len(),
            n == sorted_t@.len(),
            n == order@.len(),
            order@.len() == h.len(),
            forall|k: int| 0 <= k < order@.len() ==> #[trigger] order@[k] < h.len(),
            state_chunk_views(chunks@) == state_chunks(st, ss, periods@, p as int),
            forall|k: int| 0 <= k < chunks@.len() ==> (#[trigger] chunks@[k]).duration >= 1000,
            forall|k: int| 0 <= k < chunks@.len() ==> has_polarity(periods@, (#[trigger] chunks@[k]).desired_output),
            forall|k: int| 0 <= k < chunks@.len() ==> is_entry_state(h, (#[trigger] chunks@[k]).state@),
        decreases periods@.len() - p,
    {
        let period_start = parse_timestamp(periods[p].start.as_str());
        let period_end = parse_timestamp(periods[p].end.as_str());
        let desired = periods[p].is_true_period;
        let time_points = inside_points(&sorted_t, period_start, period_end);
        let mut current: Option<usize> = match last_index_at_or_before(&sorted_t, period_start) {
            Some(k) => Some(order[k]),
            None => None,
        };
        let ghost prefix = state_chunk_views(chunks@);
        let ghost tp = time_points@;
        let ghost init = start_state(st, ss, period_start);
        proof {
            lemma_last_at_or_before_range(st, period_start, st.len() as int);
            if let Some(k) = last_at_or_before(st, period_start, st.len() as int) {
                assert(ss[k] == h[order@[k] as int].state@);
            }
        }
        let ghost mut cv: Option<Seq<char>> = init;
        let mut i: usize = 0;
        while i < time_points.len() - 1
            invariant
                h == entity_history@,
                st == sorted_t@,
                ss == ordered_states(h, order@),
                tp == time_points@,
                time_points@.len() >= 2,
                n == sorted_t@.len(),
                n == order@.len(),
                order@.len() == h.len(),
                forall|q: int| 0 <= q < order@.len() ==> #[trigger] order@[q] < h.len(),
                periods@[p as int].is_true_period == desired,
                p < periods@.len(),
                current matches Some(c) ==> c < h.len() && cv == Some(h[c as int].state@),
                current is None ==> cv is None,
                prefix + state_piece_chunks(tp, st, ss, 0, init, desired) == state_chunk_views(chunks@)
                    + state_piece_chunks(tp, st, ss, i as int, cv, desired),
                forall|q: int| 0 <= q < chunks@.len() ==> (#[trigger] chunks@[q]).duration >= 1000,
                forall|q: int| 0 <= q < chunks@.len() ==> has_polarity(periods@, (#[trigger] chunks@[q]).desired_output),
                forall|q: int| 0 <= q < chunks@.len() ==> is_entry_state(h, (#[trigger] chunks@[q]).state@),
            decreases time_points@.len() - i,
        {
            let ghost before = chunks@;
            let ghost c0 = cv;
            let duration = span_exec(time_points[i], time_points[i + 1]);
            if duration >= 1000 {
                if i > 0 {
                    let found = last_index_at_or_before(&sorted_t, time_points[i]);
                    proof {
                        lemma_last_at_or_before_range(st, tp[i as int], st.len() as int);
                    }
                    if let Some(q) = found {
                        current = Some(order[q]);
                        proof {
                            cv = Some(ss[q as int]);
                        }
                    }
                }
                if let Some(c) = current {
                    assert(is_entry_state(h, h[c as int].state@));
                    chunks.push(StateChunk { state: entity_history[c].state.clone(), duration, desired_output: desired });
                    proof {
                        let last = chunks@.len() - 1;
                        assert(chunks@[last].desired_output == periods@[p as int].is_true_period);
                    }
                }
            }
            proof {
                let added = state_chunk_views(chunks@).subrange(before.len() as int, chunks@.len() as int);
                assert(added =~= if chunks@.len() > before.len() {
                    seq![state_chunk_view(chunks@[chunks@.len() - 1])]
                } else {
                    Seq::<(Seq<char>, i64, bool)>::empty()
                });
                assert(state_piece_chunks(tp, st, ss, i as int, c0, desired) == added + state_piece_chunks(tp, st, ss, i + 1, cv, desired));
                assert(state_chunk_views(chunks@) =~= state_chunk_views(before) + added);
            }
            i = i + 1;
        }
        proof {
            assert(state_chunk_views(chunks@) + Seq::<(Seq<char>, i64, bool)>::empty() =~= state_chunk_views(chunks@));
        }
        p = p + 1;
    }
    proof {
        assert(is_stable_order(entry_times_spec(h), order@));
    }
    chunks
}

/// Sum of the durations of the chunks of state `s` and polarity `pol`.
pub open spec fn state_duration(chunks: Seq<StateChunk>, s: Seq<char>, pol: bool) -> int
    decreases chunks.len(),
{
    if chunks.len() == 0 {
        0
    } else {
        state_duration(chunks.drop_last(), s, pol) + if chunks.last().state@ == s && chunks.last().desired_output == pol {
            chunks.last().duration as int
        } else {
            0
        }
    }
}

/// `x` capped at `i64::MAX`.
pub open spec fn saturate(x: int) -> int {
    if x > i64::MAX { i64::MAX as int } else { x }
}

/// Total duration of chunks of one state and polarity, saturated at
/// `i64::MAX`.
fn state_total(chunks: &Vec<StateChunk>, state: &String, pol: bool) -> (r: i64)
    requires
        forall|k: int| 0 <= k < chunks@.len() ==> #[trigger] chunks@[k].duration >= 1000,
    ensures
        r == saturate(state_duration(chunks@, state@, pol)),
{
    let ghost s = chunks@;
    let mut total: i64 = 0;
    let mut i: usize = 0;
    while i < chunks.len()
        invariant
            s == chunks@,
            forall|k: int| 0 <= k < s.len() ==> #[trigger] s[k].duration >= 1000,
            i <= s.len(),
            total == saturate(state_duration(s.take(i as int), state@, pol)),
            state_duration(s.take(i as int), state@, pol) >= 0,
        decreases s.len() - i,
    {
        proof {
            assert(s.take(i as int + 1).drop_last() =~= s.take(i as int));
            assert(s.take(i as int + 1).last() == s[i as int]);
        }
        if chunks[i].state == *state && chunks[i].desired_output == pol {
            let d = chunks[i].duration;
            if total > i64::MAX - d {
                total = i64::MAX;
            } else {
                total = total + d;
            }
        }
        i = i + 1;
    }
    proof {
        assert(s.take(s.len() as int) =~= s);
    }
    total
}

/// Chunks of at least a second, each of the polarity of some period.
pub open spec fn chunks_from(chunks: Seq<StateChunk>, periods: Seq<TimePeriod>) -> bool {
    &&& forall|k: int| 0 <= k < chunks.len() ==> (#[trigger] chunks[k]).duration >= 1000
    &&& forall|k: int| 0 <= k < chunks.len() ==> has_polarity(periods, (#[trigger] chunks[k]).desired_output)
}

/// Some row is about state `s`.
pub open spec fn state_listed(rows: Seq<StateDurationStats>, s: Seq<char>) -> bool {
    exists|i: int| 0 <= i < rows.len() && (#[trigger] rows[i]).state@ == s
}

/// `rows` hold, for every state of `chunks`, its saturated TRUE and FALSE
/// totals.
pub open spec fn summarizes(rows: Seq<StateDurationStats>, chunks: Seq<StateChunk>) -> bool {
    &&& forall|i: int| 0 <= i < rows.len() ==> (#[trigger] rows[i]).true_duration == saturate(state_duration(chunks, rows[i].state@, true))
    &&& forall|i: int| 0 <= i < rows.len() ==> (#[trigger] rows[i]).false_duration == saturate(state_duration(chunks, rows[i].state@, false))
    &&& forall|k: int| 0 <= k < chunks.len() ==> state_listed(rows, (#[trigger] chunks[k]).state@)
    &&& forall|i: int| 0 <= i < rows.len() ==> state_has_chunk(chunks, (#[trigger] rows[i]).state@)
}

/// Some chunk has state `s`.
pub open spec fn state_has_chunk(chunks: Seq<StateChunk>, s: Seq<char>) -> bool {
    exists|k: int| 0 <= k < chunks.len() && (#[trigger] chunks[k]).state@ == s
}

/// Total TRUE and FALSE duration per state over the per-period state
/// chunks (each total saturated at `i64::MAX`), one row per state in order
/// of its first chunk.
pub fn analyze_state_chunks(entity_history: &[HAHistoryEntry], periods: &[TimePeriod]) -> (r: Vec<StateDurationStats>)
    ensures
        forall|i: int, j: int| 0 <= i < j < r@.len() ==> r@[i].state@ != r@[j].state@,
        forall|i: int| 0 <= i < r@.len() ==> is_entry_state(entity_history@, (#[trigger] r@[i]).state@),
        exists|chunks: Seq<StateChunk>| #[trigger] summarizes(r@, chunks) && chunks_from(chunks, periods@)
            && state_chunks_of(entity_history@, periods@, chunks),
{
    let chunks = create_state_period_chunks(entity_history, periods);
    let mut rows: Vec<StateDurationStats> = Vec::new();
    let mut k: usize = 0;
    while k < chunks.len()
        invariant
            k <= chunks@.len(),
            forall|q: int| 0 <= q < chunks@.len() ==> (#[trigger] chunks@[q]).duration >= 1000,
            forall|q: int| 0 <= q < chunks@.len() ==> is_entry_state(entity_history@, (#[trigger] chunks@[q]).state@),
            forall|i: int, j: int| 0 <= i < j < rows@.len() ==> rows@[i].state@ != rows@[j].state@,
            forall|i: int| 0 <= i < rows@.len() ==> is_entry_state(entity_history@, (#[trigger] rows@[i]).state@),
            forall|i: int| 0 <= i < rows@.len() ==> state_has_chunk(chunks@, (#[trigger] rows@[i]).state@),
            forall|i: int| 0 <= i < rows@.len() ==> (#[trigger] rows@[i]).true_duration == saturate(state_duration(chunks@, rows@[i].state@, true)),
            forall|i: int| 0 <= i < rows@.len() ==> (#[trigger] rows@[i]).false_duration == saturate(state_duration(chunks@, rows@[i].state@, false)),
            forall|q: int| 0 <= q < k ==> state_listed(rows@, (#[trigger] chunks@[q]).state@),
        decreases chunks@.len() - k,
    {
        let mut found = false;
        let mut i: usize = 0;
        while i < rows.len() && !found
            invariant
                k < chunks@.len(),
                i <= rows@.len(),
                forall|q: int| 0 <= q < k ==> state_listed(rows@, (#[trigger] chunks@[q]).state@),
                found ==> exists|m: int| 0 <= m < rows@.len() && (#[trigger] rows@[m]).state@ == chunks@[k as int].state@,
                !found ==> forall|m: int| 0 <= m < i ==> (#[trigger] rows@[m]).state@ != chunks@[k as int].state@,
            decreases rows@.len() - i,
        {
            if rows[i].state == chunks[k].state {
                found = true;
                assert(rows@[i as int].state@ == chunks@[k as int].state@);
            }
            i = i + 1;
        }
        if !found {
            let t = state_total(&chunks, &chunks[k].state, true);
            let f = state_total(&chunks, &chunks[k].state, false);
            let ghost old_rows = rows@;
            rows.push(StateDurationStats { state: chunks[k].state.clone(), true_duration: t, false_duration: f });
            proof {
                let last = rows@.len() - 1;
                assert(rows@[last].state@ == chunks@[k as int].state@);
                assert forall|i: int| 0 <= i < rows@.len() implies state_has_chunk(chunks@, (#[trigger] rows@[i]).state@) by {
                    if i < last {
                        assert(rows@[i] == old_rows[i]);
                    } else {
                        assert(chunks@[k as int].state@ == rows@[i].state@);
                    }
                }
                assert forall|i: int, j: int| 0 <= i < j < rows@.len() implies rows@[i].state@ != rows@[j].state@ by {
                    assert(rows@[i] == old_rows[i]);
                    if j < last {
                        assert(rows@[j] == old_rows[j]);
                    }
                }
                assert forall|q: int| 0 <= q < k + 1 implies state_listed(rows@, (#[trigger] chunks@[q]).state@) by {
                    if q < k {
                        let i = choose|i: int| 0 <= i < old_rows.len() && (#[trigger] old_rows[i]).state@ == chunks@[q].state@;
                        assert(rows@[i] == old_rows[i]);
                    } else {
                        assert(rows@[last].state@ == chunks@[q].state@);
                    }
                }
            }
        }
        k = k + 1;
    }
    proof {
        assert(summarizes(rows@, chunks@));
        assert(chunks_from(chunks@, periods@));
    }
    rows
}

} // verus!
