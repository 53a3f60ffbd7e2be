use vstd::prelude::*;
use vstd::string::*;
use crate::text::{fixed2, fixed2_text};
use crate::sensor_analysis::{
    entry_times_spec, history_order, is_stable_order, last_at_or_before, last_index_at_or_before, ordered_states, ordered_times, parse_timestamp,
    start_state, time_order, timestamp_of,
};
use crate::types::{HAHistoryEntry, StateAnalysis, StateSegment, TimePeriod, TimelineEntry, TimelineEntryType};

verus! {

/// A timeline entry as (time, kind, state, reading, polarity).
pub type EventView = (i64, TimelineEntryType, Option<Seq<char>>, Option<i64>, Option<bool>);

/// A segment as (start, end, state, reading, TRUE-tagged, period start).
pub type SegmentView = (i64, i64, Seq<char>, Option<i64>, bool, i64);

/// View of a timeline entry.
pub open spec fn event_view(e: TimelineEntry) -> EventView {
    (e.time, e.entry_type, match e.state { Some(s) => Some(s@), None => None }, e.value, e.is_true_period)
}

/// View of a segment.
pub open spec fn segment_view(s: StateSegment) -> SegmentView {
    (s.start, s.end, s.state@, s.value, s.is_true_period, s.period_start)
}

/// Views of a list of segments.
pub open spec fn segment_views(s: Seq<StateSegment>) -> Seq<SegmentView> {
    s.map_values(|x: StateSegment| segment_view(x))
}

/// The merged stream in input order: one state change per entry, then the
/// start and the end of each period.
pub open spec fn merged_events(h: Seq<HAHistoryEntry>, periods: Seq<TimePeriod>) -> Seq<EventView> {
    Seq::new(h.len(), |i: int| (timestamp_of(h[i].last_changed@), TimelineEntryType::StateChange, Some(h[i].state@), h[i].numeric_state, None))
    + Seq::new(2 * periods.len(), |k: int| if k % 2 == 0 {
        (timestamp_of(periods[k / 2].start@), TimelineEntryType::PeriodStart, None, None, Some(periods[k / 2].is_true_period))
    } else {
        (timestamp_of(periods[k / 2].end@), TimelineEntryType::PeriodEnd, None, None, Some(periods[k / 2].is_true_period))
    })
}

/// Times of a stream of events.
pub open spec fn event_times(ev: Seq<EventView>) -> Seq<i64> {
    ev.map_values(|e: EventView| e.0)
}

/// Segments of the sweep from position `i` of `order`, with current state
/// change `cur`, the TRUE and FALSE activity flags, and the start times of
/// the latest TRUE and FALSE periods. A segment shorter than a second is
/// not emitted.
pub open spec fn sweep(
    ev: Seq<EventView>,
    order: Seq<usize>,
    i: int,
    cur: Option<usize>,
    ta: bool,
    fa: bool,
    ts: i64,
    fs: i64,
) -> Seq<SegmentView>
    decreases order.len() - i,
{
    if i < 0 || i >= order.len() {
        Seq::empty()
    } else {
        let e = ev[order[i] as int];
        let cur2 = if e.1 == TimelineEntryType::StateChange { Some(order[i]) } else { cur };
        let ta2 = if e.4 == Some(true) && e.1 == TimelineEntryType::PeriodStart { true }
            else if e.4 == Some(true) && e.1 == TimelineEntryType::PeriodEnd { false } else { ta };
        let fa2 = if e.4 == Some(false) && e.1 == TimelineEntryType::PeriodStart { true }
            else if e.4 == Some(false) && e.1 == TimelineEntryType::PeriodEnd { false } else { fa };
        let ts2 = if e.4 == Some(true) && e.1 == TimelineEntryType::PeriodStart { e.0 } else { ts };
        let fs2 = if e.4 == Some(false) && e.1 == TimelineEntryType::PeriodStart { e.0 } else { fs };
        let emit = cur2 is Some && i + 1 < order.len() && (ta2 || fa2) && ev[cur2.unwrap() as int].2 is Some
            && ev[order[i + 1] as int].0 as int - e.0 as int >= 1000;
        let seg: SegmentView = (
            e.0,
            ev[order[i + 1] as int].0,
            ev[cur2.unwrap() as int].2.unwrap(),
            ev[cur2.unwrap() as int].3,
            ta2,
            if ta2 { ts2 } else { fs2 },
        );
        (if emit { seq![seg] } else { Seq::empty() }) + sweep(ev, order, i + 1, cur2, ta2, fa2, ts2, fs2)
    }
}

/// The unified segments: the sweep of the merged stream in stable time
/// order (that order is unique).
pub open spec fn unified_segments(h: Seq<HAHistoryEntry>, periods: Seq<TimePeriod>, segs: Seq<StateSegment>) -> bool {
    exists|order: Seq<usize>| #[trigger] is_stable_order(event_times(merged_events(h, periods)), order)
        && segment_views(segs) == sweep(merged_events(h, periods), order, 0, None, false, false, 0, 0)
}

/// `t` is the parsed start of some period of polarity `pol`.
pub open spec fn starts_period(periods: Seq<TimePeriod>, pol: bool, t: i64) -> bool {
    exists|p: int| 0 <= p < periods.len() && #[trigger] periods[p].is_true_period == pol && timestamp_of(periods[p].start@) == t
}

/// Parsed starts of the periods of polarity `pol`.
pub open spec fn period_start_set(periods: Seq<TimePeriod>, pol: bool) -> Set<i64>
    decreases periods.len(),
{
    if periods.len() == 0 {
        Set::empty()
    } else if periods.last().is_true_period == pol {
        period_start_set(periods.drop_last(), pol).insert(timestamp_of(periods.last().start@))
    } else {
        period_start_set(periods.drop_last(), pol)
    }
}

/// The starts of the periods of one polarity are finitely many, no more
/// than those periods, and hold exactly the starts of such periods.
pub proof fn lemma_period_start_set(periods: Seq<TimePeriod>, pol: bool)
    ensures
        period_start_set(periods, pol).finite(),
        period_start_set(periods, pol).len() <= crate::count_polarity(periods, pol),
        forall|t: i64| starts_period(periods, pol, t) ==> #[trigger] period_start_set(periods, pol).contains(t),
    decreases periods.len(),
{
    if periods.len() > 0 {
        let d = periods.drop_last();
        lemma_period_start_set(d, pol);
        assert forall|t: i64| starts_period(periods, pol, t) implies #[trigger] period_start_set(periods, pol).contains(t) by {
            let p = choose|p: int| 0 <= p < periods.len() && #[trigger] periods[p].is_true_period == pol && timestamp_of(periods[p].start@) == t;
            if p < periods.len() - 1 {
                assert(d[p] == periods[p]);
                assert(starts_period(d, pol, t));
            }
        }
    }
}

/// Occurrences of a state over segments keyed by period starts are at most
/// the periods of that polarity.
pub proof fn lemma_occurrences_bounded(segs: Seq<StateSegment>, periods: Seq<TimePeriod>, s: Seq<char>, pol: bool)
    requires
        forall|k: int| 0 <= k < segs.len() ==> starts_period(periods, (#[trigger] segs[k]).is_true_period, segs[k].period_start),
    ensures
        occurrence_starts(segs, s, pol).len() <= crate::count_polarity(periods, pol),
{
    lemma_period_start_set(periods, pol);
    assert(occurrence_starts(segs, s, pol).subset_of(period_start_set(periods, pol))) by {
        assert forall|t: i64| occurrence_starts(segs, s, pol).contains(t) implies period_start_set(periods, pol).contains(t) by {
            let k = choose|k: int| 0 <= k < segs.len() && #[trigger] segs[k].period_start == t && segs[k].state@ == s
                && segs[k].is_true_period == pol && counted(segs[k]);
            assert(starts_period(periods, segs[k].is_true_period, segs[k].period_start));
        }
    }
    vstd::set_lib::lemma_len_subset(occurrence_starts(segs, s, pol), period_start_set(periods, pol));
}

/// State changes and period bounds, in input order: the entries first, then
/// each period's start and end.
fn timeline_entries(entity_history: &[HAHistoryEntry], periods: &[TimePeriod]) -> (r: Vec<TimelineEntry>)
    ensures
        r@.map_values(|e: TimelineEntry| event_view(e)) == merged_events(entity_history@, periods@),
{
    let ghost h = entity_history@;
    let ghost m = merged_events(entity_history@, periods@);
    let mut timeline: Vec<TimelineEntry> = Vec::new();
    let mut i: usize = 0;
    while i < entity_history.len()
        invariant
            h == entity_history@,
            m == merged_events(h, periods@),
            i <= h.len(),
            timeline@.len() == i,
            forall|k: int| 0 <= k < i ==> event_view(#[trigger] timeline@[k]) == m[k],
        decreases h.len() - i,
    {
        let time = parse_timestamp(entity_history[i].last_changed.as_str());
        let state = entity_history[i].state.clone();
        timeline.push(TimelineEntry {
            time,
            entry_type: TimelineEntryType::StateChange,
            state: Some(state),
            value: entity_history[i].numeric_state,
            is_true_period: None,
        });
        proof {
            assert(event_view(timeline@[i as int]) == m[i as int]);
        }
        i = i + 1;
    }
    let n = entity_history.len();
    let mut p: usize = 0;
    while p < periods.len()
        invariant
            h == entity_history@,
            m == merged_events(h, periods@),
            n == h.len(),
            p <= periods@.len(),
            timeline@.len() == n + 2 * p,
            forall|k: int| 0 <= k < n + 2 * p ==> event_view(#[trigger] timeline@[k]) == m[k],
        decreases periods@.len() - p,
    {
        timeline.push(TimelineEntry {
            time: parse_timestamp(periods[p].start.as_str()),
            entry_type: TimelineEntryType::PeriodStart,
            state: None,
            value: None,
            is_true_period: Some(periods[p].is_true_period),
        });
        timeline.push(TimelineEntry {
            time: parse_timestamp(periods[p].end.as_str()),
            entry_type: TimelineEntryType::PeriodEnd,
            state: None,
            value: None,
            is_true_period: Some(periods[p].is_true_period),
        });
        proof {
            let k0 = n + 2 * p;
            assert((2 * p) % 2 == 0 && (2 * p) / 2 == p) by (nonlinear_arith);
            assert((2 * p + 1) % 2 == 1 && (2 * p + 1) / 2 == p) by (nonlinear_arith);
            assert(event_view(timeline@[k0 as int]) == m[k0 as int]);
            assert(event_view(timeline@[k0 + 1]) == m[k0 + 1]);
        }
        p = p + 1;
    }
    assert(timeline@.map_values(|e: TimelineEntry| event_view(e)) =~= m);
    timeline
}

/// Merges state changes and period bounds into one stream ordered by time
/// (ties in input order) and sweeps it, tracking the current state and which
/// polarities are active. Between consecutive points, while a state is known
/// and a period is active, it emits a segment tagged TRUE when a TRUE period
/// is active, unless the segment is shorter than a second.
pub fn create_unified_timeline(entity_history: &[HAHistoryEntry], periods: &[TimePeriod]) -> (r: Vec<StateSegment>)
    ensures
        unified_segments(entity_history@, periods@, r@),
        forall|k: int| 0 <= k < r@.len() ==> (#[trigger] r@[k]).end as int - r@[k].start as int >= 1000,
        forall|k: int| 0 <= k < r@.len() ==> starts_period(periods@, (#[trigger] r@[k]).is_true_period, r@[k].period_start),
{
    let timeline = timeline_entries(entity_history, periods);
    let ghost ev = merged_events(entity_history@, periods@);
    assert(forall|k: int| 0 <= k < timeline@.len() ==> event_view(#[trigger] timeline@[k]) == ev[k]) by {
        assert forall|k: int| 0 <= k < timeline@.len() implies event_view(#[trigger] timeline@[k]) == ev[k] by {
            assert(timeline@.map_values(|e: TimelineEntry| event_view(e))[k] == event_view(timeline@[k]));
        }
    }
    let mut times: Vec<i64> = Vec::new();
    let mut i: usize = 0;
    while i < timeline.len()
        invariant
            i <= timeline@.len(),
            times@.len() == i,
            forall|k: int| 0 <= k < i ==> #[trigger] times@[k] == timeline@[k].time,
        decreases timeline@.len() - i,
    {
        times.push(timeline[i].time);
        i = i + 1;
    }
    assert(times@ =~= event_times(ev)) by {
        assert(ev.len() == timeline@.len());
        assert forall|k: int| 0 <= k < times@.len() implies times@[k] == event_times(ev)[k] by {
            assert(event_view(timeline@[k]) == ev[k]);
        }
    }
    let order = history_order(&times);
    let mut segments: Vec<StateSegment> = Vec::new();
    let mut current: Option<usize> = None;
    let mut true_active = false;
    let mut false_active = false;
    let mut true_start: i64 = 0;
    let mut false_start: i64 = 0;
    let mut i: usize = 0;
    while i < order.len()
        invariant
            i <= order@.len(),
            is_stable_order(event_times(ev), order@),
            times@ == event_times(ev),
            ev.len() == timeline@.len(),
            forall|k: int| 0 <= k < timeline@.len() ==> event_view(#[trigger] timeline@[k]) == ev[k],
            current matches Some(c) ==> c < timeline@.len(),
            sweep(ev, order@, 0, None, false, false, 0, 0) == segment_views(segments@)
                + sweep(ev, order@, i as int, current, true_active, false_active, true_start, false_start),
            forall|k: int| 0 <= k < segments@.len() ==> (#[trigger] segments@[k]).end as int - segments@[k].start as int >= 1000,
            forall|k: int| 0 <= k < segments@.len() ==> starts_period(periods@, (#[trigger] segments@[k]).is_true_period, segments@[k].period_start),
            true_active ==> starts_period(periods@, true, true_start),
            false_active ==> starts_period(periods@, false, false_start),
            ev == merged_events(entity_history@, periods@),
        decreases order@.len() - i,
    {
        let e = order[i];
        let ghost before = segment_views(segments@);
        let ghost c0 = current;
        let ghost t0 = true_active;
        let ghost f0 = false_active;
        let ghost ts0 = true_start;
        let ghost fs0 = false_start;
        assert(event_view(timeline@[e as int]) == ev[e as int]);
        match timeline[e].entry_type {
            TimelineEntryType::StateChange => {
                current = Some(e);
            },
            TimelineEntryType::PeriodStart => {
                proof {
                    let nh = entity_history@.len() as int;
                    if (e as int) < nh {
                        assert(ev[e as int].1 == TimelineEntryType::StateChange);
                    }
                    let k = e as int - nh;
                    if k % 2 == 1 {
                        assert(ev[e as int].1 == TimelineEntryType::PeriodEnd);
                    }
                    assert(k % 2 == 0);
                    let pp = k / 2;
                    assert(ev[e as int] == (timestamp_of(periods@[pp].start@), TimelineEntryType::PeriodStart, None::<Seq<char>>, None::<i64>, Some(periods@[pp].is_true_period)));
                    assert(starts_period(periods@, periods@[pp].is_true_period, timestamp_of(periods@[pp].start@)));
                }
                if let Some(is_true) = timeline[e].is_true_period {
                    if is_true {
                        true_active = true;
                        true_start = timeline[e].time;
                    } else {
                        false_active = true;
                        false_start = timeline[e].time;
                    }
                }
            },
            TimelineEntryType::PeriodEnd => {
                if let Some(is_true) = timeline[e].is_true_period {
                    if is_true {
                        true_active = false;
                    } else {
                        false_active = false;
                    }
                }
            },
        }
        let ghost emitted: Seq<SegmentView> = Seq::empty();
        if let Some(c) = current {
            if i + 1 < order.len() && (true_active || false_active)
                && (timeline[order[i + 1]].time as i128) - (timeline[e].time as i128) >= 1000 {
                let next = order[i + 1];
                assert(event_view(timeline@[c as int]) == ev[c as int]);
                assert(event_view(timeline@[next as int]) == ev[next as int]);
                if let Some(state) = &timeline[c].state {
                    segments.push(StateSegment {
                        start: timeline[e].time,
                        end: timeline[next].time,
                        state: state.clone(),
                        value: timeline[c].value,
                        is_true_period: true_active,
                        period_start: if true_active { true_start } else { false_start },
                    });
                    proof {
                        emitted = seq![segment_view(segments@[segments@.len() - 1])];
                    }
                }
            }
        }
        proof {
            assert(segment_views(segments@) =~= before + emitted);
            assert(sweep(ev, order@, i as int, c0, t0, f0, ts0, fs0)
                == emitted + sweep(ev, order@, i + 1, current, true_active, false_active, true_start, false_start));
            assert(before + sweep(ev, order@, i as int, c0, t0, f0, ts0, fs0) =~= segment_views(segments@)
                + sweep(ev, order@, i + 1, current, true_active, false_active, true_start, false_start));
        }
        i = i + 1;
    }
    proof {
        assert(segment_views(segments@) + Seq::<SegmentView>::empty() =~= segment_views(segments@));
        assert(is_stable_order(event_times(merged_events(entity_history@, periods@)), order@));
    }
    segments
}

/// A segment long enough to count: at least one second.
pub open spec fn counted(seg: StateSegment) -> bool {
    seg.end as int - seg.start as int >= 1000
}

/// Period starts of the counted segments of one state and polarity: each
/// identifies one period occurrence.
pub open spec fn occurrence_starts(segs: Seq<StateSegment>, s: Seq<char>, pol: bool) -> Set<i64> {
    Set::new(|t: i64| exists|k: int| 0 <= k < segs.len() && #[trigger] segs[k].period_start == t && segs[k].state@ == s
        && segs[k].is_true_period == pol && counted(segs[k]))
}

/// Some segment of at least a second has state `s`.
pub open spec fn has_counted_segment(segs: Seq<StateSegment>, s: Seq<char>) -> bool {
    exists|k: int| 0 <= k < segs.len() && (#[trigger] segs[k]).state@ == s && counted(segs[k])
}

fn push_unique(v: &mut Vec<i64>, x: i64)
    requires
        old(v)@.no_duplicates(),
    ensures
        final(v)@.no_duplicates(),
        forall|y: i64| #[trigger] final(v)@.contains(y) <==> (old(v)@.contains(y) || y == x),
{
    let mut i: usize = 0;
    while i < v.len()
        invariant
            v@ == old(v)@,
            v@.no_duplicates(),
            i <= v@.len(),
            forall|k: int| 0 <= k < i ==> v@[k] != x,
        decreases v@.len() - i,
    {
        if v[i] == x {
            return;
        }
        i = i + 1;
    }
    let ghost old_v = v@;
    v.push(x);
    proof {
        assert forall|y: i64| #[trigger] v@.contains(y) <==> (old_v.contains(y) || y == x) by {
            if old_v.contains(y) {
                let k = choose|k: int| 0 <= k < old_v.len() && old_v[k] == y;
                assert(v@[k] == y);
            }
            if y == x {
                assert(v@[old_v.len() as int] == x);
            }
        }
    }
}

fn is_counted(seg: &StateSegment) -> (r: bool)
    ensures
        r == counted(*seg),
{
    (seg.end as i128) - (seg.start as i128) >= 1000
}

/// Number of distinct period occurrences of `state` with polarity `pol`.
fn occurrences(segments: &[StateSegment], state: &String, pol: bool) -> (r: usize)
    ensures
        r == occurrence_starts(segments@, state@, pol).len(),
{
    let mut starts: Vec<i64> = Vec::new();
    let mut k: usize = 0;
    while k < segments.len()
        invariant
            k <= segments@.len(),
            starts@.no_duplicates(),
            forall|t: i64| #[trigger] starts@.contains(t) <==> exists|q: int| 0 <= q < k && #[trigger] segments@[q].period_start == t
                && segments@[q].state@ == state@ && segments@[q].is_true_period == pol && counted(segments@[q]),
        decreases segments@.len() - k,
    {
        if segments[k].state == *state && segments[k].is_true_period == pol && is_counted(&segments[k]) {
            push_unique(&mut starts, segments[k].period_start);
        }
        proof {
            assert forall|t: i64| #[trigger] starts@.contains(t) <==> exists|q: int| 0 <= q < k + 1 && #[trigger] segments@[q].period_start == t
                && segments@[q].state@ == state@ && segments@[q].is_true_period == pol && counted(segments@[q]) by {
                if t == segments@[k as int].period_start {
                    assert(segments@[k as int].period_start == t);
                }
            }
        }
        k = k + 1;
    }
    proof {
        assert(starts@.to_set() =~= occurrence_starts(segments@, state@, pol));
        starts@.unique_seq_to_set();
    }
    starts.len()
}

/// For each state with a segment of at least a second, the number of
/// distinct TRUE and FALSE periods, each identified by the segment's period
/// start. Rows come in order of each state's first counted segment.
pub fn analyze_state_segments(segments: &[StateSegment]) -> (r: Vec<(String, StateAnalysis)>)
    ensures
        forall|i: int| 0 <= i < r@.len() ==> (#[trigger] r@[i]).1.true_occurrences == occurrence_starts(segments@, r@[i].0@, true).len(),
        forall|i: int| 0 <= i < r@.len() ==> (#[trigger] r@[i]).1.false_occurrences == occurrence_starts(segments@, r@[i].0@, false).len(),
        forall|i: int| 0 <= i < r@.len() ==> has_counted_segment(segments@, (#[trigger] r@[i]).0@),
        forall|q: int| 0 <= q < segments@.len() && counted(#[trigger] segments@[q]) ==> exists|i: int| 0 <= i < r@.len() && (#[trigger] r@[i]).0@ == segments@[q].state@,
        forall|i: int, j: int| 0 <= i < j < r@.len() ==> r@[i].0@ != r@[j].0@,
{
    let mut rows: Vec<(String, StateAnalysis)> = Vec::new();
    let mut k: usize = 0;
    while k < segments.len()
        invariant
            k <= segments@.len(),
            forall|i: int| 0 <= i < rows@.len() ==> (#[trigger] rows@[i]).1.true_occurrences == occurrence_starts(segments@, rows@[i].0@, true).len(),
            forall|i: int| 0 <= i < rows@.len() ==> (#[trigger] rows@[i]).1.false_occurrences == occurrence_starts(segments@, rows@[i].0@, false).len(),
            forall|i: int| 0 <= i < rows@.len() ==> has_counted_segment(segments@, (#[trigger] rows@[i]).0@),
            forall|q: int| 0 <= q < k && counted(#[trigger] segments@[q]) ==> exists|i: int| 0 <= i < rows@.len() && (#[trigger] rows@[i]).0@ == segments@[q].state@,
            forall|i: int, j: int| 0 <= i < j < rows@.len() ==> rows@[i].0@ != rows@[j].0@,
        decreases segments@.len() - k,
    {
        if is_counted(&segments[k]) {
            let mut found = false;
            let mut i: usize = 0;
            while i < rows.len() && !found
                invariant
                    k < segments@.len(),
                    i <= rows@.len(),
                    found ==> exists|m: int| 0 <= m < rows@.len() && (#[trigger] rows@[m]).0@ == segments@[k as int].state@,
                    !found ==> forall|m: int| 0 <= m < i ==> (#[trigger] rows@[m]).0@ != segments@[k as int].state@,
                decreases rows@.len() - i,
            {
                if rows[i].0 == segments[k].state {
                    found = true;
                    assert(rows@[i as int].0@ == segments@[k as int].state@);
                }
                i = i + 1;
            }
            if !found {
                let t = occurrences(segments, &segments[k].state, true);
                let f = occurrences(segments, &segments[k].state, false);
                let ghost old_rows = rows@;
                rows.push((segments[k].state.clone(), StateAnalysis { true_occurrences: t, false_occurrences: f }));
                proof {
                    let last = rows@.len() - 1;
                    assert(rows@[last].0@ == segments@[k as int].state@);
                    assert(has_counted_segment(segments@, rows@[last].0@));
                    assert forall|i: int, j: int| 0 <= i < j < rows@.len() implies rows@[i].0@ != rows@[j].0@ by {
                        assert(rows@[i] == old_rows[i]);
                        if j < last {
                            assert(rows@[j] == old_rows[j]);
                        }
                    }
                    assert forall|q: int| 0 <= q < k + 1 && counted(#[trigger] segments@[q]) implies exists|i: int| 0 <= i < rows@.len() && (#[trigger] rows@[i]).0@ == segments@[q].state@ by {
                        if q < k {
                            let i = choose|i: int| 0 <= i < old_rows.len() && (#[trigger] old_rows[i]).0@ == segments@[q].state@;
                            assert(rows@[i] == old_rows[i]);
                        } else {
                            assert(rows@[last].0@ == segments@[q].state@);
                        }
                    }
                }
            }
        }
        k = k + 1;
    }
    rows
}

/// Sum of the readings of the segments of polarity `pol` that carry one.
pub open spec fn value_sum(segs: Seq<StateSegment>, pol: bool) -> int
    decreases segs.len(),
{
    if segs.len() == 0 {
        0
    } else {
        value_sum(segs.drop_last(), pol) + match segs.last().value {
            Some(v) if segs.last().is_true_period == pol => v as int,
            _ => 0,
        }
    }
}

/// Number of segments of polarity `pol` that carry a reading.
pub open spec fn value_count(segs: Seq<StateSegment>, pol: bool) -> nat
    decreases segs.len(),
{
    if segs.len() == 0 {
        0
    } else {
        value_count(segs.drop_last(), pol) + match segs.last().value {
            Some(v) if segs.last().is_true_period == pol => 1nat,
            _ => 0nat,
        }
    }
}

/// Mean rounded toward zero; 0 for no values.
pub open spec fn mean(sum: int, count: nat) -> int {
    if count == 0 { 0 } else if sum < 0 { -((-sum) / count as int) } else { sum / count as int }
}

/// Text of the mean TRUE and FALSE readings.
pub open spec fn means_text(segs: Seq<StateSegment>) -> Seq<char> {
    "mean_true: "@ + fixed2(mean(value_sum(segs, true), value_count(segs, true)))
        + ", mean_false: "@ + fixed2(mean(value_sum(segs, false), value_count(segs, false)))
}

fn mean_of(sum: i128, count: u64) -> (r: i64)
    requires
        -(count as int) * 0x8000_0000_0000_0000 <= sum <= (count as int) * 0x7fff_ffff_ffff_ffff,
    ensures
        r == mean(sum as int, count as nat),
{
    if count == 0 {
        return 0;
    }
    let c = count as i128;
    if sum < 0 {
        let ns: i128 = 0 - sum;
        let m = ns / c;
        assert(m <= 0x8000_0000_0000_0000int) by (nonlinear_arith)
            requires m == ns / c, ns <= c * 0x8000_0000_0000_0000int, c > 0, ns > 0;
        (0 - m) as i64
    } else {
        let m = sum / c;
        assert(m <= 0x7fff_ffff_ffff_ffffint) by (nonlinear_arith)
            requires m == sum / c, sum <= c * 0x7fff_ffff_ffff_ffffint, c > 0, sum >= 0;
        m as i64
    }
}

/// One row naming the mean TRUE and FALSE readings of the segments (two
/// decimals), with the number of readings of each polarity.
pub fn analyze_numeric_segments(segments: &[StateSegment]) -> (r: Vec<(String, StateAnalysis)>)
    ensures
        r@.len() == 1,
        r@[0].0@ == means_text(segments@),
        r@[0].1.true_occurrences == value_count(segments@, true),
        r@[0].1.false_occurrences == value_count(segments@, false),
{
    let ghost s = segments@;
    let mut true_sum: i128 = 0;
    let mut false_sum: i128 = 0;
    let mut true_count: usize = 0;
    let mut false_count: usize = 0;
    let mut i: usize = 0;
    while i < segments.len()
        invariant
            s == segments@,
            i <= s.len(),
            true_sum == value_sum(s.take(i as int), true),
            false_sum == value_sum(s.take(i as int), false),
            true_count == value_count(s.take(i as int), true),
            false_count == value_count(s.take(i as int), false),
            true_count + false_count <= i,
            -(true_count as int) * 0x8000_0000_0000_0000 <= true_sum <= (true_count as int) * 0x7fff_ffff_ffff_ffff,
            -(false_count as int) * 0x8000_0000_0000_0000 <= false_sum <= (false_count as int) * 0x7fff_ffff_ffff_ffff,
        decreases s.len() - i,
    {
        proof {
            assert(s.take(i as int + 1).drop_last() =~= s.take(i as int));
            assert(s.take(i as int + 1).last() == s[i as int]);
        }
        if let Some(v) = segments[i].value {
            if segments[i].is_true_period {
                true_sum = true_sum + v as i128;
                true_count = true_count + 1;
            } else {
                false_sum = false_sum + v as i128;
                false_count = false_count + 1;
            }
        }
        i = i + 1;
    }
    proof {
        assert(s.take(s.len() as int) =~= s);
        reveal_strlit("mean_true: ");
        reveal_strlit(", mean_false: ");
    }
    let mt = mean_of(true_sum, true_count as u64);
    let mf = mean_of(false_sum, false_count as u64);
    let mut text = String::from_str("mean_true: ");
    let a = fixed2_text(mt);
    text.append(a.as_str());
    text.append(", mean_false: ");
    let b = fixed2_text(mf);
    text.append(b.as_str());
    assert(text@ =~= means_text(s));
    let mut r: Vec<(String, StateAnalysis)> = Vec::new();
    r.push((text, StateAnalysis { true_occurrences: true_count, false_occurrences: false_count }));
    r
}

/// The views of a list of strings.
pub open spec fn views(v: Seq<String>) -> Seq<Seq<char>> {
    v.map_values(|x: String| x@)
}

/// States seen during the period `[ps, pe]` over the time-ordered entries
/// (times `st`, states `ss`): the state in force at its start and the state
/// of every entry strictly inside it.
pub open spec fn period_states(st: Seq<i64>, ss: Seq<Seq<char>>, ps: i64, pe: i64) -> Set<Seq<char>> {
    Set::new(|s: Seq<char>| start_state(st, ss, ps) == Some(s)
        || exists|k: int| 0 <= k < st.len() && ps < st[k] && st[k] < pe && #[trigger] ss[k] == s)
}

pub open spec fn period_key(p: TimePeriod) -> (i64, i64) {
    (timestamp_of(p.start@), timestamp_of(p.end@))
}

/// Keys (start, end) of the periods of polarity `pol` during which `s` was
/// seen; periods with equal bounds count once.
pub open spec fn state_period_keys(st: Seq<i64>, ss: Seq<Seq<char>>, periods: Seq<TimePeriod>, s: Seq<char>, pol: bool) -> Set<(i64, i64)> {
    Set::new(|key: (i64, i64)| exists|p: int| 0 <= p < periods.len() && periods[p].is_true_period == pol
        && #[trigger] period_key(periods[p]) == key && period_states(st, ss, key.0, key.1).contains(s))
}

fn contains_state(v: &Vec<String>, s: &String) -> (r: bool)
    ensures
        r == views(v@).contains(s@),
{
    let mut i: usize = 0;
    while i < v.len()
        invariant
            i <= v@.len(),
            forall|k: int| 0 <= k < i ==> v@[k]@ != s@,
        decreases v@.len() - i,
    {
        if v[i] == *s {
            assert(views(v@)[i as int] == s@);
            return true;
        }
        i = i + 1;
    }
    proof {
        if views(v@).contains(s@) {
            let k = choose|k: int| 0 <= k < views(v@).len() && views(v@)[k] == s@;
            assert(v@[k]@ == s@);
        }
    }
    false
}

fn add_state(v: &mut Vec<String>, s: &String)
    requires
        views(old(v)@).no_duplicates(),
    ensures
        views(final(v)@).no_duplicates(),
        views(final(v)@).to_set() == views(old(v)@).to_set().insert(s@),
{
    if !contains_state(v, s) {
        let ghost old_v = v@;
        v.push(s.clone());
        proof {
            let nv = views(v@);
            let ov = views(old_v);
            assert(nv =~= ov.push(s@));
            assert forall|x: Seq<char>| nv.contains(x) <==> (ov.contains(x) || x == s@) by {
                if ov.contains(x) {
                    let k = choose|k: int| 0 <= k < ov.len() && ov[k] == x;
                    assert(nv[k] == x);
                }
                if x == s@ {
                    assert(nv[ov.len() as int] == x);
                }
                if nv.contains(x) {
                    let k = choose|k: int| 0 <= k < nv.len() && nv[k] == x;
                    if k < ov.len() {
                        assert(ov[k] == x);
                    }
                }
            }
            assert(nv.to_set() =~= ov.to_set().insert(s@));
            assert(nv.no_duplicates()) by {
                assert forall|a: int, b: int| 0 <= a < b < nv.len() implies nv[a] != nv[b] by {
                    if b == ov.len() {
                        assert(nv[a] == ov[a]);
                        assert(ov.contains(nv[a]));
                    } else {
                        assert(nv[a] == ov[a]);
                        assert(nv[b] == ov[b]);
                    }
                }
            }
        }
    } else {
        assert(views(v@).to_set() =~= views(v@).to_set().insert(s@));
    }
}

/// The distinct states seen during `[start, end]` (see `period_states`).
fn states_in_period(
    entity_history: &[HAHistoryEntry],
    order: &Vec<usize>,
    sorted_t: &Vec<i64>,
    start: i64,
    end: i64,
) -> (r: Vec<String>)
    requires
        order@.len() == sorted_t@.len(),
        forall|k: int| 0 <= k < order@.len() ==> #[trigger] order@[k] < entity_history@.len(),
    ensures
        views(r@).no_duplicates(),
        views(r@).to_set() == period_states(sorted_t@, ordered_states(entity_history@, order@), start, end),
{
    let ghost st = sorted_t@;
    let ghost ss = ordered_states(entity_history@, order@);
    let mut seen: Vec<String> = Vec::new();
    assert(views(seen@).to_set() =~= Set::<Seq<char>>::empty());
    assert(views(seen@).no_duplicates());
    let ghost mut init_set: Set<Seq<char>> = Set::empty();
    let li = last_index_at_or_before(sorted_t, start);
    if let Some(k) = li {
        add_state(&mut seen, &entity_history[order[k]].state);
        proof {
            init_set = set![ss[k as int]];
            assert(st == sorted_t@);
            assert(last_at_or_before(st, start, st.len() as int) == Some(k as int));
            assert(start_state(st, ss, start) == Some(ss[k as int]));
            assert(views(seen@).to_set() =~= init_set);
        }
    } else {
        assert(start_state(st, ss, start) is None);
    }
    assert forall|s: Seq<char>| init_set.contains(s) <==> start_state(st, ss, start) == Some(s) by {
        if let Some(k) = li {
            assert(init_set.contains(s) <==> s == ss[k as int]);
        }
    }
    let mut k: usize = 0;
    while k < sorted_t.len()
        invariant
            st == sorted_t@,
            ss == ordered_states(entity_history@, order@),
            order@.len() == sorted_t@.len(),
            forall|q: int| 0 <= q < order@.len() ==> #[trigger] order@[q] < entity_history@.len(),
            k <= sorted_t@.len(),
            views(seen@).no_duplicates(),
            forall|s: Seq<char>| init_set.contains(s) <==> start_state(st, ss, start) == Some(s),
            forall|s: Seq<char>| #[trigger] views(seen@).to_set().contains(s) <==> (init_set.contains(s)
                || exists|q: int| 0 <= q < k && start < st[q] && st[q] < end && #[trigger] ss[q] == s),
        decreases sorted_t@.len() - k,
    {
        let ghost before = views(seen@).to_set();
        let t = sorted_t[k];
        if start < t && t < end {
            add_state(&mut seen, &entity_history[order[k]].state);
        }
        proof {
            assert forall|s: Seq<char>| #[trigger] views(seen@).to_set().contains(s) <==> (init_set.contains(s)
                || exists|q: int| 0 <= q < k + 1 && start < st[q] && st[q] < end && #[trigger] ss[q] == s) by {
                if start < t && t < end && s == ss[k as int] {
                    assert(ss[k as int] == s);
                }
            }
        }
        k = k + 1;
    }
    assert(views(seen@).to_set() =~= period_states(st, ss, start, end));
    seen
}

/// Some row is about state `s`.
pub open spec fn row_listed(rows: Seq<(String, StateAnalysis)>, s: Seq<char>) -> bool {
    exists|i: int| 0 <= i < rows.len() && (#[trigger] rows[i]).0@ == s
}

/// Per-period state sets and keys, indexed like `periods`.
pub open spec fn period_tables(
    st: Seq<i64>,
    ss: Seq<Seq<char>>,
    periods: Seq<TimePeriod>,
    states: Seq<Vec<String>>,
    keys_start: Seq<i64>,
    keys_end: Seq<i64>,
) -> bool {
    &&& states.len() == periods.len()
    &&& keys_start.len() == periods.len()
    &&& keys_end.len() == periods.len()
    &&& forall|q: int| 0 <= q < periods.len() ==> period_key(#[trigger] periods[q]) == (keys_start[q], keys_end[q])
    &&& forall|q: int| 0 <= q < periods.len() ==> views((#[trigger] states[q])@).to_set() == period_states(st, ss, keys_start[q], keys_end[q])
}

fn has_pair(starts: &Vec<i64>, ends: &Vec<i64>, a: i64, b: i64) -> (r: bool)
    requires
        starts@.len() == ends@.len(),
    ensures
        r == exists|m: int| 0 <= m < starts@.len() && starts@[m] == a && ends@[m] == b,
{
    let mut k: usize = 0;
    while k < starts.len()
        invariant
            starts@.len() == ends@.len(),
            k <= starts@.len(),
            forall|m: int| 0 <= m < k ==> !(starts@[m] == a && ends@[m] == b),
        decreases starts@.len() - k,
    {
        if starts[k] == a && ends[k] == b {
            return true;
        }
        k = k + 1;
    }
    false
}

/// Number of distinct keys of the periods of polarity `pol` during which
/// `state` was seen.
fn count_periods_with(
    entity_history: &[HAHistoryEntry],
    order: &Vec<usize>,
    sorted_t: &Vec<i64>,
    periods: &[TimePeriod],
    states: &Vec<Vec<String>>,
    keys_start: &Vec<i64>,
    keys_end: &Vec<i64>,
    state: &String,
    pol: bool,
) -> (r: usize)
    requires
        period_tables(sorted_t@, ordered_states(entity_history@, order@), periods@, states@, keys_start@, keys_end@),
    ensures
        r == state_period_keys(sorted_t@, ordered_states(entity_history@, order@), periods@, state@, pol).len(),
{
    let ghost st = sorted_t@;
    let ghost ss = ordered_states(entity_history@, order@);
    let mut starts: Vec<i64> = Vec::new();
    let mut ends: Vec<i64> = Vec::new();
    let ghost mut pairs: Seq<(i64, i64)> = Seq::empty();
    let mut q: usize = 0;
    while q < periods.len()
        invariant
            st == sorted_t@,
            ss == ordered_states(entity_history@, order@),
            period_tables(st, ss, periods@, states@, keys_start@, keys_end@),
            q <= periods@.len(),
            pairs.len() == starts@.len(),
            pairs.len() == ends@.len(),
            forall|k: int| 0 <= k < pairs.len() ==> #[trigger] pairs[k] == (starts@[k], ends@[k]),
            pairs.no_duplicates(),
            forall|key: (i64, i64)| #[trigger] pairs.contains(key) <==> exists|p: int| 0 <= p < q && periods@[p].is_true_period == pol
                && #[trigger] period_key(periods@[p]) == key && period_states(st, ss, key.0, key.1).contains(state@),
        decreases periods@.len() - q,
    {
        let ghost pairs0 = pairs;
        let a = keys_start[q];
        let b = keys_end[q];
        let ghost key = (a, b);
        assert(period_key(periods@[q as int]) == key);
        let hit = periods[q].is_true_period == pol && contains_state(&states[q], state);
        if hit {
            assert(views(states@[q as int]@).to_set().contains(state@));
            let present = has_pair(&starts, &ends, a, b);
            proof {
                if present {
                    let m = choose|m: int| 0 <= m < starts@.len() && starts@[m] == a && ends@[m] == b;
                    assert(pairs[m] == key);
                    assert(pairs.contains(key));
                }
                if pairs.contains(key) {
                    let m = choose|m: int| 0 <= m < pairs.len() && pairs[m] == key;
                    assert(pairs[m] == (starts@[m], ends@[m]));
                }
            }
            if !present {
                let ghost old_pairs = pairs;
                starts.push(a);
                ends.push(b);
                proof {
                    pairs = pairs.push(key);
                    assert(pairs[pairs.len() - 1] == key);
                    assert forall|m: int| 0 <= m < pairs.len() implies #[trigger] pairs[m] == (starts@[m], ends@[m]) by {
                        if m < old_pairs.len() {
                            assert(pairs[m] == old_pairs[m]);
                        }
                    }
                    assert forall|x: int, y: int| 0 <= x < y < pairs.len() implies pairs[x] != pairs[y] by {
                        if y < old_pairs.len() {
                            assert(pairs[x] == old_pairs[x]);
                            assert(pairs[y] == old_pairs[y]);
                        } else {
                            assert(pairs[x] == old_pairs[x]);
                        }
                    }
                }
            }
        }
        proof {
            assert(hit ==> pairs.contains(key));
            assert forall|x: (i64, i64)| pairs.contains(x) <==> (pairs0.contains(x) || (hit && x == key)) by {
                if pairs != pairs0 {
                    assert(pairs == pairs0.push(key));
                    if pairs0.contains(x) {
                        let m = choose|m: int| 0 <= m < pairs0.len() && pairs0[m] == x;
                        assert(pairs[m] == x);
                    }
                    if pairs.contains(x) {
                        let m = choose|m: int| 0 <= m < pairs.len() && pairs[m] == x;
                        if m < pairs0.len() {
                            assert(pairs0[m] == x);
                        }
                    }
                }
            }
            assert forall|x: (i64, i64)| #[trigger] pairs.contains(x) <==> exists|p: int| 0 <= p < q + 1 && periods@[p].is_true_period == pol
                && #[trigger] period_key(periods@[p]) == x && period_states(st, ss, x.0, x.1).contains(state@) by {
                assert(pairs0.contains(x) <==> exists|p: int| 0 <= p < q && periods@[p].is_true_period == pol
                    && #[trigger] period_key(periods@[p]) == x && period_states(st, ss, x.0, x.1).contains(state@));
                if hit && x == key {
                    assert(period_key(periods@[q as int]) == x);
                }
                if exists|p: int| 0 <= p < q + 1 && periods@[p].is_true_period == pol
                    && #[trigger] period_key(periods@[p]) == x && period_states(st, ss, x.0, x.1).contains(state@) {
                    let p = choose|p: int| 0 <= p < q + 1 && periods@[p].is_true_period == pol
                        && #[trigger] period_key(periods@[p]) == x && period_states(st, ss, x.0, x.1).contains(state@);
                    if p == q {
                        assert(views(states@[q as int]@).to_set().contains(state@));
                        assert(hit);
                    }
                }
            }
        }
        q = q + 1;
    }
    proof {
        assert(pairs.to_set() =~= state_period_keys(st, ss, periods@, state@, pol));
        pairs.unique_seq_to_set();
    }
    starts.len()
}

/// Whether `s` was seen during some period.
pub open spec fn seen_in_some_period(st: Seq<i64>, ss: Seq<Seq<char>>, periods: Seq<TimePeriod>, s: Seq<char>) -> bool {
    exists|p: int| 0 <= p < periods.len() && period_states(st, ss, period_key(#[trigger] periods[p]).0, period_key(periods[p]).1).contains(s)
}

/// Rows with, for each state seen during some period, the number of
/// distinct TRUE and FALSE period keys during which it was seen, each state
/// once.
pub open spec fn period_rows(st: Seq<i64>, ss: Seq<Seq<char>>, periods: Seq<TimePeriod>, r: Seq<(String, StateAnalysis)>) -> bool {
    &&& forall|i: int| 0 <= i < r.len() ==> (#[trigger] r[i]).1.true_occurrences == state_period_keys(st, ss, periods, r[i].0@, true).len()
    &&& forall|i: int| 0 <= i < r.len() ==> (#[trigger] r[i]).1.false_occurrences == state_period_keys(st, ss, periods, r[i].0@, false).len()
    &&& forall|i: int| 0 <= i < r.len() ==> seen_in_some_period(st, ss, periods, (#[trigger] r[i]).0@)
    &&& forall|s: Seq<char>| #[trigger] seen_in_some_period(st, ss, periods, s) ==> row_listed(r, s)
    &&& forall|i: int, j: int| 0 <= i < j < r.len() ==> r[i].0@ != r[j].0@
}

/// For each state seen during some period (each period judged on its own
/// over the entries in stable time order, see `period_states`), the number
/// of distinct TRUE and FALSE periods, keyed by their bounds, during which
/// it was seen. Rows come in order of first sighting, period by period.
pub fn analyze_state_segments_with_periods(entity_history: &[HAHistoryEntry], periods: &[TimePeriod]) -> (r: Vec<(String, StateAnalysis)>)
    ensures
        exists|order: Seq<usize>| #[trigger] is_stable_order(entry_times_spec(entity_history@), order)
            && period_rows(ordered_times(entity_history@, order), ordered_states(entity_history@, order), periods@, r@),
{
    let (order, sorted_t) = time_order(entity_history);
    let ghost st = sorted_t@;
    let ghost ss = ordered_states(entity_history@, order@);
    let mut states: Vec<Vec<String>> = Vec::new();
    let mut keys_start: Vec<i64> = Vec::new();
    let mut keys_end: Vec<i64> = Vec::new();
    let mut p: usize = 0;
    while p < periods.len()
        invariant
            st == sorted_t@,
            ss == ordered_states(entity_history@, order@),
            order@.len() == sorted_t@.len(),
            forall|k: int| 0 <= k < order@.len() ==> #[trigger] order@[k] < entity_history@.len(),
            p <= periods@.len(),
            states@.len() == p,
            keys_start@.len() == p,
            keys_end@.len() == p,
            forall|q: int| 0 <= q < p ==> period_key(#[trigger] periods@[q]) == (keys_start@[q], keys_end@[q]),
            forall|q: int| 0 <= q < p ==> views((#[trigger] states@[q])@).to_set() == period_states(st, ss, keys_start@[q], keys_end@[q]),
        decreases periods@.len() - p,
    {
        let start = parse_timestamp(periods[p].start.as_str());
        let end = parse_timestamp(periods[p].end.as_str());
        let found = states_in_period(entity_history, &order, &sorted_t, start, end);
        states.push(found);
        keys_start.push(start);
        keys_end.push(end);
        p = p + 1;
    }
    assert(period_tables(st, ss, periods@, states@, keys_start@, keys_end@));
    let mut rows: Vec<(String, StateAnalysis)> = Vec::new();
    let mut q: usize = 0;
    while q < periods.len()
        invariant
            st == sorted_t@,
            ss == ordered_states(entity_history@, order@),
            q <= periods@.len(),
            period_tables(st, ss, periods@, states@, keys_start@, keys_end@),
            forall|i: int| 0 <= i < rows@.len() ==> (#[trigger] rows@[i]).1.true_occurrences == state_period_keys(st, ss, periods@, rows@[i].0@, true).len(),
            forall|i: int| 0 <= i < rows@.len() ==> (#[trigger] rows@[i]).1.false_occurrences == state_period_keys(st, ss, periods@, rows@[i].0@, false).len(),
            forall|i: int| 0 <= i < rows@.len() ==> seen_in_some_period(st, ss, periods@, (#[trigger] rows@[i]).0@),
            forall|i: int, j: int| 0 <= i < j < rows@.len() ==> rows@[i].0@ != rows@[j].0@,
            forall|pq: int, s: Seq<char>| 0 <= pq < q && #[trigger] views(states@[pq]@).contains(s) ==> row_listed(rows@, s),
        decreases periods@.len() - q,
    {
        let list = &states[q];
        let mut j: usize = 0;
        while j < list.len()
            invariant
                st == sorted_t@,
            ss == ordered_states(entity_history@, order@),
                q < periods@.len(),
                *list == states@[q as int],
                j <= list@.len(),
                period_tables(st, ss, periods@, states@, keys_start@, keys_end@),
                forall|i: int| 0 <= i < rows@.len() ==> (#[trigger] rows@[i]).1.true_occurrences == state_period_keys(st, ss, periods@, rows@[i].0@, true).len(),
                forall|i: int| 0 <= i < rows@.len() ==> (#[trigger] rows@[i]).1.false_occurrences == state_period_keys(st, ss, periods@, rows@[i].0@, false).len(),
                forall|i: int| 0 <= i < rows@.len() ==> seen_in_some_period(st, ss, periods@, (#[trigger] rows@[i]).0@),
                forall|i: int, j2: int| 0 <= i < j2 < rows@.len() ==> rows@[i].0@ != rows@[j2].0@,
                forall|pq: int, s: Seq<char>| 0 <= pq < q && #[trigger] views(states@[pq]@).contains(s) ==> row_listed(rows@, s),
                forall|j2: int| 0 <= j2 < j ==> row_listed(rows@, (#[trigger] list@[j2])@),
            decreases list@.len() - j,
        {
            let state = &list[j];
            let mut found = false;
            let mut i: usize = 0;
            while i < rows.len() && !found
                invariant
                    i <= rows@.len(),
                    found ==> row_listed(rows@, state@),
                    !found ==> forall|m: int| 0 <= m < i ==> (#[trigger] rows@[m]).0@ != state@,
                decreases rows@.len() - i,
            {
                if rows[i].0 == *state {
                    found = true;
                    assert(rows@[i as int].0@ == state@);
                }
                i = i + 1;
            }
            proof {
                assert(views(list@)[j as int] == state@);
                assert(views(list@).to_set().contains(state@));
                assert(period_states(st, ss, period_key(periods@[q as int]).0, period_key(periods@[q as int]).1).contains(state@));
                assert(seen_in_some_period(st, ss, periods@, state@));
            }
            if !found {
                let t = count_periods_with(entity_history, &order, &sorted_t, periods, &states, &keys_start, &keys_end, state, true);
                let f = count_periods_with(entity_history, &order, &sorted_t, periods, &states, &keys_start, &keys_end, state, false);
                let ghost old_rows = rows@;
                rows.push((state.clone(), StateAnalysis { true_occurrences: t, false_occurrences: f }));
                proof {
                    let last = rows@.len() - 1;
                    assert(rows@[last].0@ == state@);
                    assert forall|i: int| 0 <= i < old_rows.len() implies #[trigger] rows@[i] == old_rows[i] by {}
                    assert forall|s: Seq<char>| row_listed(old_rows, s) implies row_listed(rows@, s) by {
                        let i = choose|i: int| 0 <= i < old_rows.len() && (#[trigger] old_rows[i]).0@ == s;
                        assert(rows@[i] == old_rows[i]);
                    }
                    assert(row_listed(rows@, state@));
                    assert forall|i: int, j2: int| 0 <= i < j2 < rows@.len() implies rows@[i].0@ != rows@[j2].0@ by {
                        assert(rows@[i] == old_rows[i]);
                        if j2 < last {
                            assert(rows@[j2] == old_rows[j2]);
                        }
                    }
                }
            }
            j = j + 1;
        }
        proof {
            assert forall|pq: int, s: Seq<char>| 0 <= pq < q + 1 && #[trigger] views(states@[pq]@).contains(s) implies row_listed(rows@, s) by {
                if pq == q {
                    let j2 = choose|j2: int| 0 <= j2 < views(list@).len() && views(list@)[j2] == s;
                    assert(row_listed(rows@, list@[j2]@));
                }
            }
        }
        q = q + 1;
    }
    proof {
        assert(period_rows(st, ss, periods@, rows@)) by {
        assert forall|s: Seq<char>| #[trigger] seen_in_some_period(st, ss, periods@, s) implies row_listed(rows@, s) by {
            let pq = choose|pq: int| 0 <= pq < periods@.len() && period_states(st, ss, period_key(#[trigger] periods@[pq]).0, period_key(periods@[pq]).1).contains(s);
            assert(views(states@[pq]@).to_set().contains(s));
        }
        }
        assert(is_stable_order(entry_times_spec(entity_history@), order@));
        assert(st == ordered_times(entity_history@, order@));
    }
    rows
}

/// Every segment with its polarity tag inverted.
pub open spec fn flip_polarity(segs: Seq<StateSegment>) -> Seq<StateSegment> {
    segs.map_values(|x: StateSegment| StateSegment { is_true_period: !x.is_true_period, ..x })
}

/// Inverting every segment's polarity exchanges each state's TRUE and
/// FALSE occurrences.
pub proof fn lemma_flip_polarity_occurrences(segs: Seq<StateSegment>, s: Seq<char>, pol: bool)
    ensures
        occurrence_starts(flip_polarity(segs), s, pol) == occurrence_starts(segs, s, !pol),
{
    let f = flip_polarity(segs);
    assert forall|t: i64| occurrence_starts(f, s, pol).contains(t) <==> occurrence_starts(segs, s, !pol).contains(t) by {
        if occurrence_starts(f, s, pol).contains(t) {
            let k = choose|k: int| 0 <= k < f.len() && #[trigger] f[k].period_start == t && f[k].state@ == s
                && f[k].is_true_period == pol && counted(f[k]);
            assert(segs[k].period_start == t);
        }
        if occurrence_starts(segs, s, !pol).contains(t) {
            let k = choose|k: int| 0 <= k < segs.len() && #[trigger] segs[k].period_start == t && segs[k].state@ == s
                && segs[k].is_true_period == !pol && counted(segs[k]);
            assert(f[k].period_start == t);
        }
    }
    assert(occurrence_starts(f, s, pol) =~= occurrence_starts(segs, s, !pol));
}

} // verus!
