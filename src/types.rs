use vstd::prelude::*;
use crate::sensor_analysis::NumericStateStats;
use crate::threshold::OptimalThresholds;

verus! {

/// A labelled interval; `start` and `end` are RFC 3339 timestamps.
#[derive(Debug, Clone)]
pub struct TimePeriod {
    pub id: String,
    pub start: String,
    pub end: String,
    pub is_true_period: bool,
    pub label: Option<String>,
}

/// One recorded observation of an entity. `numeric_state` holds the state
/// read as a finite number, in millionths, and is `None` when the state is
/// not a number.
#[derive(Debug, Clone)]
pub struct HAHistoryEntry {
    pub state: String,
    pub last_changed: String,
    pub last_updated: String,
    pub numeric_state: Option<i64>,
}

/// One result row. Probabilities and the discrimination power are in parts
/// per million.
#[derive(Debug, Clone)]
pub struct EntityProbability {
    pub entity_id: String,
    pub state: String,
    pub prob_given_true: u64,
    pub prob_given_false: u64,
    pub discrimination_power: u64,
    pub true_occurrences: usize,
    pub false_occurrences: usize,
    pub total_true_periods: usize,
    pub total_false_periods: usize,
    pub numeric_stats: Option<NumericStateStats>,
    pub optimal_thresholds: Option<OptimalThresholds>,
}

/// One point of the merged timeline of state changes and period bounds.
#[derive(Debug, Clone)]
pub struct TimelineEntry {
    pub time: i64,
    pub entry_type: TimelineEntryType,
    pub state: Option<String>,
    pub value: Option<i64>,
    pub is_true_period: Option<bool>,
}

#[derive(Debug, Clone, Copy, PartialEq, Eq, Structural)]
pub enum TimelineEntryType {
    StateChange,
    PeriodStart,
    PeriodEnd,
}

/// A stretch `[start, end)` of constant state while some period is active.
/// `period_start` is the start of the latest started period of the tagged
/// polarity: it identifies the period occurrence the segment belongs to.
#[derive(Debug, Clone)]
pub struct StateSegment {
    pub start: i64,
    pub end: i64,
    pub state: String,
    pub value: Option<i64>,
    pub is_true_period: bool,
    pub period_start: i64,
}

/// Number of distinct TRUE and FALSE periods in which a state was seen.
#[derive(Debug, Clone, Copy, PartialEq, Eq, Structural)]
pub struct StateAnalysis {
    pub true_occurrences: usize,
    pub false_occurrences: usize,
}

#[derive(Debug, Clone, Copy, PartialEq, Eq, Structural)]
pub struct SensorChunk {
    pub sensor_value: i64,
    pub duration: i64,
    pub desired_output: bool,
}

#[derive(Debug, Clone)]
pub struct StateChunk {
    pub state: String,
    pub duration: i64,
    pub desired_output: bool,
}

/// Total TRUE and FALSE duration in which a state held.
#[derive(Debug, Clone)]
pub struct StateDurationStats {
    pub state: String,
    pub true_duration: i64,
    pub false_duration: i64,
}

} // verus!
