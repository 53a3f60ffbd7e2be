use bayesian_calculator::probability::{
    assemble_probabilities, clamp_preserve_discrimination, clamp_probability, discrimination_power,
    probability_ppm,
};
use bayesian_calculator::sensor_analysis::{
    analyze_numeric_states, analyze_state_chunks, create_sensor_period_chunks, create_state_period_chunks,
    is_numeric_entity, parse_timestamp, NumericStateStats, ValueDuration,
};
use bayesian_calculator::text::{decimal_text, fixed2_text, signed_decimal_text};
use bayesian_calculator::threshold::{
    binary_search_first_above, binary_search_last_below, calculate_chunks_in_range, calculate_threshold_score,
    find_optimal_numeric_thresholds, format_threshold_description, get_cache_key, threshold_candidates,
    value_matches_thresholds, OptimalThresholds,
};
use bayesian_calculator::timeline::{
    analyze_numeric_segments, analyze_state_segments, analyze_state_segments_with_periods, create_unified_timeline,
};
use bayesian_calculator::types::{HAHistoryEntry, StateSegment, TimePeriod};
use bayesian_calculator::{BayesianCalculator, CalculatorError};

const UNIT: i64 = 1_000_000;

fn at(seconds: i64) -> String {
    format!("1970-01-01T{:02}:{:02}:{:02}Z", seconds / 3600, (seconds / 60) % 60, seconds % 60)
}

fn entry(state: &str, seconds: i64) -> HAHistoryEntry {
    let numeric_state = state.parse::<f64>().ok().filter(|v| v.is_finite()).map(|v| (v * UNIT as f64).round() as i64);
    HAHistoryEntry { state: state.to_string(), last_changed: at(seconds), last_updated: at(seconds), numeric_state }
}

fn period(id: &str, start: i64, end: i64, is_true: bool) -> TimePeriod {
    TimePeriod { id: id.to_string(), start: at(start), end: at(end), is_true_period: is_true, label: None }
}

fn vd(value: i64, duration: i64) -> ValueDuration {
    ValueDuration { value, duration }
}

fn stats(true_chunks: Vec<ValueDuration>, false_chunks: Vec<ValueDuration>) -> NumericStateStats {
    let all: Vec<i64> = true_chunks.iter().chain(false_chunks.iter()).map(|c| c.value).collect();
    NumericStateStats {
        is_numeric: true,
        min: all.iter().copied().min(),
        max: all.iter().copied().max(),
        true_chunks,
        false_chunks,
    }
}

#[test]
fn scenario_numeric_entity_separates_values() {
    let history = vec![("sensor.temp".to_string(), vec![entry("10", 0), entry("90", 1)])];
    let periods = vec![period("a", 0, 1, true), period("b", 1, 2, false)];
    assert!(is_numeric_entity(&history[0].1));
    let mut calc = BayesianCalculator::new();
    let rows = calc.calculate_entity_probabilities(&history, &periods).unwrap();
    assert_eq!(rows.len(), 1);
    let row = &rows[0];
    assert_eq!(row.entity_id, "sensor.temp");
    assert_eq!(row.prob_given_true, 10_000);
    assert_eq!(row.prob_given_false, 990_000);
    assert_eq!(row.discrimination_power, 980_000);
    let t = row.optimal_thresholds.unwrap();
    assert_ne!(value_matches_thresholds(10 * UNIT, &t), value_matches_thresholds(90 * UNIT, &t));
    assert_eq!(t, OptimalThresholds { above: Some(10 * UNIT), below: None });
    assert_eq!(row.state, "> 10.00");
    assert_eq!(row.total_true_periods, 1);
    assert_eq!(row.total_false_periods, 1);
}

#[test]
fn scenario_categorical_state_in_every_true_period() {
    let history = vec![(
        "switch.fan".to_string(),
        vec![entry("on", 0), entry("off", 10), entry("on", 20), entry("off", 30)],
    )];
    let periods = vec![
        period("a", 0, 10, true),
        period("b", 10, 20, false),
        period("c", 20, 30, true),
        period("d", 30, 40, false),
    ];
    assert!(!is_numeric_entity(&history[0].1));
    let mut calc = BayesianCalculator::new();
    let rows = calc.calculate_entity_probabilities(&history, &periods).unwrap();
    let on = rows.iter().find(|r| r.state == "on").unwrap();
    assert_eq!(on.true_occurrences, 2);
    assert_eq!(on.false_occurrences, 0);
    assert_eq!(on.prob_given_true, 990_000);
    assert_eq!(on.prob_given_false, 10_000);
    assert_eq!(on.discrimination_power, 980_000);
    for w in rows.windows(2) {
        assert!(w[0].discrimination_power >= w[1].discrimination_power);
    }
}

#[test]
fn scenario_no_true_period_is_rejected() {
    let history = vec![("sensor.temp".to_string(), vec![entry("10", 0)])];
    let periods = vec![period("b", 1, 2, false)];
    let mut calc = BayesianCalculator::new();
    assert_eq!(
        calc.calculate_entity_probabilities(&history, &periods).unwrap_err(),
        CalculatorError::MissingTrueOrFalsePeriod
    );
    let only_true = vec![period("a", 0, 1, true)];
    assert!(calc.calculate_entity_probabilities(&history, &only_true).is_err());
}

#[test]
fn empty_history_gives_no_rows() {
    let history = vec![("sensor.none".to_string(), Vec::new())];
    let periods = vec![period("a", 0, 1, true), period("b", 1, 2, false)];
    let mut calc = BayesianCalculator::new();
    assert!(calc.calculate_entity_probabilities(&history, &periods).unwrap().is_empty());
}

#[test]
fn cache_returns_same_threshold_without_searching_again() {
    let st = stats(vec![vd(1 * UNIT, 5000), vd(2 * UNIT, 5000)], vec![vd(8 * UNIT, 5000)]);
    let mut calc = BayesianCalculator::new();
    let first = calc.get_or_calculate_thresholds("sensor.x", &st);
    assert_eq!(calc.search_count(), 1);
    let second = calc.get_or_calculate_thresholds("sensor.x", &st);
    assert_eq!(first, second);
    assert_eq!(calc.search_count(), 1);
    calc.get_or_calculate_thresholds("sensor.y", &st);
    assert_eq!(calc.search_count(), 2);
}

#[test]
fn cache_spans_repeated_calculations() {
    let history = vec![("sensor.temp".to_string(), vec![entry("10", 0), entry("90", 1)])];
    let periods = vec![period("a", 0, 1, true), period("b", 1, 2, false)];
    let mut calc = BayesianCalculator::new();
    let a = calc.calculate_entity_probabilities(&history, &periods).unwrap();
    let b = calc.calculate_entity_probabilities(&history, &periods).unwrap();
    assert_eq!(calc.search_count(), 1);
    assert_eq!(a[0].optimal_thresholds, b[0].optimal_thresholds);
}

#[test]
fn short_chunks_are_dropped() {
    let history = vec![entry("10", 0), entry("20", 1)];
    let mut periods = vec![period("a", 0, 2, true)];
    periods[0].end = "1970-01-01T00:00:01.500Z".to_string();
    let chunks = create_sensor_period_chunks(&history, &periods);
    assert_eq!(chunks.len(), 1);
    assert_eq!(chunks[0].sensor_value, 10 * UNIT);
    assert_eq!(chunks[0].duration, 1000);
    let state_chunks = create_state_period_chunks(&history, &periods);
    assert_eq!(state_chunks.len(), 1);
    assert_eq!(state_chunks[0].state, "10");
}

#[test]
fn short_segments_do_not_count() {
    let segs = vec![
        StateSegment { start: 0, end: 999, state: "on".to_string(), value: None, is_true_period: true, period_start: 0 },
        StateSegment { start: 5000, end: 7000, state: "off".to_string(), value: None, is_true_period: false, period_start: 5000 },
    ];
    let rows = analyze_state_segments(&segs);
    assert_eq!(rows.len(), 1);
    assert_eq!(rows[0].0, "off");
    assert_eq!(rows[0].1.false_occurrences, 1);
    assert_eq!(rows[0].1.true_occurrences, 0);
}

#[test]
fn segments_of_one_period_count_once() {
    let segs = vec![
        StateSegment { start: 0, end: 2000, state: "on".to_string(), value: None, is_true_period: true, period_start: 0 },
        StateSegment { start: 3000, end: 5000, state: "on".to_string(), value: None, is_true_period: true, period_start: 0 },
        StateSegment { start: 8000, end: 9000, state: "on".to_string(), value: None, is_true_period: true, period_start: 8000 },
    ];
    let rows = analyze_state_segments(&segs);
    assert_eq!(rows[0].1.true_occurrences, 2);
}

#[test]
fn threshold_matching_is_half_open() {
    let both = OptimalThresholds { above: Some(10), below: Some(20) };
    assert!(!value_matches_thresholds(10, &both));
    assert!(value_matches_thresholds(11, &both));
    assert!(value_matches_thresholds(20, &both));
    assert!(!value_matches_thresholds(21, &both));
    let above = OptimalThresholds { above: Some(10), below: None };
    assert!(value_matches_thresholds(i64::MAX, &above));
    assert!(!value_matches_thresholds(10, &above));
    let below = OptimalThresholds { above: None, below: Some(20) };
    assert!(value_matches_thresholds(i64::MIN, &below));
    assert!(!value_matches_thresholds(21, &below));
    let none = OptimalThresholds { above: None, below: None };
    assert!(!value_matches_thresholds(0, &none));
}

#[test]
fn clamping_is_idempotent() {
    assert_eq!(clamp_probability(0), 10_000);
    assert_eq!(clamp_probability(1_000_000), 990_000);
    assert_eq!(clamp_probability(500_000), 500_000);
    for p in [0u64, 10_000, 123_456, 990_000, 1_000_000] {
        let once = clamp_probability(p);
        assert_eq!(clamp_probability(once), once);
    }
    assert_eq!(clamp_preserve_discrimination(0, 1_000_000), (10_000, 990_000));
}

#[test]
fn swapping_polarity_swaps_probabilities() {
    let (pt, pf, dp) = assemble_probabilities(1, 4, 3, 4);
    let (qt, qf, dq) = assemble_probabilities(3, 4, 1, 4);
    assert_eq!((pt, pf), (250_000, 750_000));
    assert_eq!((qt, qf), (pf, pt));
    assert_eq!(dp, dq);
    assert_eq!(dp, 500_000);
}

#[test]
fn probability_formulas() {
    assert_eq!(probability_ppm(1, 3), 333_333);
    assert_eq!(probability_ppm(5, 0), 0);
    assert_eq!(probability_ppm(3, 2), 1_000_000);
    assert_eq!(discrimination_power(10_000, 990_000), 980_000);
    assert_eq!(assemble_probabilities(2, 1, 0, 2), (990_000, 10_000, 980_000));
}

#[test]
fn optimal_threshold_beats_every_single_candidate() {
    let st = stats(
        vec![vd(1 * UNIT, 2000), vd(5 * UNIT, 3000), vd(9 * UNIT, 1000)],
        vec![vd(2 * UNIT, 4000), vd(6 * UNIT, 1000), vd(7 * UNIT, 2000)],
    );
    let best = find_optimal_numeric_thresholds(&st);
    let mut ts = st.true_chunks.clone();
    let mut fs = st.false_chunks.clone();
    ts.sort_by_key(|c| c.value);
    fs.sort_by_key(|c| c.value);
    let best_score = calculate_threshold_score(&ts, &fs, best.above, best.below);
    for c in threshold_candidates(&st) {
        assert!(calculate_threshold_score(&ts, &fs, Some(c), None) <= best_score);
        assert!(calculate_threshold_score(&ts, &fs, None, Some(c)) <= best_score);
    }
}

#[test]
fn no_search_without_both_polarities() {
    let st = stats(vec![vd(1, 2000)], vec![]);
    assert_eq!(find_optimal_numeric_thresholds(&st), OptimalThresholds { above: None, below: None });
}

#[test]
fn candidates_hold_values_midpoints_and_spaced_points() {
    let st = stats(vec![vd(0, 2000)], vec![vd(20 * UNIT, 2000)]);
    let c = threshold_candidates(&st);
    assert!(c.contains(&0));
    assert!(c.contains(&(20 * UNIT)));
    assert!(c.contains(&(10 * UNIT)));
    assert!(c.contains(&UNIT));
    assert_eq!(c.len(), 21);
    assert!(c.windows(2).all(|w| w[0] < w[1]));
}

#[test]
fn binary_searches_find_boundaries() {
    let chunks = vec![vd(1, 1000), vd(3, 1000), vd(3, 1000), vd(7, 1000)];
    assert_eq!(binary_search_first_above(&chunks, 3), 3);
    assert_eq!(binary_search_first_above(&chunks, 0), 0);
    assert_eq!(binary_search_last_below(&chunks, 7), 4);
    assert_eq!(binary_search_last_below(&chunks, 2), 1);
    let r = calculate_chunks_in_range(&chunks, Some(1), Some(3));
    assert_eq!(r.matching_duration, 2000);
    assert_eq!(r.total_duration, 4000);
}

#[test]
fn threshold_descriptions() {
    assert_eq!(format_threshold_description(&OptimalThresholds { above: Some(1_500_000), below: Some(22_004_999) }), "1.50 < value <= 22.00");
    assert_eq!(format_threshold_description(&OptimalThresholds { above: Some(-2_345_000), below: None }), "> -2.35");
    assert_eq!(format_threshold_description(&OptimalThresholds { above: None, below: Some(5_000) }), "<= 0.01");
    assert_eq!(format_threshold_description(&OptimalThresholds { above: None, below: None }), "numeric");
}

#[test]
fn number_texts() {
    assert_eq!(decimal_text(0), "0");
    assert_eq!(decimal_text(1234567890), "1234567890");
    assert_eq!(signed_decimal_text(-42), "-42");
    assert_eq!(fixed2_text(21_000_000), "21.00");
    assert_eq!(fixed2_text(-1_000), "-0.00");
}

#[test]
fn cache_key_uses_first_five_pairs() {
    let st = stats(
        vec![vd(UNIT, 1000), vd(2 * UNIT, 2000), vd(3 * UNIT, 3000), vd(4 * UNIT, 4000), vd(5 * UNIT, 5000), vd(6 * UNIT, 6000)],
        vec![vd(1_500_000, 1500)],
    );
    assert_eq!(get_cache_key(&st), "1.00-1000,2.00-2000,3.00-3000,4.00-4000,5.00-5000|1.50-1500");
}

#[test]
fn timestamps_parse_to_millis() {
    assert_eq!(parse_timestamp("1970-01-01T00:00:01.250Z"), 1250);
    assert_eq!(parse_timestamp("2024-01-01T00:00:00+01:00"), 1704063600000);
    assert_eq!(parse_timestamp("not a time"), 0);
}

#[test]
fn numeric_classification_ignores_sentinels() {
    let h = vec![entry("1", 0), entry("unavailable", 1), entry("unknown", 2), entry("x", 3), entry("2", 4), entry("3", 5)];
    assert!(is_numeric_entity(&h));
    let h2 = vec![entry("1", 0), entry("a", 1), entry("b", 2)];
    assert!(!is_numeric_entity(&h2));
    let sentinels = vec![entry("unavailable", 0), entry("unknown", 1)];
    assert!(!is_numeric_entity(&sentinels));
    assert!(!is_numeric_entity(&[]));
}

#[test]
fn numeric_states_split_by_polarity() {
    let history = vec![entry("10", 0), entry("20", 5), entry("30", 12)];
    let periods = vec![period("a", 0, 10, true), period("b", 10, 20, false)];
    let st = analyze_numeric_states(&history, &periods).unwrap();
    assert_eq!(st.true_chunks, vec![vd(10 * UNIT, 5000), vd(20 * UNIT, 5000)]);
    assert_eq!(st.false_chunks, vec![vd(20 * UNIT, 2000), vd(30 * UNIT, 8000)]);
    assert_eq!(st.min, Some(10 * UNIT));
    assert_eq!(st.max, Some(30 * UNIT));
    assert!(analyze_numeric_states(&[], &periods).is_none());
}

#[test]
fn unsorted_history_is_ordered_by_time() {
    let history = vec![entry("30", 12), entry("10", 0), entry("20", 5)];
    let periods = vec![period("a", 0, 10, true)];
    let chunks = create_sensor_period_chunks(&history, &periods);
    let values: Vec<i64> = chunks.iter().map(|c| c.sensor_value).collect();
    assert_eq!(values, vec![10 * UNIT, 20 * UNIT]);
}

#[test]
fn unified_timeline_prefers_true_when_overlapping() {
    let history = vec![entry("on", 0)];
    let periods = vec![period("a", 0, 10, false), period("b", 5, 10, true)];
    let segs = create_unified_timeline(&history, &periods);
    assert!(segs.iter().any(|s| s.start == 5000 && s.end == 10000 && s.is_true_period));
    assert!(segs.iter().any(|s| s.start == 0 && s.end == 5000 && !s.is_true_period));
}

#[test]
fn state_durations_per_state() {
    let history = vec![entry("on", 0), entry("off", 4)];
    let periods = vec![period("a", 0, 10, true), period("b", 10, 13, false)];
    let rows = analyze_state_chunks(&history, &periods);
    let on = rows.iter().find(|r| r.state == "on").unwrap();
    let off = rows.iter().find(|r| r.state == "off").unwrap();
    assert_eq!((on.true_duration, on.false_duration), (4000, 0));
    assert_eq!((off.true_duration, off.false_duration), (6000, 3000));
}

#[test]
fn states_per_period_count_distinct_periods() {
    let history = vec![entry("on", 0), entry("off", 5), entry("on", 25)];
    let periods = vec![
        period("a", 0, 10, true),
        period("b", 0, 10, true),
        period("c", 20, 30, false),
    ];
    let rows = analyze_state_segments_with_periods(&history, &periods);
    let on = rows.iter().find(|r| r.0 == "on").unwrap();
    let off = rows.iter().find(|r| r.0 == "off").unwrap();
    assert_eq!((on.1.true_occurrences, on.1.false_occurrences), (1, 1));
    assert_eq!((off.1.true_occurrences, off.1.false_occurrences), (1, 1));
}

#[test]
fn numeric_segment_means() {
    let segs = vec![
        StateSegment { start: 0, end: 1000, state: "1".to_string(), value: Some(UNIT), is_true_period: true, period_start: 0 },
        StateSegment { start: 0, end: 1000, state: "2".to_string(), value: Some(2 * UNIT), is_true_period: true, period_start: 0 },
        StateSegment { start: 0, end: 1000, state: "x".to_string(), value: None, is_true_period: false, period_start: 0 },
    ];
    let rows = analyze_numeric_segments(&segs);
    assert_eq!(rows[0].0, "mean_true: 1.50, mean_false: 0.00");
    assert_eq!((rows[0].1.true_occurrences, rows[0].1.false_occurrences), (2, 0));
}

#[test]
fn timeline_drops_segments_shorter_than_a_second() {
    let history = vec![entry("on", 0), entry("off", 10)];
    let periods = vec![period("a", 0, 10, true), period("b", 10, 20, false)];
    let segs = create_unified_timeline(&history, &periods);
    assert!(!segs.is_empty());
    assert!(segs.iter().all(|s| s.end - s.start >= 1000));
}

#[test]
fn state_recurring_within_one_period_counts_once() {
    let history = vec![(
        "switch.fan".to_string(),
        vec![entry("on", 0), entry("off", 3), entry("on", 6)],
    )];
    let periods = vec![period("a", 0, 10, true), period("b", 20, 30, false)];
    let mut calc = BayesianCalculator::new();
    let rows = calc.calculate_entity_probabilities(&history, &periods).unwrap();
    let on = rows.iter().find(|r| r.state == "on").unwrap();
    assert_eq!(on.true_occurrences, 1);
    assert_eq!(on.prob_given_true, 990_000);
    assert!(rows.iter().filter(|r| r.state == "on").count() == 1);
}

#[test]
fn state_in_force_at_period_start_is_counted() {
    let history = vec![entry("on", 0), entry("off", 15)];
    let periods = vec![period("a", 10, 20, true)];
    let rows = analyze_state_segments_with_periods(&history, &periods);
    let on = rows.iter().find(|r| r.0 == "on").unwrap();
    assert_eq!(on.1.true_occurrences, 1);
}

#[test]
fn per_period_states_ignore_input_order() {
    let periods = vec![period("a", 10, 20, true)];
    let sorted = analyze_state_segments_with_periods(&[entry("a", 0), entry("b", 5)], &periods);
    let shuffled = analyze_state_segments_with_periods(&[entry("b", 5), entry("a", 0)], &periods);
    assert_eq!(sorted.len(), 1);
    assert_eq!(sorted[0].0, "b");
    assert_eq!(shuffled.len(), 1);
    assert_eq!(shuffled[0].0, "b");
}

#[test]
fn search_keeps_earliest_of_equal_scores() {
    let st = stats(vec![vd(10 * UNIT, 1000)], vec![vd(90 * UNIT, 1000)]);
    assert_eq!(find_optimal_numeric_thresholds(&st), OptimalThresholds { above: Some(10 * UNIT), below: None });
}

#[test]
fn error_leaves_cache_untouched() {
    let history = vec![("sensor.temp".to_string(), vec![entry("10", 0), entry("90", 1)])];
    let mut calc = BayesianCalculator::new();
    assert!(calc.calculate_entity_probabilities(&history, &vec![period("b", 1, 2, false)]).is_err());
    assert_eq!(calc.search_count(), 0);
}

#[test]
fn piece_takes_last_entry_at_its_start() {
    let history = vec![entry("10", 0), entry("20", 5), entry("30", 5)];
    let periods = vec![period("a", 0, 10, true)];
    let chunks = create_sensor_period_chunks(&history, &periods);
    let values: Vec<i64> = chunks.iter().map(|c| c.sensor_value).collect();
    assert_eq!(values, vec![10 * UNIT, 30 * UNIT]);
}
