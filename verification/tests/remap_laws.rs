//! Scenario checks for the interval remapper beyond the carried-over
//! tests: construction guards, empty inputs, and chained stages.

use advent::day05_part2::{apply_pipeline, minimum_reachable_start, AlmanacEntry, Interval,
    RangeMap};
use advent::Error;

fn span(start: u64, end: u64) -> Interval {
    Interval { start, end }
}

fn stage(maps: Vec<RangeMap>) -> AlmanacEntry {
    AlmanacEntry { from: b"a".to_vec(), to: b"b".to_vec(), maps }
}

#[test]
fn interval_construction_guards() {
    assert_eq!(Interval::new(3, 7), Ok(span(3, 7)));
    assert_eq!(Interval::new(7, 3), Err(Error::InvalidInterval));
    assert!(span(5, 5).is_empty());
    assert!(!span(5, 6).is_empty());
}

#[test]
fn range_map_construction_guards() {
    assert!(RangeMap::new(span(0, 10), span(20, 30)).is_ok());
    assert_eq!(RangeMap::new(span(0, 10), span(20, 25)), Err(Error::InvalidInterval));
    assert!(RangeMap::from_starts(0, u64::MAX, 1).is_err());
    assert!(RangeMap::from_starts(u64::MAX, 0, 1).is_err());
    assert!(RangeMap::from_starts(0, 0, u64::MAX).is_ok());
}

#[test]
fn empty_interval_vanishes() {
    let st = stage(vec![RangeMap { source_range: span(0, 100), destination_range: span(100, 200) }]);
    assert_eq!(st.apply(span(50, 50)), Vec::<Interval>::new());
}

#[test]
fn untouched_interval_passes_through() {
    let st = stage(vec![RangeMap { source_range: span(100, 200), destination_range: span(0, 100) }]);
    assert_eq!(st.apply(span(10, 20)), vec![span(10, 20)]);
}

#[test]
fn chained_stages_compose() {
    // seed [79,93) through one stage, then an identity-shifting second stage
    let st1 = stage(vec![
        RangeMap { source_range: span(98, 100), destination_range: span(50, 52) },
        RangeMap { source_range: span(50, 98), destination_range: span(52, 100) },
    ]);
    let st2 = stage(vec![
        RangeMap { source_range: span(0, 200), destination_range: span(100, 300) },
    ]);
    let out = apply_pipeline(vec![span(79, 93)], &vec![st1, st2]);
    assert_eq!(out, vec![span(181, 195)]);
}

#[test]
fn minimum_reachable_start_reports_empty_input() {
    let st = stage(vec![RangeMap { source_range: span(0, 10), destination_range: span(10, 20) }]);
    assert_eq!(
        minimum_reachable_start(Vec::new(), &vec![st]),
        Err(Error::EmptyInput)
    );
    let st = stage(vec![RangeMap { source_range: span(0, 10), destination_range: span(10, 20) }]);
    assert_eq!(
        minimum_reachable_start(vec![span(7, 7)], &vec![st]),
        Err(Error::EmptyInput)
    );
}

#[test]
fn minimum_reachable_start_takes_least_value() {
    let st = stage(vec![
        RangeMap { source_range: span(10, 20), destination_range: span(90, 100) },
        RangeMap { source_range: span(30, 40), destination_range: span(5, 15) },
    ]);
    // values 10..20 move up, 30..40 move down to 5..15, 25 stays put
    assert_eq!(
        minimum_reachable_start(vec![span(10, 20), span(25, 26), span(30, 40)], &vec![st]),
        Ok(5)
    );
}

#[test]
fn largest_interval_is_handled() {
    let st = stage(vec![RangeMap { source_range: span(1, 2), destination_range: span(0, 1) }]);
    assert_eq!(
        minimum_reachable_start(vec![span(1, u64::MAX)], &vec![st]),
        Ok(0)
    );
}

#[test]
fn not_implemented_message() {
    assert_eq!(advent::util::not_implemented_error("day3"), "day3 not implemented");
}
