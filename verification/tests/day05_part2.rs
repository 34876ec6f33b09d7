use advent::day05_part2::{parse_map, parse_seeds, process, AlmanacEntry, Interval, RangeMap,
    RangeMapResult};

fn iv(start: u64, end: u64) -> Interval {
    Interval { start, end }
}

#[test]
fn part2_test_map_apply() {
    let map = RangeMap { source_range: iv(10, 20), destination_range: iv(20, 30) };
    let expected_result = RangeMapResult {
        below_range: None,
        above_range: None,
        result: Some(iv(20, 30)),
    };
    assert_eq!(expected_result, map.apply(iv(10, 20)));

    let expected_result = RangeMapResult {
        below_range: Some(iv(0, 10)),
        above_range: Some(iv(20, 40)),
        result: Some(iv(20, 30)),
    };
    assert_eq!(expected_result, map.apply(iv(0, 40)));

    let expected_result = RangeMapResult {
        below_range: None,
        above_range: None,
        result: Some(iv(22, 26)),
    };
    assert_eq!(expected_result, map.apply(iv(12, 16)));

    let expected_result = RangeMapResult {
        below_range: Some(iv(2, 8)),
        above_range: None,
        result: None,
    };
    assert_eq!(expected_result, map.apply(iv(2, 8)));

    let expected_result = RangeMapResult {
        below_range: None,
        above_range: Some(iv(101, 129)),
        result: None,
    };
    assert_eq!(expected_result, map.apply(iv(101, 129)));
}

#[test]
fn part2_test_almanac_entry_apply() {
    let entry = AlmanacEntry {
        from: b"soil".to_vec(),
        to: b"fertilizer".to_vec(),
        maps: vec![
            RangeMap { source_range: iv(98, 100), destination_range: iv(50, 52) },
            RangeMap { source_range: iv(50, 98), destination_range: iv(52, 100) },
        ],
    };
    assert_eq!(vec![iv(81, 95)], entry.apply(iv(79, 93)));
    assert_eq!(vec![iv(57, 70)], entry.apply(iv(55, 68)));
    assert_eq!(
        vec![iv(50, 52), iv(52, 100), iv(0, 50), iv(100, 150)],
        entry.apply(iv(0, 150))
    );
}

#[test]
fn part2_test_parse_seeds() {
    let input = b"seeds: 79 14 55 13";
    let (end, seed_ranges) = parse_seeds(input).unwrap();
    assert_eq!(end, input.len());
    assert_eq!(seed_ranges, vec![iv(79, 93), iv(55, 68)]);
}

#[test]
fn part2_test_parse_map() {
    let input = b"50 98 2";
    let (end, map) = parse_map(input, 0).unwrap();
    assert_eq!(end, input.len());
    assert_eq!(
        map,
        RangeMap { source_range: iv(98, 100), destination_range: iv(50, 52) }
    );
}

const TEST_INPUT: &str = "seeds: 79 14 55 13

seed-to-soil map:
50 98 2
52 50 48

soil-to-fertilizer map:
0 15 37
37 52 2
39 0 15

fertilizer-to-water map:
49 53 8
0 11 42
42 0 7
57 7 4

water-to-light map:
88 18 7
18 25 70

light-to-temperature map:
45 77 23
81 45 19
68 64 13

temperature-to-humidity map:
0 69 1
1 0 69

humidity-to-location map:
60 56 37
56 93 4";

#[test]
fn part2_test_process() {
    assert_eq!(46, process(TEST_INPUT.as_bytes()).unwrap());
}
