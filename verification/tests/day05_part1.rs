use advent::day05_part1::{parse_almanac_entry, parse_almanac_name, parse_map, parse_seeds,
    process, AlmanacEntry, RangeMap};

#[test]
fn part1_test_map_apply() {
    let map = RangeMap { source_start: 10, destination_start: 20, length: 10 };
    assert_eq!(Some(20), map.apply(10));
    assert_eq!(Some(21), map.apply(11));
    assert_eq!(Some(29), map.apply(19));
    assert_eq!(None, map.apply(20));
    assert_eq!(None, map.apply(9));
}

#[test]
fn part1_test_almanac_entry_apply() {
    let entry = AlmanacEntry {
        from: b"soil".to_vec(),
        to: b"fertilizer".to_vec(),
        maps: vec![
            RangeMap { source_start: 10, destination_start: 20, length: 10 },
            RangeMap { source_start: 30, destination_start: 0, length: 10 },
        ],
    };
    assert_eq!(20, entry.apply(10));
    assert_eq!(21, entry.apply(11));
    assert_eq!(29, entry.apply(19));
    assert_eq!(0, entry.apply(30));
    assert_eq!(1, entry.apply(31));
    assert_eq!(9, entry.apply(39));
    assert_eq!(40, entry.apply(40));
    assert_eq!(99999, entry.apply(99999));
}

#[test]
fn part1_test_parse_seeds() {
    let input = b"seeds: 79 14 55 13";
    let (end, seeds) = parse_seeds(input).unwrap();
    assert_eq!(end, input.len());
    assert_eq!(seeds, vec![79, 14, 55, 13]);
}

#[test]
fn part1_test_parse_map() {
    let input = b"50 98 2";
    let (end, map) = parse_map(input, 0).unwrap();
    assert_eq!(end, input.len());
    assert_eq!(map, RangeMap { source_start: 98, destination_start: 50, length: 2 });
}

#[test]
fn part1_test_parse_almanac_name() {
    let input = b"seed-to-soil map:";
    let (end, from, to) = parse_almanac_name(input, 0).unwrap();
    // the name pair ends right before the ` map:` tail
    assert_eq!(&input[end..], b" map:");
    assert_eq!(from, b"seed");
    assert_eq!(to, b"soil");
}

#[test]
fn part1_test_parse_almanac_entry() {
    let input = b"seed-to-soil map:\n50 98 2\n52 50 48";
    let (end, entry) = parse_almanac_entry(input, 0).unwrap();
    assert_eq!(end, input.len());
    assert_eq!(entry.from, b"seed");
    assert_eq!(entry.to, b"soil");
    assert_eq!(entry.maps.len(), 2);
    assert_eq!(entry.maps[0], RangeMap { source_start: 98, destination_start: 50, length: 2 });
    assert_eq!(entry.maps[1], RangeMap { source_start: 50, destination_start: 52, length: 48 });
}

const TEST_INPUT: &str = "seeds: 79 14 55 13

seed-to-soil map:
50 98 2
52 50 48

soil-to-fertilizer map:
0 15 37
37 52 2
39 0 15

fertilizer-to-water map:
49 53 8
0 11 42
42 0 7
57 7 4

water-to-light map:
88 18 7
18 25 70

light-to-temperature map:
45 77 23
81 45 19
68 64 13

temperature-to-humidity map:
0 69 1
1 0 69

humidity-to-location map:
60 56 37
56 93 4";

#[test]
fn part1_test_process() {
    assert_eq!(35, process(TEST_INPUT.as_bytes()).unwrap());
}

#[test]
fn part1_process_rejects_garbage() {
    assert!(process(b"no seeds here").is_err());
    assert!(process(b"seeds: 1 2\nbroken").is_err());
}
