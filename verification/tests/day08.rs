use advent::day08::{is_finished_part1, is_finished_part2, part1, part2, scan_node_line};

const EXAMPLE1: &str = "RL

AAA = (BBB, CCC)
BBB = (DDD, EEE)
CCC = (ZZZ, GGG)
DDD = (DDD, DDD)
EEE = (EEE, EEE)
GGG = (GGG, GGG)
ZZZ = (ZZZ, ZZZ)";

const EXAMPLE2: &str = "LLR

AAA = (BBB, BBB)
BBB = (AAA, ZZZ)
ZZZ = (ZZZ, ZZZ)";

const GHOSTS: &str = "LR

AAA = (AAB, XXX)
AAB = (XXX, AAZ)
AAZ = (AAB, XXX)
BBA = (BBB, XXX)
BBB = (BBC, BBC)
BBC = (BBZ, BBZ)
BBZ = (BBB, BBB)
XXX = (XXX, XXX)
ZZZ = (ZZZ, ZZZ)";

#[test]
fn walks_to_target() {
    assert_eq!(part1(EXAMPLE1.as_bytes()).unwrap(), 2);
    assert_eq!(part1(EXAMPLE2.as_bytes()).unwrap(), 6);
}

#[test]
fn ghost_walks_use_least_common_multiple() {
    assert_eq!(part2(GHOSTS.as_bytes()).unwrap(), 6);
}

#[test]
fn finish_checks() {
    // ZZZ is code 17575; AAZ ends in Z without being ZZZ
    assert!(is_finished_part1(17575));
    assert!(!is_finished_part1(25));
    assert!(is_finished_part2(25));
    assert!(!is_finished_part2(0));
}

#[test]
fn node_lines() {
    assert_eq!(scan_node_line(b"AAA = (BBB, CCC)"), Some((0, 676 + 26 + 1, 2 * 676 + 2 * 26 + 2)));
    assert!(scan_node_line(b"AAA = (BBB CCC)").is_none());
    assert!(scan_node_line(b"garbage").is_none());
    assert!(part1(b"LR\nAAA = (AAA, AAA)").is_err());
    assert!(part1(b"no instructions").is_err());
}
