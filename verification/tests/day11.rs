use advent::day11_part2::{expand_galaxies, parse_input, process, sum_of_expanded_distances,
    Galaxy};

fn g(x: u64, y: u64) -> Galaxy {
    Galaxy { x, y }
}

#[test]
fn test_parse_input() {
    let input = b"...##..";
    let (galaxies, clean) = parse_input(input);
    assert!(clean);
    assert_eq!(galaxies.len(), 2);
    assert_eq!(galaxies[0], g(1, 4));
    assert_eq!(galaxies[1], g(1, 5));
}

const TEST_INPUT: &str = "...#......
.......#..
#.........
..........
......#...
.#........
.........#
..........
.......#..
#...#.....";

#[test]
fn test_parse_test_input() {
    let (galaxies, clean) = parse_input(TEST_INPUT.as_bytes());
    assert!(clean);
    assert_eq!(galaxies.len(), 9);
    assert_eq!(galaxies[0], g(1, 4));
    assert_eq!(galaxies[1], g(2, 8));
    assert_eq!(galaxies[6], g(9, 8));
    assert_eq!(galaxies[7], g(10, 1));
    assert_eq!(galaxies[8], g(10, 5));
}

#[test]
fn test_expand_galaxies() {
    let galaxies = vec![g(1, 5), g(4, 3), g(6, 2)];
    let expanded_galaxies = expand_galaxies(&galaxies, 10).unwrap();
    assert_eq!(expanded_galaxies[0], g(1, 23));
    assert_eq!(expanded_galaxies[1], g(22, 12));
    assert_eq!(expanded_galaxies[2], g(33, 11));
}

#[test]
fn part2_test_expansion_sums() {
    assert_eq!(1030, sum_of_expanded_distances(TEST_INPUT.as_bytes(), 10).unwrap());
    assert_eq!(8410, sum_of_expanded_distances(TEST_INPUT.as_bytes(), 100).unwrap());
    // the flat factor keeps every distance as drawn
    assert_eq!(374, sum_of_expanded_distances(TEST_INPUT.as_bytes(), 2).unwrap());
    assert!(process(TEST_INPUT.as_bytes()).is_ok());
}

#[test]
fn expansion_error_cases() {
    // nothing but empty space: no galaxy to measure from
    assert!(sum_of_expanded_distances(b".....", 10).is_err());
    // a stray byte after the last galaxy
    assert!(sum_of_expanded_distances(b"#..x", 10).is_err());
}
