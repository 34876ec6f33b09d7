use advent::day09::{get_prediction_part1, get_prediction_part2, is_all_zero, parse_one_line,
    part1, part2, vec_diff};

#[test]
fn test_parse_one_line() {
    let line = "1 2 3 4";
    let expected = vec![1, 2, 3, 4];
    assert_eq!(parse_one_line(line.as_bytes()).unwrap(), expected);
}

#[test]
fn test_vec_diff() {
    let v = vec![1, 2, 3, 4];
    let expected = vec![1, 1, 1];
    assert_eq!(vec_diff(&v), expected);
}

#[test]
fn test_is_all_zero() {
    let v = vec![0, 0, 0];
    assert!(is_all_zero(&v));
    let v = vec![0, 0, 1];
    assert!(!is_all_zero(&v));
}

const TEST_EXAMPLE_INPUT: &str = "0 3 6 9 12 15
1 3 6 10 15 21
10 13 16 21 30 45";

#[test]
fn test_part1_examaple() {
    let expected = 114;
    assert_eq!(part1(TEST_EXAMPLE_INPUT.as_bytes()).unwrap(), expected);
}

#[test]
fn test_part2_examaple() {
    let expected = 2;
    assert_eq!(part2(TEST_EXAMPLE_INPUT.as_bytes()).unwrap(), expected);
}

#[test]
fn predictions_for_single_rows() {
    assert_eq!(get_prediction_part1(vec![0, 3, 6, 9, 12, 15]), 18);
    assert_eq!(get_prediction_part1(vec![1, 3, 6, 10, 15, 21]), 28);
    assert_eq!(get_prediction_part1(vec![10, 13, 16, 21, 30, 45]), 68);
    assert_eq!(get_prediction_part2(vec![10, 13, 16, 21, 30, 45]), 5);
    assert_eq!(get_prediction_part2(vec![0, 3, 6, 9, 12, 15]), -3);
}

#[test]
fn parse_rejects_bad_tokens() {
    assert!(parse_one_line(b"1 2 x").is_none());
    assert!(parse_one_line(b"12ab").is_none());
    assert!(parse_one_line(b"9223372036854775807").is_some());
    assert!(parse_one_line(b"9223372036854775808").is_none());
    assert!(parse_one_line(b"-9223372036854775808").is_some());
    assert!(part1(b"1 2 x").is_err());
}

#[test]
fn parse_handles_negatives() {
    assert_eq!(parse_one_line(b"-1 -2 3").unwrap(), vec![-1, -2, 3]);
}
