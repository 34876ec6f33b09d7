use advent::day01_part1::{parse_line, process};

const EXAMPLE: &str = "1abc2
pqr3stu8vwx
a1b2c3d4e5f
treb7uchet";

#[test]
fn part1_test_day1() {
    assert_eq!(process(EXAMPLE.as_bytes()).unwrap(), 142);
}

#[test]
fn calibration_lines() {
    assert_eq!(parse_line(b"1abc2"), Some(12));
    assert_eq!(parse_line(b"pqr3stu8vwx"), Some(38));
    assert_eq!(parse_line(b"treb7uchet"), Some(77));
    assert_eq!(parse_line(b"nodigits"), None);
    assert!(process(b"1a\nbcd").is_err());
}

#[test]
fn line_test() {
    let cases: Vec<(&str, u32)> = vec![
        ("two1nine", 29),
        ("eightwothree", 83),
        ("abcone2threexyz", 13),
        ("xtwone3four", 24),
        ("4nineeightseven2", 42),
        ("zoneight234", 14),
        ("7pqrstsixteen", 76),
        ("fivezg8jmf6hrxnhgxxttwoneg", 51),
    ];
    for (line, expected) in cases {
        assert_eq!(advent::day01_part2::parse_line(line.as_bytes()), Some(expected));
    }
}

#[test]
fn spelled_out_digits_sum() {
    let first = "1abc2\npqr3stu8vwx\na1b2c3d4e5f\ntreb7uchet";
    assert_eq!(advent::day01_part2::process(first.as_bytes()).unwrap(), 142);
    let second = "two1nine\neightwothree\nabcone2threexyz\nxtwone3four\n4nineeightseven2\nzoneight234\n7pqrstsixteen";
    assert_eq!(advent::day01_part2::process(second.as_bytes()).unwrap(), 281);
    assert_eq!(advent::day01_part2::str_to_u32(b"seven"), Some(7));
    assert_eq!(advent::day01_part2::str_to_u32(b"0"), Some(0));
    assert_eq!(advent::day01_part2::str_to_u32(b"six7"), Some(6));
    assert_eq!(advent::day01_part2::str_to_u32(b"bogus"), None);
}
