use advent::day12_part1::{parse_line, process, Spring, SpringProblem};

fn arrangements_of(line: &str) -> u32 {
    let (springs, record) = parse_line(line.as_bytes()).unwrap();
    let problem = SpringProblem { springs: &springs, record: &record };
    problem.arrangements(0)
}

#[test]
fn arrangement_counts() {
    assert_eq!(arrangements_of("? 1"), 1);
    assert_eq!(arrangements_of("?.###. 1,3"), 1);
    assert_eq!(arrangements_of("??.###. 1,3"), 2);
    assert_eq!(arrangements_of(".??.###. 1,3"), 2);
    assert_eq!(arrangements_of(".??.#?#. 1,3"), 2);
    assert_eq!(arrangements_of(".??.?##. 1,2"), 2);
    assert_eq!(arrangements_of(".??..??..?##. 1,2"), 4);
    assert_eq!(arrangements_of("#?#?#?#? 1,6"), 1);
    assert_eq!(arrangements_of("?# 1"), 1);
    assert_eq!(arrangements_of("???.### 1,1,3"), 1);
    assert_eq!(arrangements_of("?###???????? 3,2,1"), 10);
}

#[test]
fn parse_line_reads_both_parts() {
    let (springs, record) = parse_line(b"?..#? 1,1").unwrap();
    assert_eq!(record, vec![1, 1]);
    assert_eq!(
        springs,
        vec![
            Spring::Unknown,
            Spring::Operational,
            Spring::Operational,
            Spring::Damaged,
            Spring::Unknown,
        ]
    );
    assert!(parse_line(b"no-record-here").is_none());
    assert!(parse_line(b"??x 1").is_none());
    assert!(parse_line(b"?? 1,,2").is_none());
}

const TEST_INPUT: &str = "???.### 1,1,3
.??..??...?##. 1,1,3
?#?#?#?#?#?#?#? 1,3,1,6
????.#...#... 4,1,1
????.######..#####. 1,6,5
?###???????? 3,2,1";

#[test]
fn test_process() {
    assert_eq!(21, process(TEST_INPUT.as_bytes()).unwrap());
}
