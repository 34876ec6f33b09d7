use advent::day04_part1::{calculate_game_nr_matches, calculate_game_score,
    get_score_from_number_of_matches};
use advent::day04_part2::calculate_total_num_cards;
use advent::day06_part1::{process as day06_process, Race};
use advent::day06_part2::{concat_numbers, process as day06b_process};

const CARDS: &str = "Card 1: 41 48 83 86 17 | 83 86  6 31 17  9 48 53
Card 2: 13 32 20 16 61 | 61 30 68 82 17 32 24 19
Card 3:  1 21 53 59 44 | 69 82 63 72 16 21 14  1
Card 4: 41 92 73 84 69 | 59 84 76 51 58  5 54 83
Card 5: 87 83 26 28 32 | 88 30 70 12 93 22 82 36
Card 6: 31 18 13 56 72 | 74 77 10 23 35 67 36 11";

#[test]
fn day04_part1_test_process() {
    assert_eq!(13, advent::day04_part1::process(CARDS.as_bytes()).unwrap());
}

#[test]
fn day04_part2_test_process() {
    assert_eq!(30, advent::day04_part2::process(CARDS.as_bytes()).unwrap());
}

#[test]
fn card_matching_and_scores() {
    assert_eq!(
        calculate_game_nr_matches(b"Card 1: 41 48 83 86 17 | 83 86  6 31 17  9 48 53"),
        4
    );
    assert_eq!(calculate_game_nr_matches(b"Card 9: 1 2 | 3 4"), 0);
    assert_eq!(get_score_from_number_of_matches(0), 0);
    assert_eq!(get_score_from_number_of_matches(1), 1);
    assert_eq!(get_score_from_number_of_matches(4), 8);
    assert_eq!(
        calculate_game_score(b"Card 1: 41 48 83 86 17 | 83 86  6 31 17  9 48 53"),
        8
    );
    assert_eq!(calculate_total_num_cards(vec![4, 2, 2, 1, 0, 0]), 30);
}

#[test]
fn race_ways_to_win() {
    assert_eq!(Race::new(7, 9).ways_to_win(), 4);
    assert_eq!(Race::new(15, 40).ways_to_win(), 8);
    assert_eq!(Race::new(30, 200).ways_to_win(), 9);
    // an unbeatable record reports a worthless nonpositive figure
    assert!(Race::new(4, 100).ways_to_win() <= 0);
}

#[test]
fn day06_part1_test_process() {
    let input = "Time:      7  15   30\nDistance:  9  40  200";
    assert_eq!(288, day06_process(input.as_bytes()).unwrap());
}

#[test]
fn day06_part2_test_process() {
    let input = "Time:      7  15   30\nDistance:  9  40  200";
    assert_eq!(71503, day06b_process(input.as_bytes()).unwrap());
}

#[test]
fn glued_numbers() {
    assert_eq!(concat_numbers(&vec![7, 15, 30]), Some(71530));
    assert_eq!(concat_numbers(&vec![9, 40, 200]), Some(940200));
    assert_eq!(concat_numbers(&vec![]), None);
    assert_eq!(concat_numbers(&vec![1, -2]), None);
    assert_eq!(concat_numbers(&vec![i64::MAX, 9]), None);
}
