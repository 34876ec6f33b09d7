use advent::day02_part1::{run as run_part1};
use advent::day02_part2::{run as run_part2};

const GAMES: &str = "Game 1: 3 blue, 4 red; 1 red, 2 green, 6 blue; 2 green
Game 2: 1 blue, 2 green; 3 green, 4 blue, 1 red; 1 green, 1 blue
Game 3: 8 green, 6 blue, 20 red; 5 blue, 4 red, 13 green; 5 green, 1 red
Game 4: 1 green, 3 red, 6 blue; 3 green, 6 red; 3 green, 15 blue, 14 red
Game 5: 6 red, 1 blue, 3 green; 2 blue, 1 red, 2 green";

#[test]
fn day02_part1_test_process() {
    assert_eq!(8, advent::day02_part1::process(GAMES.as_bytes()).unwrap());
}

#[test]
fn day02_part2_test_process() {
    assert_eq!(2286, advent::day02_part2::process(GAMES.as_bytes()).unwrap());
}

#[test]
fn custom_allowances() {
    // a large enough bag makes every game possible
    assert_eq!(15, run_part1(GAMES.as_bytes(), 100, 100, 100).unwrap());
    // a tiny bag rules them all out
    assert_eq!(0, run_part1(GAMES.as_bytes(), 0, 0, 0).unwrap());
}

#[test]
fn bad_games_are_rejected() {
    assert!(run_part1(b"Game 1: 3 blaergh^^", 12, 13, 14).is_err());
    assert!(run_part1(b"Nope 1: 3 blue", 12, 13, 14).is_err());
    // an impossible game skips its header, as only possible games are read
    assert_eq!(0, run_part1(b"Nope 1: 100 red", 12, 13, 14).unwrap());
    assert!(run_part2(b"Game 1: x blue").is_err());
}
