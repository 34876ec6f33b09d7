use advent::day07::{char_to_value, Card, Hand, NOfAKind, Play};

#[test]
fn test_parse_play() {
    let play = Play::from_line(b"32T3K 765").unwrap();
    let ns = [2, 1, 1, 1];
    let vs = [3, 13, 10, 2];
    let cards = ns
        .iter()
        .zip(vs.iter())
        .map(|(n, v)| NOfAKind { n: *n, value: Card(*v) })
        .collect();
    assert_eq!(play, Play::new(Hand { cards }, 765));
}

#[test]
fn hand_scores_and_cards() {
    let play = Play::from_line(b"QQQJA 483").unwrap();
    // three queens, a jack and an ace: score nine plus one plus one
    assert_eq!(play.hand.n_score(), 11);
    assert_eq!(
        play.hand.cards_as_vec(),
        vec![Card(12), Card(12), Card(12), Card(14), Card(11)]
    );
    assert_eq!(play.bid, 483);
    assert_eq!(char_to_value(b'A'), Card(14));
    assert_eq!(char_to_value(b'7'), Card(7));
}

#[test]
fn bad_plays_are_rejected() {
    assert!(Play::from_line(b"32T3K").is_err());
    assert!(Play::from_line(b"32T3K 765 extra").is_err());
    assert!(Play::from_line(b"32X3K 765").is_err());
    assert!(Play::from_line(b"32T3K bid").is_err());
}
