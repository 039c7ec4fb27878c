use flop_server::cards::{Card, CardSuite, CardValue, Deck, EvaluatedHand, HandStrength};

fn parse_shorthand(s: &str) -> Card {
    assert!(s.len() == 2 || s.len() == 3, "invalid card shorthand");
    let suite_start = s.len() - 1;

    let suite = match &s[suite_start..] {
        "h" => CardSuite::Hearts,
        "d" => CardSuite::Diamonds,
        "c" => CardSuite::Clubs,
        "s" => CardSuite::Spades,
        _ => panic!("invalid suite"),
    };
    let value = match &s[0..suite_start] {
        "2" => CardValue::Two,
        "3" => CardValue::Three,
        "4" => CardValue::Four,
        "5" => CardValue::Five,
        "6" => CardValue::Six,
        "7" => CardValue::Seven,
        "8" => CardValue::Eight,
        "9" => CardValue::Nine,
        "10" => CardValue::Ten,
        "J" => CardValue::Jack,
        "K" => CardValue::King,
        "Q" => CardValue::Queen,
        "A" => CardValue::Ace,
        _ => panic!("invalid value"),
    };
    Card { suite, value }
}

fn cards_1p(player: &str, table: &str) -> ((Card, Card), Vec<Card>) {
    let player = player
        .split_once(" ")
        .map(|(a, b)| (parse_shorthand(a), parse_shorthand(b)))
        .unwrap();
    let table = table.split_whitespace().map(parse_shorthand).collect::<Vec<_>>();
    (player, table)
}

fn cards_2p(player_1: &str, player_2: &str, table: &str) -> ((Card, Card), (Card, Card), Vec<Card>) {
    let player_1 = player_1
        .split_once(" ")
        .map(|(a, b)| (parse_shorthand(a), parse_shorthand(b)))
        .unwrap();
    let player_2 = player_2
        .split_once(" ")
        .map(|(a, b)| (parse_shorthand(a), parse_shorthand(b)))
        .unwrap();
    let table = table.split_whitespace().map(parse_shorthand).collect::<Vec<_>>();
    (player_1, player_2, table)
}

fn score_of(player: &str, table: &str) -> EvaluatedHand {
    let (player_cards, table_cards) = cards_1p(player, table);
    Card::evaluate_hand(&player_cards, &table_cards)
}

#[test]
fn cards_evaluate_hand_royal_flush() {
    let (player_cards, table_cards) = cards_1p("Ah Kh", "Qh Jh 10h 9h 8h");
    let score = Card::evaluate_hand(&player_cards, &table_cards).strength();
    assert_eq!(score, HandStrength::RoyalFlush);
}

#[test]
fn cards_evaluate_hand_straight_flush() {
    let (player_cards, table_cards) = cards_1p("8h 7h", "6h 5h 4h 3c 2c");
    let score = Card::evaluate_hand(&player_cards, &table_cards).strength();
    assert_eq!(score, HandStrength::StraightFlush);
}

#[test]
fn cards_evaluate_hand_four_of_a_kind() {
    let (player_cards, table_cards) = cards_1p("Kh Kd", "Kc Ks 2h 3c 4d");
    let score = Card::evaluate_hand(&player_cards, &table_cards).strength();
    assert_eq!(score, HandStrength::FourOfAKind);
}

#[test]
fn cards_evaluate_hand_full_house() {
    let (player_cards, table_cards) = cards_1p("Kh Kd", "Kc 2h 2c 2s 3d");
    let score = Card::evaluate_hand(&player_cards, &table_cards).strength();
    assert_eq!(score, HandStrength::FullHouse);
}

#[test]
fn cards_evaluate_hand_flush() {
    let (player_cards, table_cards) = cards_1p("Kh 10h", "8h 7h 2h 3c 4d");
    let score = Card::evaluate_hand(&player_cards, &table_cards).strength();
    assert_eq!(score, HandStrength::Flush);
}

#[test]
fn cards_evaluate_hand_straight() {
    let (player_cards, table_cards) = cards_1p("8h 7d", "6h 5h 4c Kc Jd");
    let score = Card::evaluate_hand(&player_cards, &table_cards).strength();
    assert_eq!(score, HandStrength::Straight);
}

#[test]
fn cards_evaluate_hand_straight_wheel() {
    let (player_cards, table_cards) = cards_1p("5h 4d", "3h 2h Ac Kc Jd");
    let score = Card::evaluate_hand(&player_cards, &table_cards).strength();
    assert_eq!(score, HandStrength::Straight);
}

#[test]
fn cards_evaluate_hand_three_of_a_kind() {
    let (player_cards, table_cards) = cards_1p("Kh Kd", "Kc 7h 2c 3s 4d");
    let score = Card::evaluate_hand(&player_cards, &table_cards).strength();
    assert_eq!(score, HandStrength::ThreeOfAKind);
}

#[test]
fn cards_evaluate_hand_two_pair() {
    let (player_cards, table_cards) = cards_1p("Kh Kd", "7c 7h 2c 2s 3d");
    let score = Card::evaluate_hand(&player_cards, &table_cards).strength();
    assert_eq!(score, HandStrength::TwoPair);
}

#[test]
fn cards_evaluate_hand_one_pair() {
    let (player_cards, table_cards) = cards_1p("Kh 10c", "Kd 7h 2c 3s 4d");
    let score = Card::evaluate_hand(&player_cards, &table_cards).strength();
    assert_eq!(score, HandStrength::OnePair);
}

#[test]
fn cards_evaluate_hand_compare_players() {
    let (player_1_cards, player_2_cards, table_cards) = cards_2p("Ad Kd", "Qc Jc", "Qh Kh Ah 7h 6s");
    let player_1_score = Card::evaluate_hand(&player_1_cards, &table_cards);
    let player_2_score = Card::evaluate_hand(&player_2_cards, &table_cards);
    assert_eq!(player_1_score.strength(), HandStrength::TwoPair);
    assert_eq!(player_2_score.strength(), HandStrength::OnePair);

    assert!(player_1_score > player_2_score);

    let (player_1_cards, player_2_cards, table_cards) = cards_2p("Ad Ah", "Ac As", "Qs Ks Ah 7s 6s");
    let player_1_score = Card::evaluate_hand(&player_1_cards, &table_cards);
    let player_2_score = Card::evaluate_hand(&player_2_cards, &table_cards);
    assert_eq!(player_1_score.strength(), HandStrength::ThreeOfAKind);
    assert_eq!(player_2_score.strength(), HandStrength::Flush);

    assert!(player_1_score < player_2_score);
}

#[test]
fn evaluated_hands_carry_the_five_card_values() {
    // with three pairs, the two highest make the hand, the higher first, and
    // the highest card left over is the kicker
    let hand = score_of("Kh Kd", "7c 7h 2c 2s 3d");
    assert_eq!(
        hand.cards(),
        &[CardValue::King, CardValue::King, CardValue::Seven, CardValue::Seven, CardValue::Three]
    );
    let hand = score_of("5h 4d", "3h 2h Ac Kc Jd");
    assert_eq!(
        hand.cards(),
        &[CardValue::Five, CardValue::Four, CardValue::Three, CardValue::Two, CardValue::Ace]
    );
    let hand = score_of("Kh 10c", "Qd 7h 2c 3s 4d");
    assert_eq!(hand.strength(), HandStrength::HighCard);
    assert_eq!(
        hand.cards(),
        &[CardValue::King, CardValue::Queen, CardValue::Ten, CardValue::Seven, CardValue::Four]
    );
}

#[test]
fn hand_order_is_antisymmetric_and_reflexive() {
    let a = score_of("Kh Kd", "7c 7h 2c 2s 3d");
    let b = score_of("Kh 10c", "Kd 7h 2c 3s 4d");
    assert_eq!(a.compare(&b), -b.compare(&a));
    assert_eq!(a.compare(&a), 0);
    assert!(a == a);
    assert!(a != b);
}

#[test]
fn hand_order_is_transitive() {
    let a = score_of("Kh Kd", "Kc Ks 2h 3c 4d");
    let b = score_of("Kh Kd", "Kc 2h 2c 2s 3d");
    let c = score_of("Kh 10h", "8h 7h 2h 3c 4d");
    assert!(a > b);
    assert!(b > c);
    assert!(a > c);
}

#[test]
fn stronger_kind_of_hand_wins_whatever_the_values() {
    let pair_of_aces = score_of("Ah Ad", "Kc 7h 2c 3s 4d");
    let two_low_pairs = score_of("2h 2d", "3c 3h 4c 5s 7d");
    assert!(two_low_pairs > pair_of_aces);
}

#[test]
fn equal_values_break_ties_card_by_card() {
    let a = score_of("Ah Kd", "Qc 7h 5c 3s 2d");
    let b = score_of("Ac Qd", "Js 7d 5h 3c 2h");
    assert!(a > b);
}

#[test]
fn hands_with_fewer_than_five_cards_cannot_be_evaluated() {
    let (player_cards, table_cards) = cards_1p("Ah Kd", "Qc 7h");
    assert!(Card::try_evaluate_hand(&player_cards, &table_cards).is_none());
    let (player_cards, table_cards) = cards_1p("Ah Kd", "Qc 7h 5c");
    let hand = Card::try_evaluate_hand(&player_cards, &table_cards).unwrap();
    assert_eq!(hand.strength(), HandStrength::HighCard);
}

#[test]
fn ordered_deck_deals_aces_of_spades_first() {
    let mut deck = Deck::ordered();
    assert!(deck.is_fresh());
    assert_eq!(deck.len(), 52);
    let card = deck.pop();
    assert_eq!(card.suite, CardSuite::Spades);
    assert_eq!(card.value, CardValue::Ace);
    let card = deck.pop();
    assert_eq!(card.suite, CardSuite::Spades);
    assert_eq!(card.value, CardValue::King);
    assert!(!deck.is_fresh());
    assert_eq!(deck.len(), 50);
}

#[test]
fn shuffled_deck_holds_every_card_once() {
    let mut deck = Deck::default();
    assert!(deck.is_fresh());
    let mut seen = std::collections::HashSet::new();
    for _ in 0..52 {
        let card = deck.pop();
        assert!(seen.insert((card.suite as u8, card.value as u8)));
    }
    assert_eq!(seen.len(), 52);
}

#[test]
fn hand_strength_names() {
    assert_eq!(HandStrength::HighCard.to_string(), "High Card");
    assert_eq!(HandStrength::OnePair.to_string(), "Pair");
    assert_eq!(HandStrength::ThreeOfAKind.to_string(), "Three of a Kind");
    assert_eq!(HandStrength::RoyalFlush.to_string(), "Royal Flush");
}

#[test]
fn full_house_takes_the_highest_three_of_a_kind() {
    let hand = score_of("Kh Kd", "Kc 2h 2c 2s 3d");
    assert_eq!(hand.strength(), HandStrength::FullHouse);
    assert_eq!(hand.cards(), &[CardValue::King, CardValue::King, CardValue::King, CardValue::Two, CardValue::Two]);
    let hand = score_of("5h 5d", "5c 9h 9c Qs Qd");
    assert_eq!(hand.cards(), &[CardValue::Five, CardValue::Five, CardValue::Five, CardValue::Queen, CardValue::Queen]);
}

#[test]
fn two_pair_takes_the_two_highest_pairs() {
    let hand = score_of("Kh Kd", "7c 7h 2c 2s 3d");
    assert_eq!(hand.strength(), HandStrength::TwoPair);
    assert_eq!(hand.cards(), &[CardValue::King, CardValue::King, CardValue::Seven, CardValue::Seven, CardValue::Three]);
}

#[test]
fn two_pair_compares_the_higher_pair_first() {
    let (kings_threes, queens_jacks, table) = cards_2p("Kh 3h", "Qh Jh", "Kc 3d Qc Jd 2s");
    let x = Card::evaluate_hand(&kings_threes, &table);
    let y = Card::evaluate_hand(&queens_jacks, &table);
    assert_eq!(x.strength(), HandStrength::TwoPair);
    assert_eq!(y.strength(), HandStrength::TwoPair);
    assert_eq!(x.partial_cmp(&y), Some(std::cmp::Ordering::Greater));
    assert!(x > y);
}
