use pkr::card::{Card, PokerError, Rank, Suit};
use pkr::hand::Hand;

#[test]
fn hand_test_create_hand() {
    let cards = vec![
        Card::new_from_str("2h").unwrap(),
        Card::new_from_str("3d").unwrap(),
        Card::new_from_str("4s").unwrap(),
        Card::new_from_str("5c").unwrap(),
        Card::new_from_str("6h").unwrap(),
        Card::new_from_str("7d").unwrap(),
        Card::new_from_str("8s").unwrap(),
    ];

    let hand = Hand::new(cards);

    assert!(hand.is_ok());

    let hand = hand.unwrap();
    assert_eq!(hand.get_cards().len(), 7)
}

#[test]
fn hand_test_create_hand_with_wrong_number_of_cards() {
    let cards = vec![Card::new_from_str("3d").unwrap()];

    let result = Hand::new(cards);
    assert!(result.is_err());
}

#[test]
fn test_straight_flushes() {
    let hand = Hand::new_from_str("2s As Js Ks Qs 9c Ts").unwrap();
    let score = hand.get_score();
    assert_eq!(score, 8_000_000 + 14);

    let hand = Hand::new_from_str("2s Kc Js Ks Qs 9s Ts").unwrap();
    let score = hand.get_score();

    assert_eq!(score, 8_000_000 + 13);

    let hand = Hand::new_from_str("9h 8h Jc Tc Qh Jh Th").unwrap();
    let score = hand.get_score();
    assert_eq!(score, 8_000_000 + 12);

    let hand = Hand::new_from_str("2s 7s Js 9s 8s 9c Ts").unwrap();
    let score = hand.get_score();
    assert_eq!(score, 8_000_000 + 11);

    let hand = Hand::new_from_str("9d 8d Td 7d 6d 3c Th Kh Qd").unwrap();
    let score = hand.get_score();
    assert_eq!(score, 8_000_000 + 10);

    let hand = Hand::new_from_str("9d 8d 5d 6d 7d").unwrap();
    let score = hand.get_score();
    assert_eq!(score, 8_000_000 + 9);

    let hand = Hand::new_from_str("4c 5c 6c 7c 8c 3c 2c").unwrap();
    let score = hand.get_score();
    assert_eq!(score, 8_000_000 + 8);

    let hand = Hand::new_from_str("7d 7c 7s 6d 5d 3d 4d").unwrap();
    let score = hand.get_score();
    assert_eq!(score, 8_000_000 + 7);

    let hand = Hand::new_from_str("6d 5d 4d 3d 2d Ad").unwrap();
    let score = hand.get_score();
    assert_eq!(score, 8_000_000 + 6);

    let hand = Hand::new_from_str("2d Ad 3d 4d 5d 3c Th").unwrap();
    let score = hand.get_score();
    assert_eq!(score, 8_000_000 + 5);
}

#[test]
fn test_four_of_a_kind() {
    let hand = Hand::new_from_str("As Ac Ad Ah Ts 9c Qs").unwrap();
    let score = hand.get_score();
    assert_eq!(score, 7_000_000 + (14 << 4) + 12);

    let hand = Hand::new_from_str("As Ac Ad Ah").unwrap();
    let score = hand.get_score();
    assert_eq!(score, 7_000_000 + 14);

    let hand = Hand::new_from_str("9c Ks Kc Kd Kh Ts 2s").unwrap();
    let score = hand.get_score();
    assert_eq!(score, 7_000_000 + (13 << 4) + 10);

    let hand = Hand::new_from_str("Qs Qc Qd Qh 8s 9c 9s").unwrap();
    let score = hand.get_score();
    assert_eq!(score, 7_000_000 + (12 << 4) + 9);

    let hand = Hand::new_from_str("2s 2c 2d 2h As 9c Qs").unwrap();
    let score = hand.get_score();
    assert_eq!(score, 7_000_000 + (2 << 4) + 14);
}

#[test]
fn test_full_house() {
    let hand = Hand::new_from_str("As Ac Ad Kh Ts Kc Qs").unwrap();
    let score = hand.get_score();
    assert_eq!(score, 6_000_000 + (14 << 4) + 13);

    let hand = Hand::new_from_str("Ks Qc Kd Kh Qd").unwrap();
    let score = hand.get_score();
    assert_eq!(score, 6_000_000 + (13 << 4) + 12);

    let hand = Hand::new_from_str("Tc 9s 9c Td 9h Ts 2s").unwrap();
    let score = hand.get_score();
    assert_eq!(score, 6_000_000 + (10 << 4) + 9);

    let hand = Hand::new_from_str("4s 4c 4d 5h 5s 9c 9s").unwrap();
    let score = hand.get_score();
    assert_eq!(score, 6_000_000 + (4 << 4) + 9);

    let hand = Hand::new_from_str("2s 2c 2d 3h As 3c Qs").unwrap();
    let score = hand.get_score();
    assert_eq!(score, 6_000_000 + (2 << 4) + 3);
}

#[test]
fn test_flush() {
    let hand = Hand::new_from_str("As Ks Qs Js 9s 8s 7s").unwrap();
    let score = hand.get_score();
    assert_eq!(
        score,
        5_000_000 + (14 << 16) + (13 << 12) + (12 << 8) + (11 << 4) + 9
    );

    // Check corner case vs. lowest full house
    let hand = Hand::new_from_str("2s 2c 2d 3h As 3c Qs").unwrap();
    let score_low_fh = hand.get_score();
    assert!(score < score_low_fh);

    let hand = Hand::new_from_str("Ks Kd Qs Js 9s 9d 7s").unwrap();
    let score = hand.get_score();
    assert_eq!(
        score,
        5_000_000 + (13 << 16) + (12 << 12) + (11 << 8) + (9 << 4) + 7
    );

    let hand = Hand::new_from_str("Qs Js 9s 8s 7s").unwrap();
    let score = hand.get_score();
    assert_eq!(
        score,
        5_000_000 + (12 << 16) + (11 << 12) + (9 << 8) + (8 << 4) + 7
    );

    let hand = Hand::new_from_str("7s Kd Qd 4s 5s 3s 2s").unwrap();
    let score = hand.get_score();
    assert_eq!(
        score,
        5_000_000 + (7 << 16) + (5 << 12) + (4 << 8) + (3 << 4) + 2
    );
}

#[test]
fn test_straight() {
    let hand = Hand::new_from_str("2d Ac Js Ks Qs 9c Ts").unwrap();
    let score = hand.get_score();
    assert_eq!(score, 4_000_000 + 14);

    let hand = Hand::new_from_str("2s Kc Jh Kd Qs 9s Ts").unwrap();
    let score = hand.get_score();

    assert_eq!(score, 4_000_000 + 13);

    let hand = Hand::new_from_str("9c 8h Jc Tc Qs Jh Th").unwrap();
    let score = hand.get_score();
    assert_eq!(score, 4_000_000 + 12);

    let hand = Hand::new_from_str("2c 7c Js 9s 8h 9c Ts").unwrap();
    let score = hand.get_score();
    assert_eq!(score, 4_000_000 + 11);

    let hand = Hand::new_from_str("9h 8d Ts 7d 6c 3c Th Kh Qd").unwrap();
    let score = hand.get_score();
    assert_eq!(score, 4_000_000 + 10);

    let hand = Hand::new_from_str("9c 8h 5d 6d 7d").unwrap();
    let score = hand.get_score();
    assert_eq!(score, 4_000_000 + 9);

    let hand = Hand::new_from_str("4c 5d 6c 7h 8c 3d 2c").unwrap();
    let score = hand.get_score();
    assert_eq!(score, 4_000_000 + 8);

    let hand = Hand::new_from_str("7d 7c 7s 6d 5c 3d 4d").unwrap();
    let score = hand.get_score();
    assert_eq!(score, 4_000_000 + 7);

    let hand = Hand::new_from_str("6d 5d 4d 3c 2d Ac").unwrap();
    let score = hand.get_score();
    assert_eq!(score, 4_000_000 + 6);

    let hand = Hand::new_from_str("2d Ac 3d 4d 5d 3c Th").unwrap();
    let score = hand.get_score();
    assert_eq!(score, 4_000_000 + 5);
}

#[test]
fn test_three_of_a_kind() {
    let hand = Hand::new_from_str("2s Ac Ad Ah Ts 9c Qs").unwrap();
    let score = hand.get_score();
    assert_eq!(score, 3_000_000 + (14 << 8) + (12 << 4) + 10);

    let hand = Hand::new_from_str("As Ac Ad 2h").unwrap();
    let score = hand.get_score();
    assert_eq!(score, 3_000_000 + (14 << 4) + 2);

    let hand = Hand::new_from_str("As Ac Ad").unwrap();
    let score = hand.get_score();
    assert_eq!(score, 3_000_000 + 14);

    let hand = Hand::new_from_str("9c Ks Kc Kd Ah Ts 2s").unwrap();
    let score = hand.get_score();
    assert_eq!(score, 3_000_000 + (13 << 8) + (14 << 4) + 10);

    let hand = Hand::new_from_str("9c 3s 2c 2d Kh Ts 2s").unwrap();
    let score = hand.get_score();
    assert_eq!(score, 3_000_000 + (2 << 8) + (13 << 4) + 10);

    let hand = Hand::new_from_str("2s 2c 2d").unwrap();
    let score = hand.get_score();
    assert_eq!(score, 3_000_000 + 2);
}

#[test]
fn hand_as_str_round_trip() {
    let hand = Hand::new(vec![
        Card {
            rank: Rank::Ace,
            suit: Suit::Club,
        },
        Card {
            rank: Rank::King,
            suit: Suit::Spade,
        },
        Card {
            rank: Rank::Queen,
            suit: Suit::Heart,
        },
        Card {
            rank: Rank::Jack,
            suit: Suit::Diamond,
        },
        Card {
            rank: Rank::Ten,
            suit: Suit::Club,
        },
    ])
    .unwrap();

    assert_eq!(hand.as_str(), "Ac Ks Qh Jd Tc");
    let reparsed = Hand::new_from_str(&hand.as_str()).unwrap();
    assert_eq!(reparsed.get_cards(), hand.get_cards());
}

#[test]
fn hand_sorts_are_stable() {
    let mut hand = Hand::new_from_str("Ah 2s 4d 5h 3h").unwrap();
    hand.sort_by_rank(true).unwrap();
    assert_eq!(hand.as_str(), "2s 3h 4d 5h Ah");

    hand.sort_by_rank(false).unwrap();
    assert_eq!(hand.as_str(), "Ah 5h 4d 3h 2s");

    let mut hand = Hand::new_from_str("Ah Kc Qs Jd Th").unwrap();
    hand.sort_by_suit();
    assert_eq!(hand.as_str(), "Kc Jd Ah Th Qs");

    // Equal ranks keep their original relative order.
    let mut hand = Hand::new_from_str("Ks Kd 2h Kc 2s").unwrap();
    hand.sort_by_rank(false).unwrap();
    assert_eq!(hand.as_str(), "Ks Kd Kc 2h 2s");
}

#[test]
fn hand_add_cards_and_count() {
    let mut hand = Hand::new_from_str("Ah Kc").unwrap();
    assert_eq!(hand.get_count(), 2);
    assert!(hand.add_card(Card::new_from_str("Qs").unwrap()).is_ok());
    assert_eq!(hand.get_count(), 3);
    assert!(hand
        .add_cards(vec![
            Card::new_from_str("Jd").unwrap(),
            Card::new_from_str("Th").unwrap(),
        ])
        .is_ok());
    assert_eq!(hand.get_count(), 5);
    assert_eq!(hand.as_str(), "Ah Kc Qs Jd Th");

    // Appending past the maximum is refused and leaves the hand unchanged.
    let mut full = Hand::new_from_str("2h 3h 4h 5h 6h 7h 8h 9h Th").unwrap();
    assert_eq!(
        full.add_card(Card::new_from_str("Jh").unwrap()).unwrap_err(),
        PokerError::InvalidHandSize
    );
    assert_eq!(full.get_count(), 9);
}

#[test]
fn hand_from_str_errors() {
    assert_eq!(
        Hand::new_from_str("Ah").unwrap_err(),
        PokerError::InvalidHandSize
    );
    assert_eq!(
        Hand::new_from_str("Ah Kc Qs Jd Th 9h 8h 7h 6h 5h").unwrap_err(),
        PokerError::InvalidHandSize
    );
    assert_eq!(
        Hand::new_from_str("Ah Kc Zz").unwrap_err(),
        PokerError::InvalidCardToken
    );
    assert_eq!(
        Hand::new_from_str("Ah Kc Q").unwrap_err(),
        PokerError::InvalidCardToken
    );
    // The size check comes first, even when a token is malformed.
    assert_eq!(
        Hand::new_from_str("Zz").unwrap_err(),
        PokerError::InvalidHandSize
    );
}

#[test]
fn hand_get_ranks_and_cards_of_suit() {
    let hand = Hand::new(vec![
        Card::new(Rank::Ace, Suit::Heart),
        Card::new(Rank::Two, Suit::Spade),
        Card::new(Rank::Four, Suit::Diamond),
        Card::new(Rank::Five, Suit::Heart),
        Card::new(Rank::Three, Suit::Heart),
    ])
    .unwrap();

    let ranks = hand.get_ranks();
    assert_eq!(
        ranks,
        vec![Rank::Ace, Rank::Two, Rank::Four, Rank::Five, Rank::Three]
    );

    let hearts = hand.cards_of_suit(Suit::Heart);
    assert_eq!(hearts.len(), 3);
    assert_eq!(hearts[0], Card::new(Rank::Ace, Suit::Heart));
    assert_eq!(hearts[1], Card::new(Rank::Five, Suit::Heart));
    assert_eq!(hearts[2], Card::new(Rank::Three, Suit::Heart));
}
