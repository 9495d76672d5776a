use pkr::card::Rank;
use pkr::evaluator::{
    evaluate, evaluate_flush, find_flush, find_four_of_a_kind, find_full_house, find_pair,
    find_straight, find_three_of_a_kind, find_two_pair, get_flush_ranks_desc, is_ace_low_straight,
};
use pkr::hand::Hand;

#[test]
fn test_evaluate_flush() {
    let hand = Hand::new_from_str("2s 4s 6s 8s Ts Ks Qs").unwrap();
    let flush_score = evaluate_flush(hand);
    let expected_score = 5000000 + (13 << 16) + (12 << 12) + (10 << 8) + (8 << 4) + 6;
    assert_eq!(flush_score, expected_score);

    let hand = Hand::new_from_str("2s 2h 6s 8s Ts Ks Kd").unwrap();
    let flush_score = evaluate_flush(hand);
    let expected_score = 5000000 + (13 << 16) + (10 << 12) + (8 << 8) + (6 << 4) + 2;
    assert_eq!(flush_score, expected_score);

    let hand = Hand::new_from_str("2s 4s 6s 8s Ts Kh Ad").unwrap();
    let flush_score = evaluate_flush(hand);
    let expected_score = 5000000 + (10 << 16) + (8 << 12) + (6 << 8) + (4 << 4) + 2;
    assert_eq!(flush_score, expected_score);

    let hand = Hand::new_from_str("As 2s 3s 4s 5s Kd Qd").unwrap();
    let flush_score = evaluate_flush(hand);
    let expected_score = 5000000 + (14 << 16) + (5 << 12) + (4 << 8) + (3 << 4) + 2;
    assert_eq!(flush_score, expected_score);

    let hand = Hand::new_from_str("2s 4s 6s 8d Td Kd Qs").unwrap();
    let flush_score = evaluate_flush(hand);
    assert_eq!(flush_score, 0);

    let hand = Hand::new_from_str("2s 4s 6s 8s").unwrap();
    let flush_score = evaluate_flush(hand);
    assert_eq!(flush_score, 0);
}

#[test]
fn test_get_flush_ranks_with_flush() {
    let hand = Hand::new_from_str("2s 4s 6s 8s Ts Ks Qs").unwrap();
    let flush_ranks = get_flush_ranks_desc(hand);
    assert_eq!(
        flush_ranks,
        vec![
            Rank::King,
            Rank::Queen,
            Rank::Ten,
            Rank::Eight,
            Rank::Six,
            Rank::Four,
            Rank::Two
        ]
    );

    let hand = Hand::new_from_str("2s 4s 6s 8s Ts Ks Qc").unwrap();
    let flush_ranks = get_flush_ranks_desc(hand);
    assert_eq!(
        flush_ranks,
        vec![
            Rank::King,
            Rank::Ten,
            Rank::Eight,
            Rank::Six,
            Rank::Four,
            Rank::Two
        ]
    );

    let hand = Hand::new_from_str("2s 4s 6s 8s Ts Ks Kc").unwrap();
    let flush_ranks = get_flush_ranks_desc(hand);
    assert_eq!(
        flush_ranks,
        vec![
            Rank::King,
            Rank::Ten,
            Rank::Eight,
            Rank::Six,
            Rank::Four,
            Rank::Two
        ]
    );
}

#[test]
fn test_get_flush_ranks_without_flush() {
    let hand = Hand::new_from_str("2s 4s 6s 8d Td Kd Qs").unwrap();
    assert!(get_flush_ranks_desc(hand).is_empty());
}

#[test]
fn test_is_ace_low_straight_true() {
    let hand = Hand::new_from_str("Ac 2h 3d 4s 5c").unwrap();
    let ranks_desc = hand.get_ranks();
    assert!(is_ace_low_straight(&ranks_desc));

    let hand = Hand::new_from_str("Ac 5h 2d 4s 3c").unwrap();
    let ranks_desc = hand.get_ranks();
    assert!(is_ace_low_straight(&ranks_desc));

    let hand = Hand::new_from_str("Ac 2h 3d 4s 5c 6s 7d").unwrap();
    let ranks_desc = hand.get_ranks();
    assert!(is_ace_low_straight(&ranks_desc));

    let hand = Hand::new_from_str("Ac 5h 2d 4s 3c Ad 3s").unwrap();
    let ranks_desc = hand.get_ranks();
    assert!(is_ace_low_straight(&ranks_desc));
}

#[test]
fn test_is_ace_low_straight_false() {
    let hand = Hand::new_from_str("2c 3h 4d 5s 6c").unwrap();
    let ranks_desc = hand.get_ranks();
    assert!(!is_ace_low_straight(&ranks_desc));

    let hand = Hand::new_from_str("Ac 2h 3d 4s").unwrap();
    let ranks_desc = hand.get_ranks();
    assert!(!is_ace_low_straight(&ranks_desc));

    let hand = Hand::new_from_str("Ac 2h 3d 4s 5c 6s").unwrap();
    let ranks_desc = hand.get_ranks();
    assert!(is_ace_low_straight(&ranks_desc));
}

#[test]
fn evaluate_is_order_independent() {
    // The same seven cards in three different orders.
    let orders = [
        "2s As Js Ks Qs 9c Ts",
        "Ts 9c Qs Ks Js As 2s",
        "Ks 2s 9c As Ts Js Qs",
    ];
    let expected = evaluate(&Hand::new_from_str(orders[0]).unwrap());
    for order in orders {
        let hand = Hand::new_from_str(order).unwrap();
        assert_eq!(evaluate(&hand), expected);
        // Re-evaluating the same hand gives the same score.
        assert_eq!(hand.get_score(), expected);
    }
}

#[test]
fn evaluate_two_pair_and_pair_and_high_card() {
    // Two pair: aces and kings with a jack kicker.
    let hand = Hand::new_from_str("As Ac Ks Kd Jh").unwrap();
    assert_eq!(hand.get_score(), 2_000_000 + (14 << 8) + (13 << 4) + 11);

    // One pair: aces with king, queen, jack kickers.
    let hand = Hand::new_from_str("As Ac Ks Qd Jh").unwrap();
    assert_eq!(
        hand.get_score(),
        1_000_000 + (14 << 12) + (13 << 8) + (12 << 4) + 11
    );

    // A short pair hand keeps all its kickers.
    let hand = Hand::new_from_str("As Ac Ks").unwrap();
    assert_eq!(hand.get_score(), 1_000_000 + (14 << 4) + 13);

    // High card: the top five ranks, no category.
    let hand = Hand::new_from_str("Ah Ks Qd Jc 9c").unwrap();
    assert_eq!(
        hand.get_score(),
        (14 << 16) + (13 << 12) + (12 << 8) + (11 << 4) + 9
    );

    // High card on fewer than five cards packs what there is.
    let hand = Hand::new_from_str("Ah Ks").unwrap();
    assert_eq!(hand.get_score(), (14 << 4) + 13);
}

#[test]
fn wheel_with_extra_cards() {
    // The wheel scores as a five-high straight even with extra cards that do
    // not interfere, and never as an ace-high anything.
    let hand = Hand::new_from_str("2d Ac 3d 4d 5d 9c Th").unwrap();
    assert_eq!(hand.get_score(), 4_000_000 + 5);

    // All five suited: a five-high straight flush.
    let hand = Hand::new_from_str("2d Ad 3d 4d 5d 9c Th").unwrap();
    assert_eq!(hand.get_score(), 8_000_000 + 5);
}

#[test]
fn detectors_on_descending_ranks() {
    // The detectors read a descending rank list directly.
    let quad = vec![Rank::King, Rank::King, Rank::King, Rank::King, Rank::Nine];
    assert_eq!(
        find_four_of_a_kind(&quad).unwrap(),
        vec![Rank::King, Rank::Nine]
    );
    let no_quad = vec![Rank::King, Rank::King, Rank::King, Rank::Nine, Rank::Nine];
    assert!(find_four_of_a_kind(&no_quad).is_none());
    assert_eq!(
        find_full_house(&no_quad).unwrap(),
        vec![Rank::King, Rank::Nine]
    );

    let trips = vec![Rank::Ace, Rank::Queen, Rank::Queen, Rank::Queen, Rank::Two];
    assert_eq!(
        find_three_of_a_kind(&trips).unwrap(),
        vec![Rank::Queen, Rank::Ace, Rank::Two]
    );
    assert!(find_full_house(&trips).is_none());

    let two_pair = vec![Rank::Ace, Rank::Ace, Rank::Ten, Rank::Ten, Rank::Three];
    assert_eq!(
        find_two_pair(&two_pair).unwrap(),
        vec![Rank::Ace, Rank::Ten, Rank::Three]
    );
    assert!(find_three_of_a_kind(&two_pair).is_none());

    let pair = vec![Rank::King, Rank::Jack, Rank::Jack, Rank::Eight, Rank::Four];
    assert_eq!(
        find_pair(&pair).unwrap(),
        vec![Rank::Jack, Rank::King, Rank::Eight, Rank::Four]
    );
    assert!(find_two_pair(&pair).is_none());
}

#[test]
fn straight_detector_highs() {
    let broadway = vec![Rank::Ace, Rank::King, Rank::Queen, Rank::Jack, Rank::Ten];
    assert_eq!(find_straight(&broadway).unwrap(), Rank::Ace);

    let wheel = vec![Rank::Ace, Rank::Five, Rank::Four, Rank::Three, Rank::Two];
    assert_eq!(find_straight(&wheel).unwrap(), Rank::Five);

    let six_high = vec![Rank::Ace, Rank::Six, Rank::Five, Rank::Four, Rank::Three, Rank::Two];
    assert_eq!(find_straight(&six_high).unwrap(), Rank::Six);

    let gap = vec![Rank::Ace, Rank::King, Rank::Queen, Rank::Jack, Rank::Nine];
    assert!(find_straight(&gap).is_none());

    let short = vec![Rank::Five, Rank::Four, Rank::Three, Rank::Two];
    assert!(find_straight(&short).is_none());
}

#[test]
fn find_flush_returns_ranks_in_hand_order() {
    let hand = Hand::new_from_str("2s 4s Ts 6s 8s Kd Qd").unwrap();
    let flush_ranks = find_flush(&hand).unwrap();
    assert_eq!(
        flush_ranks,
        vec![Rank::Two, Rank::Four, Rank::Ten, Rank::Six, Rank::Eight]
    );

    let hand = Hand::new_from_str("2s 4s 6s 8d Td Kd Qs").unwrap();
    assert!(find_flush(&hand).is_none());
}
