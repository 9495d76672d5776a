use pkr::card::Rank;
use pkr::evaluator::{calculate_hand_score, calculate_rank_score, HandRank};

#[test]
fn score_test_calculate_rank_score() {
    // check non-empty list of ranks
    let ranks = vec![Rank::Ace, Rank::Ace, Rank::Ace, Rank::Ace, Rank::King];
    assert_eq!(calculate_rank_score(ranks), 978669);

    let ranks = vec![Rank::Ace, Rank::Ace, Rank::Ace, Rank::Ace, Rank::Queen];
    assert_eq!(calculate_rank_score(ranks), 978668);

    let ranks = vec![Rank::Ace, Rank::King, Rank::Queen, Rank::Jack, Rank::Ten];
    assert_eq!(calculate_rank_score(ranks), 974010);

    let ranks = vec![Rank::Ace, Rank::King, Rank::Queen, Rank::Jack, Rank::Nine];
    assert_eq!(calculate_rank_score(ranks), 974009);

    let score = calculate_rank_score(vec![Rank::Ace, Rank::King, Rank::Queen]);
    assert_eq!(score, 0b1110_1101_1100);

    let score = calculate_rank_score(vec![Rank::Two, Rank::Three, Rank::Four]);
    assert_eq!(score, 0b0010_0011_0100);

    let score = calculate_rank_score(vec![Rank::Ten, Rank::Nine, Rank::Eight]);
    assert_eq!(score, 0b1010_1001_1000);

    // check ranks out of order
    let score = calculate_rank_score(vec![Rank::Two, Rank::Ace, Rank::Three]);
    assert_eq!(score, 0b0010_1110_0011);

    // check with duplicates
    let score = calculate_rank_score(vec![Rank::Ace, Rank::Ace, Rank::King]);
    assert_eq!(score, 0b1110_1110_1101);
}

#[test]
fn score_test_calculate_rank_score_empty() {
    // check empty list of ranks
    let result = calculate_rank_score(vec![]);
    assert_eq!(result, 0);
}

#[test]
fn evaluator_test_calculate_rank_score() {
    // check non-empty list of ranks
    let ranks = vec![Rank::Ace, Rank::Ace, Rank::Ace, Rank::Ace, Rank::King];
    assert_eq!(calculate_rank_score(ranks), 978669);

    let ranks = vec![Rank::Ace, Rank::Ace, Rank::Ace, Rank::Ace, Rank::Queen];
    assert_eq!(calculate_rank_score(ranks), 978668);

    let ranks = vec![Rank::Ace, Rank::King, Rank::Queen, Rank::Jack, Rank::Ten];
    assert_eq!(calculate_rank_score(ranks), 974010);

    let ranks = vec![Rank::Ace, Rank::King, Rank::Queen, Rank::Jack, Rank::Nine];
    assert_eq!(calculate_rank_score(ranks), 974009);

    let score = calculate_rank_score(vec![Rank::Ace, Rank::King, Rank::Queen]);
    assert_eq!(score, 0b1110_1101_1100);

    let score = calculate_rank_score(vec![Rank::Two, Rank::Three, Rank::Four]);
    assert_eq!(score, 0b0010_0011_0100);

    let score = calculate_rank_score(vec![Rank::Ten, Rank::Nine, Rank::Eight]);
    assert_eq!(score, 0b1010_1001_1000);

    // check single rank
    let score = calculate_rank_score(vec![Rank::Ace]);
    assert_eq!(score, 14);

    // check ranks out of order
    let score = calculate_rank_score(vec![Rank::Two, Rank::Ace, Rank::Three]);
    assert_eq!(score, 0b0010_1110_0011);

    // check with duplicates
    let score = calculate_rank_score(vec![Rank::Ace, Rank::Ace, Rank::King]);
    assert_eq!(score, 0b1110_1110_1101);
}

#[test]
fn evaluator_test_calculate_rank_score_empty() {
    // check empty list of ranks
    let result = calculate_rank_score(vec![]);
    assert_eq!(result, 0);
}

#[test]
fn hand_score_round_trip() {
    // Subtracting the category base from a score recovers the packed ranks.
    let ranks = vec![Rank::Ace, Rank::King, Rank::Queen, Rank::Jack, Rank::Nine];
    let packed = calculate_rank_score(ranks.clone());
    for category in [
        HandRank::HighCard,
        HandRank::OnePair,
        HandRank::TwoPair,
        HandRank::ThreeOfAKind,
        HandRank::Straight,
        HandRank::Flush,
        HandRank::FullHouse,
        HandRank::FourOfAKind,
        HandRank::StraightFlush,
    ] {
        let score = calculate_hand_score(ranks.clone(), category);
        assert_eq!(score - category.base(), packed);
    }
}

#[test]
fn categories_never_cross() {
    // The strongest payload of a weaker category loses to the weakest
    // payload of a stronger one.
    let strongest = vec![Rank::Ace, Rank::Ace, Rank::Ace, Rank::Ace, Rank::Ace];
    let weakest: Vec<Rank> = vec![];
    assert!(calculate_rank_score(strongest.clone()) < 1_000_000);
    let pairs = [
        (HandRank::HighCard, HandRank::OnePair),
        (HandRank::OnePair, HandRank::TwoPair),
        (HandRank::TwoPair, HandRank::ThreeOfAKind),
        (HandRank::ThreeOfAKind, HandRank::Straight),
        (HandRank::Straight, HandRank::Flush),
        (HandRank::Flush, HandRank::FullHouse),
        (HandRank::FullHouse, HandRank::FourOfAKind),
        (HandRank::FourOfAKind, HandRank::StraightFlush),
    ];
    for (weaker, stronger) in pairs {
        assert!(
            calculate_hand_score(strongest.clone(), weaker)
                < calculate_hand_score(weakest.clone(), stronger)
        );
    }
}
