use pkr::card::{Card, PokerError, Rank, Suit};

#[test]
fn new_card_from_string() {
    let card = Card::new_from_str("Ac").unwrap();
    assert_eq!(
        card,
        Card {
            rank: Rank::Ace,
            suit: Suit::Club
        }
    );

    let card = Card::new_from_str("Td").unwrap();
    assert_eq!(
        card,
        Card {
            rank: Rank::Ten,
            suit: Suit::Diamond
        }
    );

    let card = Card::new_from_str("3s").unwrap();
    assert_eq!(
        card,
        Card {
            rank: Rank::Three,
            suit: Suit::Spade
        }
    );
}

#[test]
fn new_card_from_invalid_string() {
    assert!(Card::new_from_str("AcA").is_err());
    assert!(Card::new_from_str("M").is_err());
    assert!(Card::new_from_str("As1").is_err());
    assert!(Card::new_from_str("1c").is_err());
    assert!(Card::new_from_str("").is_err());
}

#[test]
fn valid_rank_from_str() {
    assert_eq!(Rank::new_from_str("A").unwrap(), Rank::Ace);
    assert_eq!(Rank::new_from_str("K").unwrap(), Rank::King);
    assert_eq!(Rank::new_from_str("Q").unwrap(), Rank::Queen);
    assert_eq!(Rank::new_from_str("J").unwrap(), Rank::Jack);
    assert_eq!(Rank::new_from_str("T").unwrap(), Rank::Ten);
    assert_eq!(Rank::new_from_str("2").unwrap(), Rank::Two);
}

#[test]
fn invalid_rank_from_str() {
    assert!(Rank::new_from_str("x").is_err());
}

#[test]
fn valid_suit_from_string() {
    assert_eq!(Suit::new_from_str("h").unwrap(), Suit::Heart);
    assert_eq!(Suit::new_from_str("d").unwrap(), Suit::Diamond);
    assert_eq!(Suit::new_from_str("c").unwrap(), Suit::Club);
    assert_eq!(Suit::new_from_str("s").unwrap(), Suit::Spade);
}

#[test]
fn invalid_suit_from_str() {
    assert!(Suit::new_from_str("x").is_err());
}

#[test]
fn rank_numeric_values() {
    assert_eq!(Rank::new_from_num(2).unwrap(), Rank::Two);
    assert_eq!(Rank::new_from_num(10).unwrap(), Rank::Ten);
    assert_eq!(Rank::new_from_num(14).unwrap(), Rank::Ace);
    assert!(Rank::new_from_num(1).is_err());
    assert!(Rank::new_from_num(15).is_err());
    assert_eq!(Rank::Two.as_num(), 2);
    assert_eq!(Rank::Ten.as_num(), 10);
    assert_eq!(Rank::Ace.as_num(), 14);
}

#[test]
fn suit_numeric_values() {
    assert_eq!(Suit::new_from_num(0).unwrap(), Suit::Club);
    assert_eq!(Suit::new_from_num(1).unwrap(), Suit::Diamond);
    assert_eq!(Suit::new_from_num(2).unwrap(), Suit::Heart);
    assert_eq!(Suit::new_from_num(3).unwrap(), Suit::Spade);
    assert!(Suit::new_from_num(4).is_err());
}

#[test]
fn rank_and_suit_as_str() {
    assert_eq!(Rank::Two.as_str(), "2");
    assert_eq!(Rank::Three.as_str(), "3");
    assert_eq!(Rank::Ten.as_str(), "T");
    assert_eq!(Rank::Ace.as_str(), "A");
    assert_eq!(Suit::Heart.as_str(), "h");
    assert_eq!(Suit::Diamond.as_str(), "d");
    assert_eq!(Suit::Club.as_str(), "c");
    assert_eq!(Suit::Spade.as_str(), "s");
}

#[test]
fn card_as_str() {
    let card = Card::new(Rank::Ace, Suit::Spade);
    assert_eq!(card.as_str(), "As");
    let card = Card::new(Rank::Two, Suit::Club);
    assert_eq!(card.as_str(), "2c");
}

#[test]
fn invalid_card_reports_token_error() {
    assert_eq!(
        Card::new_from_str("Zz").unwrap_err(),
        PokerError::InvalidCardToken
    );
    assert_eq!(
        Rank::new_from_str("x").unwrap_err(),
        PokerError::InvalidCardToken
    );
    assert_eq!(
        Suit::new_from_str("x").unwrap_err(),
        PokerError::InvalidCardToken
    );
}
