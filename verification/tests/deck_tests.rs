use pkr::card::{Card, Rank, Suit};
use pkr::deck::Deck;

#[test]
fn test_shuffle() {
    let mut deck = Deck::new();
    let original_deck = deck.get_cards().clone();

    deck.shuffle();

    // The deck still contains 52 unique cards after shuffling
    assert_eq!(deck.get_cards().len(), 52);

    // The deck is not in the same order as before
    assert_ne!(deck.get_cards(), &original_deck);
}

#[test]
fn test_deal() {
    let mut deck = Deck::new();

    // Check that dealing cards reduces the deck size
    let card = deck.deal();
    assert_eq!(deck.get_cards().len(), 51);
    assert!(card.is_some());

    // Check that dealing cards eventually empties the deck
    for _ in 0..51 {
        let card = deck.deal();
        assert!(card.is_some());
    }
    assert_eq!(deck.get_cards().len(), 0);

    // Check that dealing from an empty deck returns None
    let card = deck.deal();
    assert!(card.is_none());
}

#[test]
fn fresh_deck_layout() {
    let mut deck = Deck::new();
    // The fresh order runs hearts, diamonds, clubs, spades, each suit from
    // Two up to Ace, and deals from the back.
    assert_eq!(deck.get_cards()[0], Card::new(Rank::Two, Suit::Heart));
    assert_eq!(deck.get_cards()[13], Card::new(Rank::Two, Suit::Diamond));
    assert_eq!(deck.get_cards()[26], Card::new(Rank::Two, Suit::Club));
    assert_eq!(deck.get_cards()[39], Card::new(Rank::Two, Suit::Spade));
    assert_eq!(deck.deal().unwrap(), Card::new(Rank::Ace, Suit::Spade));
    assert_eq!(deck.deal().unwrap(), Card::new(Rank::King, Suit::Spade));
}

#[test]
fn shuffle_keeps_the_same_cards() {
    let mut deck = Deck::new();
    let mut original = deck.get_cards().clone();
    deck.shuffle();
    let mut shuffled = deck.get_cards().clone();
    let key = |c: &Card| (c.rank.as_num(), c.suit.as_str());
    original.sort_by_key(key);
    shuffled.sort_by_key(key);
    assert_eq!(original, shuffled);
}
