//! A standard 52-card deck that can be shuffled and dealt from. The shuffle
//! itself comes from the `rand` crate; everything proved about it is that it
//! only permutes the cards.

use vstd::prelude::*;

use crate::card::{rank_of_num, Card, Rank, Suit};

verus! {

/// The suit of the `j`-th block of thirteen cards in a fresh deck.
pub open spec fn deck_suit(j: int) -> Suit {
    if j == 0 {
        Suit::Heart
    } else if j == 1 {
        Suit::Diamond
    } else if j == 2 {
        Suit::Club
    } else {
        Suit::Spade
    }
}

/// A fresh deck: four blocks of thirteen cards, each block one suit with the
/// ranks running from Two up to Ace.
pub open spec fn fresh_deck() -> Seq<Card> {
    Seq::new(52, |i: int| Card { rank: rank_of_num(2 + (i % 13)), suit: deck_suit(i / 13) })
}

/// A deck of playing cards, dealt from the back.
pub struct Deck {
    cards: Vec<Card>,
}

impl View for Deck {
    type V = Seq<Card>;

    closed spec fn view(&self) -> Seq<Card> {
        self.cards@
    }
}

impl Deck {
    /// Builds the standard 52-card deck in its fresh order.
    pub fn new() -> (d: Deck)
        ensures
            d@ == fresh_deck(),
            d@.len() == 52,
    {
        let mut cards: Vec<Card> = Vec::new();
        let mut i: usize = 0;
        while i < 52
            invariant
                i <= 52,
                cards@.len() == i,
                forall|j: int| 0 <= j < i ==> cards@[j] == fresh_deck()[j],
            decreases 52 - i,
        {
            let su = deck_suit_exec(i / 13);
            let rk = rank_of_index(i % 13);
            cards.push(Card { rank: rk, suit: su });
            i += 1;
        }
        proof {
            assert(cards@ =~= fresh_deck());
        }
        Deck { cards }
    }

    /// Shuffles the deck in place: the order is arbitrary afterwards, but the
    /// same cards remain, each the same number of times.
    pub fn shuffle(&mut self)
        ensures
            final(self)@.to_multiset() == old(self)@.to_multiset(),
            final(self)@.len() == old(self)@.len(),
    {
        shuffle_cards(&mut self.cards);
        proof {
            old(self)@.to_multiset_ensures();
            self@.to_multiset_ensures();
        }
    }

    /// Deals the top card from the back of the deck, or nothing if the deck
    /// is empty.
    pub fn deal(&mut self) -> (c: Option<Card>)
        ensures
            old(self)@.len() > 0 ==> c == Some(old(self)@.last()) && final(self)@
                == old(self)@.drop_last(),
            old(self)@.len() == 0 ==> c is None && final(self)@ == old(self)@,
    {
        self.cards.pop()
    }

    /// The cards still in the deck, bottom first.
    pub fn get_cards(&self) -> (r: &Vec<Card>)
        ensures
            r@ == self@,
    {
        &self.cards
    }
}

/// Relies on rand's `SliceRandom::shuffle` (a Fisher-Yates shuffle driven by
/// the thread-local generator): it reorders the slice in place and neither
/// adds, drops, nor alters an element.
#[verifier::external_body]
fn shuffle_cards(cards: &mut Vec<Card>)
    ensures
        final(cards)@.to_multiset() == old(cards)@.to_multiset(),
{
    let mut rng = rand::thread_rng();
    rand::seq::SliceRandom::shuffle(cards.as_mut_slice(), &mut rng);
}

/// The suit of a fresh deck's `j`-th block.
fn deck_suit_exec(j: usize) -> (s: Suit)
    ensures
        s == deck_suit(j as int),
{
    match j {
        0 => Suit::Heart,
        1 => Suit::Diamond,
        2 => Suit::Club,
        _ => Suit::Spade,
    }
}

/// The rank at position `ri` within a fresh deck's block: Two up to Ace.
fn rank_of_index(ri: usize) -> (r: Rank)
    requires
        ri < 13,
    ensures
        r == rank_of_num(2 + ri as int),
{
    match ri {
        0 => Rank::Two,
        1 => Rank::Three,
        2 => Rank::Four,
        3 => Rank::Five,
        4 => Rank::Six,
        5 => Rank::Seven,
        6 => Rank::Eight,
        7 => Rank::Nine,
        8 => Rank::Ten,
        9 => Rank::Jack,
        10 => Rank::Queen,
        11 => Rank::King,
        _ => Rank::Ace,
    }
}

} // verus!
