//! Flush detection: the first suit, in a fixed order, of which the hand
//! holds at least five cards.

use vstd::prelude::*;

use crate::card::{Card, Rank, Suit};
use crate::hand::Hand;
use crate::tally::{ranks_of, suit_cnt, suit_pred, suit_ranks};

verus! {

/// The flush suit of a card list: the first suit in the order Club, Diamond,
/// Heart, Spade represented by at least five cards. At most one suit can
/// qualify in a hand of at most nine cards, so the order only fixes a
/// deterministic choice.
pub open spec fn flush_suit_of(cards: Seq<Card>) -> Option<Suit> {
    if suit_cnt(cards, Suit::Club) >= 5 {
        Some(Suit::Club)
    } else if suit_cnt(cards, Suit::Diamond) >= 5 {
        Some(Suit::Diamond)
    } else if suit_cnt(cards, Suit::Heart) >= 5 {
        Some(Suit::Heart)
    } else if suit_cnt(cards, Suit::Spade) >= 5 {
        Some(Suit::Spade)
    } else {
        None
    }
}

/// Finds the ranks of the flush cards of `hand`, in the order the cards were
/// added, or nothing if no suit reaches five cards.
pub fn find_flush(hand: &Hand) -> (r: Option<Vec<Rank>>)
    ensures
        match r {
            Some(v) => {
                &&& flush_suit_of(hand@) is Some
                &&& v@ == suit_ranks(hand@, flush_suit_of(hand@)->Some_0)
                &&& v@.len() >= 5
            },
            None => flush_suit_of(hand@) is None,
        },
{
    if let Some(v) = flush_ranks_for(hand, Suit::Club) {
        return Some(v);
    }
    if let Some(v) = flush_ranks_for(hand, Suit::Diamond) {
        return Some(v);
    }
    if let Some(v) = flush_ranks_for(hand, Suit::Heart) {
        return Some(v);
    }
    if let Some(v) = flush_ranks_for(hand, Suit::Spade) {
        return Some(v);
    }
    None
}

/// The ranks of the cards of one suit, when that suit has five or more cards.
fn flush_ranks_for(hand: &Hand, su: Suit) -> (r: Option<Vec<Rank>>)
    ensures
        match r {
            Some(v) => {
                &&& suit_cnt(hand@, su) >= 5
                &&& v@ == suit_ranks(hand@, su)
                &&& v@.len() >= 5
            },
            None => suit_cnt(hand@, su) < 5,
        },
{
    let cards = hand.cards_of_suit(su);
    if cards.len() < 5 {
        return None;
    }
    let mut out: Vec<Rank> = Vec::new();
    let mut i: usize = 0;
    while i < cards.len()
        invariant
            i <= cards@.len(),
            out@ == ranks_of(cards@.take(i as int)),
        decreases cards@.len() - i,
    {
        proof {
            assert(ranks_of(cards@.take(i as int + 1)) =~= ranks_of(cards@.take(i as int)).push(
                cards@[i as int].rank,
            ));
        }
        out.push(cards[i].rank);
        i += 1;
    }
    proof {
        assert(cards@.take(cards@.len() as int) =~= cards@);
    }
    Some(out)
}

} // verus!
