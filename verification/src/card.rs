//! Leaf value types: `Rank`, `Suit` and `Card`, together with the character
//! notation used for them ("As", "Td", ...).

use vstd::prelude::*;

verus! {

/// The two recoverable error cases of this library: a hand whose size falls
/// outside the supported range, and a malformed textual card token.
#[derive(Debug, Clone, Copy, PartialEq, Eq, Structural)]
pub enum PokerError {
    InvalidHandSize,
    InvalidCardToken,
}

/// The rank of a playing card in a standard 52-card deck, ordered from Two
/// (weakest) up to Ace (strongest).
#[derive(Debug, Clone, Copy, PartialEq, Eq, Structural)]
pub enum Rank {
    Two,
    Three,
    Four,
    Five,
    Six,
    Seven,
    Eight,
    Nine,
    Ten,
    Jack,
    Queen,
    King,
    Ace,
}

/// The suit of a playing card. Suits carry no strength; their order here is
/// only used as a fixed iteration and sorting order.
#[derive(Debug, Clone, Copy, PartialEq, Eq, Structural)]
pub enum Suit {
    Club,
    Diamond,
    Heart,
    Spade,
}

/// A playing card: a rank and a suit. Equality is by both fields.
#[derive(Debug, Clone, Copy, PartialEq, Eq, Structural)]
pub struct Card {
    pub rank: Rank,
    pub suit: Suit,
}

/// The numeric strength of a rank: 2 for Two up to 14 for Ace.
pub open spec fn rank_num(r: Rank) -> int {
    match r {
        Rank::Two => 2,
        Rank::Three => 3,
        Rank::Four => 4,
        Rank::Five => 5,
        Rank::Six => 6,
        Rank::Seven => 7,
        Rank::Eight => 8,
        Rank::Nine => 9,
        Rank::Ten => 10,
        Rank::Jack => 11,
        Rank::Queen => 12,
        Rank::King => 13,
        Rank::Ace => 14,
    }
}

/// The rank with numeric strength `n`, for `n` in `2..=14` (Two otherwise).
pub open spec fn rank_of_num(n: int) -> Rank {
    if n == 3 {
        Rank::Three
    } else if n == 4 {
        Rank::Four
    } else if n == 5 {
        Rank::Five
    } else if n == 6 {
        Rank::Six
    } else if n == 7 {
        Rank::Seven
    } else if n == 8 {
        Rank::Eight
    } else if n == 9 {
        Rank::Nine
    } else if n == 10 {
        Rank::Ten
    } else if n == 11 {
        Rank::Jack
    } else if n == 12 {
        Rank::Queen
    } else if n == 13 {
        Rank::King
    } else if n == 14 {
        Rank::Ace
    } else {
        Rank::Two
    }
}

/// Every rank value lies in `2..=14` and `rank_of_num` inverts `rank_num`.
pub broadcast proof fn lemma_rank_num_range(r: Rank)
    ensures
        2 <= #[trigger] rank_num(r) <= 14,
        rank_of_num(rank_num(r)) == r,
{
}

/// `rank_num` inverts `rank_of_num` on the numeric rank domain.
pub broadcast proof fn lemma_rank_of_num_num(k: int)
    requires
        2 <= k <= 14,
    ensures
        #[trigger] rank_num(rank_of_num(k)) == k,
{
}

/// Ranks with the same numeric strength are the same rank.
pub proof fn lemma_rank_num_injective(a: Rank, b: Rank)
    requires
        rank_num(a) == rank_num(b),
    ensures
        a == b,
{
}

/// The character that denotes a rank in textual card notation.
pub open spec fn rank_char(r: Rank) -> char {
    match r {
        Rank::Two => '2',
        Rank::Three => '3',
        Rank::Four => '4',
        Rank::Five => '5',
        Rank::Six => '6',
        Rank::Seven => '7',
        Rank::Eight => '8',
        Rank::Nine => '9',
        Rank::Ten => 'T',
        Rank::Jack => 'J',
        Rank::Queen => 'Q',
        Rank::King => 'K',
        Rank::Ace => 'A',
    }
}

/// The character that denotes a suit in textual card notation.
pub open spec fn suit_char(s: Suit) -> char {
    match s {
        Suit::Heart => 'h',
        Suit::Diamond => 'd',
        Suit::Club => 'c',
        Suit::Spade => 's',
    }
}

/// The rank denoted by a character, if any.
pub open spec fn rank_from_char(c: char) -> Option<Rank> {
    if c == '2' {
        Some(Rank::Two)
    } else if c == '3' {
        Some(Rank::Three)
    } else if c == '4' {
        Some(Rank::Four)
    } else if c == '5' {
        Some(Rank::Five)
    } else if c == '6' {
        Some(Rank::Six)
    } else if c == '7' {
        Some(Rank::Seven)
    } else if c == '8' {
        Some(Rank::Eight)
    } else if c == '9' {
        Some(Rank::Nine)
    } else if c == 'T' {
        Some(Rank::Ten)
    } else if c == 'J' {
        Some(Rank::Jack)
    } else if c == 'Q' {
        Some(Rank::Queen)
    } else if c == 'K' {
        Some(Rank::King)
    } else if c == 'A' {
        Some(Rank::Ace)
    } else {
        None
    }
}

/// The suit denoted by a character, if any.
pub open spec fn suit_from_char(c: char) -> Option<Suit> {
    if c == 'h' {
        Some(Suit::Heart)
    } else if c == 'd' {
        Some(Suit::Diamond)
    } else if c == 'c' {
        Some(Suit::Club)
    } else if c == 's' {
        Some(Suit::Spade)
    } else {
        None
    }
}

/// Whether a character sequence is a well-formed two-character card token.
pub open spec fn valid_card_token(t: Seq<char>) -> bool {
    &&& t.len() == 2
    &&& rank_from_char(t[0]) is Some
    &&& suit_from_char(t[1]) is Some
}

/// The card denoted by a well-formed two-character token.
pub open spec fn card_of_token(t: Seq<char>) -> Card {
    Card { rank: rank_from_char(t[0])->Some_0, suit: suit_from_char(t[1])->Some_0 }
}

/// The two-character token that denotes a card.
pub open spec fn card_str(c: Card) -> Seq<char> {
    seq![rank_char(c.rank), suit_char(c.suit)]
}

/// Parses a single rank character.
pub(crate) fn rank_from_char_exec(c: char) -> (r: Option<Rank>)
    ensures
        r == rank_from_char(c),
{
    if c == '2' {
        Some(Rank::Two)
    } else if c == '3' {
        Some(Rank::Three)
    } else if c == '4' {
        Some(Rank::Four)
    } else if c == '5' {
        Some(Rank::Five)
    } else if c == '6' {
        Some(Rank::Six)
    } else if c == '7' {
        Some(Rank::Seven)
    } else if c == '8' {
        Some(Rank::Eight)
    } else if c == '9' {
        Some(Rank::Nine)
    } else if c == 'T' {
        Some(Rank::Ten)
    } else if c == 'J' {
        Some(Rank::Jack)
    } else if c == 'Q' {
        Some(Rank::Queen)
    } else if c == 'K' {
        Some(Rank::King)
    } else if c == 'A' {
        Some(Rank::Ace)
    } else {
        None
    }
}

/// Parses a single suit character.
pub(crate) fn suit_from_char_exec(c: char) -> (r: Option<Suit>)
    ensures
        r == suit_from_char(c),
{
    if c == 'h' {
        Some(Suit::Heart)
    } else if c == 'd' {
        Some(Suit::Diamond)
    } else if c == 'c' {
        Some(Suit::Club)
    } else if c == 's' {
        Some(Suit::Spade)
    } else {
        None
    }
}

impl Rank {
    /// Parses a rank from its one-character textual form, such as `"A"`.
    pub fn new_from_str(s: &str) -> (r: Result<Rank, PokerError>)
        ensures
            match r {
                Ok(rk) => s@.len() == 1 && rank_from_char(s@[0]) == Some(rk),
                Err(e) => {
                    &&& e == PokerError::InvalidCardToken
                    &&& (s@.len() != 1 || rank_from_char(s@[0]) is None)
                },
            },
    {
        if s.unicode_len() != 1 {
            return Err(PokerError::InvalidCardToken);
        }
        match rank_from_char_exec(s.get_char(0)) {
            Some(rk) => Ok(rk),
            None => Err(PokerError::InvalidCardToken),
        }
    }

    /// The rank whose numeric strength is `num`, for `num` in `2..=14`.
    pub fn new_from_num(num: usize) -> (r: Result<Rank, PokerError>)
        ensures
            match r {
                Ok(rk) => 2 <= num <= 14 && rk == rank_of_num(num as int),
                Err(e) => e == PokerError::InvalidCardToken && (num < 2 || num > 14),
            },
    {
        match num {
            2 => Ok(Rank::Two),
            3 => Ok(Rank::Three),
            4 => Ok(Rank::Four),
            5 => Ok(Rank::Five),
            6 => Ok(Rank::Six),
            7 => Ok(Rank::Seven),
            8 => Ok(Rank::Eight),
            9 => Ok(Rank::Nine),
            10 => Ok(Rank::Ten),
            11 => Ok(Rank::Jack),
            12 => Ok(Rank::Queen),
            13 => Ok(Rank::King),
            14 => Ok(Rank::Ace),
            _ => Err(PokerError::InvalidCardToken),
        }
    }

    /// The one-character textual form of the rank.
    pub fn as_str(&self) -> (s: &'static str)
        ensures
            s@ == seq![rank_char(*self)],
    {
        match self {
            Rank::Two => {
                proof {
                    reveal_strlit("2");
                }
                "2"
            },
            Rank::Three => {
                proof {
                    reveal_strlit("3");
                }
                "3"
            },
            Rank::Four => {
                proof {
                    reveal_strlit("4");
                }
                "4"
            },
            Rank::Five => {
                proof {
                    reveal_strlit("5");
                }
                "5"
            },
            Rank::Six => {
                proof {
                    reveal_strlit("6");
                }
                "6"
            },
            Rank::Seven => {
                proof {
                    reveal_strlit("7");
                }
                "7"
            },
            Rank::Eight => {
                proof {
                    reveal_strlit("8");
                }
                "8"
            },
            Rank::Nine => {
                proof {
                    reveal_strlit("9");
                }
                "9"
            },
            Rank::Ten => {
                proof {
                    reveal_strlit("T");
                }
                "T"
            },
            Rank::Jack => {
                proof {
                    reveal_strlit("J");
                }
                "J"
            },
            Rank::Queen => {
                proof {
                    reveal_strlit("Q");
                }
                "Q"
            },
            Rank::King => {
                proof {
                    reveal_strlit("K");
                }
                "K"
            },
            Rank::Ace => {
                proof {
                    reveal_strlit("A");
                }
                "A"
            },
        }
    }

    /// The numeric strength of the rank: 2 for Two up to 14 for Ace.
    pub fn as_num(&self) -> (n: u32)
        ensures
            n == rank_num(*self),
    {
        match self {
            Rank::Two => 2,
            Rank::Three => 3,
            Rank::Four => 4,
            Rank::Five => 5,
            Rank::Six => 6,
            Rank::Seven => 7,
            Rank::Eight => 8,
            Rank::Nine => 9,
            Rank::Ten => 10,
            Rank::Jack => 11,
            Rank::Queen => 12,
            Rank::King => 13,
            Rank::Ace => 14,
        }
    }
}

impl Suit {
    /// Parses a suit from its one-character textual form, such as `"h"`.
    pub fn new_from_str(s: &str) -> (r: Result<Suit, PokerError>)
        ensures
            match r {
                Ok(su) => s@.len() == 1 && suit_from_char(s@[0]) == Some(su),
                Err(e) => {
                    &&& e == PokerError::InvalidCardToken
                    &&& (s@.len() != 1 || suit_from_char(s@[0]) is None)
                },
            },
    {
        if s.unicode_len() != 1 {
            return Err(PokerError::InvalidCardToken);
        }
        match suit_from_char_exec(s.get_char(0)) {
            Some(su) => Ok(su),
            None => Err(PokerError::InvalidCardToken),
        }
    }

    /// The suit at position `num` in the fixed suit order, for `num` in `0..=3`.
    pub fn new_from_num(num: usize) -> (r: Result<Suit, PokerError>)
        ensures
            match r {
                Ok(su) => num <= 3 && su == suit_of_num(num as int),
                Err(e) => e == PokerError::InvalidCardToken && num > 3,
            },
    {
        match num {
            0 => Ok(Suit::Club),
            1 => Ok(Suit::Diamond),
            2 => Ok(Suit::Heart),
            3 => Ok(Suit::Spade),
            _ => Err(PokerError::InvalidCardToken),
        }
    }

    /// The one-character textual form of the suit.
    pub fn as_str(&self) -> (s: &'static str)
        ensures
            s@ == seq![suit_char(*self)],
    {
        match self {
            Suit::Heart => {
                proof {
                    reveal_strlit("h");
                }
                "h"
            },
            Suit::Diamond => {
                proof {
                    reveal_strlit("d");
                }
                "d"
            },
            Suit::Club => {
                proof {
                    reveal_strlit("c");
                }
                "c"
            },
            Suit::Spade => {
                proof {
                    reveal_strlit("s");
                }
                "s"
            },
        }
    }
}

/// The suit at position `n` in the fixed suit order (Club otherwise).
pub open spec fn suit_of_num(n: int) -> Suit {
    if n == 1 {
        Suit::Diamond
    } else if n == 2 {
        Suit::Heart
    } else if n == 3 {
        Suit::Spade
    } else {
        Suit::Club
    }
}

impl Card {
    /// Combines a rank and a suit into a card.
    pub fn new(rank: Rank, suit: Suit) -> (c: Card)
        ensures
            c == (Card { rank, suit }),
    {
        Card { rank, suit }
    }

    /// Parses a card from its two-character textual form: a rank character
    /// followed by a suit character, such as `"As"` or `"Td"`.
    pub fn new_from_str(s: &str) -> (r: Result<Card, PokerError>)
        ensures
            match r {
                Ok(c) => valid_card_token(s@) && c == card_of_token(s@),
                Err(e) => e == PokerError::InvalidCardToken && !valid_card_token(s@),
            },
    {
        if s.unicode_len() != 2 {
            return Err(PokerError::InvalidCardToken);
        }
        let rank = match rank_from_char_exec(s.get_char(0)) {
            Some(rk) => rk,
            None => {
                return Err(PokerError::InvalidCardToken);
            },
        };
        let suit = match suit_from_char_exec(s.get_char(1)) {
            Some(su) => su,
            None => {
                return Err(PokerError::InvalidCardToken);
            },
        };
        Ok(Card { rank, suit })
    }

    /// The two-character textual form of the card.
    pub fn as_str(&self) -> (s: String)
        ensures
            s@ == card_str(*self),
    {
        let r: String = String::from_str(self.rank.as_str());
        r.concat(self.suit.as_str())
    }
}

} // verus!
