//! The `Hand` container: an append-only sequence of 2 to 9 cards with stable
//! sorting accessors, the shape every detector works on.

use vstd::prelude::*;

use crate::card::{card_of_token, card_str, rank_from_char_exec, suit_from_char_exec,
    valid_card_token, Card, PokerError, Rank, Suit};
use crate::tally::{cards_rank_bucket, rank_val_pred, ranks_of, sort_cards_asc_from,
    sort_cards_by_rank_asc, sort_cards_by_rank_desc, sort_cards_by_suit, sort_cards_desc_from,
    suit_pred};

verus! {

/// Whether a character separates card tokens in a hand string.
pub open spec fn is_space(c: char) -> bool {
    c == ' ' || c == '\t' || c == '\n' || c == '\r'
}

/// The length of the leading token of `s`: its maximal spaceless prefix.
pub open spec fn token_len(s: Seq<char>) -> nat
    decreases s.len(),
{
    if s.len() == 0 {
        0
    } else if is_space(s[0]) {
        0
    } else {
        1 + token_len(s.drop_first())
    }
}

/// The whitespace-separated tokens of a character sequence, in order.
pub open spec fn tokens_of(s: Seq<char>) -> Seq<Seq<char>>
    decreases s.len(),
    via tokens_of_decreases
{
    if s.len() == 0 {
        Seq::empty()
    } else if is_space(s[0]) {
        tokens_of(s.drop_first())
    } else {
        seq![s.take(token_len(s) as int)] + tokens_of(s.skip(token_len(s) as int))
    }
}

#[via_fn]
proof fn tokens_of_decreases(s: Seq<char>) {
    if s.len() > 0 && !is_space(s[0]) {
        lemma_token_len(s);
    }
}

/// The cards denoted by a token list whose tokens are all valid.
pub open spec fn cards_of_tokens(toks: Seq<Seq<char>>) -> Seq<Card> {
    toks.map_values(|t: Seq<char>| card_of_token(t))
}

/// Whether every token denotes a card.
pub open spec fn all_tokens_valid(toks: Seq<Seq<char>>) -> bool {
    forall|i: int| 0 <= i < toks.len() ==> valid_card_token(#[trigger] toks[i])
}

/// The textual form of a card list: the card tokens joined by single spaces.
pub open spec fn hand_str(cards: Seq<Card>) -> Seq<char>
    decreases cards.len(),
{
    if cards.len() == 0 {
        Seq::empty()
    } else if cards.len() == 1 {
        card_str(cards[0])
    } else {
        hand_str(cards.drop_last()) + seq![' '] + card_str(cards.last())
    }
}

/// The leading token is spaceless and ends at a space or at the end.
proof fn lemma_token_len(s: Seq<char>)
    ensures
        token_len(s) <= s.len(),
        forall|k: int| 0 <= k < token_len(s) ==> !is_space(#[trigger] s[k]),
        token_len(s) < s.len() ==> is_space(s[token_len(s) as int]),
    decreases s.len(),
{
    if s.len() > 0 && !is_space(s[0]) {
        let d = s.drop_first();
        lemma_token_len(d);
        let tl = token_len(s) as int;
        assert forall|k: int| 0 <= k < tl implies !is_space(s[k]) by {
            if k >= 1 {
                assert(s[k] == d[k - 1]);
            }
        }
        if tl < s.len() {
            assert(s[tl] == d[tl - 1]);
        }
    }
}

/// Whether a character separates card tokens.
fn is_space_exec(c: char) -> (b: bool)
    ensures
        b == is_space(c),
{
    c == ' ' || c == '\t' || c == '\n' || c == '\r'
}

/// Counts the whitespace-separated tokens of a string.
fn count_tokens(s: &str) -> (count: usize)
    ensures
        count == tokens_of(s@).len(),
{
    let n = s.unicode_len();
    let mut count: usize = 0;
    let mut i: usize = 0;
    proof {
        assert(s@.skip(0) =~= s@);
    }
    while i < n
        invariant
            n == s@.len(),
            i <= n,
            count <= i,
            count + tokens_of(s@.skip(i as int)).len() == tokens_of(s@).len(),
        decreases n - i,
    {
        let c = s.get_char(i);
        if is_space_exec(c) {
            proof {
                assert(s@.skip(i as int).drop_first() =~= s@.skip(i as int + 1));
            }
            i += 1;
        } else {
            count += 1;
            let ghost rest = s@.skip(i as int);
            let ghost tl = token_len(rest) as int;
            proof {
                lemma_token_len(rest);
            }
            let mut j: usize = i + 1;
            while j < n && !is_space_exec(s.get_char(j))
                invariant
                    n == s@.len(),
                    i < j <= n,
                    rest == s@.skip(i as int),
                    forall|k: int| i <= k < j ==> !is_space(#[trigger] s@[k]),
                decreases n - j,
            {
                j += 1;
            }
            proof {
                lemma_token_len(rest);
                assert forall|k: int| 0 <= k < j - i implies !is_space(rest[k]) by {
                    assert(rest[k] == s@[i + k]);
                }
                assert(tl >= j - i) by {
                    if tl < j - i {
                        assert(!is_space(rest[tl]));
                        assert(is_space(rest[tl]));
                    }
                }
                if j < n {
                    assert(rest[j - i] == s@[j as int]);
                    assert(is_space(rest[j - i]));
                    if tl > j - i {
                        assert(!is_space(rest[j - i]));
                    }
                }
                assert(tl == j - i);
                assert(rest.skip(tl) =~= s@.skip(j as int));
                assert(tokens_of(rest) == seq![rest.take(tl)] + tokens_of(s@.skip(j as int)));
            }
            i = j;
        }
    }
    proof {
        assert(s@.skip(n as int) =~= Seq::<char>::empty());
    }
    count
}

/// The fewest cards a hand may hold.
pub const MIN_CARDS: usize = 2;

/// The most cards a hand may hold.
pub const MAX_CARDS: usize = 9;

/// A poker hand: between `MIN_CARDS` and `MAX_CARDS` cards, kept in the order
/// they were added.
#[derive(Debug)]
pub struct Hand {
    cards: Vec<Card>,
}

impl View for Hand {
    type V = Seq<Card>;

    closed spec fn view(&self) -> Seq<Card> {
        self.cards@
    }
}

impl Hand {
    /// The size invariant every hand satisfies.
    pub open spec fn well_formed(self) -> bool {
        MIN_CARDS <= self@.len() <= MAX_CARDS
    }

    /// Wraps a list of cards into a hand, rejecting lists whose length falls
    /// outside `[MIN_CARDS, MAX_CARDS]`.
    pub fn new(cards: Vec<Card>) -> (r: Result<Hand, PokerError>)
        ensures
            match r {
                Ok(h) => {
                    &&& MIN_CARDS <= cards@.len() <= MAX_CARDS
                    &&& h@ == cards@
                    &&& h.well_formed()
                },
                Err(e) => {
                    &&& e == PokerError::InvalidHandSize
                    &&& (cards@.len() < MIN_CARDS || cards@.len() > MAX_CARDS)
                },
            },
    {
        let num_cards = cards.len();
        if num_cards < MIN_CARDS || num_cards > MAX_CARDS {
            return Err(PokerError::InvalidHandSize);
        }
        Ok(Hand { cards })
    }

    /// Parses a hand from whitespace-separated two-character card tokens,
    /// such as `"As Ks Qs Js Ts"`. The token count is checked against
    /// `[MIN_CARDS, MAX_CARDS]` before any token is parsed.
    pub fn new_from_str(s: &str) -> (r: Result<Hand, PokerError>)
        ensures
            match r {
                Ok(h) => {
                    &&& MIN_CARDS <= tokens_of(s@).len() <= MAX_CARDS
                    &&& all_tokens_valid(tokens_of(s@))
                    &&& h@ == cards_of_tokens(tokens_of(s@))
                    &&& h.well_formed()
                },
                Err(e) => {
                    &&& (e == PokerError::InvalidHandSize <==> !(MIN_CARDS <= tokens_of(s@).len()
                        <= MAX_CARDS))
                    &&& (e == PokerError::InvalidCardToken ==> MIN_CARDS <= tokens_of(s@).len()
                        <= MAX_CARDS && !all_tokens_valid(tokens_of(s@)))
                },
            },
    {
        let ghost toks = tokens_of(s@);
        let count = count_tokens(s);
        if count < MIN_CARDS || count > MAX_CARDS {
            return Err(PokerError::InvalidHandSize);
        }
        let n = s.unicode_len();
        let mut cards: Vec<Card> = Vec::new();
        let mut i: usize = 0;
        proof {
            assert(s@.skip(0) =~= s@);
            assert(toks.skip(0) =~= toks);
            assert(cards@ =~= cards_of_tokens(toks.take(0)));
        }
        while i < n
            invariant
                n == s@.len(),
                i <= n,
                toks == tokens_of(s@),
                MIN_CARDS <= toks.len() <= MAX_CARDS,
                cards@.len() <= toks.len(),
                cards@ == cards_of_tokens(toks.take(cards@.len() as int)),
                forall|k: int| 0 <= k < cards@.len() ==> valid_card_token(#[trigger] toks[k]),
                tokens_of(s@.skip(i as int)) == toks.skip(cards@.len() as int),
            decreases n - i,
        {
            let c = s.get_char(i);
            if is_space_exec(c) {
                proof {
                    assert(s@.skip(i as int).drop_first() =~= s@.skip(i as int + 1));
                }
                i += 1;
            } else {
                let ghost ti = cards@.len() as int;
                let ghost rest = s@.skip(i as int);
                let ghost tl = token_len(rest) as int;
                let mut j: usize = i + 1;
                while j < n && !is_space_exec(s.get_char(j))
                    invariant
                        n == s@.len(),
                        i < j <= n,
                        rest == s@.skip(i as int),
                        forall|k: int| i <= k < j ==> !is_space(#[trigger] s@[k]),
                    decreases n - j,
                {
                    j += 1;
                }
                proof {
                    lemma_token_len(rest);
                    assert forall|k: int| 0 <= k < j - i implies !is_space(rest[k]) by {
                        assert(rest[k] == s@[i + k]);
                    }
                    assert(tl >= j - i) by {
                        if tl < j - i {
                            assert(!is_space(rest[tl]));
                            assert(is_space(rest[tl]));
                        }
                    }
                    if j < n {
                        assert(rest[j - i] == s@[j as int]);
                        assert(is_space(rest[j - i]));
                        if tl > j - i {
                            assert(!is_space(rest[j - i]));
                        }
                    }
                    assert(tl == j - i);
                    assert(rest.skip(tl) =~= s@.skip(j as int));
                    assert(tokens_of(rest) == seq![rest.take(tl)] + tokens_of(s@.skip(j as int)));
                    assert(toks.skip(ti) == seq![rest.take(tl)] + tokens_of(s@.skip(j as int)));
                    assert(ti < toks.len()) by {
                        assert(toks.skip(ti).len() >= 1);
                    }
                    assert(toks[ti] == toks.skip(ti)[0]);
                    assert(toks[ti] == rest.take(tl));
                    assert(toks.skip(ti + 1) =~= toks.skip(ti).drop_first());
                    assert(toks.skip(ti + 1) =~= tokens_of(s@.skip(j as int)));
                }
                if j - i != 2 {
                    proof {
                        assert(toks[ti].len() != 2);
                        assert(!all_tokens_valid(toks));
                    }
                    return Err(PokerError::InvalidCardToken);
                }
                proof {
                    assert(toks[ti][0] == rest[0] && rest[0] == s@[i as int]);
                    assert(toks[ti][1] == rest[1] && rest[1] == s@[i as int + 1]);
                }
                let rank = match rank_from_char_exec(s.get_char(i)) {
                    Some(rk) => rk,
                    None => {
                        proof {
                            assert(!valid_card_token(toks[ti]));
                            assert(!all_tokens_valid(toks));
                        }
                        return Err(PokerError::InvalidCardToken);
                    },
                };
                let suit = match suit_from_char_exec(s.get_char(i + 1)) {
                    Some(su) => su,
                    None => {
                        proof {
                            assert(!valid_card_token(toks[ti]));
                            assert(!all_tokens_valid(toks));
                        }
                        return Err(PokerError::InvalidCardToken);
                    },
                };
                cards.push(Card { rank, suit });
                proof {
                    assert(valid_card_token(toks[ti]));
                    assert(cards@.last() == card_of_token(toks[ti]));
                    assert(cards@ =~= cards_of_tokens(toks.take(ti + 1)));
                }
                i = j;
            }
        }
        proof {
            assert(s@.skip(n as int) =~= Seq::<char>::empty());
            assert(toks.skip(cards@.len() as int).len() == 0);
            assert(cards@.len() == toks.len());
            assert(toks.take(cards@.len() as int) =~= toks);
        }
        Ok(Hand { cards })
    }

    /// Appends one card, rejecting the append if the hand is already full.
    pub fn add_card(&mut self, new_card: Card) -> (r: Result<(), PokerError>)
        ensures
            match r {
                Ok(()) => {
                    &&& old(self)@.len() < MAX_CARDS
                    &&& final(self)@ == old(self)@.push(new_card)
                },
                Err(e) => {
                    &&& e == PokerError::InvalidHandSize
                    &&& old(self)@.len() >= MAX_CARDS
                    &&& final(self)@ == old(self)@
                },
            },
    {
        if self.cards.len() >= MAX_CARDS {
            return Err(PokerError::InvalidHandSize);
        }
        self.cards.push(new_card);
        Ok(())
    }

    /// Appends several cards at once, rejecting the whole append if it would
    /// push the hand past `MAX_CARDS`.
    pub fn add_cards(&mut self, new_cards: Vec<Card>) -> (r: Result<(), PokerError>)
        ensures
            match r {
                Ok(()) => {
                    &&& old(self)@.len() + new_cards@.len() <= MAX_CARDS
                    &&& final(self)@ == old(self)@ + new_cards@
                },
                Err(e) => {
                    &&& e == PokerError::InvalidHandSize
                    &&& old(self)@.len() + new_cards@.len() > MAX_CARDS
                    &&& final(self)@ == old(self)@
                },
            },
    {
        if new_cards.len() > MAX_CARDS || self.cards.len() > MAX_CARDS - new_cards.len() {
            return Err(PokerError::InvalidHandSize);
        }
        let mut i: usize = 0;
        while i < new_cards.len()
            invariant
                i <= new_cards@.len(),
                self@ == old(self)@ + new_cards@.take(i as int),
                self@.len() == old(self)@.len() + i,
            decreases new_cards@.len() - i,
        {
            proof {
                assert(new_cards@.take(i as int + 1) =~= new_cards@.take(i as int).push(
                    new_cards@[i as int],
                ));
                assert(old(self)@ + new_cards@.take(i as int + 1) =~= (old(self)@
                    + new_cards@.take(i as int)).push(new_cards@[i as int]));
            }
            self.cards.push(new_cards[i]);
            i += 1;
        }
        proof {
            assert(new_cards@.take(new_cards@.len() as int) =~= new_cards@);
        }
        Ok(())
    }

    /// The cards of the hand, in insertion order.
    pub fn get_cards(&self) -> (r: &Vec<Card>)
        ensures
            r@ == self@,
    {
        &self.cards
    }

    /// How many cards the hand holds.
    pub fn get_count(&self) -> (n: usize)
        ensures
            n == self@.len(),
    {
        self.cards.len()
    }

    /// The score of the hand under the full evaluation decision table.
    /// Comparing two hands' scores with plain integer `>` decides the winner.
    pub fn get_score(&self) -> (score: u32)
        ensures
            score == crate::evaluator::eval_cards(self@),
    {
        crate::evaluator::evaluate(self)
    }

    /// The rank of each card, in insertion order.
    pub fn get_ranks(&self) -> (r: Vec<Rank>)
        ensures
            r@ == ranks_of(self@),
    {
        let mut out: Vec<Rank> = Vec::new();
        let mut i: usize = 0;
        while i < self.cards.len()
            invariant
                i <= self@.len(),
                out@ == ranks_of(self@.take(i as int)),
            decreases self@.len() - i,
        {
            proof {
                assert(ranks_of(self@.take(i as int + 1)) =~= ranks_of(self@.take(i as int)).push(
                    self@[i as int].rank,
                ));
            }
            out.push(self.cards[i].rank);
            i += 1;
        }
        proof {
            assert(self@.take(self@.len() as int) =~= self@);
        }
        out
    }

    /// The textual form of the hand: its card tokens joined by spaces, such
    /// as `"Ac Ks Qh Jd Tc"`.
    pub fn as_str(&self) -> (s: String)
        ensures
            s@ == hand_str(self@),
    {
        let mut out = String::new();
        let mut i: usize = 0;
        while i < self.cards.len()
            invariant
                i <= self@.len(),
                out@ == hand_str(self@.take(i as int)),
            decreases self@.len() - i,
        {
            if i > 0 {
                proof {
                    reveal_strlit(" ");
                }
                out.append(" ");
            }
            let cs = self.cards[i].as_str();
            out.append(cs.as_str());
            proof {
                assert(self@.take(i as int + 1).drop_last() =~= self@.take(i as int));
                assert(self@.take(i as int + 1).last() == self@[i as int]);
                if i == 0 {
                    assert(out@ =~= card_str(self@[0]));
                } else {
                    assert(out@ =~= hand_str(self@.take(i as int)) + seq![' '] + card_str(
                        self@[i as int],
                    ));
                }
            }
            i += 1;
        }
        proof {
            assert(self@.take(self@.len() as int) =~= self@);
        }
        out
    }

    /// The cards of the given suit, in insertion order.
    pub fn cards_of_suit(&self, suit: Suit) -> (r: Vec<Card>)
        ensures
            r@ == self@.filter(suit_pred(suit)),
    {
        filter_cards_by_suit(&self.cards, suit)
    }

    /// Stably sorts the hand by suit, in the fixed ascending suit order.
    pub fn sort_by_suit(&mut self)
        ensures
            final(self)@ == sort_cards_by_suit(old(self)@),
            final(self)@.len() == old(self)@.len(),
    {
        let mut out: Vec<Card> = filter_cards_by_suit(&self.cards, Suit::Club);
        let mut d = filter_cards_by_suit(&self.cards, Suit::Diamond);
        let mut h = filter_cards_by_suit(&self.cards, Suit::Heart);
        let mut s = filter_cards_by_suit(&self.cards, Suit::Spade);
        out.append(&mut d);
        out.append(&mut h);
        out.append(&mut s);
        proof {
            lemma_suit_buckets_len(self.cards@);
        }
        self.cards = out;
    }

    /// Stably sorts the hand by rank, ascending when `ascending` is true and
    /// descending otherwise. Cards of equal rank keep their relative order.
    pub fn sort_by_rank(&mut self, ascending: bool) -> (r: Result<(), PokerError>)
        ensures
            r is Ok,
            ascending ==> final(self)@ == sort_cards_by_rank_asc(old(self)@),
            !ascending ==> final(self)@ == sort_cards_by_rank_desc(old(self)@),
            final(self)@.len() == old(self)@.len(),
    {
        let sorted = if ascending {
            sort_cards_rank_asc_exec(&self.cards)
        } else {
            sort_cards_rank_desc_exec(&self.cards)
        };
        proof {
            if ascending {
                lemma_sort_cards_asc_len(self.cards@);
            } else {
                lemma_sort_cards_desc_len(self.cards@);
            }
        }
        self.cards = sorted;
        Ok(())
    }
}

/// Copies out the cards satisfying the suit predicate, in order.
fn filter_cards_by_suit(v: &Vec<Card>, suit: Suit) -> (out: Vec<Card>)
    ensures
        out@ == v@.filter(suit_pred(suit)),
{
    let mut out: Vec<Card> = Vec::new();
    let mut i: usize = 0;
    while i < v.len()
        invariant
            i <= v@.len(),
            out@ == v@.take(i as int).filter(suit_pred(suit)),
        decreases v@.len() - i,
    {
        proof {
            assert(v@.take(i as int + 1) =~= v@.take(i as int).push(v@[i as int]));
            Seq::lemma_filter_push(v@.take(i as int), v@[i as int], suit_pred(suit));
        }
        if suit_eq(v[i].suit, suit) {
            out.push(v[i]);
        }
        i += 1;
    }
    proof {
        assert(v@.take(v@.len() as int) =~= v@);
    }
    out
}

/// Suit equality as a plain comparison.
fn suit_eq(a: Suit, b: Suit) -> (r: bool)
    ensures
        r == (a == b),
{
    a == b
}

/// Appends the cards of rank strength `k`, in order.
fn push_rank_bucket(out: &mut Vec<Card>, v: &Vec<Card>, k: u32)
    requires
        2 <= k <= 14,
    ensures
        final(out)@ == old(out)@ + cards_rank_bucket(v@, k as int),
{
    let ghost base = old(out)@;
    let mut i: usize = 0;
    while i < v.len()
        invariant
            i <= v@.len(),
            2 <= k <= 14,
            out@ == base + v@.take(i as int).filter(rank_val_pred(k as int)),
        decreases v@.len() - i,
    {
        proof {
            assert(v@.take(i as int + 1) =~= v@.take(i as int).push(v@[i as int]));
            Seq::lemma_filter_push(v@.take(i as int), v@[i as int], rank_val_pred(k as int));
        }
        if v[i].rank.as_num() == k {
            out.push(v[i]);
        }
        i += 1;
    }
    proof {
        assert(v@.take(v@.len() as int) =~= v@);
    }
}

/// The stable descending-by-rank sort, bucket by bucket.
fn sort_cards_rank_desc_exec(v: &Vec<Card>) -> (out: Vec<Card>)
    ensures
        out@ == sort_cards_by_rank_desc(v@),
{
    let mut out: Vec<Card> = Vec::new();
    let mut k: u32 = 14;
    while k >= 2
        invariant
            1 <= k <= 14,
            out@ + sort_cards_desc_from(v@, k as int) == sort_cards_by_rank_desc(v@),
        decreases k,
    {
        let ghost base = out@;
        push_rank_bucket(&mut out, v, k);
        proof {
            assert((base + cards_rank_bucket(v@, k as int)) + sort_cards_desc_from(v@, k as int - 1)
                =~= base + sort_cards_desc_from(v@, k as int));
        }
        k = k - 1;
    }
    proof {
        assert(out@ + sort_cards_desc_from(v@, 1) =~= out@);
    }
    out
}

/// The stable ascending-by-rank sort, bucket by bucket.
fn sort_cards_rank_asc_exec(v: &Vec<Card>) -> (out: Vec<Card>)
    ensures
        out@ == sort_cards_by_rank_asc(v@),
{
    let mut out: Vec<Card> = Vec::new();
    let mut k: u32 = 2;
    while k <= 14
        invariant
            2 <= k <= 15,
            out@ + sort_cards_asc_from(v@, k as int) == sort_cards_by_rank_asc(v@),
        decreases 15 - k,
    {
        let ghost base = out@;
        push_rank_bucket(&mut out, v, k);
        proof {
            assert((base + cards_rank_bucket(v@, k as int)) + sort_cards_asc_from(v@, k as int + 1)
                =~= base + sort_cards_asc_from(v@, k as int));
        }
        k = k + 1;
    }
    proof {
        assert(out@ + sort_cards_asc_from(v@, 15) =~= out@);
    }
    out
}

proof fn lemma_suit_buckets_len(cards: Seq<Card>)
    ensures
        sort_cards_by_suit(cards).len() == cards.len(),
    decreases cards.len(),
{
    reveal(Seq::filter);
    if cards.len() == 0 {
        assert(sort_cards_by_suit(cards) =~= Seq::<Card>::empty());
    } else {
        let dl = cards.drop_last();
        lemma_suit_buckets_len(dl);
        let x = cards.last();
        assert forall|su: Suit| true implies #[trigger] cards.filter(suit_pred(su)).len()
            == dl.filter(suit_pred(su)).len() + (if su == x.suit {
            1int
        } else {
            0int
        }) by {}
        assert(cards.filter(suit_pred(Suit::Club)).len() + cards.filter(
            suit_pred(Suit::Diamond),
        ).len() + cards.filter(suit_pred(Suit::Heart)).len() + cards.filter(
            suit_pred(Suit::Spade),
        ).len() == cards.len());
    }
}

proof fn lemma_rank_buckets_len_from(cards: Seq<Card>, k: int)
    requires
        k <= 14,
    ensures
        sort_cards_desc_from(cards, k).len() == rank_bucket_len_sum(cards, k),
    decreases k,
{
    if k >= 2 {
        lemma_rank_buckets_len_from(cards, k - 1);
    }
}

/// The summed sizes of the rank buckets of strength at most `k`.
pub open spec fn rank_bucket_len_sum(cards: Seq<Card>, k: int) -> nat
    decreases k,
{
    if k < 2 {
        0
    } else {
        cards_rank_bucket(cards, k).len() + rank_bucket_len_sum(cards, k - 1)
    }
}

proof fn lemma_rank_bucket_len_sum_push(cards: Seq<Card>, x: Card, k: int)
    requires
        k <= 14,
    ensures
        rank_bucket_len_sum(cards.push(x), k) == rank_bucket_len_sum(cards, k) + if crate::card::rank_num(
            x.rank,
        ) <= k {
            1nat
        } else {
            0nat
        },
    decreases k,
{
    crate::card::lemma_rank_num_range(x.rank);
    if k >= 2 {
        lemma_rank_bucket_len_sum_push(cards, x, k - 1);
        Seq::lemma_filter_push(cards, x, rank_val_pred(k));
    }
}

proof fn lemma_rank_bucket_len_sum_total(cards: Seq<Card>)
    ensures
        rank_bucket_len_sum(cards, 14) == cards.len(),
    decreases cards.len(),
{
    if cards.len() == 0 {
        assert forall|k: int| 2 <= k <= 14 implies #[trigger] cards_rank_bucket(cards, k).len()
            == 0 by {
            reveal(Seq::filter);
        }
        lemma_rank_bucket_len_sum_zero(cards, 14);
    } else {
        lemma_rank_bucket_len_sum_total(cards.drop_last());
        crate::card::lemma_rank_num_range(cards.last().rank);
        lemma_rank_bucket_len_sum_push(cards.drop_last(), cards.last(), 14);
        assert(cards.drop_last().push(cards.last()) =~= cards);
    }
}

proof fn lemma_rank_bucket_len_sum_zero(cards: Seq<Card>, k: int)
    requires
        cards.len() == 0,
    ensures
        rank_bucket_len_sum(cards, k) == 0,
    decreases k,
{
    if k >= 2 {
        lemma_rank_bucket_len_sum_zero(cards, k - 1);
        reveal(Seq::filter);
        assert(cards_rank_bucket(cards, k).len() == 0);
    }
}

/// Sorting by descending rank keeps the number of cards.
pub proof fn lemma_sort_cards_desc_len(cards: Seq<Card>)
    ensures
        sort_cards_by_rank_desc(cards).len() == cards.len(),
{
    lemma_rank_buckets_len_from(cards, 14);
    lemma_rank_bucket_len_sum_total(cards);
}

proof fn lemma_rank_buckets_asc_desc_len(cards: Seq<Card>, k: int)
    requires
        2 <= k <= 15,
    ensures
        sort_cards_asc_from(cards, k).len() + rank_bucket_len_sum(cards, k - 1) == rank_bucket_len_sum(
            cards,
            14,
        ),
    decreases 15 - k,
{
    if k <= 14 {
        lemma_rank_buckets_asc_desc_len(cards, k + 1);
    }
}

/// Sorting by ascending rank keeps the number of cards.
pub proof fn lemma_sort_cards_asc_len(cards: Seq<Card>)
    ensures
        sort_cards_by_rank_asc(cards).len() == cards.len(),
{
    lemma_rank_buckets_asc_desc_len(cards, 2);
    lemma_rank_bucket_len_sum_total(cards);
}

} // verus!
