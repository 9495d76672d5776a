//! Hand evaluation: the score encoding, the category detectors, and the
//! orchestrator that turns a hand into a single comparable 32-bit score.

pub mod flush;
pub mod four_of_a_kind;
pub mod full_house;
pub mod pair;
pub mod straight;
pub mod three_of_a_kind;
pub mod two_pair;

pub use flush::find_flush;
pub use four_of_a_kind::find_four_of_a_kind;
pub use full_house::find_full_house;
pub use pair::find_pair;
pub use straight::find_straight;
pub use three_of_a_kind::find_three_of_a_kind;
pub use two_pair::find_two_pair;

use vstd::prelude::*;

use crate::card::{lemma_rank_num_range, rank_num, Card, Rank, Suit};
use crate::hand::Hand;
use crate::tally::{any_rank_pred, contains_rank, contains_val, dedup_desc, first_n,
    lemma_contains_val_members, lemma_distinct_le_total, lemma_dup_exists, lemma_filter_len_eq,
    lemma_len_ge_cnt2, lemma_max_rank_where_correct, lemma_max_rank_where_intro_none,
    lemma_rank_cnt_as_filter, lemma_rank_cnt_le_len, lemma_same_members_distinct,
    lemma_sort_desc_cnt, lemma_sort_desc_from_counts, lemma_sort_desc_len,
    lemma_sort_desc_members, lemma_sort_desc_sorted, lemma_strict_len_eq_distinct,
    lemma_total_cnt_len, lemma_totals_from_counts, lemma_two_pairs_exist, max_rank_where,
    ne_rank_pred, num_distinct, rank_cnt, rank_eq_pred, ranks_of, remove_rank, sort_ranks_desc,
    sort_ranks_desc_exec, suit_cnt, suit_pred, suit_ranks, take_up_to};
use flush::flush_suit_of;
use four_of_a_kind::four_of_a_kind_spec;
use full_house::full_house_spec;
use pair::pair_spec;
use straight::{lemma_straight_high_intro, lemma_straight_high_members, straight_high,
    straight_vals_present};
use three_of_a_kind::three_of_a_kind_spec;
use two_pair::two_pair_spec;
use vstd::pervasive::unreached;

verus! {

/// The category of a poker hand, weakest to strongest. Each category owns a
/// fixed base value, spaced 1,000,000 apart, which dominates every packed
/// kicker contribution below it.
#[derive(Debug, Clone, Copy, PartialEq, Eq, Structural)]
pub enum HandRank {
    HighCard,
    OnePair,
    TwoPair,
    ThreeOfAKind,
    Straight,
    Flush,
    FullHouse,
    FourOfAKind,
    StraightFlush,
}

/// The fixed base value of a category.
pub open spec fn category_base(hr: HandRank) -> int {
    match hr {
        HandRank::HighCard => 0,
        HandRank::OnePair => 1_000_000,
        HandRank::TwoPair => 2_000_000,
        HandRank::ThreeOfAKind => 3_000_000,
        HandRank::Straight => 4_000_000,
        HandRank::Flush => 5_000_000,
        HandRank::FullHouse => 6_000_000,
        HandRank::FourOfAKind => 7_000_000,
        HandRank::StraightFlush => 8_000_000,
    }
}

impl HandRank {
    /// The category's base value as a machine integer.
    pub fn base(&self) -> (b: u32)
        ensures
            b == category_base(*self),
    {
        match self {
            HandRank::HighCard => 0,
            HandRank::OnePair => 1_000_000,
            HandRank::TwoPair => 2_000_000,
            HandRank::ThreeOfAKind => 3_000_000,
            HandRank::Straight => 4_000_000,
            HandRank::Flush => 5_000_000,
            HandRank::FullHouse => 6_000_000,
            HandRank::FourOfAKind => 7_000_000,
            HandRank::StraightFlush => 8_000_000,
        }
    }
}

/// The fixed-width packing of a rank list: four bits per rank, the first rank
/// most significant.
pub open spec fn pack_ranks(s: Seq<Rank>) -> int
    decreases s.len(),
{
    if s.len() == 0 {
        0
    } else {
        pack_ranks(s.drop_last()) * 16 + rank_num(s.last())
    }
}

/// The largest value `pack_ranks` can reach on `n` ranks: `n` packed Aces.
pub open spec fn max_pack(n: nat) -> int
    decreases n,
{
    if n == 0 {
        0
    } else {
        max_pack((n - 1) as nat) * 16 + 14
    }
}

/// A packed rank list is non-negative and bounded by `max_pack` of its length.
pub proof fn lemma_pack_ranks_bounds(s: Seq<Rank>)
    ensures
        0 <= pack_ranks(s) <= max_pack(s.len()),
    decreases s.len(),
{
    broadcast use lemma_rank_num_range;

    if s.len() > 0 {
        lemma_pack_ranks_bounds(s.drop_last());
    }
}

/// `max_pack` grows with the number of ranks.
pub proof fn lemma_max_pack_mono(a: nat, b: nat)
    requires
        a <= b,
    ensures
        0 <= max_pack(a) <= max_pack(b),
    decreases b,
{
    if b > 0 {
        if a == b {
            lemma_max_pack_mono((a - 1) as nat, (b - 1) as nat);
        } else {
            lemma_max_pack_mono(a, (b - 1) as nat);
        }
    }
}

/// The concrete ceilings of the packing: five ranks stay under 1,000,000 (the
/// category spacing), and eight ranks still fit a 32-bit integer.
pub proof fn lemma_max_pack_values()
    ensures
        max_pack(5) == 978670,
        max_pack(7) == 250539758,
        max_pack(8) == 4008636142,
{
    assert(max_pack(0) == 0);
    assert(max_pack(1) == 14);
    assert(max_pack(2) == 238);
    assert(max_pack(3) == 3822);
    assert(max_pack(4) == 61166);
    assert(max_pack(5) == 978670);
    assert(max_pack(6) == 15658734);
    assert(max_pack(7) == 250539758);
    assert(max_pack(8) == 4008636142);
}

/// Packs a list of ranks, most significant first, into a single integer by
/// shifting four bits per rank. An empty list packs to zero.
pub fn calculate_rank_score(ranks: Vec<Rank>) -> (score: u32)
    requires
        ranks@.len() <= 8,
    ensures
        score == pack_ranks(ranks@),
{
    proof {
        lemma_max_pack_values();
    }
    let mut score: u32 = 0;
    let mut i: usize = 0;
    while i < ranks.len()
        invariant
            i <= ranks@.len() <= 8,
            score == pack_ranks(ranks@.take(i as int)),
            score <= max_pack(i as nat),
        decreases ranks@.len() - i,
    {
        let v: u32 = ranks[i].as_num();
        proof {
            lemma_max_pack_values();
            lemma_max_pack_mono(i as nat, 7);
            assert(score < 0x10000000 && v < 16 ==> ((score << 4u32) | v) == 16 * score + v)
                by (bit_vector);
            lemma_rank_num_range(ranks@[i as int]);
            assert(ranks@.take(i as int + 1).drop_last() =~= ranks@.take(i as int));
            assert(ranks@.take(i as int + 1).last() == ranks@[i as int]);
        }
        score = (score << 4u32) | v;
        i += 1;
    }
    proof {
        assert(ranks@.take(ranks@.len() as int) =~= ranks@);
    }
    score
}

/// The final score of a categorised hand: the category's base plus the packed
/// significant ranks, which the detectors bound to at most five.
pub fn calculate_hand_score(ranks: Vec<Rank>, hand_rank: HandRank) -> (score: u32)
    requires
        ranks@.len() <= 5,
    ensures
        score == category_base(hand_rank) + pack_ranks(ranks@),
{
    let ghost rs = ranks@;
    proof {
        lemma_pack_ranks_bounds(rs);
        lemma_max_pack_mono(rs.len(), 5);
        lemma_max_pack_values();
    }
    let rank_score = calculate_rank_score(ranks);
    let hand_score = hand_rank.base();
    hand_score + rank_score
}

/// The score a rank list earns in a category: the category base plus the
/// packed ranks.
pub open spec fn hand_score_of(ranks: Seq<Rank>, hand_rank: HandRank) -> int {
    category_base(hand_rank) + pack_ranks(ranks)
}

/// Law: a score decomposes exactly into its parts: subtracting the category
/// base from a hand score recovers the packed rank payload.
pub proof fn lemma_score_round_trip(ranks: Seq<Rank>, hand_rank: HandRank)
    ensures
        hand_score_of(ranks, hand_rank) - category_base(hand_rank) == pack_ranks(ranks),
{
}

/// Law: the packed payload of at most five ranks stays strictly below the
/// category spacing of 1,000,000.
pub proof fn lemma_pack_below_spacing(ranks: Seq<Rank>)
    requires
        ranks.len() <= 5,
    ensures
        0 <= pack_ranks(ranks) < 1_000_000,
{
    lemma_pack_ranks_bounds(ranks);
    lemma_max_pack_mono(ranks.len(), 5);
    lemma_max_pack_values();
}

/// Law: categories never cross: with at most five packed ranks on each side,
/// every score of a stronger category exceeds every score of a weaker one.
pub proof fn lemma_category_monotonic(
    ranks1: Seq<Rank>,
    cat1: HandRank,
    ranks2: Seq<Rank>,
    cat2: HandRank,
)
    requires
        ranks1.len() <= 5,
        ranks2.len() <= 5,
        category_base(cat1) > category_base(cat2),
    ensures
        hand_score_of(ranks1, cat1) > hand_score_of(ranks2, cat2),
{
    lemma_pack_below_spacing(ranks1);
    lemma_pack_below_spacing(ranks2);
    assert(category_base(cat1) >= category_base(cat2) + 1_000_000);
}

/// The flush ranks of a card list, strongest first, when a flush suit exists.
pub open spec fn flush_ranks_of(cards: Seq<Card>) -> Option<Seq<Rank>> {
    match flush_suit_of(cards) {
        Some(su) => Some(sort_ranks_desc(suit_ranks(cards, su))),
        None => None,
    }
}

/// How many cards duplicate an already-present rank.
pub open spec fn dup_count(cards: Seq<Card>) -> int {
    ranks_of(cards).len() - num_distinct(ranks_of(cards))
}

/// The score of a list of cards: the decision table of the evaluator, run on
/// the descending rank list, from the strongest category down. Every branch
/// condition depends only on which cards are present, not on their order.
pub open spec fn eval_cards(cards: Seq<Card>) -> int {
    let rs = sort_ranks_desc(ranks_of(cards));
    let dup = dup_count(cards);
    let sf = match flush_ranks_of(cards) {
        Some(fr) => straight_high(fr),
        None => None,
    };
    if sf is Some {
        category_base(HandRank::StraightFlush) + pack_ranks(seq![sf->Some_0])
    } else if dup > 2 && four_of_a_kind_spec(rs) is Some {
        category_base(HandRank::FourOfAKind) + pack_ranks(four_of_a_kind_spec(rs)->Some_0)
    } else if dup > 2 && full_house_spec(rs) is Some {
        category_base(HandRank::FullHouse) + pack_ranks(full_house_spec(rs)->Some_0)
    } else if flush_ranks_of(cards) is Some {
        category_base(HandRank::Flush) + pack_ranks((flush_ranks_of(cards)->Some_0).take(5))
    } else if straight_high(rs) is Some {
        category_base(HandRank::Straight) + pack_ranks(seq![straight_high(rs)->Some_0])
    } else if dup > 1 && three_of_a_kind_spec(rs) is Some {
        category_base(HandRank::ThreeOfAKind) + pack_ranks(three_of_a_kind_spec(rs)->Some_0)
    } else if dup > 1 {
        match two_pair_spec(rs) {
            Some(v) => category_base(HandRank::TwoPair) + pack_ranks(v),
            None => 0,
        }
    } else if dup > 0 {
        match pair_spec(rs) {
            Some(v) => category_base(HandRank::OnePair) + pack_ranks(v),
            None => 0,
        }
    } else {
        category_base(HandRank::HighCard) + pack_ranks(take_up_to(rs, 5))
    }
}

/// Evaluates a hand to its score, checking the categories from the strongest
/// down and returning at the first match: straight flush, four of a kind,
/// full house, flush, straight, three of a kind, two pair, one pair, and
/// finally the high cards.
pub fn evaluate(hand: &Hand) -> (score: u32)
    ensures
        score == eval_cards(hand@),
{
    let ghost cards = hand@;
    let ghost ranks = ranks_of(cards);
    let ghost rs = sort_ranks_desc(ranks);
    let ranks_raw = hand.get_ranks();
    let ranks_desc = sort_ranks_desc_exec(&ranks_raw);
    proof {
        lemma_sort_desc_sorted(ranks);
        lemma_sort_desc_len(ranks);
    }
    // The flush ranks, strongest first, if a flush suit exists.
    let flush_ranks_desc: Option<Vec<Rank>> = match find_flush(hand) {
        Some(fr) => Some(sort_ranks_desc_exec(&fr)),
        None => None,
    };
    proof {
        assert(flush_ranks_desc is Some <==> flush_ranks_of(cards) is Some);
        if flush_ranks_desc is Some {
            assert(flush_ranks_desc->Some_0@ == flush_ranks_of(cards)->Some_0);
        }
    }
    // Straight flush: a straight within the flush ranks.
    if let Some(fr) = &flush_ranks_desc {
        let ghost frs = fr@;
        proof {
            lemma_sort_desc_sorted(suit_ranks(cards, flush_suit_of(cards)->Some_0));
        }
        let fr_nodup = dedup_desc(fr);
        proof {
            lemma_contains_val_members(fr_nodup@, frs);
            lemma_straight_high_members(fr_nodup@, frs);
        }
        if let Some(high) = find_straight(&fr_nodup) {
            let mut v: Vec<Rank> = Vec::new();
            v.push(high);
            proof {
                assert(v@ =~= seq![high]);
            }
            return calculate_hand_score(v, HandRank::StraightFlush);
        }
    }
    // The duplicate count steers the paired-category checks.
    let ranks_nodup = dedup_desc(&ranks_desc);
    proof {
        lemma_strict_len_eq_distinct(ranks_nodup@);
        lemma_same_members_distinct(ranks_nodup@, rs, 14);
        assert forall|r: Rank| rs.contains(r) <==> ranks.contains(r) by {
            lemma_sort_desc_members(ranks, r);
        }
        lemma_same_members_distinct(rs, ranks, 14);
        assert(ranks_nodup@.len() == num_distinct(ranks));
        lemma_distinct_le_total(ranks, 14);
        lemma_total_cnt_len(ranks);
    }
    let num_duplicates = ranks_desc.len() - ranks_nodup.len();
    proof {
        assert(num_duplicates == dup_count(cards));
    }
    if num_duplicates > 2 {
        if let Some(four) = find_four_of_a_kind(&ranks_desc) {
            return calculate_hand_score(four, HandRank::FourOfAKind);
        }
        if let Some(fh) = find_full_house(&ranks_desc) {
            return calculate_hand_score(fh, HandRank::FullHouse);
        }
    }
    // Flush: the straight-flush check above has already failed.
    if let Some(fr) = flush_ranks_desc {
        let five = first_n(&fr, 5);
        proof {
            let su = flush_suit_of(cards)->Some_0;
            lemma_sort_desc_len(suit_ranks(cards, su));
            assert(fr@.len() >= 5);
            assert(five@ == fr@.take(5));
        }
        return calculate_hand_score(five, HandRank::Flush);
    }
    // Straight on the duplicate-free ranks.
    proof {
        lemma_contains_val_members(ranks_nodup@, rs);
        lemma_straight_high_members(ranks_nodup@, rs);
    }
    if let Some(high) = find_straight(&ranks_nodup) {
        let mut v: Vec<Rank> = Vec::new();
        v.push(high);
        proof {
            assert(v@ =~= seq![high]);
        }
        return calculate_hand_score(v, HandRank::Straight);
    }
    if num_duplicates > 1 {
        if let Some(trips) = find_three_of_a_kind(&ranks_desc) {
            proof {
                lemma_trips_len(rs);
            }
            return calculate_hand_score(trips, HandRank::ThreeOfAKind);
        }
        // No rank is tripled here, so two ranks must be paired.
        proof {
            lemma_max_rank_where_correct(rs, 3, any_rank_pred());
            lemma_total_cnt_len(rs);
            lemma_two_pairs_exist(rs, 14);
        }
        match find_two_pair(&ranks_desc) {
            Some(tp) => {
                return calculate_hand_score(tp, HandRank::TwoPair);
            },
            None => {
                proof {
                    lemma_two_pair_some(rs);
                }
                unreached()
            },
        }
    } else if num_duplicates > 0 {
        // A duplicate exists, so some rank is paired.
        proof {
            lemma_total_cnt_len(rs);
            lemma_dup_exists(rs, 14);
            lemma_pair_some(rs);
        }
        match find_pair(&ranks_desc) {
            Some(p) => {
                return calculate_hand_score(p, HandRank::OnePair);
            },
            None => unreached(),
        }
    } else {
        let top = first_n(&ranks_desc, 5);
        calculate_hand_score(top, HandRank::HighCard)
    }
}

/// The ranks of the flush cards of `hand` in descending order, or an empty
/// list if the hand holds no flush.
pub fn get_flush_ranks_desc(hand: Hand) -> (r: Vec<Rank>)
    ensures
        match flush_suit_of(hand@) {
            Some(su) => r@ == sort_ranks_desc(suit_ranks(hand@, su)),
            None => r@ == Seq::<Rank>::empty(),
        },
{
    match find_flush(&hand) {
        Some(fr) => sort_ranks_desc_exec(&fr),
        None => {
            let out: Vec<Rank> = Vec::new();
            proof {
                assert(out@ =~= Seq::<Rank>::empty());
            }
            out
        },
    }
}

/// Scores `hand` as a flush from its top five flush ranks, or yields zero if
/// it holds no flush. A hand scored here may still hold a stronger category.
pub fn evaluate_flush(hand: Hand) -> (score: u32)
    ensures
        score == match flush_suit_of(hand@) {
            Some(su) => category_base(HandRank::Flush) + pack_ranks(
                sort_ranks_desc(suit_ranks(hand@, su)).take(5),
            ),
            None => 0,
        },
{
    let ghost cards = hand@;
    let flush_ranks = get_flush_ranks_desc(hand);
    if flush_ranks.len() == 0 {
        proof {
            if flush_suit_of(cards) is Some {
                let su = flush_suit_of(cards)->Some_0;
                lemma_sort_desc_len(suit_ranks(cards, su));
            }
        }
        return 0;
    }
    proof {
        let su = flush_suit_of(cards)->Some_0;
        lemma_sort_desc_len(suit_ranks(cards, su));
        assert(flush_ranks@ == sort_ranks_desc(suit_ranks(cards, su)));
        assert(flush_ranks@.len() >= 5);
    }
    let five = first_n(&flush_ranks, 5);
    proof {
        let su = flush_suit_of(cards)->Some_0;
        assert(five@ =~= sort_ranks_desc(suit_ranks(cards, su)).take(5));
    }
    calculate_hand_score(five, HandRank::Flush)
}

/// Whether the ranks hold the ace-low straight A-2-3-4-5, in any order. A
/// longer straight that begins at the Ace still counts.
pub fn is_ace_low_straight(ranks: &Vec<Rank>) -> (b: bool)
    ensures
        b == (ranks@.len() >= 5 && ranks@.contains(Rank::Ace) && ranks@.contains(Rank::Five)
            && ranks@.contains(Rank::Four) && ranks@.contains(Rank::Three) && ranks@.contains(
            Rank::Two,
        )),
{
    if ranks.len() < 5 {
        return false;
    }
    contains_rank(ranks, Rank::Ace) && contains_rank(ranks, Rank::Five) && contains_rank(
        ranks,
        Rank::Four,
    ) && contains_rank(ranks, Rank::Three) && contains_rank(ranks, Rank::Two)
}

/// Law: evaluation is order-independent: two card lists holding the same
/// cards, each the same number of times, earn the same score whatever order
/// the cards arrived in.
pub proof fn lemma_eval_order_independent(c1: Seq<Card>, c2: Seq<Card>)
    requires
        c1.to_multiset() == c2.to_multiset(),
    ensures
        eval_cards(c1) == eval_cards(c2),
{
    let ranks1 = ranks_of(c1);
    let ranks2 = ranks_of(c2);
    assert forall|r: Rank| rank_cnt(ranks1, r) == rank_cnt(ranks2, r) by {
        lemma_rank_cnt_as_filter(c1, r);
        lemma_rank_cnt_as_filter(c2, r);
        lemma_filter_len_eq(c1, c2, rank_eq_pred(r));
    }
    assert forall|su: Suit| suit_cnt(c1, su) == suit_cnt(c2, su) by {
        lemma_filter_len_eq(c1, c2, suit_pred(su));
    }
    lemma_sort_desc_from_counts(ranks1, ranks2, 14);
    assert(sort_ranks_desc(ranks1) == sort_ranks_desc(ranks2));
    c1.to_multiset_ensures();
    c2.to_multiset_ensures();
    assert(ranks1.len() == c1.len() && ranks2.len() == c2.len());
    lemma_totals_from_counts(ranks1, ranks2, 14);
    assert(dup_count(c1) == dup_count(c2));
    assert(flush_suit_of(c1) == flush_suit_of(c2));
    if flush_suit_of(c1) is Some {
        let su = flush_suit_of(c1)->Some_0;
        assert forall|r: Rank| rank_cnt(suit_ranks(c1, su), r) == rank_cnt(
            suit_ranks(c2, su),
            r,
        ) by {
            lemma_filter_len_eq(c1, c2, suit_pred(su));
            lemma_rank_cnt_as_filter(c1.filter(suit_pred(su)), r);
            lemma_rank_cnt_as_filter(c2.filter(suit_pred(su)), r);
            lemma_filter_len_eq(
                c1.filter(suit_pred(su)),
                c2.filter(suit_pred(su)),
                rank_eq_pred(r),
            );
        }
        lemma_sort_desc_from_counts(suit_ranks(c1, su), suit_ranks(c2, su), 14);
        assert(flush_ranks_of(c1) == flush_ranks_of(c2));
    } else {
        assert(flush_ranks_of(c1) == flush_ranks_of(c2));
    }
}

/// Law: wheel correctness, straight case: a hand holding the Ace and the Two
/// up to the Five, with no flush suit, no rank tripled, and no straight with
/// a stronger top card, evaluates as a straight whose high card is the Five,
/// not the Ace.
pub proof fn lemma_wheel_scores_as_five_high_straight(cards: Seq<Card>)
    requires
        contains_val(ranks_of(cards), 14),
        contains_val(ranks_of(cards), 2),
        contains_val(ranks_of(cards), 3),
        contains_val(ranks_of(cards), 4),
        contains_val(ranks_of(cards), 5),
        flush_suit_of(cards) is None,
        forall|r: Rank| rank_cnt(ranks_of(cards), r) < 3,
        forall|g: int| 6 <= g <= 14 ==> !straight_vals_present(ranks_of(cards), g),
    ensures
        eval_cards(cards) == category_base(HandRank::Straight) + rank_num(Rank::Five),
{
    let ranks = ranks_of(cards);
    let rs = sort_ranks_desc(ranks);
    assert forall|r: Rank| rs.contains(r) <==> ranks.contains(r) by {
        lemma_sort_desc_members(ranks, r);
    }
    lemma_contains_val_members(rs, ranks);
    assert forall|q: Rank| any_rank_pred()(q) implies rank_cnt(rs, q) < 3 by {
        lemma_sort_desc_cnt(ranks, q);
    }
    lemma_max_rank_where_intro_none(rs, 4, any_rank_pred());
    lemma_max_rank_where_intro_none(rs, 3, any_rank_pred());
    assert(four_of_a_kind_spec(rs) is None);
    assert(full_house_spec(rs) is None);
    assert(straight_vals_present(rs, 5));
    assert forall|g: int| 5 < g <= 14 implies !straight_vals_present(rs, g) by {
        assert(!straight_vals_present(ranks, g));
    }
    lemma_straight_high_intro(rs, 5);
    assert(flush_ranks_of(cards) is None);
    lemma_pack_single(Rank::Five);
}

/// Law: wheel correctness, straight-flush case: when the flush suit's cards
/// hold the Ace and the Two up to the Five, and no straight with a stronger
/// top card, the hand evaluates as a straight flush whose high card is the
/// Five, not the Ace.
pub proof fn lemma_suited_wheel_scores_as_five_high_straight_flush(cards: Seq<Card>, su: Suit)
    requires
        flush_suit_of(cards) == Some(su),
        contains_val(suit_ranks(cards, su), 14),
        contains_val(suit_ranks(cards, su), 2),
        contains_val(suit_ranks(cards, su), 3),
        contains_val(suit_ranks(cards, su), 4),
        contains_val(suit_ranks(cards, su), 5),
        forall|g: int| 6 <= g <= 14 ==> !straight_vals_present(suit_ranks(cards, su), g),
    ensures
        eval_cards(cards) == category_base(HandRank::StraightFlush) + rank_num(Rank::Five),
{
    let fr0 = suit_ranks(cards, su);
    let fr = sort_ranks_desc(fr0);
    assert forall|r: Rank| fr.contains(r) <==> fr0.contains(r) by {
        lemma_sort_desc_members(fr0, r);
    }
    lemma_contains_val_members(fr, fr0);
    assert(straight_vals_present(fr, 5));
    assert forall|g: int| 5 < g <= 14 implies !straight_vals_present(fr, g) by {
        assert(!straight_vals_present(fr0, g));
    }
    lemma_straight_high_intro(fr, 5);
    assert(flush_ranks_of(cards) == Some(fr));
    lemma_pack_single(Rank::Five);
}

/// Packing a single rank yields just that rank's strength.
proof fn lemma_pack_single(r: Rank)
    ensures
        pack_ranks(seq![r]) == rank_num(r),
{
    reveal_with_fuel(pack_ranks, 2);
    assert(seq![r].drop_last() =~= Seq::<Rank>::empty());
    assert(seq![r].last() == r);
}

/// A three-of-a-kind result never exceeds three entries.
proof fn lemma_trips_len(rs: Seq<Rank>)
    requires
        three_of_a_kind_spec(rs) is Some,
    ensures
        (three_of_a_kind_spec(rs)->Some_0).len() <= 3,
{
    let t = max_rank_where(rs, 3, any_rank_pred())->Some_0;
    assert(take_up_to(remove_rank(rs, t), 2).len() <= 2);
}

/// When two different ranks are paired and none is tripled, two-pair
/// detection must succeed.
proof fn lemma_two_pair_some(rs: Seq<Rank>)
    requires
        exists|r1: Rank, r2: Rank|
            r1 != r2 && rank_cnt(rs, r1) >= 2 && rank_cnt(rs, r2) >= 2 && rank_num(r1) <= 14
                && rank_num(r2) <= 14,
    ensures
        two_pair_spec(rs) is Some,
{
    let (r1, r2) = choose|r1: Rank, r2: Rank|
        r1 != r2 && rank_cnt(rs, r1) >= 2 && rank_cnt(rs, r2) >= 2 && rank_num(r1) <= 14
            && rank_num(r2) <= 14;
    lemma_len_ge_cnt2(rs, r1, r2);
    lemma_max_rank_where_correct(rs, 2, any_rank_pred());
    let p1 = max_rank_where(rs, 2, any_rank_pred())->Some_0;
    lemma_max_rank_where_correct(rs, 2, ne_rank_pred(p1));
    match max_rank_where(rs, 2, ne_rank_pred(p1)) {
        Some(_) => {},
        None => {
            assert(ne_rank_pred(p1)(r1) || ne_rank_pred(p1)(r2));
        },
    }
}

/// When some rank is paired, pair detection must succeed.
proof fn lemma_pair_some(rs: Seq<Rank>)
    requires
        exists|r: Rank| rank_cnt(rs, r) >= 2,
    ensures
        pair_spec(rs) is Some,
{
    let r = choose|r: Rank| rank_cnt(rs, r) >= 2;
    lemma_rank_cnt_le_len(rs, r);
    lemma_max_rank_where_correct(rs, 2, any_rank_pred());
}

} // verus!
