//! Counting and ordering vocabulary for rank sequences: occurrence counts,
//! descending sort as a function of those counts, and the lemmas that connect
//! them. Every hand-evaluation contract is stated over these functions.

use vstd::prelude::*;

use crate::card::{lemma_rank_num_injective, lemma_rank_num_range, lemma_rank_of_num_num,
    rank_num, rank_of_num, Card, Rank, Suit};

verus! {

/// How many entries of `s` are the rank `r`.
pub open spec fn rank_cnt(s: Seq<Rank>, r: Rank) -> nat
    decreases s.len(),
{
    if s.len() == 0 {
        0
    } else {
        rank_cnt(s.drop_last(), r) + if s.last() == r {
            1nat
        } else {
            0nat
        }
    }
}

/// Whether `s` holds some rank of numeric strength `v`.
pub open spec fn contains_val(s: Seq<Rank>, v: int) -> bool {
    exists|i: int| 0 <= i < s.len() && rank_num(s[i]) == v
}

/// Ranks in non-increasing order of strength.
pub open spec fn sorted_desc(s: Seq<Rank>) -> bool {
    forall|i: int, j: int| 0 <= i < j < s.len() ==> rank_num(s[i]) >= rank_num(s[j])
}

/// Ranks in strictly decreasing order of strength (so also duplicate-free).
pub open spec fn strictly_desc(s: Seq<Rank>) -> bool {
    forall|i: int, j: int| 0 <= i < j < s.len() ==> rank_num(s[i]) > rank_num(s[j])
}

/// The first `n` entries of `s`, or all of `s` if it is shorter than that.
pub open spec fn take_up_to(s: Seq<Rank>, n: int) -> Seq<Rank> {
    if s.len() <= n {
        s
    } else {
        s.take(n)
    }
}

/// The predicate holding of every rank but `r`.
pub open spec fn ne_rank_pred(r: Rank) -> spec_fn(Rank) -> bool {
    |x: Rank| x != r
}

/// The predicate holding of every rank but `r1` and `r2`.
pub open spec fn ne_rank2_pred(r1: Rank, r2: Rank) -> spec_fn(Rank) -> bool {
    |x: Rank| x != r1 && x != r2
}

/// The predicate holding of every rank.
pub open spec fn any_rank_pred() -> spec_fn(Rank) -> bool {
    |x: Rank| true
}

/// The predicate selecting the cards of suit `su`.
pub open spec fn suit_pred(su: Suit) -> spec_fn(Card) -> bool {
    |c: Card| c.suit == su
}

/// The predicate selecting the cards of rank strength `k`.
pub open spec fn rank_val_pred(k: int) -> spec_fn(Card) -> bool {
    |c: Card| rank_num(c.rank) == k
}

/// `s` without its entries of rank `r`.
pub open spec fn remove_rank(s: Seq<Rank>, r: Rank) -> Seq<Rank> {
    s.filter(ne_rank_pred(r))
}

/// `s` without its entries of rank `r1` or `r2`.
pub open spec fn remove_rank2(s: Seq<Rank>, r1: Rank, r2: Rank) -> Seq<Rank> {
    s.filter(ne_rank2_pred(r1, r2))
}

/// Removing a rank never lengthens a sequence.
pub proof fn lemma_filter_shorter(s: Seq<Rank>, r: Rank)
    ensures
        remove_rank(s, r).len() <= s.len(),
{
    s.lemma_filter_len(ne_rank_pred(r));
}

/// The ranks of a card sequence, one per card, in the same order.
pub open spec fn ranks_of(cards: Seq<Card>) -> Seq<Rank> {
    cards.map_values(|c: Card| c.rank)
}

/// How many cards of `cards` wear the suit `su`.
pub open spec fn suit_cnt(cards: Seq<Card>, su: Suit) -> nat {
    cards.filter(suit_pred(su)).len()
}

/// The ranks of the cards of suit `su`, in the order they appear in `cards`.
pub open spec fn suit_ranks(cards: Seq<Card>, su: Suit) -> Seq<Rank> {
    ranks_of(cards.filter(suit_pred(su)))
}

// ------------------------------------------------------------------
// Counting lemmas
// ------------------------------------------------------------------

/// Appending one rank raises exactly that rank's count by one.
pub broadcast proof fn lemma_rank_cnt_push(s: Seq<Rank>, x: Rank, r: Rank)
    ensures
        #[trigger] rank_cnt(s.push(x), r) == rank_cnt(s, r) + if x == r {
            1nat
        } else {
            0nat
        },
{
    assert(s.push(x).drop_last() =~= s);
}

/// A count never exceeds the length.
pub proof fn lemma_rank_cnt_le_len(s: Seq<Rank>, r: Rank)
    ensures
        rank_cnt(s, r) <= s.len(),
    decreases s.len(),
{
    if s.len() > 0 {
        lemma_rank_cnt_le_len(s.drop_last(), r);
    }
}

/// A rank has a positive count exactly when it occurs in the sequence.
pub proof fn lemma_rank_cnt_pos(s: Seq<Rank>, r: Rank)
    ensures
        rank_cnt(s, r) > 0 <==> s.contains(r),
    decreases s.len(),
{
    if s.len() > 0 {
        lemma_rank_cnt_pos(s.drop_last(), r);
        if s.contains(r) && s.last() != r {
            let i = choose|i: int| 0 <= i < s.len() && s[i] == r;
            assert(s.drop_last()[i] == r);
        }
    }
}

/// A count splits across any cut of the sequence.
pub proof fn lemma_rank_cnt_split(s: Seq<Rank>, r: Rank, i: int)
    requires
        0 <= i <= s.len(),
    ensures
        rank_cnt(s, r) == rank_cnt(s.take(i), r) + rank_cnt(s.skip(i), r),
    decreases s.len(),
{
    if i == s.len() {
        assert(s.take(i) =~= s);
        assert(s.skip(i) =~= Seq::<Rank>::empty());
    } else {
        let dl = s.drop_last();
        lemma_rank_cnt_split(dl, r, i);
        assert(dl.take(i) =~= s.take(i));
        assert(s.skip(i).drop_last() =~= dl.skip(i));
        assert(s.skip(i).last() == s.last());
    }
}

/// The count of the rank a constant sequence repeats is its length.
pub proof fn lemma_rank_cnt_constant(s: Seq<Rank>, r: Rank)
    requires
        forall|i: int| 0 <= i < s.len() ==> s[i] == r,
    ensures
        rank_cnt(s, r) == s.len(),
    decreases s.len(),
{
    if s.len() > 0 {
        lemma_rank_cnt_constant(s.drop_last(), r);
    }
}

/// A rank absent from a sequence has count zero there.
pub proof fn lemma_rank_cnt_absent(s: Seq<Rank>, r: Rank)
    requires
        forall|i: int| 0 <= i < s.len() ==> s[i] != r,
    ensures
        rank_cnt(s, r) == 0,
    decreases s.len(),
{
    if s.len() > 0 {
        lemma_rank_cnt_absent(s.drop_last(), r);
    }
}

/// Counts add across concatenation.
pub proof fn lemma_rank_cnt_add(a: Seq<Rank>, b: Seq<Rank>, r: Rank)
    ensures
        rank_cnt(a + b, r) == rank_cnt(a, r) + rank_cnt(b, r),
    decreases b.len(),
{
    if b.len() == 0 {
        assert(a + b =~= a);
    } else {
        lemma_rank_cnt_add(a, b.drop_last(), r);
        assert((a + b).drop_last() =~= a + b.drop_last());
        assert((a + b).last() == b.last());
    }
}

/// An `m`-long window of equal ranks pushes that rank's count to `m` or more.
pub proof fn lemma_window_cnt(s: Seq<Rank>, r: Rank, i: int, m: int)
    requires
        0 <= i,
        0 <= m,
        i + m <= s.len(),
        forall|j: int| i <= j < i + m ==> s[j] == r,
    ensures
        rank_cnt(s, r) >= m,
{
    lemma_rank_cnt_split(s, r, i);
    lemma_rank_cnt_split(s.skip(i), r, m);
    assert(s.skip(i).take(m) =~= s.subrange(i, i + m));
    lemma_rank_cnt_constant(s.subrange(i, i + m), r);
}

/// In a sorted sequence, equal ranks at two positions force every rank in
/// between to be the same.
pub proof fn lemma_sorted_run(s: Seq<Rank>, i: int, j: int)
    requires
        sorted_desc(s),
        0 <= i <= j < s.len(),
        s[i] == s[j],
    ensures
        forall|k: int| i <= k <= j ==> s[k] == s[i],
{
    assert forall|k: int| i <= k <= j implies s[k] == s[i] by {
        lemma_rank_num_injective(s[k], s[i]);
    }
}

/// The index of the first occurrence of `r` in `s` (the length if absent).
pub open spec fn first_idx(s: Seq<Rank>, r: Rank) -> int
    decreases s.len(),
{
    if s.len() == 0 {
        0
    } else if s[0] == r {
        0
    } else {
        1 + first_idx(s.drop_first(), r)
    }
}

/// When `r` occurs, `first_idx` points at its first occurrence.
pub proof fn lemma_first_idx(s: Seq<Rank>, r: Rank)
    requires
        s.contains(r),
    ensures
        0 <= first_idx(s, r) < s.len(),
        s[first_idx(s, r)] == r,
        forall|j: int| 0 <= j < first_idx(s, r) ==> s[j] != r,
    decreases s.len(),
{
    if s[0] != r {
        let d = s.drop_first();
        let i = choose|i: int| 0 <= i < s.len() && s[i] == r;
        assert(d[i - 1] == r);
        lemma_first_idx(d, r);
        let f = first_idx(s, r);
        assert(s[f] == d[f - 1]);
        assert forall|j: int| 0 <= j < f implies s[j] != r by {
            if j >= 1 {
                assert(s[j] == d[j - 1]);
            }
        }
    }
}

/// The length of the run of `r` at the head of `s`.
pub open spec fn head_run(s: Seq<Rank>, r: Rank) -> nat
    decreases s.len(),
{
    if s.len() == 0 {
        0
    } else if s[0] != r {
        0
    } else {
        1 + head_run(s.drop_first(), r)
    }
}

/// Basic facts about the head run: it is made of `r`, bounded by the length,
/// and ends right before a different rank.
pub proof fn lemma_head_run(s: Seq<Rank>, r: Rank)
    ensures
        head_run(s, r) <= s.len(),
        forall|j: int| 0 <= j < head_run(s, r) ==> s[j] == r,
        head_run(s, r) < s.len() ==> s[head_run(s, r) as int] != r,
    decreases s.len(),
{
    if s.len() > 0 && s[0] == r {
        let d = s.drop_first();
        lemma_head_run(d, r);
        let h = head_run(s, r) as int;
        assert forall|j: int| 0 <= j < h implies s[j] == r by {
            if j >= 1 {
                assert(s[j] == d[j - 1]);
            }
        }
        if h < s.len() {
            assert(s[h] == d[h - 1]);
        }
    }
}

/// In a sorted sequence beginning with `r`, the count of `r` equals the head
/// run, so the first `rank_cnt(s, r)` entries are all `r`.
pub proof fn lemma_sorted_head_cnt(s: Seq<Rank>, r: Rank)
    requires
        sorted_desc(s),
        s.len() > 0,
        s[0] == r,
    ensures
        rank_cnt(s, r) == head_run(s, r),
        forall|j: int| 0 <= j < rank_cnt(s, r) ==> s[j] == r,
{
    let b = head_run(s, r) as int;
    lemma_head_run(s, r);
    assert forall|j: int| b <= j < s.len() implies s[j] != r by {
        if s[j] == r {
            lemma_sorted_run(s, 0, j);
        }
    }
    lemma_rank_cnt_split(s, r, b);
    lemma_rank_cnt_constant(s.take(b), r);
    lemma_rank_cnt_absent(s.skip(b), r);
}

/// In a sorted sequence where `r` occurs at least `m` times, the first
/// occurrence of `r` starts an `m`-long window of `r`.
pub proof fn lemma_sorted_cnt_run(s: Seq<Rank>, r: Rank, m: int)
    requires
        sorted_desc(s),
        1 <= m <= rank_cnt(s, r),
    ensures
        0 <= first_idx(s, r),
        first_idx(s, r) + m <= s.len(),
        forall|j: int| first_idx(s, r) <= j < first_idx(s, r) + m ==> s[j] == r,
{
    lemma_rank_cnt_pos(s, r);
    lemma_first_idx(s, r);
    let f = first_idx(s, r);
    lemma_rank_cnt_split(s, r, f);
    lemma_rank_cnt_absent(s.take(f), r);
    let t = s.skip(f);
    assert(sorted_desc(t)) by {
        assert forall|i: int, j: int| 0 <= i < j < t.len() implies rank_num(t[i]) >= rank_num(
            t[j],
        ) by {
            assert(t[i] == s[f + i] && t[j] == s[f + j]);
        }
    }
    lemma_sorted_head_cnt(t, r);
    lemma_rank_cnt_le_len(t, r);
    assert forall|j: int| f <= j < f + m implies s[j] == r by {
        assert(0 <= j - f < rank_cnt(t, r));
        assert(t[j - f] == s[j]);
    }
}

// ------------------------------------------------------------------
// The strongest rank satisfying a predicate with a given multiplicity
// ------------------------------------------------------------------

/// The strongest rank of strength at most `k` that satisfies `ok` and occurs
/// at least `m` times in `s`, if any.
pub open spec fn max_rank_where_from(s: Seq<Rank>, k: int, m: nat, ok: spec_fn(Rank) -> bool)
    -> Option<Rank>
    decreases k,
{
    if k < 2 {
        None
    } else if ok(rank_of_num(k)) && rank_cnt(s, rank_of_num(k)) >= m {
        Some(rank_of_num(k))
    } else {
        max_rank_where_from(s, k - 1, m, ok)
    }
}

/// The strongest rank that satisfies `ok` and occurs at least `m` times.
pub open spec fn max_rank_where(s: Seq<Rank>, m: nat, ok: spec_fn(Rank) -> bool) -> Option<Rank> {
    max_rank_where_from(s, 14, m, ok)
}

proof fn lemma_max_rank_where_from_correct(s: Seq<Rank>, k: int, m: nat, ok: spec_fn(Rank) -> bool)
    requires
        1 <= k <= 14,
    ensures
        match max_rank_where_from(s, k, m, ok) {
            Some(r) => {
                &&& ok(r)
                &&& rank_cnt(s, r) >= m
                &&& rank_num(r) <= k
                &&& forall|q: Rank|
                    ok(q) && rank_cnt(s, q) >= m && rank_num(q) <= k ==> rank_num(q) <= rank_num(r)
            },
            None => forall|q: Rank| ok(q) && rank_num(q) <= k ==> rank_cnt(s, q) < m,
        },
    decreases k,
{
    broadcast use lemma_rank_num_range;

    if k >= 2 {
        let rk = rank_of_num(k);
        lemma_rank_of_num_num(k);
        if ok(rk) && rank_cnt(s, rk) >= m {
            assert forall|q: Rank| ok(q) && rank_cnt(s, q) >= m && rank_num(q) <= k implies
                rank_num(q) <= rank_num(rk) by {}
        } else {
            lemma_max_rank_where_from_correct(s, k - 1, m, ok);
            assert forall|q: Rank| ok(q) && rank_num(q) == k implies q == rk by {
                lemma_rank_num_injective(q, rk);
            }
        }
    }
}

/// What `max_rank_where` returning `Some(r)` or `None` says about the counts.
pub proof fn lemma_max_rank_where_correct(s: Seq<Rank>, m: nat, ok: spec_fn(Rank) -> bool)
    ensures
        match max_rank_where(s, m, ok) {
            Some(r) => {
                &&& ok(r)
                &&& rank_cnt(s, r) >= m
                &&& forall|q: Rank| ok(q) && rank_cnt(s, q) >= m ==> rank_num(q) <= rank_num(r)
            },
            None => forall|q: Rank| ok(q) ==> rank_cnt(s, q) < m,
        },
{
    lemma_max_rank_where_from_correct(s, 14, m, ok);
    match max_rank_where(s, m, ok) {
        Some(r) => {
            assert forall|q: Rank| ok(q) && rank_cnt(s, q) >= m implies rank_num(q) <= rank_num(
                r,
            ) by {
                lemma_rank_num_range(q);
            }
        },
        None => {
            assert forall|q: Rank| ok(q) implies rank_cnt(s, q) < m by {
                lemma_rank_num_range(q);
            }
        },
    }
}

/// A rank that satisfies `ok`, reaches the multiplicity `m`, and is at least
/// as strong as every other such rank is what `max_rank_where` returns.
pub proof fn lemma_max_rank_where_intro(s: Seq<Rank>, m: nat, ok: spec_fn(Rank) -> bool, r: Rank)
    requires
        ok(r),
        rank_cnt(s, r) >= m,
        forall|q: Rank| ok(q) && rank_cnt(s, q) >= m ==> rank_num(q) <= rank_num(r),
    ensures
        max_rank_where(s, m, ok) == Some(r),
{
    lemma_max_rank_where_correct(s, m, ok);
    match max_rank_where(s, m, ok) {
        Some(r0) => {
            lemma_rank_num_injective(r0, r);
        },
        None => {},
    }
}

/// When no rank both satisfies `ok` and reaches the multiplicity `m`,
/// `max_rank_where` returns nothing.
pub proof fn lemma_max_rank_where_intro_none(s: Seq<Rank>, m: nat, ok: spec_fn(Rank) -> bool)
    requires
        forall|q: Rank| ok(q) ==> rank_cnt(s, q) < m,
    ensures
        max_rank_where(s, m, ok) is None,
{
    lemma_max_rank_where_correct(s, m, ok);
}

// ------------------------------------------------------------------
// Totals over the whole rank domain: length, distinct ranks, duplicates
// ------------------------------------------------------------------

/// The summed counts of the ranks of strength at most `k`.
pub open spec fn total_cnt_from(s: Seq<Rank>, k: int) -> nat
    decreases k,
{
    if k < 2 {
        0
    } else {
        rank_cnt(s, rank_of_num(k)) + total_cnt_from(s, k - 1)
    }
}

/// How many distinct ranks of strength at most `k` occur in `s`.
pub open spec fn distinct_from(s: Seq<Rank>, k: int) -> nat
    decreases k,
{
    if k < 2 {
        0
    } else {
        (if rank_cnt(s, rank_of_num(k)) > 0 {
            1nat
        } else {
            0nat
        }) + distinct_from(s, k - 1)
    }
}

/// How many distinct ranks occur in `s`.
pub open spec fn num_distinct(s: Seq<Rank>) -> nat {
    distinct_from(s, 14)
}

proof fn lemma_total_cnt_push(s: Seq<Rank>, x: Rank, k: int)
    requires
        k <= 14,
    ensures
        total_cnt_from(s.push(x), k) == total_cnt_from(s, k) + if rank_num(x) <= k {
            1nat
        } else {
            0nat
        },
    decreases k,
{
    broadcast use lemma_rank_num_range, lemma_rank_cnt_push;

    if k >= 2 {
        lemma_total_cnt_push(s, x, k - 1);
        lemma_rank_of_num_num(k);
        if rank_num(x) == k {
            assert(x == rank_of_num(k)) by {
                lemma_rank_num_injective(x, rank_of_num(k));
            }
        } else {
            assert(x != rank_of_num(k));
        }
    }
}

proof fn lemma_total_cnt_empty(k: int)
    ensures
        total_cnt_from(Seq::<Rank>::empty(), k) == 0,
        distinct_from(Seq::<Rank>::empty(), k) == 0,
    decreases k,
{
    if k >= 2 {
        lemma_total_cnt_empty(k - 1);
    }
}

/// Summing every rank's count recovers the length of the sequence.
pub proof fn lemma_total_cnt_len(s: Seq<Rank>)
    ensures
        total_cnt_from(s, 14) == s.len(),
    decreases s.len(),
{
    broadcast use lemma_rank_num_range;

    if s.len() == 0 {
        assert(s =~= Seq::<Rank>::empty());
        lemma_total_cnt_empty(14);
    } else {
        lemma_total_cnt_len(s.drop_last());
        lemma_rank_num_range(s.last());
        lemma_total_cnt_push(s.drop_last(), s.last(), 14);
        assert(s.drop_last().push(s.last()) =~= s);
    }
}

/// Sequences with the same counts up to strength `k` agree on both totals.
pub proof fn lemma_totals_from_counts(s: Seq<Rank>, t: Seq<Rank>, k: int)
    requires
        forall|r: Rank| rank_cnt(s, r) == rank_cnt(t, r),
    ensures
        total_cnt_from(s, k) == total_cnt_from(t, k),
        distinct_from(s, k) == distinct_from(t, k),
    decreases k,
{
    if k >= 2 {
        lemma_totals_from_counts(s, t, k - 1);
    }
}

/// Distinct ranks never outnumber total entries.
pub proof fn lemma_distinct_le_total(s: Seq<Rank>, k: int)
    ensures
        distinct_from(s, k) <= total_cnt_from(s, k),
    decreases k,
{
    if k >= 2 {
        lemma_distinct_le_total(s, k - 1);
    }
}

/// More entries than distinct ranks means some rank repeats.
pub proof fn lemma_dup_exists(s: Seq<Rank>, k: int)
    requires
        k <= 14,
        total_cnt_from(s, k) > distinct_from(s, k),
    ensures
        exists|r: Rank| rank_num(r) <= k && rank_cnt(s, r) >= 2,
    decreases k,
{
    broadcast use lemma_rank_num_range;

    if k >= 2 {
        let c = rank_cnt(s, rank_of_num(k));
        if c >= 2 {
            lemma_rank_of_num_num(k);
        } else {
            lemma_dup_exists(s, k - 1);
        }
    }
}

/// With no rank tripled, an excess of two entries over the distinct ranks
/// yields two different repeated ranks.
pub proof fn lemma_two_pairs_exist(s: Seq<Rank>, k: int)
    requires
        k <= 14,
        total_cnt_from(s, k) >= distinct_from(s, k) + 2,
        forall|r: Rank| rank_cnt(s, r) <= 2,
    ensures
        exists|r1: Rank, r2: Rank|
            rank_num(r1) <= k && rank_num(r2) <= k && r1 != r2 && rank_cnt(s, r1) >= 2 && rank_cnt(
                s,
                r2,
            ) >= 2,
    decreases k,
{
    broadcast use lemma_rank_num_range;

    if k >= 2 {
        let c = rank_cnt(s, rank_of_num(k));
        if c == 2 {
            if total_cnt_from(s, k - 1) > distinct_from(s, k - 1) {
                lemma_dup_exists(s, k - 1);
                let r2 = choose|r: Rank| rank_num(r) <= k - 1 && rank_cnt(s, r) >= 2;
                let r1 = rank_of_num(k);
                lemma_rank_of_num_num(k);
                assert(rank_num(r1) <= k && rank_num(r2) <= k && r1 != r2 && rank_cnt(s, r1) >= 2
                    && rank_cnt(s, r2) >= 2);
            } else {
                lemma_distinct_le_total(s, k - 1);
            }
        } else {
            lemma_two_pairs_exist(s, k - 1);
        }
    }
}

/// A strictly descending sequence holds each rank at most once.
pub proof fn lemma_strict_cnt_le_1(t: Seq<Rank>)
    requires
        strictly_desc(t),
    ensures
        forall|r: Rank| rank_cnt(t, r) <= 1,
{
    assert forall|r: Rank| rank_cnt(t, r) <= 1 by {
        if rank_cnt(t, r) >= 2 {
            assert(sorted_desc(t));
            lemma_sorted_cnt_run(t, r, 2);
            let f = first_idx(t, r);
            assert(t[f] == r && t[f + 1] == r);
        }
    }
}

proof fn lemma_cnt_le_1_total_eq_distinct(s: Seq<Rank>, k: int)
    requires
        forall|r: Rank| rank_cnt(s, r) <= 1,
    ensures
        total_cnt_from(s, k) == distinct_from(s, k),
    decreases k,
{
    if k >= 2 {
        lemma_cnt_le_1_total_eq_distinct(s, k - 1);
    }
}

/// A strictly descending sequence is as long as its set of distinct ranks.
pub proof fn lemma_strict_len_eq_distinct(t: Seq<Rank>)
    requires
        strictly_desc(t),
    ensures
        t.len() == num_distinct(t),
{
    lemma_strict_cnt_le_1(t);
    lemma_cnt_le_1_total_eq_distinct(t, 14);
    lemma_total_cnt_len(t);
}

/// Sequences holding the same ranks agree on their distinct-rank counts.
pub proof fn lemma_same_members_distinct(s: Seq<Rank>, t: Seq<Rank>, k: int)
    requires
        forall|r: Rank| s.contains(r) <==> t.contains(r),
    ensures
        distinct_from(s, k) == distinct_from(t, k),
    decreases k,
{
    if k >= 2 {
        lemma_same_members_distinct(s, t, k - 1);
        lemma_rank_cnt_pos(s, rank_of_num(k));
        lemma_rank_cnt_pos(t, rank_of_num(k));
    }
}

// ------------------------------------------------------------------
// Sorting ranks in descending order, as a function of the counts alone
// ------------------------------------------------------------------

/// The rank `r` repeated `n` times.
pub open spec fn repeat_rank(r: Rank, n: nat) -> Seq<Rank> {
    Seq::new(n, |i: int| r)
}

/// The ranks of `s` with strength at most `k`, laid out in descending order:
/// each strength's block is as long as that rank's count in `s`.
pub open spec fn sort_desc_from(s: Seq<Rank>, k: int) -> Seq<Rank>
    decreases k,
{
    if k < 2 {
        Seq::empty()
    } else {
        repeat_rank(rank_of_num(k), rank_cnt(s, rank_of_num(k))) + sort_desc_from(s, k - 1)
    }
}

/// The ranks of `s` in descending order of strength. Because the result is a
/// function of the counts alone, it is unchanged under permuting `s`.
pub open spec fn sort_ranks_desc(s: Seq<Rank>) -> Seq<Rank> {
    sort_desc_from(s, 14)
}

proof fn lemma_sort_desc_from_len(s: Seq<Rank>, k: int)
    ensures
        sort_desc_from(s, k).len() == total_cnt_from(s, k),
    decreases k,
{
    if k >= 2 {
        lemma_sort_desc_from_len(s, k - 1);
    }
}

/// Sorting keeps the length.
pub proof fn lemma_sort_desc_len(s: Seq<Rank>)
    ensures
        sort_ranks_desc(s).len() == s.len(),
{
    lemma_sort_desc_from_len(s, 14);
    lemma_total_cnt_len(s);
}

proof fn lemma_sort_desc_from_elems(s: Seq<Rank>, k: int)
    requires
        k <= 14,
    ensures
        sorted_desc(sort_desc_from(s, k)),
        forall|i: int|
            0 <= i < sort_desc_from(s, k).len() ==> rank_num(#[trigger] sort_desc_from(s, k)[i])
                <= k,
    decreases k,
{
    if k >= 2 {
        lemma_sort_desc_from_elems(s, k - 1);
        lemma_rank_of_num_num(k);
        let rep = repeat_rank(rank_of_num(k), rank_cnt(s, rank_of_num(k)));
        let rest = sort_desc_from(s, k - 1);
        let out = sort_desc_from(s, k);
        assert forall|i: int| 0 <= i < out.len() implies rank_num(out[i]) <= k by {
            if i < rep.len() {
                assert(out[i] == rep[i]);
            } else {
                assert(out[i] == rest[i - rep.len()]);
            }
        }
        assert forall|i: int, j: int| 0 <= i < j < out.len() implies rank_num(out[i]) >= rank_num(
            out[j],
        ) by {
            if j < rep.len() {
                assert(out[i] == rep[i] && out[j] == rep[j]);
            } else if i < rep.len() {
                assert(out[i] == rep[i]);
                assert(out[j] == rest[j - rep.len()]);
            } else {
                assert(out[i] == rest[i - rep.len()] && out[j] == rest[j - rep.len()]);
            }
        }
    }
}

/// The canonical descending layout really is sorted.
pub proof fn lemma_sort_desc_sorted(s: Seq<Rank>)
    ensures
        sorted_desc(sort_ranks_desc(s)),
{
    lemma_sort_desc_from_elems(s, 14);
}

proof fn lemma_sort_desc_from_cnt(s: Seq<Rank>, k: int, r: Rank)
    requires
        k <= 14,
    ensures
        rank_cnt(sort_desc_from(s, k), r) == if 2 <= rank_num(r) <= k {
            rank_cnt(s, r)
        } else {
            0nat
        },
    decreases k,
{
    broadcast use lemma_rank_num_range;

    if k < 2 {
        assert(sort_desc_from(s, k) =~= Seq::<Rank>::empty());
    } else {
        lemma_sort_desc_from_cnt(s, k - 1, r);
        lemma_rank_of_num_num(k);
        let rk = rank_of_num(k);
        let rep = repeat_rank(rk, rank_cnt(s, rk));
        lemma_rank_cnt_add(rep, sort_desc_from(s, k - 1), r);
        if r == rk {
            lemma_rank_cnt_constant(rep, r);
        } else {
            lemma_rank_cnt_absent(rep, r);
            if rank_num(r) == k {
                lemma_rank_num_injective(r, rk);
            }
        }
    }
}

/// Sorting keeps every rank's count.
pub proof fn lemma_sort_desc_cnt(s: Seq<Rank>, r: Rank)
    ensures
        rank_cnt(sort_ranks_desc(s), r) == rank_cnt(s, r),
{
    lemma_rank_num_range(r);
    lemma_sort_desc_from_cnt(s, 14, r);
}

/// Sorting keeps the set of ranks present.
pub proof fn lemma_sort_desc_members(s: Seq<Rank>, r: Rank)
    ensures
        sort_ranks_desc(s).contains(r) <==> s.contains(r),
{
    lemma_sort_desc_cnt(s, r);
    lemma_rank_cnt_pos(sort_ranks_desc(s), r);
    lemma_rank_cnt_pos(s, r);
}

/// Sequences holding the same ranks hold the same rank strengths.
pub proof fn lemma_contains_val_members(a: Seq<Rank>, b: Seq<Rank>)
    requires
        forall|r: Rank| a.contains(r) <==> b.contains(r),
    ensures
        forall|v: int| contains_val(a, v) <==> contains_val(b, v),
{
    assert forall|v: int| contains_val(a, v) <==> contains_val(b, v) by {
        if contains_val(a, v) {
            let i = choose|i: int| 0 <= i < a.len() && rank_num(a[i]) == v;
            assert(a.contains(a[i]));
            let j = choose|j: int| 0 <= j < b.len() && b[j] == a[i];
            assert(rank_num(b[j]) == v);
        }
        if contains_val(b, v) {
            let i = choose|i: int| 0 <= i < b.len() && rank_num(b[i]) == v;
            assert(b.contains(b[i]));
            let j = choose|j: int| 0 <= j < a.len() && a[j] == b[i];
            assert(rank_num(a[j]) == v);
        }
    }
}

proof fn lemma_total_ge_cnt2_from(s: Seq<Rank>, r1: Rank, r2: Rank, k: int)
    requires
        r1 != r2,
        k <= 14,
    ensures
        total_cnt_from(s, k) >= (if rank_num(r1) <= k {
            rank_cnt(s, r1)
        } else {
            0nat
        }) + (if rank_num(r2) <= k {
            rank_cnt(s, r2)
        } else {
            0nat
        }),
    decreases k,
{
    if k >= 2 {
        lemma_total_ge_cnt2_from(s, r1, r2, k - 1);
        lemma_rank_of_num_num(k);
        if rank_num(r1) == k {
            lemma_rank_num_injective(r1, rank_of_num(k));
        }
        if rank_num(r2) == k {
            lemma_rank_num_injective(r2, rank_of_num(k));
        }
    }
}

/// Two different ranks' counts together never exceed the length.
pub proof fn lemma_len_ge_cnt2(s: Seq<Rank>, r1: Rank, r2: Rank)
    requires
        r1 != r2,
    ensures
        s.len() >= rank_cnt(s, r1) + rank_cnt(s, r2),
{
    broadcast use lemma_rank_num_range;

    lemma_total_ge_cnt2_from(s, r1, r2, 14);
    lemma_total_cnt_len(s);
}

// ------------------------------------------------------------------
// Counts as functions of the underlying multiset
// ------------------------------------------------------------------

/// The predicate selecting the cards of rank `r`.
pub open spec fn rank_eq_pred(r: Rank) -> spec_fn(Card) -> bool {
    |c: Card| c.rank == r
}

/// Filtering commutes with forgetting the order: the multiset of a filtered
/// sequence is the filtered multiset.
pub proof fn lemma_filter_to_multiset<A>(s: Seq<A>, p: spec_fn(A) -> bool)
    ensures
        s.filter(p).to_multiset() == s.to_multiset().filter(p),
    decreases s.len(),
{
    broadcast use vstd::multiset::group_multiset_axioms;
    broadcast use vstd::seq_lib::group_to_multiset_ensures;

    if s.len() == 0 {
        assert(s.filter(p) =~= s);
        assert forall|x: A| true implies #[trigger] s.to_multiset().count(x) == 0 by {
            assert(!s.contains(x));
        }
        assert(s.filter(p).to_multiset() =~= s.to_multiset().filter(p));
    } else {
        let dl = s.drop_last();
        let x = s.last();
        lemma_filter_to_multiset(dl, p);
        Seq::lemma_filter_push(dl, x, p);
        assert(dl.push(x) =~= s);
        assert(s.to_multiset() == dl.to_multiset().insert(x));
        if p(x) {
            assert(s.filter(p).to_multiset() == dl.filter(p).to_multiset().insert(x));
            assert(dl.to_multiset().insert(x).filter(p) =~= dl.to_multiset().filter(p).insert(x));
        } else {
            assert(s.filter(p).to_multiset() == dl.filter(p).to_multiset());
            assert(dl.to_multiset().insert(x).filter(p) =~= dl.to_multiset().filter(p));
        }
    }
}

/// Sequences holding the same elements, each the same number of times, keep
/// the same number of elements under any filter.
pub proof fn lemma_filter_len_eq<A>(s1: Seq<A>, s2: Seq<A>, p: spec_fn(A) -> bool)
    requires
        s1.to_multiset() == s2.to_multiset(),
    ensures
        s1.filter(p).len() == s2.filter(p).len(),
        s1.filter(p).to_multiset() == s2.filter(p).to_multiset(),
{
    lemma_filter_to_multiset(s1, p);
    lemma_filter_to_multiset(s2, p);
    s1.filter(p).to_multiset_ensures();
    s2.filter(p).to_multiset_ensures();
}

/// The count of a rank among a card list's ranks is the number of its cards
/// of that rank.
pub proof fn lemma_rank_cnt_as_filter(d: Seq<Card>, r: Rank)
    ensures
        rank_cnt(ranks_of(d), r) == d.filter(rank_eq_pred(r)).len(),
    decreases d.len(),
{
    if d.len() == 0 {
        reveal(Seq::filter);
        assert(ranks_of(d).len() == 0);
    } else {
        let dl = d.drop_last();
        lemma_rank_cnt_as_filter(dl, r);
        Seq::lemma_filter_push(dl, d.last(), rank_eq_pred(r));
        assert(dl.push(d.last()) =~= d);
        assert(ranks_of(d).drop_last() =~= ranks_of(dl));
        assert(ranks_of(d).last() == d.last().rank);
        assert(ranks_of(d).len() == d.len());
    }
}

/// Two sequences with equal counts everywhere lay out to the same descending
/// order.
pub proof fn lemma_sort_desc_from_counts(s: Seq<Rank>, t: Seq<Rank>, k: int)
    requires
        forall|r: Rank| rank_cnt(s, r) == rank_cnt(t, r),
    ensures
        sort_desc_from(s, k) == sort_desc_from(t, k),
    decreases k,
{
    if k >= 2 {
        lemma_sort_desc_from_counts(s, t, k - 1);
    }
}

// ------------------------------------------------------------------
// Stable sorts of whole cards, as concatenations of filtered buckets
// ------------------------------------------------------------------

/// The cards of rank strength `k`, in their original order.
pub open spec fn cards_rank_bucket(cards: Seq<Card>, k: int) -> Seq<Card> {
    cards.filter(rank_val_pred(k))
}

/// The cards of strength at most `k`, strongest first, original order within
/// equal ranks.
pub open spec fn sort_cards_desc_from(cards: Seq<Card>, k: int) -> Seq<Card>
    decreases k,
{
    if k < 2 {
        Seq::empty()
    } else {
        cards_rank_bucket(cards, k) + sort_cards_desc_from(cards, k - 1)
    }
}

/// The stable sort of `cards` by descending rank.
pub open spec fn sort_cards_by_rank_desc(cards: Seq<Card>) -> Seq<Card> {
    sort_cards_desc_from(cards, 14)
}

/// The cards of strength at least `k`, weakest first, original order within
/// equal ranks.
pub open spec fn sort_cards_asc_from(cards: Seq<Card>, k: int) -> Seq<Card>
    decreases 15 - k,
{
    if k > 14 {
        Seq::empty()
    } else {
        cards_rank_bucket(cards, k) + sort_cards_asc_from(cards, k + 1)
    }
}

/// The stable sort of `cards` by ascending rank.
pub open spec fn sort_cards_by_rank_asc(cards: Seq<Card>) -> Seq<Card> {
    sort_cards_asc_from(cards, 2)
}

/// The stable sort of `cards` by ascending suit, in the fixed suit order.
pub open spec fn sort_cards_by_suit(cards: Seq<Card>) -> Seq<Card> {
    cards.filter(suit_pred(Suit::Club)) + cards.filter(suit_pred(Suit::Diamond)) + cards.filter(
        suit_pred(Suit::Heart),
    ) + cards.filter(suit_pred(Suit::Spade))
}

// ------------------------------------------------------------------
// Executable helpers shared by the evaluator
// ------------------------------------------------------------------

/// Lays the given ranks out in descending order of strength.
pub(crate) fn sort_ranks_desc_exec(v: &Vec<Rank>) -> (out: Vec<Rank>)
    ensures
        out@ == sort_ranks_desc(v@),
{
    let mut out: Vec<Rank> = Vec::new();
    let mut k: u32 = 14;
    while k >= 2
        invariant
            1 <= k <= 14,
            out@ + sort_desc_from(v@, k as int) == sort_ranks_desc(v@),
        decreases k,
    {
        let ghost base = out@;
        let ghost rk = rank_of_num(k as int);
        proof {
            lemma_rank_of_num_num(k as int);
        }
        let mut i: usize = 0;
        while i < v.len()
            invariant
                i <= v.len(),
                2 <= k <= 14,
                rk == rank_of_num(k as int),
                rank_num(rk) == k,
                out@ == base + repeat_rank(rk, rank_cnt(v@.take(i as int), rk)),
            decreases v.len() - i,
        {
            proof {
                assert(v@.take(i as int + 1) =~= v@.take(i as int).push(v@[i as int]));
                lemma_rank_cnt_push(v@.take(i as int), v@[i as int], rk);
            }
            if v[i].as_num() == k {
                proof {
                    lemma_rank_num_injective(v@[i as int], rk);
                }
                out.push(v[i]);
                proof {
                    assert(out@ =~= base + repeat_rank(rk, rank_cnt(v@.take(i as int + 1), rk)));
                }
            }
            i += 1;
        }
        proof {
            assert(v@.take(v@.len() as int) =~= v@);
            assert((base + repeat_rank(rk, rank_cnt(v@, rk))) + sort_desc_from(v@, k as int - 1)
                =~= base + sort_desc_from(v@, k as int));
        }
        k = k - 1;
    }
    proof {
        assert(out@ + sort_desc_from(v@, 1) =~= out@);
    }
    out
}

/// Removes adjacent duplicates from a descending rank list, leaving the
/// strictly descending list of the ranks present.
pub(crate) fn dedup_desc(v: &Vec<Rank>) -> (out: Vec<Rank>)
    requires
        sorted_desc(v@),
    ensures
        strictly_desc(out@),
        forall|r: Rank| out@.contains(r) <==> v@.contains(r),
{
    broadcast use vstd::seq_lib::group_seq_properties;

    let mut out: Vec<Rank> = Vec::new();
    let mut i: usize = 0;
    while i < v.len()
        invariant
            sorted_desc(v@),
            i <= v.len(),
            strictly_desc(out@),
            forall|r: Rank| out@.contains(r) <==> v@.take(i as int).contains(r),
            i == 0 ==> out@.len() == 0,
            i > 0 ==> out@.len() > 0 && out@.last() == v@[i as int - 1],
        decreases v.len() - i,
    {
        proof {
            assert(v@.take(i as int + 1) =~= v@.take(i as int).push(v@[i as int]));
        }
        if i == 0 || v[i] != v[i - 1] {
            proof {
                if i > 0 {
                    assert(rank_num(v@[i as int - 1]) >= rank_num(v@[i as int]));
                    if rank_num(v@[i as int - 1]) == rank_num(v@[i as int]) {
                        lemma_rank_num_injective(v@[i as int - 1], v@[i as int]);
                    }
                    assert(rank_num(out@.last()) > rank_num(v@[i as int]));
                }
            }
            let ghost prev = out@;
            out.push(v[i]);
            proof {
                assert forall|a: int, b: int| 0 <= a < b < out@.len() implies rank_num(out@[a])
                    > rank_num(out@[b]) by {
                    assert(prev.len() == out@.len() - 1);
                    if b < out@.len() - 1 {
                        assert(out@[a] == prev[a] && out@[b] == prev[b]);
                    } else {
                        assert(out@[b] == v@[i as int]);
                        assert(out@[a] == prev[a]);
                        assert(rank_num(prev.last()) > rank_num(v@[i as int]));
                        if a < prev.len() - 1 {
                            assert(rank_num(prev[a]) > rank_num(prev[prev.len() - 1]));
                        }
                    }
                }
                assert forall|r: Rank| out@.contains(r) <==> v@.take(i as int + 1).contains(
                    r,
                ) by {
                    vstd::seq_lib::lemma_seq_contains_after_push(prev, v@[i as int], r);
                    vstd::seq_lib::lemma_seq_contains_after_push(
                        v@.take(i as int),
                        v@[i as int],
                        r,
                    );
                    assert(out@ == prev.push(v@[i as int]));
                }
            }
        } else {
            proof {
                assert(v@.take(i as int)[i as int - 1] == v@[i as int - 1]);
                assert(v@.take(i as int).contains(v@[i as int]));
                assert forall|r: Rank| out@.contains(r) <==> v@.take(i as int + 1).contains(
                    r,
                ) by {
                    vstd::seq_lib::lemma_seq_contains_after_push(
                        v@.take(i as int),
                        v@[i as int],
                        r,
                    );
                }
            }
        }
        i += 1;
    }
    proof {
        assert(v@.take(v@.len() as int) =~= v@);
    }
    out
}

/// Copies the first `n` entries of `v` (all of it, if shorter).
pub(crate) fn first_n(v: &Vec<Rank>, n: usize) -> (out: Vec<Rank>)
    ensures
        out@ == take_up_to(v@, n as int),
{
    let end = if v.len() < n {
        v.len()
    } else {
        n
    };
    let mut out: Vec<Rank> = Vec::new();
    let mut i: usize = 0;
    while i < end
        invariant
            i <= end <= v.len(),
            out@ == v@.take(i as int),
        decreases end - i,
    {
        proof {
            assert(v@.take(i as int + 1) =~= v@.take(i as int).push(v@[i as int]));
        }
        out.push(v[i]);
        i += 1;
    }
    proof {
        if v@.len() <= n {
            assert(v@.take(v@.len() as int) =~= v@);
        }
    }
    out
}

/// Copies the entries other than `excl`, in order, up to `limit` of them.
pub(crate) fn collect_except(v: &Vec<Rank>, excl: Rank, limit: usize) -> (out: Vec<Rank>)
    ensures
        out@ == take_up_to(remove_rank(v@, excl), limit as int),
{
    let mut out: Vec<Rank> = Vec::new();
    let mut i: usize = 0;
    while i < v.len()
        invariant
            i <= v@.len(),
            out@ == take_up_to(remove_rank(v@.take(i as int), excl), limit as int),
            out@.len() <= limit,
        decreases v@.len() - i,
    {
        let ghost rem = remove_rank(v@.take(i as int), excl);
        proof {
            assert(v@.take(i as int + 1) =~= v@.take(i as int).push(v@[i as int]));
            Seq::lemma_filter_push(v@.take(i as int), v@[i as int], ne_rank_pred(excl));
        }
        if v[i] != excl && out.len() < limit {
            proof {
                assert(rem.len() < limit);
            }
            out.push(v[i]);
        } else {
            proof {
                if v@[i as int] != excl {
                    assert(rem.len() >= limit);
                    assert(rem.push(v@[i as int]).take(limit as int) =~= rem.take(limit as int));
                    if rem.len() == limit {
                        assert(rem.take(limit as int) =~= rem);
                    }
                }
            }
        }
        i += 1;
    }
    proof {
        assert(v@.take(v@.len() as int) =~= v@);
    }
    out
}

/// Copies the entries other than `e1` and `e2`, in order, up to `limit`.
pub(crate) fn collect_except2(v: &Vec<Rank>, e1: Rank, e2: Rank, limit: usize) -> (out: Vec<Rank>)
    ensures
        out@ == take_up_to(remove_rank2(v@, e1, e2), limit as int),
{
    let mut out: Vec<Rank> = Vec::new();
    let mut i: usize = 0;
    while i < v.len()
        invariant
            i <= v@.len(),
            out@ == take_up_to(remove_rank2(v@.take(i as int), e1, e2), limit as int),
            out@.len() <= limit,
        decreases v@.len() - i,
    {
        let ghost rem = remove_rank2(v@.take(i as int), e1, e2);
        proof {
            assert(v@.take(i as int + 1) =~= v@.take(i as int).push(v@[i as int]));
            Seq::lemma_filter_push(v@.take(i as int), v@[i as int], ne_rank2_pred(e1, e2));
        }
        if v[i] != e1 && v[i] != e2 && out.len() < limit {
            proof {
                assert(rem.len() < limit);
            }
            out.push(v[i]);
        } else {
            proof {
                if v@[i as int] != e1 && v@[i as int] != e2 {
                    assert(rem.len() >= limit);
                    assert(rem.push(v@[i as int]).take(limit as int) =~= rem.take(limit as int));
                    if rem.len() == limit {
                        assert(rem.take(limit as int) =~= rem);
                    }
                }
            }
        }
        i += 1;
    }
    proof {
        assert(v@.take(v@.len() as int) =~= v@);
    }
    out
}

/// The strongest rank in `v` other than `excl`, if any.
pub(crate) fn max_rank_except(v: &Vec<Rank>, excl: Rank) -> (r: Option<Rank>)
    ensures
        r == max_rank_where(v@, 1, ne_rank_pred(excl)),
{
    let mut best: Option<Rank> = None;
    let mut i: usize = 0;
    while i < v.len()
        invariant
            i <= v@.len(),
            match best {
                None => forall|j: int| 0 <= j < i ==> v@[j] == excl,
                Some(b) => {
                    &&& b != excl
                    &&& v@.take(i as int).contains(b)
                    &&& forall|j: int|
                        0 <= j < i && v@[j] != excl ==> rank_num(v@[j]) <= rank_num(b)
                },
            },
        decreases v@.len() - i,
    {
        proof {
            assert(v@.take(i as int + 1) =~= v@.take(i as int).push(v@[i as int]));
        }
        if v[i] != excl {
            best = match best {
                None => Some(v[i]),
                Some(b) => {
                    if v[i].as_num() > b.as_num() {
                        Some(v[i])
                    } else {
                        Some(b)
                    }
                },
            };
            proof {
                let b = best->Some_0;
                assert(v@.take(i as int + 1)[i as int] == v@[i as int]);
                assert(v@.take(i as int).contains(b) ==> v@.take(i as int + 1).contains(b)) by {
                    if v@.take(i as int).contains(b) {
                        let j = choose|j: int|
                            0 <= j < v@.take(i as int).len() && v@.take(i as int)[j] == b;
                        assert(v@.take(i as int + 1)[j] == b);
                    }
                }
            }
        } else {
            proof {
                if best is Some {
                    let b = best->Some_0;
                    let j = choose|j: int|
                        0 <= j < v@.take(i as int).len() && v@.take(i as int)[j] == b;
                    assert(v@.take(i as int + 1)[j] == b);
                }
            }
        }
        i += 1;
    }
    proof {
        assert(v@.take(v@.len() as int) =~= v@);
        match best {
            None => {
                assert forall|q: Rank| ne_rank_pred(excl)(q) implies rank_cnt(v@, q) < 1 by {
                    lemma_rank_cnt_absent(v@, q);
                }
                lemma_max_rank_where_intro_none(v@, 1, ne_rank_pred(excl));
            },
            Some(b) => {
                lemma_rank_cnt_pos(v@, b);
                assert forall|q: Rank| ne_rank_pred(excl)(q) && rank_cnt(v@, q) >= 1 implies
                    rank_num(q) <= rank_num(b) by {
                    lemma_rank_cnt_pos(v@, q);
                    let j = choose|j: int| 0 <= j < v@.len() && v@[j] == q;
                }
                lemma_max_rank_where_intro(v@, 1, ne_rank_pred(excl), b);
            },
        }
    }
    best
}

/// Scans a descending rank list for the first run of `m` equal entries,
/// which is the strongest rank occurring at least `m` times.
pub(crate) fn strongest_with_count(v: &Vec<Rank>, m: usize) -> (r: Option<Rank>)
    requires
        sorted_desc(v@),
        1 <= m,
    ensures
        r == max_rank_where(v@, m as nat, any_rank_pred()),
{
    let ghost s = v@;
    let n = v.len();
    if n < m {
        proof {
            assert forall|q: Rank| any_rank_pred()(q) implies rank_cnt(s, q) < m by {
                lemma_rank_cnt_le_len(s, q);
            }
            lemma_max_rank_where_intro_none(s, m as nat, any_rank_pred());
        }
        return None;
    }
    let mut i: usize = 0;
    while i <= n - m
        invariant
            sorted_desc(s),
            s == v@,
            n == s.len(),
            1 <= m <= n,
            i <= n - m + 1,
            forall|j: int| 0 <= j < i ==> #[trigger] s[j] != s[j + m - 1],
        decreases n - i,
    {
        if v[i] == v[i + m - 1] {
            let q = v[i];
            proof {
                lemma_sorted_run(s, i as int, i as int + m - 1);
                lemma_window_cnt(s, q, i as int, m as int);
                assert forall|p: Rank| any_rank_pred()(p) && rank_cnt(s, p) >= m implies rank_num(
                    p,
                ) <= rank_num(q) by {
                    if rank_num(p) > rank_num(q) {
                        lemma_sorted_cnt_run(s, p, m as int);
                        let f = first_idx(s, p);
                        assert(s[f] == p && s[f + m - 1] == p);
                        assert(f < i);
                    }
                }
                lemma_max_rank_where_intro(s, m as nat, any_rank_pred(), q);
            }
            return Some(q);
        }
        i += 1;
    }
    proof {
        assert forall|p: Rank| any_rank_pred()(p) implies rank_cnt(s, p) < m by {
            if rank_cnt(s, p) >= m {
                lemma_sorted_cnt_run(s, p, m as int);
                let f = first_idx(s, p);
                assert(s[f] == p && s[f + m - 1] == p);
            }
        }
        lemma_max_rank_where_intro_none(s, m as nat, any_rank_pred());
    }
    None
}

/// Scans a descending rank list for the first adjacent pair of a rank other
/// than `excl`, which is the strongest such rank occurring at least twice.
pub(crate) fn strongest_pair_except(v: &Vec<Rank>, excl: Rank) -> (r: Option<Rank>)
    requires
        sorted_desc(v@),
    ensures
        r == max_rank_where(v@, 2, ne_rank_pred(excl)),
{
    let ghost s = v@;
    let n = v.len();
    if n < 2 {
        proof {
            assert forall|q: Rank| ne_rank_pred(excl)(q) implies rank_cnt(s, q) < 2 by {
                lemma_rank_cnt_le_len(s, q);
            }
            lemma_max_rank_where_intro_none(s, 2, ne_rank_pred(excl));
        }
        return None;
    }
    let mut i: usize = 0;
    while i <= n - 2
        invariant
            sorted_desc(s),
            s == v@,
            n == s.len(),
            2 <= n,
            i <= n - 1,
            forall|j: int| 0 <= j < i ==> !(#[trigger] s[j] == s[j + 1] && s[j] != excl),
        decreases n - i,
    {
        if v[i] == v[i + 1] && v[i] != excl {
            let p = v[i];
            proof {
                lemma_window_cnt(s, p, i as int, 2);
                assert forall|q: Rank| ne_rank_pred(excl)(q) && rank_cnt(s, q) >= 2 implies
                    rank_num(q) <= rank_num(p) by {
                    if rank_num(q) > rank_num(p) {
                        lemma_sorted_cnt_run(s, q, 2);
                        let f = first_idx(s, q);
                        assert(s[f] == q && s[f + 1] == q);
                        assert(f < i);
                    }
                }
                lemma_max_rank_where_intro(s, 2, ne_rank_pred(excl), p);
            }
            return Some(p);
        }
        i += 1;
    }
    proof {
        assert forall|q: Rank| ne_rank_pred(excl)(q) implies rank_cnt(s, q) < 2 by {
            if rank_cnt(s, q) >= 2 {
                lemma_sorted_cnt_run(s, q, 2);
                let f = first_idx(s, q);
                assert(s[f] == q && s[f + 1] == q);
            }
        }
        lemma_max_rank_where_intro_none(s, 2, ne_rank_pred(excl));
    }
    None
}

/// Whether `v` holds the rank `r`.
pub(crate) fn contains_rank(v: &Vec<Rank>, r: Rank) -> (b: bool)
    ensures
        b == v@.contains(r),
{
    let mut i: usize = 0;
    while i < v.len()
        invariant
            i <= v.len(),
            forall|j: int| 0 <= j < i ==> v@[j] != r,
        decreases v.len() - i,
    {
        if v[i] == r {
            return true;
        }
        i += 1;
    }
    false
}

} // verus!
