//! Four-of-a-kind detection over a descending rank list.

use vstd::prelude::*;

use crate::card::Rank;
use crate::tally::{any_rank_pred, lemma_max_rank_where_correct, lemma_rank_cnt_le_len,
    max_rank_except, max_rank_where, ne_rank_pred, sorted_desc, strongest_with_count};

verus! {

/// What four-of-a-kind detection yields on a descending rank list: the
/// strongest quadrupled rank, followed by the strongest other rank as kicker.
/// The kicker is omitted for a four-card list and, when more than four cards
/// all share one rank, no kicker exists and the detection yields nothing.
pub open spec fn four_of_a_kind_spec(s: Seq<Rank>) -> Option<Seq<Rank>> {
    match max_rank_where(s, 4, any_rank_pred()) {
        None => None,
        Some(q) => if s.len() == 4 {
            Some(seq![q])
        } else {
            match max_rank_where(s, 1, ne_rank_pred(q)) {
                Some(k) => Some(seq![q, k]),
                None => None,
            }
        },
    }
}

/// Finds four of a kind in a descending rank list: the quad rank and, when
/// other cards exist, the strongest of them as kicker.
pub fn find_four_of_a_kind(ranks: &Vec<Rank>) -> (r: Option<Vec<Rank>>)
    requires
        sorted_desc(ranks@),
    ensures
        match r {
            Some(v) => four_of_a_kind_spec(ranks@) == Some(v@),
            None => four_of_a_kind_spec(ranks@) is None,
        },
{
    let q = match strongest_with_count(ranks, 4) {
        Some(q) => q,
        None => {
            return None;
        },
    };
    let mut out: Vec<Rank> = Vec::new();
    out.push(q);
    if ranks.len() > 4 {
        match max_rank_except(ranks, q) {
            Some(k) => {
                out.push(k);
                proof {
                    assert(out@ =~= seq![q, k]);
                }
                return Some(out);
            },
            None => {
                return None;
            },
        }
    }
    proof {
        lemma_max_rank_where_correct(ranks@, 4, any_rank_pred());
        lemma_rank_cnt_le_len(ranks@, q);
        assert(out@ =~= seq![q]);
    }
    Some(out)
}

} // verus!
