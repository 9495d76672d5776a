//! Two-pair detection over a descending rank list.

use vstd::prelude::*;

use crate::card::Rank;
use crate::tally::{any_rank_pred, collect_except2, max_rank_where, ne_rank_pred, rank_cnt,
    remove_rank2, sorted_desc, strongest_pair_except, strongest_with_count, take_up_to};

verus! {

/// What two-pair detection yields on a descending rank list of at least four
/// entries: the two strongest ranks appearing twice, then the strongest
/// remaining rank as kicker when more than four cards are present.
pub open spec fn two_pair_spec(s: Seq<Rank>) -> Option<Seq<Rank>> {
    if s.len() < 4 {
        None
    } else {
        match max_rank_where(s, 2, any_rank_pred()) {
            None => None,
            Some(p1) => match max_rank_where(s, 2, ne_rank_pred(p1)) {
                None => None,
                Some(p2) => if s.len() > 4 {
                    Some(seq![p1, p2] + take_up_to(remove_rank2(s, p1, p2), 1))
                } else {
                    Some(seq![p1, p2])
                },
            },
        }
    }
}

/// Finds two pair in a descending rank list in which no rank appears three
/// times (the caller has already ruled three of a kind out): the high pair,
/// the low pair, and one kicker when a fifth card exists.
pub fn find_two_pair(ranks: &Vec<Rank>) -> (r: Option<Vec<Rank>>)
    requires
        sorted_desc(ranks@),
        forall|q: Rank| rank_cnt(ranks@, q) <= 2,
    ensures
        match r {
            Some(v) => two_pair_spec(ranks@) == Some(v@),
            None => two_pair_spec(ranks@) is None,
        },
{
    let ghost s = ranks@;
    if ranks.len() < 4 {
        return None;
    }
    let p1 = match strongest_with_count(ranks, 2) {
        Some(p) => p,
        None => {
            return None;
        },
    };
    let p2 = match strongest_pair_except(ranks, p1) {
        Some(p) => p,
        None => {
            return None;
        },
    };
    let mut out: Vec<Rank> = Vec::new();
    out.push(p1);
    out.push(p2);
    if ranks.len() > 4 {
        let mut kicker = collect_except2(ranks, p1, p2, 1);
        out.append(&mut kicker);
        proof {
            assert(out@ =~= seq![p1, p2] + take_up_to(remove_rank2(s, p1, p2), 1));
        }
        return Some(out);
    }
    proof {
        assert(out@ =~= seq![p1, p2]);
    }
    Some(out)
}

} // verus!
