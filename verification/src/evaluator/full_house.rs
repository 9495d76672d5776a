//! Full-house detection over a descending rank list.

use vstd::prelude::*;

use crate::card::Rank;
use crate::tally::{any_rank_pred, max_rank_where, ne_rank_pred, sorted_desc,
    strongest_pair_except, strongest_with_count};

verus! {

/// What full-house detection yields on a descending rank list of at least
/// five entries: the strongest tripled rank, then the strongest other rank
/// appearing at least twice (a second, lower triple may supply that pair).
pub open spec fn full_house_spec(s: Seq<Rank>) -> Option<Seq<Rank>> {
    if s.len() < 5 {
        None
    } else {
        match max_rank_where(s, 3, any_rank_pred()) {
            None => None,
            Some(t) => match max_rank_where(s, 2, ne_rank_pred(t)) {
                None => None,
                Some(p) => Some(seq![t, p]),
            },
        }
    }
}

/// Finds a full house in a descending rank list: the triplet rank followed by
/// the pair rank, or nothing if either part is missing.
pub fn find_full_house(ranks: &Vec<Rank>) -> (r: Option<Vec<Rank>>)
    requires
        sorted_desc(ranks@),
    ensures
        match r {
            Some(v) => full_house_spec(ranks@) == Some(v@),
            None => full_house_spec(ranks@) is None,
        },
{
    if ranks.len() < 5 {
        return None;
    }
    let t = match strongest_with_count(ranks, 3) {
        Some(t) => t,
        None => {
            return None;
        },
    };
    let p = match strongest_pair_except(ranks, t) {
        Some(p) => p,
        None => {
            return None;
        },
    };
    let mut out: Vec<Rank> = Vec::new();
    out.push(t);
    out.push(p);
    proof {
        assert(out@ =~= seq![t, p]);
    }
    Some(out)
}

} // verus!
