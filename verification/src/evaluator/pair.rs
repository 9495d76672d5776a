//! Single-pair detection over a descending rank list.

use vstd::prelude::*;

use crate::card::Rank;
use crate::tally::{any_rank_pred, collect_except, lemma_filter_shorter, max_rank_where,
    remove_rank, sorted_desc, strongest_with_count, take_up_to};

verus! {

/// What pair detection yields on a descending rank list: the strongest rank
/// appearing twice, followed by the strongest remaining ranks as kickers --
/// all of them for a short list, the top three otherwise.
pub open spec fn pair_spec(s: Seq<Rank>) -> Option<Seq<Rank>> {
    if s.len() < 2 {
        None
    } else {
        match max_rank_where(s, 2, any_rank_pred()) {
            None => None,
            Some(p) => Some(
                seq![p] + if s.len() < 5 {
                    remove_rank(s, p)
                } else {
                    take_up_to(remove_rank(s, p), 3)
                },
            ),
        }
    }
}

/// Finds a pair in a descending rank list: the pair rank and up to three
/// kickers.
pub fn find_pair(ranks: &Vec<Rank>) -> (r: Option<Vec<Rank>>)
    requires
        sorted_desc(ranks@),
    ensures
        match r {
            Some(v) => pair_spec(ranks@) == Some(v@),
            None => pair_spec(ranks@) is None,
        },
{
    let ghost s = ranks@;
    let n = ranks.len();
    if n < 2 {
        return None;
    }
    let p = match strongest_with_count(ranks, 2) {
        Some(p) => p,
        None => {
            return None;
        },
    };
    let mut out: Vec<Rank> = Vec::new();
    out.push(p);
    let limit = if n < 5 {
        n
    } else {
        3
    };
    let mut kickers = collect_except(ranks, p, limit);
    out.append(&mut kickers);
    proof {
        if n < 5 {
            lemma_filter_shorter(s, p);
            assert(take_up_to(remove_rank(s, p), n as int) == remove_rank(s, p));
            assert(out@ =~= seq![p] + remove_rank(s, p));
        } else {
            assert(out@ =~= seq![p] + take_up_to(remove_rank(s, p), 3));
        }
    }
    Some(out)
}

} // verus!
