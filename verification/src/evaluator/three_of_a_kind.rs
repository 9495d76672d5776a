//! Three-of-a-kind detection over a descending rank list.

use vstd::prelude::*;

use crate::card::Rank;
use crate::tally::{any_rank_pred, collect_except, lemma_max_rank_where_correct,
    lemma_rank_cnt_le_len, max_rank_where, remove_rank, sorted_desc, strongest_with_count,
    take_up_to};

verus! {

/// What three-of-a-kind detection yields on a descending rank list: the
/// strongest tripled rank, filled up with the strongest remaining ranks as
/// kickers until the result holds three entries (fewer on short lists).
pub open spec fn three_of_a_kind_spec(s: Seq<Rank>) -> Option<Seq<Rank>> {
    match max_rank_where(s, 3, any_rank_pred()) {
        None => None,
        Some(t) => if s.len() == 3 {
            Some(seq![t])
        } else if s.len() == 4 {
            Some(seq![t, if s[0] == s[2] {
                s[3]
            } else {
                s[0]
            }])
        } else {
            Some(seq![t] + take_up_to(remove_rank(s, t), 2))
        },
    }
}

/// Finds three of a kind in a descending rank list: the triplet rank and up
/// to two kickers.
pub fn find_three_of_a_kind(ranks: &Vec<Rank>) -> (r: Option<Vec<Rank>>)
    requires
        sorted_desc(ranks@),
    ensures
        match r {
            Some(v) => three_of_a_kind_spec(ranks@) == Some(v@),
            None => three_of_a_kind_spec(ranks@) is None,
        },
{
    let ghost s = ranks@;
    let t = match strongest_with_count(ranks, 3) {
        Some(t) => t,
        None => {
            return None;
        },
    };
    proof {
        lemma_max_rank_where_correct(s, 3, any_rank_pred());
        lemma_rank_cnt_le_len(s, t);
    }
    let n = ranks.len();
    let mut out: Vec<Rank> = Vec::new();
    out.push(t);
    if n == 3 {
        proof {
            assert(out@ =~= seq![t]);
        }
        return Some(out);
    }
    if n == 4 {
        let kicker = if ranks[0] == ranks[2] {
            ranks[3]
        } else {
            ranks[0]
        };
        out.push(kicker);
        proof {
            assert(out@ =~= seq![t, kicker]);
        }
        return Some(out);
    }
    let mut kickers = collect_except(ranks, t, 2);
    out.append(&mut kickers);
    proof {
        assert(out@ =~= seq![t] + take_up_to(remove_rank(s, t), 2));
    }
    Some(out)
}

} // verus!
