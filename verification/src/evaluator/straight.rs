//! Straight detection over a strictly descending rank list, including the
//! ace-low "wheel" A-2-3-4-5, whose high card is Five.

use vstd::prelude::*;

use crate::card::{lemma_rank_num_injective, lemma_rank_num_range, rank_num, rank_of_num, Rank};
use crate::tally::{contains_val, strictly_desc};

verus! {

/// Whether the five ranks of a straight with high strength `h` are all
/// present. For the wheel (`h == 5`) the Ace stands in for the One.
pub open spec fn straight_vals_present(s: Seq<Rank>, h: int) -> bool {
    &&& contains_val(s, h)
    &&& contains_val(s, h - 1)
    &&& contains_val(s, h - 2)
    &&& contains_val(s, h - 3)
    &&& if h == 5 {
        contains_val(s, 14)
    } else {
        contains_val(s, h - 4)
    }
}

/// The strongest straight high rank of strength at most `h`, if any.
pub open spec fn straight_high_from(s: Seq<Rank>, h: int) -> Option<Rank>
    decreases h,
{
    if h < 5 {
        None
    } else if straight_vals_present(s, h) {
        Some(rank_of_num(h))
    } else {
        straight_high_from(s, h - 1)
    }
}

/// The high rank of the strongest straight present in `s`, if any. Only the
/// set of rank strengths in `s` matters.
pub open spec fn straight_high(s: Seq<Rank>) -> Option<Rank> {
    straight_high_from(s, 14)
}

proof fn lemma_straight_high_from_correct(s: Seq<Rank>, h: int)
    requires
        4 <= h <= 14,
    ensures
        match straight_high_from(s, h) {
            Some(r) => {
                &&& 5 <= rank_num(r) <= h
                &&& r == rank_of_num(rank_num(r))
                &&& straight_vals_present(s, rank_num(r))
                &&& forall|g: int| rank_num(r) < g <= h ==> !straight_vals_present(s, g)
            },
            None => forall|g: int| 5 <= g <= h ==> !straight_vals_present(s, g),
        },
    decreases h,
{
    if h >= 5 {
        crate::card::lemma_rank_of_num_num(h);
        if !straight_vals_present(s, h) {
            lemma_straight_high_from_correct(s, h - 1);
        }
    }
}

/// A straight high rank satisfying presence and maximality is what
/// `straight_high` returns.
pub proof fn lemma_straight_high_intro(s: Seq<Rank>, h: int)
    requires
        5 <= h <= 14,
        straight_vals_present(s, h),
        forall|g: int| h < g <= 14 ==> !straight_vals_present(s, g),
    ensures
        straight_high(s) == Some(rank_of_num(h)),
{
    lemma_straight_high_from_correct(s, 14);
    match straight_high(s) {
        Some(r) => {
            assert(rank_num(r) == h);
        },
        None => {},
    }
}

/// With no straight present at any high strength, `straight_high` is empty.
pub proof fn lemma_straight_high_intro_none(s: Seq<Rank>)
    requires
        forall|g: int| 5 <= g <= 14 ==> !straight_vals_present(s, g),
    ensures
        straight_high(s) is None,
{
    lemma_straight_high_from_correct(s, 14);
}

/// `straight_high` depends only on which rank strengths are present.
pub proof fn lemma_straight_high_members(s: Seq<Rank>, t: Seq<Rank>)
    requires
        forall|v: int| contains_val(s, v) <==> contains_val(t, v),
    ensures
        straight_high(s) == straight_high(t),
{
    lemma_straight_high_members_from(s, t, 14);
}

proof fn lemma_straight_high_members_from(s: Seq<Rank>, t: Seq<Rank>, h: int)
    requires
        forall|v: int| contains_val(s, v) <==> contains_val(t, v),
    ensures
        straight_high_from(s, h) == straight_high_from(t, h),
    decreases h,
{
    if h >= 5 {
        lemma_straight_high_members_from(s, t, h - 1);
    }
}

/// In a strictly descending list, five present consecutive strengths (high
/// at least six) occupy five consecutive positions, so a window whose ends
/// differ by exactly four exists.
proof fn lemma_present_window(s: Seq<Rank>, g: int)
    requires
        strictly_desc(s),
        6 <= g <= 14,
        straight_vals_present(s, g),
    ensures
        exists|i: int|
            0 <= i && i + 4 < s.len() && rank_num(s[i]) == g && rank_num(#[trigger] s[i + 4]) == g
                - 4,
{
    let i0 = choose|i: int| 0 <= i < s.len() && rank_num(s[i]) == g;
    assert(contains_val(s, g - 1) && contains_val(s, g - 2) && contains_val(s, g - 3)
        && contains_val(s, g - 4));
    let w1 = choose|i: int| 0 <= i < s.len() && rank_num(s[i]) == g - 1;
    let w2 = choose|i: int| 0 <= i < s.len() && rank_num(s[i]) == g - 2;
    let w3 = choose|i: int| 0 <= i < s.len() && rank_num(s[i]) == g - 3;
    let w4 = choose|i: int| 0 <= i < s.len() && rank_num(s[i]) == g - 4;
    assert(w1 == i0 + 1) by {
        assert(w1 > i0);
        if w1 > i0 + 1 {
            assert(rank_num(s[i0 + 1]) < rank_num(s[i0]) && rank_num(s[i0 + 1]) > rank_num(s[w1]));
        }
    }
    assert(w2 == i0 + 2) by {
        assert(w2 > w1);
        if w2 > w1 + 1 {
            assert(rank_num(s[w1 + 1]) < rank_num(s[w1]) && rank_num(s[w1 + 1]) > rank_num(s[w2]));
        }
    }
    assert(w3 == i0 + 3) by {
        assert(w3 > w2);
        if w3 > w2 + 1 {
            assert(rank_num(s[w2 + 1]) < rank_num(s[w2]) && rank_num(s[w2 + 1]) > rank_num(s[w3]));
        }
    }
    assert(w4 == i0 + 4) by {
        assert(w4 > w3);
        if w4 > w3 + 1 {
            assert(rank_num(s[w3 + 1]) < rank_num(s[w3]) && rank_num(s[w3 + 1]) > rank_num(s[w4]));
        }
    }
    assert(rank_num(s[i0 + 4]) == g - 4);
}

/// In a strictly descending list holding the wheel, Ace sits first and the
/// Five down to the Two sit in the last four positions.
proof fn lemma_wheel_positions(s: Seq<Rank>)
    requires
        strictly_desc(s),
        straight_vals_present(s, 5),
    ensures
        s.len() >= 5,
        s[0] == Rank::Ace,
        s[s.len() - 1] == Rank::Two,
        s[s.len() - 2] == Rank::Three,
        s[s.len() - 3] == Rank::Four,
        s[s.len() - 4] == Rank::Five,
{
    broadcast use lemma_rank_num_range;

    let n = s.len() as int;
    let ia = choose|i: int| 0 <= i < n && rank_num(s[i]) == 14;
    let i5 = choose|i: int| 0 <= i < n && rank_num(s[i]) == 5;
    let i4 = choose|i: int| 0 <= i < n && rank_num(s[i]) == 4;
    let i3 = choose|i: int| 0 <= i < n && rank_num(s[i]) == 3;
    let i2 = choose|i: int| 0 <= i < n && rank_num(s[i]) == 2;
    assert(ia == 0) by {
        if ia > 0 {
            assert(rank_num(s[0]) > 14);
        }
    }
    assert(i2 == n - 1) by {
        if i2 < n - 1 {
            assert(rank_num(s[n - 1]) < 2);
        }
    }
    assert(i3 == n - 2) by {
        assert(i3 < i2);
        if i3 < n - 2 {
            assert(rank_num(s[n - 2]) < 3 && rank_num(s[n - 2]) > 2);
        }
    }
    assert(i4 == n - 3) by {
        assert(i4 < i3);
        if i4 < n - 3 {
            assert(rank_num(s[n - 3]) < 4 && rank_num(s[n - 3]) > 3);
        }
    }
    assert(i5 == n - 4) by {
        assert(i5 < i4);
        if i5 < n - 4 {
            assert(rank_num(s[n - 4]) < 5 && rank_num(s[n - 4]) > 4);
        }
    }
    assert(ia < i5);
    lemma_rank_num_injective(s[0], Rank::Ace);
    lemma_rank_num_injective(s[n - 1], Rank::Two);
    lemma_rank_num_injective(s[n - 2], Rank::Three);
    lemma_rank_num_injective(s[n - 3], Rank::Four);
    lemma_rank_num_injective(s[n - 4], Rank::Five);
}

/// Finds the strongest straight in a strictly descending, duplicate-free rank
/// list: five consecutive strengths, the wheel counting as high Five.
pub fn find_straight(ranks: &Vec<Rank>) -> (r: Option<Rank>)
    requires
        strictly_desc(ranks@),
    ensures
        r == straight_high(ranks@),
{
    let ghost s = ranks@;
    let n = ranks.len();
    if n < 5 {
        proof {
            assert forall|g: int| 5 <= g <= 14 implies !straight_vals_present(s, g) by {
                if straight_vals_present(s, g) {
                    if g >= 6 {
                        lemma_present_window(s, g);
                    } else {
                        lemma_wheel_positions(s);
                    }
                }
            }
            lemma_straight_high_intro_none(s);
        }
        return None;
    }
    let mut i: usize = 0;
    while i <= n - 5
        invariant
            strictly_desc(s),
            s == ranks@,
            n == s.len(),
            5 <= n,
            i <= n - 4,
            forall|j: int| 0 <= j < i ==> rank_num(s[j]) != rank_num(#[trigger] s[j + 4]) + 4,
        decreases n - i,
    {
        if ranks[i].as_num() == ranks[i + 4].as_num() + 4 {
            let high = ranks[i];
            proof {
                let h = rank_num(s[i as int]);
                let a1 = rank_num(s[i as int + 1]);
                let a2 = rank_num(s[i as int + 2]);
                let a3 = rank_num(s[i as int + 3]);
                let a4 = rank_num(s[i as int + 4]);
                assert(h > a1 && a1 > a2 && a2 > a3 && a3 > a4 && h == a4 + 4);
                lemma_rank_num_range(s[i as int + 4]);
                assert(straight_vals_present(s, h));
                assert forall|g: int| h < g <= 14 implies !straight_vals_present(s, g) by {
                    if straight_vals_present(s, g) {
                        lemma_present_window(s, g);
                        let i0 = choose|i0: int|
                            0 <= i0 && i0 + 4 < s.len() && rank_num(s[i0]) == g && rank_num(
                                #[trigger] s[i0 + 4],
                            ) == g - 4;
                        assert(i0 < i);
                    }
                }
                lemma_straight_high_intro(s, h);
                lemma_rank_num_range(s[i as int]);
            }
            return Some(high);
        }
        i += 1;
    }
    proof {
        assert forall|g: int| 6 <= g <= 14 implies !straight_vals_present(s, g) by {
            if straight_vals_present(s, g) {
                lemma_present_window(s, g);
                let i0 = choose|i0: int|
                    0 <= i0 && i0 + 4 < s.len() && rank_num(s[i0]) == g && rank_num(
                        #[trigger] s[i0 + 4],
                    ) == g - 4;
            }
        }
    }
    if ranks[0] == Rank::Ace && ranks[n - 1] == Rank::Two && ranks[n - 2] == Rank::Three && ranks[n
        - 3] == Rank::Four && ranks[n - 4] == Rank::Five {
        proof {
            assert(contains_val(s, 14) && contains_val(s, 2) && contains_val(s, 3) && contains_val(
                s,
                4,
            ) && contains_val(s, 5));
            assert(straight_vals_present(s, 5));
            lemma_straight_high_intro(s, 5);
        }
        return Some(Rank::Five);
    }
    proof {
        if straight_vals_present(s, 5) {
            lemma_wheel_positions(s);
        }
        lemma_straight_high_intro_none(s);
    }
    None
}

} // verus!
