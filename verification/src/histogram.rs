use vstd::prelude::*;
use crate::item::RankedItem;

verus! {

/// How many items of the batch carry the given rank.
pub open spec fn count_rank(s: Seq<RankedItem>, r: u8) -> nat
    decreases s.len(),
{
    if s.len() == 0 {
        0
    } else {
        count_rank(s.drop_last(), r) + if s.last().rank == r {
            1nat
        } else {
            0nat
        }
    }
}

pub proof fn lemma_count_rank_le_len(s: Seq<RankedItem>, r: u8)
    ensures
        count_rank(s, r) <= s.len(),
    decreases s.len(),
{
    if s.len() > 0 {
        lemma_count_rank_le_len(s.drop_last(), r);
    }
}

/// Aggregate the rank multiplicities of a batch: slot `r` of the result holds
/// the number of items whose rank is `r`, for every possible rank.
pub fn rank_histogram(items: &Vec<RankedItem>) -> (hist: Vec<usize>)
    ensures
        hist@.len() == 256,
        forall|r: u8| #[trigger] hist@[r as int] == count_rank(items@, r),
{
    let mut hist: Vec<usize> = vec![0usize; 256];
    proof {
        assert forall|r: u8| #[trigger] hist@[r as int] == count_rank(items@.take(0), r) by {
            assert(count_rank(items@.take(0), r) == 0);
        }
    }
    let mut i: usize = 0;
    while i < items.len()
        invariant
            i <= items@.len(),
            hist@.len() == 256,
            forall|r: u8| #[trigger] hist@[r as int] == count_rank(items@.take(i as int), r),
        decreases items@.len() - i,
    {
        let rk = items[i].rank;
        let c = hist[rk as usize];
        proof {
            lemma_count_rank_le_len(items@.take(i as int), rk);
        }
        hist[rk as usize] = c + 1;
        i += 1;
        proof {
            let s_prev = items@.take(i as int - 1);
            let s_now = items@.take(i as int);
            assert(s_now.drop_last() =~= s_prev);
            assert(s_now.last() == items@[i as int - 1]);
            assert forall|r: u8| #[trigger] hist@[r as int] == count_rank(s_now, r) by {
                assert(count_rank(s_now, r) == count_rank(s_prev, r) + if s_now.last().rank == r {
                    1nat
                } else {
                    0nat
                });
            }
        }
    }
    proof {
        assert(items@.take(items@.len() as int) =~= items@);
    }
    hist
}

} // verus!
