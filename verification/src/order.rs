use vstd::prelude::*;
use crate::item::RankedItem;

verus! {

/// The insertion order of the experiment: descending rank first, ties broken
/// by ascending key.  A higher-ranked item precedes a lower-ranked one.
pub open spec fn rank_precedes(a: RankedItem, b: RankedItem) -> bool {
    a.rank > b.rank || (a.rank == b.rank && a.key <= b.key)
}

/// The sequence is sorted for sequential insertion: every earlier item
/// precedes every later one under `rank_precedes`.
pub open spec fn sorted_by_rank(s: Seq<RankedItem>) -> bool {
    forall|i: int, j: int| 0 <= i < j < s.len() ==> rank_precedes(s[i], s[j])
}

fn rank_before(a: &RankedItem, b: &RankedItem) -> (r: bool)
    ensures
        r == rank_precedes(*a, *b),
{
    a.rank > b.rank || (a.rank == b.rank && a.key <= b.key)
}

/// Inserting an element anywhere in a sequence adds exactly that element to
/// the sequence's multiset.
proof fn lemma_seq_insert_to_multiset(s: Seq<RankedItem>, p: int, x: RankedItem)
    requires
        0 <= p <= s.len(),
    ensures
        s.insert(p, x).to_multiset() == s.to_multiset().insert(x),
{
    broadcast use vstd::seq_lib::group_to_multiset_ensures;
    broadcast use vstd::multiset::group_multiset_axioms;

    let t = s.insert(p, x);
    s.insert_ensures(p, x);
    assert(t.remove(p) =~= s);
    assert(t.remove(p).to_multiset() == t.to_multiset().remove(t[p]));
    assert(t[p] == x);
    assert(t.contains(x));
    assert(t.to_multiset().count(x) > 0);
    assert forall|y: RankedItem|
        t.to_multiset().count(y) == #[trigger] s.to_multiset().insert(x).count(y) by {
        if y == x {
            assert(s.to_multiset().count(x) == t.to_multiset().remove(x).count(x));
        } else {
            assert(s.to_multiset().count(y) == t.to_multiset().remove(x).count(y));
        }
    }
    assert(t.to_multiset() =~= s.to_multiset().insert(x));
}

/// Insert one item into a sequence already sorted for insertion, keeping it
/// sorted; the contents grow by exactly that item.
fn insert_sorted(v: &mut Vec<RankedItem>, x: RankedItem)
    requires
        sorted_by_rank(old(v)@),
    ensures
        sorted_by_rank(final(v)@),
        final(v)@.to_multiset() == old(v)@.to_multiset().insert(x),
        final(v)@.len() == old(v)@.len() + 1,
{
    let mut p: usize = 0;
    while p < v.len() && rank_before(&v[p], &x)
        invariant
            p <= v@.len(),
            *v == *old(v),
            forall|q: int| 0 <= q < p ==> rank_precedes(v@[q], x),
        decreases v@.len() - p,
    {
        p += 1;
    }
    proof {
        lemma_seq_insert_to_multiset(v@, p as int, x);
        v@.insert_ensures(p as int, x);
    }
    let ghost s_old = v@;
    v.insert(p, x);
    proof {
        let s = v@;
        let pi = p as int;
        assert forall|i: int, j: int| 0 <= i < j < s.len() implies rank_precedes(s[i], s[j]) by {
            if i < pi && j < pi {
                assert(s[i] == s_old[i] && s[j] == s_old[j]);
            } else if i < pi && j == pi {
                assert(s[i] == s_old[i] && s[j] == x);
            } else if i < pi && j > pi {
                assert(s[i] == s_old[i] && s[j] == s_old[j - 1]);
                if j - 1 > i {
                } else {
                    assert(j - 1 == i && i == pi - 1);
                    assert(rank_precedes(s_old[i], x));
                }
            } else if i == pi {
                assert(s[i] == x && s[j] == s_old[j - 1]);
                assert(pi < s_old.len() && !rank_precedes(s_old[pi], x));
                if j - 1 == pi {
                } else {
                    assert(rank_precedes(s_old[pi], s_old[j - 1]));
                }
            } else {
                assert(s[i] == s_old[i - 1] && s[j] == s_old[j - 1]);
            }
        }
    }
}

/// The order is total, and antisymmetric up to equality: two items that each
/// precede the other are one and the same.
pub proof fn lemma_rank_order_total(a: RankedItem, b: RankedItem)
    ensures
        rank_precedes(a, b) || rank_precedes(b, a),
        rank_precedes(a, b) && rank_precedes(b, a) ==> a == b,
{
}

/// For a fixed batch the insertion order is deterministic: only one ordering
/// of its items is sorted for insertion.
pub proof fn lemma_sorted_order_unique(s1: Seq<RankedItem>, s2: Seq<RankedItem>)
    requires
        sorted_by_rank(s1),
        sorted_by_rank(s2),
        s1.to_multiset() == s2.to_multiset(),
    ensures
        s1 == s2,
    decreases s1.len(),
{
    broadcast use vstd::seq_lib::group_to_multiset_ensures;

    if s1.len() == 0 {
        assert(s2.len() == s1.to_multiset().len());
        assert(s1 =~= s2);
    } else {
        assert(s2.len() == s1.to_multiset().len());
        let x = s1[0];
        let y = s2[0];
        assert(s1.contains(x) && s2.contains(y));
        assert(s2.to_multiset().count(x) > 0 && s1.to_multiset().count(y) > 0);
        assert(s2.contains(x) && s1.contains(y));
        let j = choose|j: int| 0 <= j < s2.len() && s2[j] == x;
        let i = choose|i: int| 0 <= i < s1.len() && s1[i] == y;
        assert(i == 0 || rank_precedes(x, y));
        assert(j == 0 || rank_precedes(y, x));
        assert(x == y);
        let t1 = s1.remove(0);
        let t2 = s2.remove(0);
        assert(t1.to_multiset() == s1.to_multiset().remove(x));
        assert(t2.to_multiset() == s2.to_multiset().remove(x));
        assert forall|p: int, q: int| 0 <= p < q < t1.len() implies rank_precedes(
            t1[p],
            t1[q],
        ) by {
            assert(t1[p] == s1[p + 1] && t1[q] == s1[q + 1]);
        }
        assert forall|p: int, q: int| 0 <= p < q < t2.len() implies rank_precedes(
            t2[p],
            t2[q],
        ) by {
            assert(t2[p] == s2[p + 1] && t2[q] == s2[q + 1]);
        }
        lemma_sorted_order_unique(t1, t2);
        assert forall|p: int| 0 <= p < s1.len() implies s1[p] == s2[p] by {
            if p > 0 {
                assert(s1[p] == t1[p - 1] && s2[p] == t2[p - 1]);
            }
        }
        assert(s1 =~= s2);
    }
}

/// Sort the batch for sequential insertion: descending rank, ties broken by
/// ascending key.  The result is a permutation of the input.
pub fn sort_ranked(items: &mut Vec<RankedItem>)
    ensures
        sorted_by_rank(final(items)@),
        final(items)@.to_multiset() == old(items)@.to_multiset(),
        final(items)@.len() == old(items)@.len(),
{
    broadcast use vstd::seq_lib::group_to_multiset_ensures;

    let mut out: Vec<RankedItem> = Vec::new();
    let mut i: usize = 0;
    proof {
        assert(out@ =~= items@.take(0));
    }
    while i < items.len()
        invariant
            i <= items@.len(),
            *items == *old(items),
            sorted_by_rank(out@),
            out@.len() == i,
            out@.to_multiset() == items@.take(i as int).to_multiset(),
        decreases items@.len() - i,
    {
        let x = items[i];
        proof {
            broadcast use vstd::seq_lib::group_to_multiset_ensures;

            assert(items@.take(i as int + 1) =~= items@.take(i as int).push(items@[i as int]));
        }
        insert_sorted(&mut out, x);
        i += 1;
    }
    proof {
        assert(items@.take(items@.len() as int) =~= items@);
    }
    core::mem::swap(items, &mut out);
}

} // verus!
