use vstd::prelude::*;
use crate::item::RankedItem;
use crate::order::{sort_ranked, sorted_by_rank};
use crate::tree::{
    insert_spec, lemma_bst_inorder_ascending, lemma_bst_size_is_distinct_count,
    lemma_height_le_size, lemma_insert_above_right_chain, lemma_insert_below_left_chain,
    lemma_insert_bst, lemma_insert_key_set, lemma_insert_size, insert_no_balance,
    is_left_chain, is_right_chain, strictly_ascending, Node,
};

verus! {

/// The keys of a batch, in batch order.
pub open spec fn keys_of(s: Seq<RankedItem>) -> Seq<u64> {
    s.map_values(|it: RankedItem| it.key)
}

/// The keys of a sequence read in strictly descending order.
pub open spec fn strictly_descending(s: Seq<u64>) -> bool {
    forall|i: int, j: int| 0 <= i < j < s.len() ==> s[i] > s[j]
}

/// The tree that one batch-insertion pass over an initially empty tree
/// builds, taking the items in sequence order.
pub open spec fn build_spec(s: Seq<RankedItem>) -> Node
    decreases s.len(),
{
    if s.len() == 0 {
        Node::Empty
    } else {
        insert_spec(build_spec(s.drop_last()), s.last().key)
    }
}

/// Batch insertion always yields a valid BST, whatever the insertion order.
pub proof fn lemma_build_bst(s: Seq<RankedItem>)
    ensures
        build_spec(s).is_bst(),
    decreases s.len(),
{
    if s.len() > 0 {
        lemma_build_bst(s.drop_last());
        lemma_insert_bst(build_spec(s.drop_last()), s.last().key);
    }
}

/// The in-order walk of the tree built from any batch reads its keys in
/// strictly ascending order.
pub proof fn lemma_build_inorder_ascending(s: Seq<RankedItem>)
    ensures
        strictly_ascending(build_spec(s).inorder()),
{
    lemma_build_bst(s);
    lemma_bst_inorder_ascending(build_spec(s));
}

/// The built tree holds exactly the distinct keys of the batch.
pub proof fn lemma_build_key_set(s: Seq<RankedItem>)
    ensures
        build_spec(s).key_set() == keys_of(s).to_set(),
    decreases s.len(),
{
    if s.len() == 0 {
        assert(build_spec(s).key_set() =~= keys_of(s).to_set());
    } else {
        let p = s.drop_last();
        lemma_build_key_set(p);
        lemma_insert_key_set(build_spec(p), s.last().key);
        assert(keys_of(s) =~= keys_of(p) + seq![s.last().key]);
        Seq::<u64>::lemma_to_set_insert_commutes(keys_of(p), s.last().key);
        assert(build_spec(s).key_set() =~= keys_of(s).to_set());
    }
}

/// Duplicate keys are suppressed: the node count of the built tree equals
/// the number of distinct keys of the batch.
pub proof fn lemma_build_no_duplicates(s: Seq<RankedItem>)
    ensures
        build_spec(s).size() == keys_of(s).to_set().len(),
{
    lemma_build_bst(s);
    lemma_bst_size_is_distinct_count(build_spec(s));
    lemma_build_key_set(s);
}

/// A batch of `n` items yields at most `n` nodes.
pub proof fn lemma_build_size_le_len(s: Seq<RankedItem>)
    ensures
        build_spec(s).size() <= s.len(),
    decreases s.len(),
{
    if s.len() > 0 {
        let p = s.drop_last();
        lemma_build_size_le_len(p);
        lemma_build_bst(p);
        lemma_insert_size(build_spec(p), s.last().key);
    }
}

/// Two batches that are permutations of one another hold the same distinct
/// keys.
pub proof fn lemma_permutation_same_key_set(a: Seq<RankedItem>, b: Seq<RankedItem>)
    requires
        a.to_multiset() == b.to_multiset(),
    ensures
        keys_of(a).to_set() == keys_of(b).to_set(),
{
    lemma_key_set_subset_of_permutation(a, b);
    lemma_key_set_subset_of_permutation(b, a);
    assert(keys_of(a).to_set() =~= keys_of(b).to_set());
}

proof fn lemma_key_set_subset_of_permutation(a: Seq<RankedItem>, b: Seq<RankedItem>)
    requires
        a.to_multiset() == b.to_multiset(),
    ensures
        forall|k: u64| keys_of(a).to_set().contains(k) ==> keys_of(b).to_set().contains(k),
{
    broadcast use vstd::seq_lib::group_to_multiset_ensures;

    assert forall|k: u64| keys_of(a).to_set().contains(k) implies keys_of(b).to_set().contains(
        k,
    ) by {
        let i = choose|i: int| 0 <= i < keys_of(a).len() && keys_of(a)[i] == k;
        let it = a[i];
        assert(a.contains(it));
        assert(a.to_multiset().count(it) > 0);
        assert(b.contains(it));
        let j = choose|j: int| 0 <= j < b.len() && b[j] == it;
        assert(keys_of(b)[j] == k);
        assert(keys_of(b).contains(k));
    }
}

/// Inserted in strictly ascending key order, with no rank-based reordering,
/// the tree degenerates into a right chain: one node per item, height `n`.
pub proof fn lemma_ascending_build_degenerates(s: Seq<RankedItem>)
    requires
        strictly_ascending(keys_of(s)),
    ensures
        is_right_chain(build_spec(s)),
        build_spec(s).height() == s.len(),
    decreases s.len(),
{
    if s.len() > 0 {
        let p = s.drop_last();
        assert(keys_of(p) =~= keys_of(s).take(s.len() - 1));
        assert forall|i: int, j: int| 0 <= i < j < keys_of(p).len() implies keys_of(p)[i]
            < keys_of(p)[j] by {
            assert(keys_of(p)[i] == keys_of(s)[i] && keys_of(p)[j] == keys_of(s)[j]);
        }
        lemma_ascending_build_degenerates(p);
        lemma_build_key_set(p);
        let last_key = s.last().key;
        assert(keys_of(s)[s.len() - 1] == last_key);
        assert forall|x: u64| build_spec(p).key_set().contains(x) implies x < last_key by {
            assert(keys_of(p).to_set().contains(x));
            let i = choose|i: int| 0 <= i < keys_of(p).len() && keys_of(p)[i] == x;
            assert(keys_of(s)[i] == x);
        }
        lemma_insert_above_right_chain(build_spec(p), last_key);
    }
}

/// Inserted in strictly descending key order, with no rank-based reordering,
/// the tree degenerates into a left chain: one node per item, height `n`.
pub proof fn lemma_descending_build_degenerates(s: Seq<RankedItem>)
    requires
        strictly_descending(keys_of(s)),
    ensures
        is_left_chain(build_spec(s)),
        build_spec(s).height() == s.len(),
    decreases s.len(),
{
    if s.len() > 0 {
        let p = s.drop_last();
        assert(keys_of(p) =~= keys_of(s).take(s.len() - 1));
        assert forall|i: int, j: int| 0 <= i < j < keys_of(p).len() implies keys_of(p)[i]
            > keys_of(p)[j] by {
            assert(keys_of(p)[i] == keys_of(s)[i] && keys_of(p)[j] == keys_of(s)[j]);
        }
        lemma_descending_build_degenerates(p);
        lemma_build_key_set(p);
        let last_key = s.last().key;
        assert(keys_of(s)[s.len() - 1] == last_key);
        assert forall|x: u64| build_spec(p).key_set().contains(x) implies x > last_key by {
            assert(keys_of(p).to_set().contains(x));
            let i = choose|i: int| 0 <= i < keys_of(p).len() && keys_of(p)[i] == x;
            assert(keys_of(s)[i] == x);
        }
        lemma_insert_below_left_chain(build_spec(p), last_key);
    }
}

/// Insert the items of the batch into an initially empty tree, in batch
/// order, suppressing duplicate keys.
pub fn build_tree(items: &Vec<RankedItem>) -> (t: Node)
    ensures
        t == build_spec(items@),
{
    let mut t = Node::Empty;
    let mut i: usize = 0;
    proof {
        assert(items@.take(0).len() == 0);
    }
    while i < items.len()
        invariant
            i <= items@.len(),
            t == build_spec(items@.take(i as int)),
        decreases items@.len() - i,
    {
        insert_no_balance(&mut t, items[i].key);
        i += 1;
        proof {
            let s_now = items@.take(i as int);
            assert(s_now.drop_last() =~= items@.take(i as int - 1));
            assert(s_now.last() == items@[i as int - 1]);
        }
    }
    proof {
        assert(items@.take(items@.len() as int) =~= items@);
    }
    t
}

/// The deterministic pipeline after sampling: order the batch by descending
/// rank (ties broken by ascending key), then insert sequentially into an
/// initially empty tree.  The result is the tree of exactly that insertion
/// order: a valid BST holding exactly the distinct keys of the batch, one
/// node each.
pub fn ziptree_of_items(items: Vec<RankedItem>) -> (t: Node)
    ensures
        exists|s: Seq<RankedItem>|
            sorted_by_rank(s) && s.to_multiset() == items@.to_multiset() && t == build_spec(s),
        t.is_bst(),
        t.key_set() == keys_of(items@).to_set(),
        t.size() == keys_of(items@).to_set().len(),
        t.size() <= items@.len(),
        t.height() <= items@.len(),
{
    let ghost orig = items@;
    let mut batch = items;
    sort_ranked(&mut batch);
    let t = build_tree(&batch);
    proof {
        let s = batch@;
        assert(sorted_by_rank(s) && s.to_multiset() == orig.to_multiset() && t == build_spec(s));
        lemma_build_bst(s);
        lemma_build_key_set(s);
        lemma_build_no_duplicates(s);
        lemma_permutation_same_key_set(s, orig);
        lemma_build_size_le_len(s);
        lemma_height_le_size(t);
    }
    t
}

} // verus!
