use ziptree_height::experiment::{build_tree, ziptree_of_items};
use ziptree_height::item::RankedItem;
use ziptree_height::sample::{random_ziptree_of_size, sample_ranked_items};
use ziptree_height::tree::{compute_height, count_nodes, inorder_keys, Node};

fn item(key: u64, rank: u8) -> RankedItem {
    RankedItem { key, rank }
}

/// The pre-ranked batch [(A, rank 3), (B, rank 1), (C, rank 2)] with A<B<C is
/// inserted in descending-rank order (A, C, B): the tree is rooted at A, with
/// right child C, and B as C's left child; its height is 3.
#[test]
fn concrete_pre_ranked_scenario() {
    let a: u64 = 1;
    let b: u64 = 2;
    let c: u64 = 3;
    let batch = vec![item(a, 3), item(b, 1), item(c, 2)];
    let tree = ziptree_of_items(batch);
    assert_eq!(compute_height(&tree), 3);
    match &tree {
        Node::NonEmpty { item, left, right } => {
            assert_eq!(*item, a);
            assert!(matches!(**left, Node::Empty));
            match &**right {
                Node::NonEmpty { item, left, right } => {
                    assert_eq!(*item, c);
                    assert!(matches!(**right, Node::Empty));
                    match &**left {
                        Node::NonEmpty { item, left, right } => {
                            assert_eq!(*item, b);
                            assert!(matches!(**left, Node::Empty));
                            assert!(matches!(**right, Node::Empty));
                        }
                        Node::Empty => panic!("expected B below C"),
                    }
                }
                Node::Empty => panic!("expected C to the right of A"),
            }
        }
        Node::Empty => panic!("expected a non-empty tree"),
    }
}

#[test]
fn build_tree_inserts_in_batch_order() {
    let batch = vec![item(2, 0), item(1, 0), item(3, 0), item(2, 9)];
    let tree = build_tree(&batch);
    assert_eq!(inorder_keys(&tree), vec![1, 2, 3]);
    assert_eq!(compute_height(&tree), 2);
}

#[test]
fn one_item_trial_builds_one_node() {
    let tree = random_ziptree_of_size(1);
    assert!(matches!(tree, Node::NonEmpty { .. }));
    assert_eq!(count_nodes(&tree), 1);
    assert_eq!(compute_height(&tree), 1);
}

#[test]
fn sampled_batch_has_requested_size() {
    for n in [0usize, 1, 17, 1000] {
        let items = sample_ranked_items(n);
        assert_eq!(items.len(), n);
    }
}

/// End to end on a random trial: the built tree is a valid BST (in-order
/// strictly ascending) and holds one node per distinct sampled key.
#[test]
fn random_trial_yields_valid_deduplicated_bst() {
    let n: usize = 1000;
    let items = sample_ranked_items(n);
    let mut distinct: Vec<u64> = items.iter().map(|it| it.key).collect();
    distinct.sort_unstable();
    distinct.dedup();
    let tree = ziptree_of_items(items);
    let keys = inorder_keys(&tree);
    for w in keys.windows(2) {
        assert!(w[0] < w[1]);
    }
    assert_eq!(count_nodes(&tree), keys.len());
    assert_eq!(keys, distinct);
    assert!(compute_height(&tree) <= n);
}

/// The empirical mean of height / ((3/2) ln n) over repeated independent
/// trials stays inside a stable band.  At n = 1000 the mean ratio sits near
/// 2.5 (the (3/2) ln n bound is asymptotic and the convergence is slow), so
/// the band is a generous regression check around that observed value.
#[test]
fn expected_height_ratio_stays_in_band() {
    let n: usize = 1000;
    let trials: usize = 30;
    let claimed = 1.5 * (n as f64).ln();
    let mut sum = 0.0f64;
    for _ in 0..trials {
        let tree = random_ziptree_of_size(n);
        let height = compute_height(&tree) as f64;
        sum += height / claimed;
    }
    let mean = sum / trials as f64;
    assert!(
        1.5 < mean && mean < 3.5,
        "mean height ratio {} outside the tolerance band",
        mean
    );
}
