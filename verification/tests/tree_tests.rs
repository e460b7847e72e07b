use ziptree_height::item::RankedItem;
use ziptree_height::tree::{compute_height, count_nodes, inorder_keys, insert_no_balance, Node};

#[test]
fn empty_tree_height_zero() {
    let t = Node::Empty;
    assert_eq!(compute_height(&t), 0);
    assert_eq!(count_nodes(&t), 0);
    assert_eq!(inorder_keys(&t).len(), 0);
}

#[test]
fn single_insert_makes_one_node() {
    let mut t = Node::Empty;
    insert_no_balance(&mut t, 42);
    assert_eq!(compute_height(&t), 1);
    assert_eq!(count_nodes(&t), 1);
    assert_eq!(inorder_keys(&t), vec![42]);
}

#[test]
fn duplicate_keys_are_discarded() {
    let mut t = Node::Empty;
    insert_no_balance(&mut t, 7);
    insert_no_balance(&mut t, 7);
    insert_no_balance(&mut t, 7);
    assert_eq!(count_nodes(&t), 1);
    assert_eq!(compute_height(&t), 1);
    assert_eq!(inorder_keys(&t), vec![7]);
}

#[test]
fn inorder_is_strictly_ascending_after_mixed_inserts() {
    let mut t = Node::Empty;
    for k in [50u64, 20, 80, 10, 30, 70, 90, 30, 50, 5] {
        insert_no_balance(&mut t, k);
    }
    let keys = inorder_keys(&t);
    assert_eq!(keys, vec![5, 10, 20, 30, 50, 70, 80, 90]);
    for w in keys.windows(2) {
        assert!(w[0] < w[1]);
    }
    assert_eq!(count_nodes(&t) as usize, keys.len());
}

#[test]
fn ascending_insertion_degenerates_to_chain() {
    let mut t = Node::Empty;
    for k in 1u64..=10 {
        insert_no_balance(&mut t, k);
    }
    assert_eq!(compute_height(&t), 10);
    assert_eq!(count_nodes(&t), 10);
}

#[test]
fn descending_insertion_degenerates_to_chain() {
    let mut t = Node::Empty;
    for k in (1u64..=10).rev() {
        insert_no_balance(&mut t, k);
    }
    assert_eq!(compute_height(&t), 10);
    assert_eq!(count_nodes(&t), 10);
}

#[test]
fn ranked_item_fields_are_plain() {
    let it = RankedItem { key: 3, rank: 2 };
    assert_eq!(it.key, 3);
    assert_eq!(it.rank, 2);
    assert_eq!(it, RankedItem { key: 3, rank: 2 });
}
