use ziptree_height::item::RankedItem;
use ziptree_height::order::sort_ranked;

fn item(key: u64, rank: u8) -> RankedItem {
    RankedItem { key, rank }
}

#[test]
fn sort_orders_by_descending_rank() {
    let mut items = vec![item(5, 0), item(9, 3), item(1, 1), item(4, 2)];
    sort_ranked(&mut items);
    assert_eq!(items, vec![item(9, 3), item(4, 2), item(1, 1), item(5, 0)]);
}

#[test]
fn sort_breaks_rank_ties_by_ascending_key() {
    let mut items = vec![item(30, 1), item(10, 1), item(20, 1), item(99, 2), item(5, 0)];
    sort_ranked(&mut items);
    assert_eq!(
        items,
        vec![item(99, 2), item(10, 1), item(20, 1), item(30, 1), item(5, 0)]
    );
}

#[test]
fn sort_keeps_every_item() {
    let mut items = vec![item(3, 1), item(3, 1), item(2, 5), item(7, 0), item(2, 5)];
    sort_ranked(&mut items);
    assert_eq!(items.len(), 5);
    let count = |k: u64, r: u8| items.iter().filter(|it| it.key == k && it.rank == r).count();
    assert_eq!(count(3, 1), 2);
    assert_eq!(count(2, 5), 2);
    assert_eq!(count(7, 0), 1);
}

#[test]
fn sort_of_empty_batch_is_empty() {
    let mut items: Vec<RankedItem> = vec![];
    sort_ranked(&mut items);
    assert!(items.is_empty());
}
