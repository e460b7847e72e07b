use ziptree_height::histogram::rank_histogram;
use ziptree_height::item::RankedItem;
use ziptree_height::sample::sample_ranked_items;

fn item(key: u64, rank: u8) -> RankedItem {
    RankedItem { key, rank }
}

#[test]
fn histogram_counts_exactly() {
    let items = vec![item(1, 0), item(2, 2), item(3, 0), item(4, 1), item(5, 0), item(6, 255)];
    let hist = rank_histogram(&items);
    assert_eq!(hist.len(), 256);
    assert_eq!(hist[0], 3);
    assert_eq!(hist[1], 1);
    assert_eq!(hist[2], 1);
    assert_eq!(hist[3], 0);
    assert_eq!(hist[255], 1);
    let total: usize = hist.iter().sum();
    assert_eq!(total, items.len());
}

#[test]
fn histogram_of_empty_batch_is_all_zero() {
    let items: Vec<RankedItem> = vec![];
    let hist = rank_histogram(&items);
    assert_eq!(hist.len(), 256);
    assert!(hist.iter().all(|&c| c == 0));
}

/// The empirical frequency of rank `k` in a large geometric sample decays by
/// about one half per rank increment: close to 0.5^(k+1) for the first ranks.
#[test]
fn rank_distribution_sanity() {
    let n: usize = 100_000;
    let items = sample_ranked_items(n);
    let hist = rank_histogram(&items);
    for k in 0..5u32 {
        let expected = (n as f64) * 0.5f64.powi(k as i32 + 1);
        let observed = hist[k as usize] as f64;
        let rel = (observed - expected).abs() / expected;
        assert!(
            rel < 0.15,
            "rank {} observed {} expected {} relative error {}",
            k,
            observed,
            expected,
            rel
        );
    }
}
