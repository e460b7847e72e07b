use vstd::prelude::*;
use rand_distr::{Distribution, StandardGeometric};
use crate::experiment::{build_spec, ziptree_of_items};
use crate::item::RankedItem;
use crate::order::sorted_by_rank;
use crate::tree::{lemma_insert_spec_nonempty, Node};

verus! {

/// Relies on rand::random: one independent draw from the `Standard`
/// distribution of the requested type.  The value depends on the process-wide
/// generator, so nothing is promised of it.
pub assume_specification<T>[ rand::random::<T> ]() -> (r: T)
    where
        rand::distributions::Standard: rand::distributions::Distribution<T>,
;

/// Relies on rand_distr::StandardGeometric (a draw from the geometric
/// distribution with success probability one half, counting failures before
/// the first success) and on rand::thread_rng.  The value depends on the
/// process-wide generator, so nothing is promised of it.
#[verifier::external_body]
fn sample_geometric_rank() -> (r: u8) {
    StandardGeometric.sample(&mut rand::thread_rng()) as u8
}

/// Draw `n` independent items: each pairs one random key with one
/// independently sampled geometric rank.
pub fn sample_ranked_items(n: usize) -> (items: Vec<RankedItem>)
    ensures
        items@.len() == n,
{
    let mut items: Vec<RankedItem> = Vec::new();
    let mut i: usize = 0;
    while i < n
        invariant
            i <= n,
            items@.len() == i,
        decreases n - i,
    {
        let key: u64 = rand::random();
        let rank = sample_geometric_rank();
        items.push(RankedItem { key, rank });
        i += 1;
    }
    items
}

/// One experiment trial: draw `n` random items with geometric ranks, order
/// them by descending rank (ties broken by ascending key), and insert them
/// sequentially into an initially empty tree.  Whatever the generator
/// returns, the result is the build of some insertion-sorted batch of
/// exactly `n` drawn items — in particular, non-empty as soon as one item
/// was drawn — and a valid BST with at most one node per drawn item, so
/// neither its size nor its height can exceed `n`.
pub fn random_ziptree_of_size(n: usize) -> (t: Node)
    ensures
        exists|s: Seq<RankedItem>| s.len() == n && sorted_by_rank(s) && t == build_spec(s),
        n >= 1 ==> t is NonEmpty,
        t.is_bst(),
        t.size() <= n,
        t.height() <= n,
{
    let items = sample_ranked_items(n);
    let t = ziptree_of_items(items);
    proof {
        broadcast use vstd::seq_lib::group_to_multiset_ensures;

        let s = choose|s: Seq<RankedItem>|
            sorted_by_rank(s) && s.to_multiset() == items@.to_multiset() && t == build_spec(s);
        assert(s.to_multiset().len() == items@.to_multiset().len());
        assert(s.len() == n && sorted_by_rank(s) && t == build_spec(s));
        if n >= 1 {
            lemma_insert_spec_nonempty(build_spec(s.drop_last()), s.last().key);
        }
    }
    t
}

} // verus!
