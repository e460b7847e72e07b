use vstd::prelude::*;

verus! {

/// One sampled item: a key, paired with the geometric rank that fixes its
/// insertion priority (higher rank means inserted earlier).
#[derive(Clone, Copy, Debug, PartialEq, Eq, Structural)]
pub struct RankedItem {
    pub key: u64,
    pub rank: u8,
}

} // verus!
