//! Key and value held as one element that is ordered by its key alone.

use vstd::prelude::*;
use crate::element::{Ranked, Replicate};

verus! {

/// A key with the value stored under it. Its rank is the rank of the key.
#[derive(Debug, PartialEq, Eq)]
pub struct Pair<K, V> {
    pub key: K,
    pub value: V,
}

impl<K: Replicate, V: Replicate> Replicate for Pair<K, V> {
    fn replicate(&self) -> (copy: Self) {
        Pair { key: self.key.replicate(), value: self.value.replicate() }
    }
}

impl<K: Ranked, V: Replicate> Ranked for Pair<K, V> {
    open spec fn rank(&self) -> int {
        self.key.rank()
    }

    fn rank_of(&self) -> (r: i128) {
        self.key.rank_of()
    }
}

} // verus!
