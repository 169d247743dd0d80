//! Small collection helpers shared across the crate.

use vstd::prelude::*;

verus! {

use std::collections::BTreeSet;

/// A fresh, empty ordered set.
pub fn set<K: Ord>() -> (r: BTreeSet<K>)
    ensures
        r@ == Set::<K>::empty(),
{
    BTreeSet::<K>::new()
}

} // verus!
