//! Facts about std's order on integer keys that the collections rely on.

use vstd::prelude::*;

verus! {

/// `u64` keys follow the order that vstd's `BTreeMap` contracts assume.
pub proof fn lemma_u64_keys_ordered()
    ensures
        vstd::laws_cmp::obeys_cmp::<u64>(),
{
    broadcast use vstd::laws_cmp::group_laws_cmp;
}

} // verus!
