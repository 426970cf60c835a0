//! Pairs of indexes, as `itertools` enumerates them.
use vstd::prelude::*;
use itertools::Itertools;

verus! {

/// Relies on `itertools::Itertools::combinations` with `k = 2` on `0..n`:
/// every pair `(i, j)` with `i < j < n`, each once, in lexicographic order.
#[verifier::external_body]
pub(crate) fn index_pairs(n: usize) -> (r: Vec<(usize, usize)>)
    ensures
        forall|k: int| 0 <= k < r.len() ==> #[trigger] r@[k].0 < r@[k].1 && r@[k].1 < n,
        forall|i: usize, j: usize| i < j < n ==> #[trigger] r@.contains((i, j)),
        forall|k1: int, k2: int|
            0 <= k1 < k2 < r.len() ==> #[trigger] r@[k1].0 < #[trigger] r@[k2].0 || (r@[k1].0 == r@[k2].0
                && r@[k1].1 < r@[k2].1),
{
    (0..n).combinations(2).map(|c| (c[0], c[1])).collect()
}

} // verus!
