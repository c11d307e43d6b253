//! Serre duality: H^k ≅ H^{n-k}.
//!
//! On an oriented n-dimensional manifold there is a natural isomorphism
//! between H^k and H^{n-k}, so the Betti numbers satisfy β_k = β_{n-k}.

use vstd::prelude::*;

verus! {

/// For Betti numbers β_0, ..., β_n, the table of triples
/// `(k, n - k, β_k == β_{n-k})` for k = 0..=n.
pub fn serre_duality_pairs(betti: &Vec<usize>) -> (r: Vec<(usize, usize, bool)>)
    requires
        betti@.len() >= 1,
    ensures
        r@.len() == betti@.len(),
        forall|k: int|
            0 <= k < betti@.len() ==> #[trigger] r@[k] == (
                k as usize,
                (betti@.len() - 1 - k) as usize,
                betti@[k] == betti@[betti@.len() - 1 - k],
            ),
{
    let n = betti.len() - 1;
    let mut r: Vec<(usize, usize, bool)> = Vec::new();
    let mut k: usize = 0;
    while k <= n
        invariant
            n == betti@.len() - 1,
            n + 1 <= usize::MAX,
            k <= n + 1,
            r@.len() == k,
            forall|j: int|
                0 <= j < k ==> #[trigger] r@[j] == (
                    j as usize,
                    (betti@.len() - 1 - j) as usize,
                    betti@[j] == betti@[betti@.len() - 1 - j],
                ),
        decreases n + 1 - k,
    {
        r.push((k, n - k, betti[k] == betti[n - k]));
        k = k + 1;
    }
    r
}

} // verus!
