//! De Rham complex: 0 → Ω⁰ → Ω¹ → Ω² → ... with d² = 0.
//!
//! The exterior derivative d_k maps k-forms to (k+1)-forms; it is the
//! transpose of the boundary ∂_{k+1}.  The identity d² = 0 ensures that
//! exact forms are closed.

use vstd::prelude::*;
use crate::forms::{BoundaryMatrix, SimplicialComplex};
use crate::rank::{has_rank, lemma_empty_has_rank, lemma_has_rank_same, rank};
use crate::matrix::{
    lemma_apply_add, lemma_apply_times, lemma_apply_to_zero, lemma_apply_zero, lemma_same_zero, lemma_times_same,
    lemma_transpose_times, IntMatrix, Mat,
};

verus! {

/// `d_{k+1} ∘ d_k = 0`, or one of the two maps is empty.
pub open spec fn d_squared_holds(complex: &SimplicialComplex, k: int) -> bool {
    ||| complex.d(k).is_empty()
    ||| complex.d(k + 1).is_empty()
    ||| complex.d(k + 1).times(complex.d(k)).is_zero()
}

/// The product `d_{k+1} d_k` can be formed: when both maps are non-empty
/// their shapes chain and the product fits in memory.
pub open spec fn d_squared_defined(complex: &SimplicialComplex, k: int) -> bool {
    (!complex.d(k).is_empty() && !complex.d(k + 1).is_empty()) ==> {
        &&& complex.d(k + 1).cols == complex.d(k).rows
        &&& complex.d(k + 1).rows * complex.d(k).cols <= usize::MAX
    }
}

/// Whether `d_{k+1} d_k` can be formed (see [`d_squared_defined`]).
pub fn d_squared_is_defined(complex: &SimplicialComplex, k: usize) -> (b: bool)
    requires
        complex.matrices_wf(),
        k < usize::MAX,
    ensures
        b == d_squared_defined(complex, k as int),
{
    let dk = complex.exterior_derivative_matrix(k);
    let dk1 = complex.exterior_derivative_matrix(k + 1);
    if dk.is_empty() || dk1.is_empty() {
        return true;
    }
    dk1.cols == dk.rows && dk1.rows.checked_mul(dk.cols).is_some()
}

/// The product `d_{k+1} d_k`, computed exactly, or `None` when one of the
/// two maps is empty.
pub fn d_squared_product(complex: &SimplicialComplex, k: usize) -> (p: Option<IntMatrix>)
    requires
        complex.matrices_wf(),
        k < usize::MAX,
        d_squared_defined(complex, k as int),
    ensures
        match p {
            None => complex.d(k as int).is_empty() || complex.d(k + 1).is_empty(),
            Some(m) => {
                &&& !complex.d(k as int).is_empty()
                &&& !complex.d(k + 1).is_empty()
                &&& m.wf()
                &&& m.mat().same(complex.d(k + 1).times(complex.d(k as int)))
            },
        },
{
    let dk = complex.exterior_derivative_matrix(k);
    let dk1 = complex.exterior_derivative_matrix(k + 1);
    if dk.is_empty() || dk1.is_empty() {
        return None;
    }
    let m = dk1.product(&dk);
    proof {
        lemma_times_same(dk1.mat(), complex.d(k + 1), dk.mat(), complex.d(k as int));
    }
    Some(m)
}

/// Verify d² = 0 as a matrix identity: `d_{k+1} * d_k = 0` (true when one
/// of the two maps is empty).  The entries are integers, so the check is
/// exact.
pub fn verify_d_squared_matrix(complex: &SimplicialComplex, k: usize) -> (b: bool)
    requires
        complex.matrices_wf(),
        k < usize::MAX,
        d_squared_defined(complex, k as int),
    ensures
        b == d_squared_holds(complex, k as int),
{
    match d_squared_product(complex, k) {
        None => true,
        Some(m) => {
            proof {
                lemma_same_zero(m.mat(), complex.d(k + 1).times(complex.d(k as int)));
            }
            m.is_zero()
        },
    }
}

/// On a complex whose boundaries compose to zero (`∂ ∘ ∂ = 0`), the
/// exterior derivative squares to zero at every degree: `d_{k+1} d_k = 0`.
pub proof fn lemma_chain_complex_d_squared(complex: &SimplicialComplex, k: int)
    requires
        complex.dims_consistent(),
        complex.is_chain_complex(),
    ensures
        d_squared_holds(complex, k),
{
    if !complex.d(k).is_empty() && !complex.d(k + 1).is_empty() {
        let b0 = complex.boundary_matrices@[k].mat();
        let b1 = complex.boundary_matrices@[k + 1].mat();
        assert(complex.boundary_matrices@[k].cols == complex.num(k + 1));
        assert(complex.boundary_matrices@[k + 1].rows == complex.num(k + 1));
        assert(b0.times(b1).is_zero());
        lemma_transpose_times(b0, b1);
        let p = complex.d(k + 1).times(complex.d(k));
        assert forall|i: int, j: int| 0 <= i < p.rows && 0 <= j < p.cols implies #[trigger] p.entry(i, j)
            == 0 by {
            assert(b0.times(b1).transpose().entry(i, j) == b0.times(b1).entry(j, i));
        }
    }
}

/// On a complex whose boundary shapes match its simplex counts, the
/// product `d_{k+1} d_k` can be formed whenever it fits in memory.
pub proof fn lemma_consistent_d_squared_defined(complex: &SimplicialComplex, k: int)
    requires
        complex.dims_consistent(),
        complex.num(k + 2) * complex.num(k) <= usize::MAX,
    ensures
        d_squared_defined(complex, k),
{
    if !complex.d(k).is_empty() && !complex.d(k + 1).is_empty() {
        assert(complex.boundary_matrices@[k].cols == complex.num(k + 1));
        assert(complex.boundary_matrices@[k].rows == complex.num(k));
        assert(complex.boundary_matrices@[k + 1].rows == complex.num(k + 1));
        assert(complex.boundary_matrices@[k + 1].cols == complex.num(k + 2));
    }
}

/// d² = 0 makes exact forms closed: on a complex whose boundaries compose
/// to zero, `d_k (d_{k-1} α) = 0` for every (k-1)-cochain α with integer
/// coefficients.
pub proof fn lemma_exact_forms_closed(complex: &SimplicialComplex, k: int, alpha: Seq<int>)
    requires
        complex.dims_consistent(),
        complex.is_chain_complex(),
        k >= 1,
        alpha.len() == complex.d(k - 1).cols,
        complex.d(k - 1).rows == complex.d(k).cols,
    ensures
        forall|i: int|
            0 <= i < complex.d(k).rows ==> #[trigger] complex.d(k).apply(complex.d(k - 1).apply(alpha))[i] == 0,
{
    let dk = complex.d(k);
    let dp = complex.d(k - 1);
    let v = dp.apply(alpha);
    if dk.is_empty() {
        assert(dk.rows == 0 || dk.cols == 0) by (nonlinear_arith)
            requires
                dk.rows * dk.cols == 0,
        ;
        assert(dk.is_zero());
        lemma_apply_zero(dk, v);
    } else if dp.is_empty() {
        assert(dp.rows == 0 || dp.cols == 0) by (nonlinear_arith)
            requires
                dp.rows * dp.cols == 0,
        ;
        assert(dp.is_zero());
        lemma_apply_zero(dp, alpha);
        lemma_apply_to_zero(dk, v);
    } else {
        lemma_chain_complex_d_squared(complex, k - 1);
        lemma_apply_times(dk, dp, alpha);
        lemma_apply_zero(dk.times(dp), alpha);
    }
}

/// The exterior derivative is additive: `d_k (x + y) = d_k x + d_k y` for
/// k-cochains x and y with integer coefficients.
pub proof fn lemma_exterior_derivative_additive(
    complex: &SimplicialComplex,
    k: int,
    x: Seq<int>,
    y: Seq<int>,
    sum: Seq<int>,
)
    requires
        x.len() == complex.d(k).cols,
        y.len() == x.len(),
        sum.len() == x.len(),
        forall|j: int| 0 <= j < x.len() ==> #[trigger] sum[j] == x[j] + y[j],
    ensures
        forall|i: int|
            0 <= i < complex.d(k).rows ==> #[trigger] complex.d(k).apply(sum)[i] == complex.d(k).apply(x)[i]
                + complex.d(k).apply(y)[i],
{
    lemma_apply_add(complex.d(k), x, y, sum);
}

/// The full de Rham complex of a simplicial complex.
pub struct DeRhamComplex<'a> {
    pub complex: &'a SimplicialComplex,
}

/// Drop the rank of an empty map: an empty matrix has rank zero.
pub open spec fn effective_rank(m: Mat, rank: int) -> int {
    if m.is_empty() {
        0
    } else {
        rank
    }
}

/// dim H^k = dim Ω^k - rank(d_k) - rank(d_{k-1}), from the ranks of the
/// two maps (zero when there are no k-simplices).
pub open spec fn cohomology_from_ranks(complex: &SimplicialComplex, k: int, rank_dk: int, rank_d_prev: int) -> int {
    let n = complex.num(k);
    if n == 0 {
        0
    } else {
        n - effective_rank(complex.d(k), rank_dk) - (if k == 0 {
            0
        } else {
            effective_rank(complex.d(k - 1), rank_d_prev)
        })
    }
}

impl<'a> DeRhamComplex<'a> {
    pub fn new(complex: &'a SimplicialComplex) -> (r: Self)
        ensures
            r.complex == complex,
    {
        Self { complex }
    }

    /// The exterior derivative matrix at degree k.
    pub fn d(&self, k: usize) -> (m: BoundaryMatrix)
        requires
            self.complex.matrices_wf(),
        ensures
            m.wf(),
            m.mat().same(self.complex.d(k as int)),
    {
        self.complex.exterior_derivative_matrix(k)
    }

    /// Verify the cochain complex property `d_{k+1} * d_k = 0` for every
    /// `k < dimension`, exactly.
    pub fn verify_complex(&self) -> (r: Vec<(usize, bool)>)
        requires
            self.complex.matrices_wf(),
            forall|k: int| 0 <= k < self.complex.dimension ==> #[trigger] d_squared_defined(self.complex, k),
        ensures
            r@.len() == self.complex.dimension,
            forall|k: int|
                0 <= k < self.complex.dimension ==> #[trigger] r@[k] == (k as usize, d_squared_holds(self.complex, k)),
    {
        let n = self.complex.dimension;
        let mut r: Vec<(usize, bool)> = Vec::new();
        let mut k: usize = 0;
        while k < n
            invariant
                k <= n,
                n == self.complex.dimension,
                self.complex.matrices_wf(),
                forall|j: int| 0 <= j < self.complex.dimension ==> #[trigger] d_squared_defined(self.complex, j),
                r@.len() == k,
                forall|j: int| 0 <= j < k ==> #[trigger] r@[j] == (j as usize, d_squared_holds(self.complex, j)),
            decreases n - k,
        {
            assert(d_squared_defined(self.complex, k as int));
            let ok = verify_d_squared_matrix(self.complex, k);
            r.push((k, ok));
            k = k + 1;
        }
        r
    }

    /// The rank of d_k, computed exactly (`None` when the elimination needs
    /// values beyond `i128`).
    pub fn rank_of_d(&self, k: usize) -> (r: Option<usize>)
        requires
            self.complex.matrices_wf(),
        ensures
            match r {
                Some(v) => has_rank(self.complex.d(k as int), v as nat),
                None => true,
            },
    {
        let dk = self.d(k);
        let r = rank(&dk);
        proof {
            if let Some(v) = r {
                lemma_has_rank_same(dk.mat(), self.complex.d(k as int), v as nat);
            }
        }
        r
    }

    /// The k-th cohomology dimension dim H^k = dim Ω^k - rank(d_k) -
    /// rank(d_{k-1}), with both ranks computed exactly.  `None` when a rank
    /// needs values beyond `i128`, or when the two ranks exceed n_k (which a
    /// chain complex rules out).
    pub fn cohomology_dimension(&self, k: usize) -> (h: Option<usize>)
        requires
            self.complex.matrices_wf(),
        ensures
            match h {
                Some(v) => exists|rk: nat, rp: nat|
                    #![trigger has_rank(self.complex.d(k as int), rk), has_rank(self.complex.d(k - 1), rp)]
                    has_rank(self.complex.d(k as int), rk) && has_rank(self.complex.d(k - 1), rp) && v
                        == cohomology_from_ranks(self.complex, k as int, rk as int, rp as int),
                None => true,
            },
    {
        let rk = match self.rank_of_d(k) {
            Some(v) => v,
            None => {
                return None;
            },
        };
        let rp = if k == 0 {
            proof {
                self.complex.lemma_d_outside_is_empty(-1);
                lemma_empty_has_rank(self.complex.d(-1));
            }
            0
        } else {
            match self.rank_of_d(k - 1) {
                Some(v) => v,
                None => {
                    return None;
                },
            }
        };
        cohomology_checked(self, k, rk, rp)
    }

    /// The k-th cohomology dimension dim H^k = dim Ω^k - rank(d_k) -
    /// rank(d_{k-1}), given the ranks of d_k and d_{k-1} (an empty map
    /// counts as rank zero, whatever rank is passed for it).
    pub fn cohomology_dimension_with_ranks(&self, k: usize, rank_dk: usize, rank_d_prev: usize) -> (h: usize)
        requires
            self.complex.matrices_wf(),
            self.complex.num(k as int) != 0 ==> effective_rank(self.complex.d(k as int), rank_dk as int) + (if k
                == 0 {
                0
            } else {
                effective_rank(self.complex.d(k - 1), rank_d_prev as int)
            }) <= self.complex.num(k as int),
        ensures
            h == cohomology_from_ranks(self.complex, k as int, rank_dk as int, rank_d_prev as int),
    {
        let dim_k = self.complex.num_simplices(k);
        if dim_k == 0 {
            return 0;
        }
        let dk = self.d(k);
        let r_k = if dk.is_empty() {
            0
        } else {
            rank_dk
        };
        let r_prev = if k == 0 {
            0
        } else {
            let d_prev = self.d(k - 1);
            if d_prev.is_empty() {
                0
            } else {
                rank_d_prev
            }
        };
        dim_k - r_k - r_prev
    }
}

/// dim H^k from the two given ranks, or `None` when they exceed n_k.
pub fn cohomology_checked(drc: &DeRhamComplex, k: usize, rank_dk: usize, rank_d_prev: usize) -> (h: Option<usize>)
    requires
        drc.complex.matrices_wf(),
    ensures
        match h {
            Some(v) => v == cohomology_from_ranks(drc.complex, k as int, rank_dk as int, rank_d_prev as int),
            None => true,
        },
{
    let nk = drc.complex.num_simplices(k);
    if nk == 0 {
        return Some(0);
    }
    let ek = if drc.d(k).is_empty() {
        0
    } else {
        rank_dk
    };
    let ep = if k == 0 {
        0
    } else if drc.d(k - 1).is_empty() {
        0
    } else {
        rank_d_prev
    };
    match ek.checked_add(ep) {
        Some(total) => {
            if total > nk {
                None
            } else {
                Some(drc.cohomology_dimension_with_ranks(k, rank_dk, rank_d_prev))
            }
        },
        None => None,
    }
}

} // verus!
