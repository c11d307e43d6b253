//! Hodge Laplacian: Δ = dδ + δd.
//!
//! Δ_k = d_{k-1} δ_k + δ_{k+1} d_k = d_{k-1} d_{k-1}^T + d_k^T d_k.  It is
//! symmetric and positive semi-definite; its kernel consists exactly of
//! the harmonic forms.

use vstd::prelude::*;
use crate::forms::SimplicialComplex;
use crate::hodge_star::{codifferential_matrix, delta};
use crate::rank::{has_nullity, lemma_has_nullity_same, nullity};
use crate::matrix::{
    inner, lemma_adjoint, lemma_apply_add, lemma_apply_plus, lemma_apply_same, lemma_apply_times, lemma_apply_to_zero,
    lemma_apply_zero, lemma_empty_apply, lemma_gram_symmetric, lemma_inner_comm, lemma_inner_plus,
    lemma_inner_self_nonneg, lemma_inner_self_zero, lemma_inner_zero, lemma_times_same, lemma_transpose_transpose,
    term_bound, vanishes, IntMatrix, Mat,
};

verus! {

/// The term d_{k-1} δ_k of the Laplacian (a zero matrix when d_{k-1} is
/// empty or k is zero).
pub open spec fn laplacian_down(complex: &SimplicialComplex, k: int) -> Mat {
    let nk = complex.num(k);
    if k > 0 && !complex.d(k - 1).is_empty() {
        complex.d(k - 1).times(delta(complex, k))
    } else {
        Mat::zeros(nk, nk)
    }
}

/// The term δ_{k+1} d_k of the Laplacian (a zero matrix when d_k is empty).
pub open spec fn laplacian_up(complex: &SimplicialComplex, k: int) -> Mat {
    let nk = complex.num(k);
    if !complex.d(k).is_empty() {
        delta(complex, k + 1).times(complex.d(k))
    } else {
        Mat::zeros(nk, nk)
    }
}

/// The Hodge Laplacian Δ_k = d_{k-1} δ_k + δ_{k+1} d_k, the empty matrix
/// when there are no k-simplices.
pub open spec fn laplacian(complex: &SimplicialComplex, k: int) -> Mat {
    if complex.num(k) == 0 {
        Mat::zeros(0, 0)
    } else {
        laplacian_down(complex, k).plus(laplacian_up(complex, k))
    }
}

/// The maps around degree k chain: d_{k-1} lands in, and d_k starts from,
/// the n_k k-cochains, so both terms of Δ_k are `n_k x n_k`.
pub open spec fn laplacian_shapes(complex: &SimplicialComplex, k: int) -> bool {
    let nk = complex.num(k);
    nk != 0 ==> {
        &&& (k > 0 && !complex.d(k - 1).is_empty()) ==> complex.d(k - 1).rows == nk
        &&& !complex.d(k).is_empty() ==> complex.d(k).cols == nk
    }
}

/// The two terms of Δ_k are `n_k x n_k` matrices that fit in memory.
pub open spec fn laplacian_defined(complex: &SimplicialComplex, k: int) -> bool {
    &&& laplacian_shapes(complex, k)
    &&& complex.num(k) != 0 ==> complex.num(k) * complex.num(k) <= usize::MAX
}

/// Whether Δ_k can be formed (see [`laplacian_defined`]).
pub fn laplacian_is_defined(complex: &SimplicialComplex, k: usize) -> (b: bool)
    requires
        complex.matrices_wf(),
    ensures
        b == laplacian_defined(complex, k as int),
{
    let nk = complex.num_simplices(k);
    if nk == 0 {
        return true;
    }
    if k > 0 {
        let dm = complex.exterior_derivative_matrix(k - 1);
        if !dm.is_empty() && dm.rows != nk {
            return false;
        }
    }
    let dk = complex.exterior_derivative_matrix(k);
    if !dk.is_empty() && dk.cols != nk {
        return false;
    }
    nk.checked_mul(nk).is_some()
}

/// Build the Hodge Laplacian matrix Δ_k for k-forms.
pub fn hodge_laplacian_matrix(complex: &SimplicialComplex, k: usize) -> (m: IntMatrix)
    requires
        complex.matrices_wf(),
        laplacian_defined(complex, k as int),
    ensures
        m.wf(),
        m.rows == m.cols,
        m.rows == complex.num(k as int),
        m.mat().same(laplacian(complex, k as int)),
{
    let nk = complex.num_simplices(k);
    if nk == 0 {
        return IntMatrix::zeros(0, 0);
    }
    let ghost bound = usize::MAX * term_bound();
    // d_{k-1} δ_k
    let down = if k > 0 {
        let dm = complex.exterior_derivative_matrix(k - 1);
        if dm.is_empty() {
            IntMatrix::zeros(nk, nk)
        } else {
            proof {
                assert(complex.d(k - 1).cols * complex.d(k - 1).rows <= usize::MAX) by (nonlinear_arith)
                    requires
                        dm.mat().same(complex.d(k - 1)),
                        dm.wf(),
                ;
            }
            let delta_k = codifferential_matrix(complex, k);
            let p = dm.product(&delta_k);
            proof {
                lemma_times_same(dm.mat(), complex.d(k - 1), delta_k.mat(), delta(complex, k as int));
                assert(dm.cols * term_bound() <= bound) by (nonlinear_arith)
                    requires
                        dm.cols <= usize::MAX,
                        bound == usize::MAX * term_bound(),
                ;
            }
            p
        }
    } else {
        IntMatrix::zeros(nk, nk)
    };
    // δ_{k+1} d_k
    let dk = complex.exterior_derivative_matrix(k);
    let up = if dk.is_empty() {
        IntMatrix::zeros(nk, nk)
    } else {
        proof {
            assert(complex.d(k as int).rows * complex.d(k as int).cols <= usize::MAX);
        }
        let delta_next = codifferential_matrix(complex, k + 1);
        let p = delta_next.product(&dk);
        proof {
            lemma_times_same(delta_next.mat(), delta(complex, k + 1), dk.mat(), complex.d(k as int));
            assert(delta_next.cols * term_bound() <= bound) by (nonlinear_arith)
                requires
                    delta_next.cols <= usize::MAX,
                    bound == usize::MAX * term_bound(),
            ;
        }
        p
    };
    proof {
        assert(bound + bound <= i128::MAX);
    }
    let m = down.plus(&up, Ghost(bound), Ghost(bound));
    m
}

/// A matrix that agrees in range with a symmetric matrix is symmetric.
proof fn lemma_same_symmetric(a: Mat, b: Mat)
    requires
        a.same(b),
        b.is_symmetric(),
    ensures
        a.is_symmetric(),
{
    assert forall|i: int, j: int| 0 <= i < a.rows && 0 <= j < a.cols implies #[trigger] a.entry(i, j) == a.entry(
        j,
        i,
    ) by {
        assert(a.entry(i, j) == b.entry(i, j));
        assert(a.entry(j, i) == b.entry(j, i));
        assert(b.entry(i, j) == b.entry(j, i));
    }
}

/// The Hodge Laplacian is symmetric.
pub proof fn lemma_laplacian_symmetric(complex: &SimplicialComplex, k: int)
    requires
        laplacian_shapes(complex, k),
    ensures
        laplacian(complex, k).is_symmetric(),
{
    let nk = complex.num(k);
    if nk != 0 {
        let down = laplacian_down(complex, k);
        let up = laplacian_up(complex, k);
        if k > 0 && !complex.d(k - 1).is_empty() {
            lemma_gram_symmetric(complex.d(k - 1));
        }
        if !complex.d(k).is_empty() {
            let e = complex.d(k);
            let et = e.transpose();
            lemma_gram_symmetric(et);
            lemma_transpose_transpose(e);
            lemma_times_same(et, et, et.transpose(), e);
            lemma_same_symmetric(up, et.times(et.transpose()));
        }
        assert(down.is_symmetric());
        assert(up.is_symmetric());
        let l = down.plus(up);
        assert forall|i: int, j: int| 0 <= i < l.rows && 0 <= j < l.cols implies #[trigger] l.entry(i, j)
            == l.entry(j, i) by {
            assert(down.entry(i, j) == down.entry(j, i));
            assert(up.entry(i, j) == up.entry(j, i));
        }
    }
}

/// The Hodge Laplacian is positive semi-definite: `<x, Δ_k x> >= 0` for
/// every k-cochain x with integer coefficients, since
/// `<x, Δ_k x> = |d_k x|² + |δ_k x|²`.
pub proof fn lemma_laplacian_psd(complex: &SimplicialComplex, k: int, x: Seq<int>)
    requires
        complex.dims_consistent(),
        x.len() == complex.num(k),
    ensures
        inner(x, laplacian(complex, k).apply(x)) >= 0,
{
    lemma_consistent_laplacian_shapes(complex, k);
    lemma_laplacian_energy(complex, k, x);
    lemma_inner_self_nonneg(complex.d(k).apply(x));
    lemma_inner_self_nonneg(delta(complex, k).apply(x));
}

/// The Dirichlet energy of a k-cochain with integer coefficients:
/// `<x, Δ_k x> = |d_k x|² + |δ_k x|²`.
pub proof fn lemma_laplacian_energy(complex: &SimplicialComplex, k: int, x: Seq<int>)
    requires
        complex.dims_consistent(),
        x.len() == complex.num(k),
    ensures
        inner(x, laplacian(complex, k).apply(x)) == inner(complex.d(k).apply(x), complex.d(k).apply(x)) + inner(
            delta(complex, k).apply(x),
            delta(complex, k).apply(x),
        ),
{
    lemma_consistent_laplacian_shapes(complex, k);
    let nk = complex.num(k);
    let dx = complex.d(k).apply(x);
    let sx = delta(complex, k).apply(x);
    if !complex.d(k).is_empty() {
        assert(complex.boundary_matrices@[k].rows == complex.num(k));
    }
    if k > 0 && !complex.d(k - 1).is_empty() {
        assert(complex.boundary_matrices@[k - 1].cols == complex.num(k));
    }
    if nk == 0 {
        complex.lemma_d_outside_is_empty(k - 1);
        complex.lemma_d_empty_when_flat(k - 1);
        lemma_inner_zero(x, laplacian(complex, k).apply(x));
        lemma_empty_apply(complex.d(k), x);
        lemma_inner_zero(dx, dx);
        if k > 0 && !complex.d(k - 1).is_empty() {
            assert(false);
        }
        lemma_apply_zero(delta(complex, k), x);
        lemma_inner_zero(sx, sx);
    } else {
        let down = laplacian_down(complex, k);
        let up = laplacian_up(complex, k);
        let lx = laplacian(complex, k).apply(x);
        let downx = down.apply(x);
        let upx = up.apply(x);
        lemma_apply_plus(down, up, x);
        lemma_inner_plus(x, downx, upx, lx);
        // <x, d_{k-1} δ_k x> = |δ_k x|^2
        if k > 0 && !complex.d(k - 1).is_empty() {
            let d = complex.d(k - 1);
            let dt = d.transpose();
            lemma_apply_times(d, dt, x);
            lemma_inner_comm(x, downx);
            lemma_adjoint(d, sx, x);
        } else {
            lemma_apply_zero(down, x);
            lemma_inner_zero(x, downx);
            lemma_apply_zero(delta(complex, k), x);
            lemma_inner_zero(sx, sx);
        }
        // <x, δ_{k+1} d_k x> = |d_k x|^2
        if !complex.d(k).is_empty() {
            let e = complex.d(k);
            let et = e.transpose();
            lemma_apply_times(et, e, x);
            lemma_inner_comm(x, upx);
            lemma_adjoint(et, dx, x);
            lemma_transpose_transpose(e);
            lemma_apply_same(et.transpose(), e, x);
        } else {
            lemma_apply_zero(up, x);
            lemma_inner_zero(x, upx);
            lemma_empty_apply(complex.d(k), x);
            lemma_inner_zero(dx, dx);
        }
    }
}

/// A k-cochain is harmonic (`Δ_k x = 0`) exactly when it is both closed
/// (`d_k x = 0`) and coclosed (`δ_k x = 0`).
pub proof fn lemma_harmonic_iff_closed_and_coclosed(complex: &SimplicialComplex, k: int, x: Seq<int>)
    requires
        complex.dims_consistent(),
        x.len() == complex.num(k),
    ensures
        vanishes(laplacian(complex, k).apply(x)) <==> (vanishes(complex.d(k).apply(x)) && vanishes(
            delta(complex, k).apply(x),
        )),
{
    lemma_consistent_laplacian_shapes(complex, k);
    let nk = complex.num(k);
    let dx = complex.d(k).apply(x);
    let sx = delta(complex, k).apply(x);
    let lx = laplacian(complex, k).apply(x);
    lemma_laplacian_energy(complex, k, x);
    lemma_inner_self_nonneg(dx);
    lemma_inner_self_nonneg(sx);
    if vanishes(lx) {
        lemma_inner_zero(x, lx);
        lemma_inner_self_zero(dx);
        lemma_inner_self_zero(sx);
    }
    if vanishes(dx) && vanishes(sx) && nk != 0 {
        let down = laplacian_down(complex, k);
        let up = laplacian_up(complex, k);
        lemma_apply_plus(down, up, x);
        if k > 0 && !complex.d(k - 1).is_empty() {
            lemma_apply_times(complex.d(k - 1), delta(complex, k), x);
            lemma_apply_to_zero(complex.d(k - 1), sx);
        } else {
            lemma_apply_zero(down, x);
        }
        if !complex.d(k).is_empty() {
            lemma_apply_times(delta(complex, k + 1), complex.d(k), x);
            lemma_apply_to_zero(delta(complex, k + 1), dx);
        } else {
            lemma_apply_zero(up, x);
        }
        assert forall|i: int| 0 <= i < lx.len() implies #[trigger] lx[i] == 0 by {
            assert(down.apply(x)[i] == 0);
            assert(up.apply(x)[i] == 0);
        }
    }
}

/// On a complex whose boundary shapes match its simplex counts, the maps
/// around every degree chain.
pub proof fn lemma_consistent_laplacian_shapes(complex: &SimplicialComplex, k: int)
    requires
        complex.dims_consistent(),
    ensures
        laplacian_shapes(complex, k),
{
    if k > 0 && !complex.d(k - 1).is_empty() {
        assert(complex.boundary_matrices@[k - 1].cols == complex.num(k));
    }
    if !complex.d(k).is_empty() {
        assert(complex.boundary_matrices@[k].rows == complex.num(k));
    }
}

/// On a complex whose boundary shapes match its simplex counts, the
/// Laplacian is defined at every degree whose square matrix fits in memory.
pub proof fn lemma_consistent_laplacian_defined(complex: &SimplicialComplex, k: int)
    requires
        complex.dims_consistent(),
        complex.num(k) * complex.num(k) <= usize::MAX,
    ensures
        laplacian_defined(complex, k),
{
    lemma_consistent_laplacian_shapes(complex, k);
}

/// The Hodge Laplacian is additive: `Δ_k (x + y) = Δ_k x + Δ_k y` for
/// k-cochains x and y with integer coefficients.
pub proof fn lemma_laplacian_additive(complex: &SimplicialComplex, k: int, x: Seq<int>, y: Seq<int>, sum: Seq<int>)
    requires
        x.len() == laplacian(complex, k).cols,
        y.len() == x.len(),
        sum.len() == x.len(),
        forall|j: int| 0 <= j < x.len() ==> #[trigger] sum[j] == x[j] + y[j],
    ensures
        forall|i: int|
            0 <= i < laplacian(complex, k).rows ==> #[trigger] laplacian(complex, k).apply(sum)[i] == laplacian(
                complex,
                k,
            ).apply(x)[i] + laplacian(complex, k).apply(y)[i],
{
    lemma_apply_add(laplacian(complex, k), x, y, sum);
}

/// dim ker Δ_k, the number of independent harmonic k-cochains, computed
/// exactly.  `None` when Δ_k cannot be formed or the computation needs
/// values beyond `i128`.
pub fn harmonic_dimension(complex: &SimplicialComplex, k: usize) -> (r: Option<usize>)
    requires
        complex.matrices_wf(),
    ensures
        match r {
            Some(t) => has_nullity(laplacian(complex, k as int), t as nat),
            None => true,
        },
{
    if !laplacian_is_defined(complex, k) {
        return None;
    }
    let lap = hodge_laplacian_matrix(complex, k);
    let r = nullity(&lap);
    proof {
        if let Some(t) = r {
            lemma_has_nullity_same(lap.mat(), laplacian(complex, k as int), t as nat);
        }
    }
    r
}

} // verus!
