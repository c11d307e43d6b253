//! Hodge decomposition: Ω^k = im d_{k-1} ⊕ im δ_{k+1} ⊕ ker Δ_k.
//!
//! Every k-form splits as ω = dα + δβ + h, exact plus coexact plus
//! harmonic.  The projections onto the three parts are computed in
//! floating point; what is proved here, over cochains with integer
//! coefficients, is the theorem they rest on: the decomposition exists
//! (up to a positive integer scale, as the parts of an integer cochain are
//! rational), the three subspaces are mutually orthogonal, the energy of a
//! form is the sum of the energies of its parts, and the parts are unique.
//! The harmonic cochains are the orthogonal complement of the exact and
//! coexact ones, and each cohomology class of closed cochains has exactly
//! one harmonic representative (H^k ≅ ker Δ_k).

use vstd::prelude::*;
use crate::complex::lemma_exact_forms_closed;
use crate::forms::SimplicialComplex;
use crate::hodge_star::delta;
use crate::laplacian::{
    laplacian, laplacian_down, laplacian_up, lemma_consistent_laplacian_shapes,
    lemma_harmonic_iff_closed_and_coclosed,
};
use crate::matrix::{
    column, first_columns, inner, lemma_adjoint, lemma_apply_add, lemma_apply_lin, lemma_apply_plus,
    lemma_apply_same, lemma_apply_sub, lemma_apply_times, lemma_apply_to_zero, lemma_apply_zero,
    lemma_empty_apply, lemma_inner_comm, lemma_inner_self_zero, lemma_inner_sum3, lemma_inner_zero,
    lemma_inner_zero_left, lemma_orthogonal_split, lemma_sum_ext, lemma_sum_split, lemma_transpose_transpose,
    vanishes, Mat,
};

verus! {

/// Whether the complex has the map d_k: k is below the dimension and
/// ∂_{k+1} is stored.
pub open spec fn has_d(complex: &SimplicialComplex, k: int) -> bool {
    0 <= k < complex.dimension && k < complex.boundary_matrices@.len()
}

/// The exact k-cochain d_{k-1} α, with n_k entries (the zero cochain when
/// there is no d_{k-1}, as at degree zero).
pub open spec fn exact_part(complex: &SimplicialComplex, k: int, alpha: Seq<int>) -> Seq<int> {
    if has_d(complex, k - 1) {
        complex.d(k - 1).apply(alpha)
    } else {
        Seq::new(complex.num(k), |i: int| 0)
    }
}

/// The coexact k-cochain δ_{k+1} β.
pub open spec fn coexact_part(complex: &SimplicialComplex, k: int, beta: Seq<int>) -> Seq<int> {
    delta(complex, k + 1).apply(beta)
}

/// `h` is a harmonic k-cochain: Δ_k h = 0.
pub open spec fn is_harmonic(complex: &SimplicialComplex, k: int, h: Seq<int>) -> bool {
    &&& h.len() == complex.num(k)
    &&& vanishes(laplacian(complex, k).apply(h))
}

/// The exact and coexact parts are k-cochains: they have n_k entries.
pub proof fn lemma_parts_len(complex: &SimplicialComplex, k: int, alpha: Seq<int>, beta: Seq<int>)
    requires
        complex.dims_consistent(),
        0 <= k,
    ensures
        exact_part(complex, k, alpha).len() == complex.num(k),
        coexact_part(complex, k, beta).len() == complex.num(k),
{
    if has_d(complex, k - 1) {
        assert(complex.boundary_matrices@[k - 1].cols == complex.num(k));
    }
    if !complex.d(k).is_empty() {
        assert(complex.boundary_matrices@[k].rows == complex.num(k));
    }
}

/// Exact and coexact k-cochains are orthogonal: `<d_{k-1} α, δ_{k+1} β> = 0`,
/// because `<d_{k-1} α, d_k^T β> = <d_k d_{k-1} α, β>` and d² = 0.
pub proof fn lemma_exact_coexact_orthogonal(complex: &SimplicialComplex, k: int, alpha: Seq<int>, beta: Seq<int>)
    requires
        complex.dims_consistent(),
        complex.is_chain_complex(),
        0 <= k,
        alpha.len() == complex.num(k - 1),
        beta.len() == complex.num(k + 1),
    ensures
        inner(exact_part(complex, k, alpha), coexact_part(complex, k, beta)) == 0,
{
    let e = exact_part(complex, k, alpha);
    let c = coexact_part(complex, k, beta);
    if !has_d(complex, k - 1) {
        lemma_inner_zero_left(e, c);
    } else {
        assert(complex.boundary_matrices@[k - 1].rows == complex.num(k - 1));
        assert(complex.boundary_matrices@[k - 1].cols == complex.num(k));
        if complex.d(k).is_empty() {
            lemma_apply_zero(delta(complex, k + 1), beta);
            lemma_inner_zero(e, c);
        } else {
            let dk = complex.d(k);
            assert(complex.boundary_matrices@[k].rows == complex.num(k));
            assert(complex.boundary_matrices@[k].cols == complex.num(k + 1));
            lemma_exact_forms_closed(complex, k, alpha);
            lemma_adjoint(dk, e, beta);
            lemma_inner_comm(dk.apply(e), beta);
            lemma_inner_zero(beta, dk.apply(e));
        }
    }
}

/// Exact and harmonic k-cochains are orthogonal: `<d_{k-1} α, h> =
/// <α, δ_k h> = 0`, since a harmonic cochain is coclosed.
pub proof fn lemma_exact_harmonic_orthogonal(complex: &SimplicialComplex, k: int, alpha: Seq<int>, h: Seq<int>)
    requires
        complex.dims_consistent(),
        0 <= k,
        alpha.len() == complex.num(k - 1),
        is_harmonic(complex, k, h),
    ensures
        inner(exact_part(complex, k, alpha), h) == 0,
{
    lemma_consistent_laplacian_shapes(complex, k);
    let e = exact_part(complex, k, alpha);
    lemma_harmonic_iff_closed_and_coclosed(complex, k, h);
    if !has_d(complex, k - 1) {
        lemma_inner_zero_left(e, h);
    } else {
        let d = complex.d(k - 1);
        assert(complex.boundary_matrices@[k - 1].rows == complex.num(k - 1));
        assert(complex.boundary_matrices@[k - 1].cols == complex.num(k));
        if d.is_empty() {
            lemma_empty_apply(d, alpha);
            lemma_inner_zero_left(e, h);
        } else {
            lemma_adjoint(d, alpha, h);
            lemma_inner_zero(alpha, delta(complex, k).apply(h));
        }
    }
}

/// Coexact and harmonic k-cochains are orthogonal: `<δ_{k+1} β, h> =
/// <β, d_k h> = 0`, since a harmonic cochain is closed.
pub proof fn lemma_coexact_harmonic_orthogonal(complex: &SimplicialComplex, k: int, beta: Seq<int>, h: Seq<int>)
    requires
        complex.dims_consistent(),
        0 <= k,
        beta.len() == complex.num(k + 1),
        is_harmonic(complex, k, h),
    ensures
        inner(coexact_part(complex, k, beta), h) == 0,
{
    lemma_consistent_laplacian_shapes(complex, k);
    let c = coexact_part(complex, k, beta);
    lemma_harmonic_iff_closed_and_coclosed(complex, k, h);
    let dk = complex.d(k);
    if dk.is_empty() {
        lemma_apply_zero(delta(complex, k + 1), beta);
        lemma_inner_zero_left(c, h);
    } else {
        assert(complex.boundary_matrices@[k].rows == complex.num(k));
        assert(complex.boundary_matrices@[k].cols == complex.num(k + 1));
        let dkt = dk.transpose();
        lemma_adjoint(dkt, beta, h);
        lemma_transpose_transpose(dk);
        lemma_apply_same(dkt.transpose(), dk, h);
        lemma_inner_zero(beta, dk.apply(h));
    }
}

/// δ² = 0: coexact cochains are coclosed, `δ_k δ_{k+1} β = 0`.  With
/// `g = δ_k δ_{k+1} β`, `|g|² = <d_{k-1} g, δ_{k+1} β> = 0`.
pub proof fn lemma_coexact_forms_coclosed(complex: &SimplicialComplex, k: int, beta: Seq<int>)
    requires
        complex.dims_consistent(),
        complex.is_chain_complex(),
        0 <= k,
        beta.len() == complex.num(k + 1),
    ensures
        vanishes(delta(complex, k).apply(coexact_part(complex, k, beta))),
{
    let c = coexact_part(complex, k, beta);
    let g = delta(complex, k).apply(c);
    lemma_parts_len(complex, k, beta, beta);
    if k == 0 || complex.d(k - 1).is_empty() {
        lemma_apply_zero(delta(complex, k), c);
    } else {
        let d = complex.d(k - 1);
        assert(complex.boundary_matrices@[k - 1].rows == complex.num(k - 1));
        assert(complex.boundary_matrices@[k - 1].cols == complex.num(k));
        lemma_exact_coexact_orthogonal(complex, k, g, beta);
        lemma_adjoint(d, g, c);
        lemma_inner_self_zero(g);
    }
}

/// Energy conservation: for ω = dα + δβ + h with h harmonic,
/// `||ω||² = ||dα||² + ||δβ||² + ||h||²`.
pub proof fn lemma_energy_conservation(
    complex: &SimplicialComplex,
    k: int,
    alpha: Seq<int>,
    beta: Seq<int>,
    h: Seq<int>,
    omega: Seq<int>,
)
    requires
        complex.dims_consistent(),
        complex.is_chain_complex(),
        0 <= k,
        alpha.len() == complex.num(k - 1),
        beta.len() == complex.num(k + 1),
        is_harmonic(complex, k, h),
        omega.len() == complex.num(k),
        forall|i: int|
            0 <= i < omega.len() ==> #[trigger] omega[i] == exact_part(complex, k, alpha)[i] + coexact_part(
                complex,
                k,
                beta,
            )[i] + h[i],
    ensures
        inner(omega, omega) == inner(exact_part(complex, k, alpha), exact_part(complex, k, alpha)) + inner(
            coexact_part(complex, k, beta),
            coexact_part(complex, k, beta),
        ) + inner(h, h),
{
    lemma_consistent_laplacian_shapes(complex, k);
    let e = exact_part(complex, k, alpha);
    let c = coexact_part(complex, k, beta);
    lemma_parts_len(complex, k, alpha, beta);
    lemma_exact_coexact_orthogonal(complex, k, alpha, beta);
    lemma_exact_harmonic_orthogonal(complex, k, alpha, h);
    lemma_coexact_harmonic_orthogonal(complex, k, beta, h);
    lemma_inner_sum3(omega, e, c, h, omega);
    lemma_inner_comm(omega, e);
    lemma_inner_comm(omega, c);
    lemma_inner_comm(omega, h);
    lemma_inner_sum3(e, e, c, h, omega);
    lemma_inner_sum3(c, e, c, h, omega);
    lemma_inner_sum3(h, e, c, h, omega);
    lemma_inner_comm(c, e);
    lemma_inner_comm(h, e);
    lemma_inner_comm(h, c);
}

/// The Hodge decomposition is unique: if `dα + δβ + h = dα' + δβ' + h'`
/// with h and h' harmonic, then `dα = dα'`, `δβ = δβ'` and `h = h'`.
pub proof fn lemma_decomposition_unique(
    complex: &SimplicialComplex,
    k: int,
    alpha: Seq<int>,
    beta: Seq<int>,
    h: Seq<int>,
    alpha2: Seq<int>,
    beta2: Seq<int>,
    h2: Seq<int>,
)
    requires
        complex.dims_consistent(),
        complex.is_chain_complex(),
        0 <= k,
        alpha.len() == complex.num(k - 1),
        alpha2.len() == complex.num(k - 1),
        beta.len() == complex.num(k + 1),
        beta2.len() == complex.num(k + 1),
        is_harmonic(complex, k, h),
        is_harmonic(complex, k, h2),
        forall|i: int|
            0 <= i < complex.num(k) ==> exact_part(complex, k, alpha)[i] + coexact_part(complex, k, beta)[i]
                + h[i] == #[trigger] exact_part(complex, k, alpha2)[i] + coexact_part(complex, k, beta2)[i]
                + h2[i],
    ensures
        exact_part(complex, k, alpha) == exact_part(complex, k, alpha2),
        coexact_part(complex, k, beta) == coexact_part(complex, k, beta2),
        h == h2,
{
    lemma_consistent_laplacian_shapes(complex, k);
    let nk = complex.num(k);
    let e1 = exact_part(complex, k, alpha);
    let e2 = exact_part(complex, k, alpha2);
    let c1 = coexact_part(complex, k, beta);
    let c2 = coexact_part(complex, k, beta2);
    lemma_parts_len(complex, k, alpha, beta);
    lemma_parts_len(complex, k, alpha2, beta2);
    // the differences form another decomposition
    let a3 = Seq::new(alpha.len(), |i: int| alpha[i] - alpha2[i]);
    let b3 = Seq::new(beta.len(), |i: int| beta[i] - beta2[i]);
    let h3 = Seq::new(h.len(), |i: int| h[i] - h2[i]);
    let e3 = exact_part(complex, k, a3);
    let c3 = coexact_part(complex, k, b3);
    lemma_parts_len(complex, k, a3, b3);
    if has_d(complex, k - 1) {
        assert(complex.boundary_matrices@[k - 1].rows == complex.num(k - 1));
        assert(complex.boundary_matrices@[k - 1].cols == complex.num(k));
        lemma_apply_sub(complex.d(k - 1), alpha, alpha2, a3);
    }
    assert forall|i: int| 0 <= i < nk implies #[trigger] e3[i] == e1[i] - e2[i] by {
    }
    if !complex.d(k).is_empty() {
        assert(complex.boundary_matrices@[k].rows == complex.num(k));
        assert(complex.boundary_matrices@[k].cols == complex.num(k + 1));
    }
    lemma_apply_sub(delta(complex, k + 1), beta, beta2, b3);
    assert forall|i: int| 0 <= i < nk implies #[trigger] c3[i] == c1[i] - c2[i] by {
    }
    // h - h' is harmonic
    let lap = laplacian(complex, k);
    if k > 0 && !complex.d(k - 1).is_empty() {
        assert(complex.boundary_matrices@[k - 1].rows == complex.num(k - 1));
        assert(complex.boundary_matrices@[k - 1].cols == complex.num(k));
    }
    assert(lap.cols == nk);
    lemma_apply_sub(lap, h, h2, h3);
    assert forall|i: int| 0 <= i < lap.apply(h3).len() implies #[trigger] lap.apply(h3)[i] == 0 by {
        assert(lap.apply(h)[i] == 0);
        assert(lap.apply(h2)[i] == 0);
    }
    assert(is_harmonic(complex, k, h3));
    // the three differences sum to zero
    let s = Seq::new(nk, |i: int| e3[i] + c3[i] + h3[i]);
    assert forall|i: int| 0 <= i < nk implies #[trigger] s[i] == 0 by {
        assert(e1[i] + c1[i] + h[i] == e2[i] + c2[i] + h2[i]);
    }
    lemma_exact_coexact_orthogonal(complex, k, a3, b3);
    lemma_exact_harmonic_orthogonal(complex, k, a3, h3);
    lemma_coexact_harmonic_orthogonal(complex, k, b3, h3);
    lemma_inner_comm(c3, e3);
    lemma_inner_comm(h3, e3);
    lemma_inner_comm(h3, c3);
    lemma_inner_zero(e3, s);
    lemma_inner_zero(c3, s);
    lemma_inner_zero(h3, s);
    lemma_inner_sum3(e3, e3, c3, h3, s);
    lemma_inner_sum3(c3, e3, c3, h3, s);
    lemma_inner_sum3(h3, e3, c3, h3, s);
    lemma_inner_self_zero(e3);
    lemma_inner_self_zero(c3);
    lemma_inner_self_zero(h3);
    assert forall|i: int| 0 <= i < nk implies #[trigger] e1[i] == e2[i] by {
        assert(e3[i] == 0);
    }
    assert forall|i: int| 0 <= i < nk implies #[trigger] c1[i] == c2[i] by {
        assert(c3[i] == 0);
    }
    assert forall|i: int| 0 <= i < nk implies #[trigger] h[i] == h2[i] by {
        assert(h3[i] == 0);
    }
    assert(e1 =~= e2);
    assert(c1 =~= c2);
    assert(h =~= h2);
}

/// The Hodge identity: Δ_k acts as `d δ + δ d`, i.e.
/// `Δ_k x = d_{k-1}(δ_k x) + δ_{k+1}(d_k x)` for every k-cochain x.
pub proof fn lemma_hodge_identity(complex: &SimplicialComplex, k: int, x: Seq<int>)
    requires
        complex.dims_consistent(),
        0 <= k,
        x.len() == complex.num(k),
    ensures
        forall|i: int|
            0 <= i < complex.num(k) ==> #[trigger] laplacian(complex, k).apply(x)[i] == exact_part(
                complex,
                k,
                delta(complex, k).apply(x),
            )[i] + coexact_part(complex, k, complex.d(k).apply(x))[i],
{
    lemma_consistent_laplacian_shapes(complex, k);
    let nk = complex.num(k);
    if nk != 0 {
        let down = laplacian_down(complex, k);
        let up = laplacian_up(complex, k);
        let sx = delta(complex, k).apply(x);
        let dx = complex.d(k).apply(x);
        lemma_apply_plus(down, up, x);
        if k > 0 && !complex.d(k - 1).is_empty() {
            lemma_apply_times(complex.d(k - 1), delta(complex, k), x);
        } else {
            lemma_apply_zero(down, x);
            if has_d(complex, k - 1) {
                lemma_empty_apply(complex.d(k - 1), sx);
            }
        }
        if !complex.d(k).is_empty() {
            lemma_apply_times(delta(complex, k + 1), complex.d(k), x);
        } else {
            lemma_apply_zero(up, x);
            lemma_apply_zero(delta(complex, k + 1), dx);
        }
        if k > 0 && !complex.d(k - 1).is_empty() {
            assert(complex.boundary_matrices@[k - 1].cols == complex.num(k));
        }
        if has_d(complex, k - 1) {
            assert(complex.boundary_matrices@[k - 1].cols == complex.num(k));
        }
        if !complex.d(k).is_empty() {
            assert(complex.boundary_matrices@[k].rows == complex.num(k));
        }
        assert forall|i: int| 0 <= i < nk implies #[trigger] laplacian(complex, k).apply(x)[i] == exact_part(
            complex,
            k,
            sx,
        )[i] + coexact_part(complex, k, dx)[i] by {
            assert(laplacian(complex, k).apply(x)[i] == down.apply(x)[i] + up.apply(x)[i]);
        }
    }
}

/// The map from (k-1)-cochains to exact k-cochains as a matrix: d_{k-1},
/// or the zero `n_k x n_{k-1}` matrix when there is no d_{k-1}.
pub open spec fn exact_matrix(complex: &SimplicialComplex, k: int) -> Mat {
    if has_d(complex, k - 1) {
        complex.d(k - 1)
    } else {
        Mat::zeros(complex.num(k), complex.num(k - 1))
    }
}

/// The `n_k x (n_{k-1} + n_{k+1})` matrix whose columns span the exact and
/// the coexact k-cochains: those of d_{k-1}, then those of δ_{k+1}.
pub open spec fn generators(complex: &SimplicialComplex, k: int) -> Mat {
    let e = exact_matrix(complex, k);
    let c = delta(complex, k + 1);
    let p = complex.num(k - 1);
    Mat {
        rows: complex.num(k),
        cols: p + complex.num(k + 1),
        at: |i: int, j: int|
            if j < p {
                e.entry(i, j)
            } else {
                c.entry(i, j - p)
            },
    }
}

/// Existence of the Hodge decomposition, Ω^k = im d_{k-1} ⊕ im δ_{k+1} ⊕
/// ker Δ_k: every k-cochain ω with integer coefficients, scaled by some
/// positive integer s, splits as `s ω = d_{k-1} α + δ_{k+1} β + h` with h
/// harmonic.  The witnesses are returned as `(s, α, β, h)`.
pub proof fn lemma_decomposition_exists(complex: &SimplicialComplex, k: int, omega: Seq<int>) -> (res: (
    int,
    Seq<int>,
    Seq<int>,
    Seq<int>,
))
    requires
        complex.dims_consistent(),
        0 <= k,
        omega.len() == complex.num(k),
    ensures
        res.0 > 0,
        res.1.len() == complex.num(k - 1),
        res.2.len() == complex.num(k + 1),
        is_harmonic(complex, k, res.3),
        forall|i: int|
            0 <= i < complex.num(k) ==> res.0 * omega[i] == exact_part(complex, k, res.1)[i] + coexact_part(
                complex,
                k,
                res.2,
            )[i] + #[trigger] res.3[i],
{
    lemma_consistent_laplacian_shapes(complex, k);
    let nk = complex.num(k);
    let p = complex.num(k - 1);
    let q = complex.num(k + 1);
    let g = generators(complex, k);
    let e = exact_matrix(complex, k);
    let c = delta(complex, k + 1);
    if has_d(complex, k - 1) {
        assert(complex.boundary_matrices@[k - 1].rows == complex.num(k - 1));
        assert(complex.boundary_matrices@[k - 1].cols == complex.num(k));
    }
    if !complex.d(k).is_empty() {
        assert(complex.boundary_matrices@[k].rows == complex.num(k));
        assert(complex.boundary_matrices@[k].cols == complex.num(k + 1));
    }
    assert(e.rows == nk && e.cols == p);
    assert(c.rows == nk && c.cols == q);
    let (s, x, r) = lemma_orthogonal_split(g, p + q, omega);
    assert(first_columns(g, p + q) == g);
    let alpha = x.subrange(0, p as int);
    let beta = x.subrange(p as int, (p + q) as int);
    // s ω = d α + δ β + r
    if !has_d(complex, k - 1) {
        lemma_apply_zero(e, alpha);
    }
    assert forall|i: int| 0 <= i < nk implies s * omega[i] == exact_part(complex, k, alpha)[i] + coexact_part(
        complex,
        k,
        beta,
    )[i] + #[trigger] r[i] by {
        let f = g.row_vec(x, i);
        lemma_sum_split(p, q, f);
        assert forall|j: int| 0 <= j < p implies #[trigger] f(j) == e.row_vec(alpha, i)(j) by {
        }
        lemma_sum_ext(p, f, e.row_vec(alpha, i));
        let shifted = |l: int| f(l + p);
        assert forall|j: int| 0 <= j < q implies #[trigger] shifted(j) == c.row_vec(beta, i)(j) by {
        }
        lemma_sum_ext(q, shifted, c.row_vec(beta, i));
        assert(exact_part(complex, k, alpha)[i] == e.apply(alpha)[i]);
    }
    // r is orthogonal to every generator, hence coclosed and closed
    let sr = delta(complex, k).apply(r);
    let dr = complex.d(k).apply(r);
    if k > 0 && !complex.d(k - 1).is_empty() {
        let t = complex.d(k - 1).transpose();
        assert forall|j: int| 0 <= j < sr.len() implies #[trigger] sr[j] == 0 by {
            assert(inner(column(g, j), r) == 0);
            assert forall|i: int| 0 <= i < nk implies #[trigger] t.row_vec(r, j)(i) == column(g, j)[i] * r[i] by {
            }
            lemma_sum_ext(nk, t.row_vec(r, j), |i: int| column(g, j)[i] * r[i]);
        }
    } else {
        lemma_apply_zero(delta(complex, k), r);
    }
    if !complex.d(k).is_empty() {
        let d = complex.d(k);
        assert forall|j: int| 0 <= j < dr.len() implies #[trigger] dr[j] == 0 by {
            assert(inner(column(g, j + p), r) == 0);
            assert forall|i: int| 0 <= i < nk implies #[trigger] d.row_vec(r, j)(i) == column(g, j + p)[i] * r[i] by {
            }
            lemma_sum_ext(nk, d.row_vec(r, j), |i: int| column(g, j + p)[i] * r[i]);
        }
    } else {
        lemma_empty_apply(complex.d(k), r);
    }
    lemma_harmonic_iff_closed_and_coclosed(complex, k, r);
    (s, alpha, beta, r)
}

/// A harmonic cochain that is exact vanishes: `im d_{k-1} ∩ ker Δ_k = 0`.
/// So two harmonic cochains that differ by an exact one are equal, and a
/// cohomology class has at most one harmonic representative.
pub proof fn lemma_exact_harmonic_is_zero(complex: &SimplicialComplex, k: int, alpha: Seq<int>)
    requires
        complex.dims_consistent(),
        0 <= k,
        alpha.len() == complex.num(k - 1),
        is_harmonic(complex, k, exact_part(complex, k, alpha)),
    ensures
        vanishes(exact_part(complex, k, alpha)),
{
    lemma_consistent_laplacian_shapes(complex, k);
    lemma_exact_harmonic_orthogonal(complex, k, alpha, exact_part(complex, k, alpha));
    lemma_inner_self_zero(exact_part(complex, k, alpha));
}

/// The Hodge theorem, H^k ≅ ker Δ_k: every closed k-cochain z is, up to a
/// positive integer scale s, cohomologous to a harmonic cochain:
/// `s z = d_{k-1} α + h` with h harmonic.  With
/// [`lemma_exact_harmonic_is_zero`], each cohomology class has exactly one
/// harmonic representative.  The witnesses are returned as `(s, α, h)`.
pub proof fn lemma_closed_has_harmonic_representative(complex: &SimplicialComplex, k: int, z: Seq<int>) -> (res: (
    int,
    Seq<int>,
    Seq<int>,
))
    requires
        complex.dims_consistent(),
        complex.is_chain_complex(),
        0 <= k,
        z.len() == complex.num(k),
        vanishes(complex.d(k).apply(z)),
    ensures
        res.0 > 0,
        res.1.len() == complex.num(k - 1),
        is_harmonic(complex, k, res.2),
        forall|i: int|
            0 <= i < complex.num(k) ==> res.0 * z[i] == exact_part(complex, k, res.1)[i] + #[trigger] res.2[i],
{
    lemma_consistent_laplacian_shapes(complex, k);
    let nk = complex.num(k);
    let (s, alpha, beta, h) = lemma_decomposition_exists(complex, k, z);
    let e = exact_part(complex, k, alpha);
    let c = coexact_part(complex, k, beta);
    lemma_parts_len(complex, k, alpha, beta);
    lemma_harmonic_iff_closed_and_coclosed(complex, k, h);
    let d = complex.d(k);
    complex.lemma_d_outside_is_empty(k);
    if d.is_empty() {
        lemma_apply_zero(delta(complex, k + 1), beta);
    } else {
        assert(complex.boundary_matrices@[k].rows == complex.num(k));
        assert(complex.boundary_matrices@[k].cols == complex.num(k + 1));
        // d_k e = 0: exact cochains are closed
        if has_d(complex, k - 1) {
            assert(complex.boundary_matrices@[k - 1].rows == complex.num(k - 1));
            assert(complex.boundary_matrices@[k - 1].cols == complex.num(k));
            lemma_exact_forms_closed(complex, k, alpha);
        } else {
            lemma_apply_to_zero(d, e);
        }
        // c = s z - (e + h) is closed
        let eh = Seq::new(nk, |i: int| e[i] + h[i]);
        lemma_apply_add(d, e, h, eh);
        assert forall|j: int| 0 <= j < d.cols implies #[trigger] c[j] == s * z[j] + (-1) * eh[j] by {
            assert(s * z[j] == e[j] + c[j] + h[j]);
        }
        lemma_apply_lin(d, z, eh, c, s, -1);
        assert forall|j: int| 0 <= j < d.rows implies #[trigger] d.apply(c)[j] == 0 by {
            assert(d.apply(z)[j] == 0);
            assert(d.apply(eh)[j] == d.apply(e)[j] + d.apply(h)[j]);
            assert(d.apply(e)[j] == 0);
            assert(d.apply(h)[j] == 0);
        }
        // a closed coexact cochain vanishes: |c|² = <β, d_k c> = 0
        let dt = d.transpose();
        lemma_adjoint(dt, beta, c);
        lemma_transpose_transpose(d);
        lemma_apply_same(dt.transpose(), d, c);
        lemma_inner_zero(beta, d.apply(c));
        lemma_inner_self_zero(c);
    }
    assert forall|i: int| 0 <= i < nk implies s * z[i] == e[i] + #[trigger] h[i] by {
        assert(c[i] == 0);
    }
    (s, alpha, h)
}

/// The harmonic k-cochains are exactly those orthogonal to every exact and
/// every coexact k-cochain: `ker Δ_k = (im d_{k-1} + im δ_{k+1})^⊥`.
pub proof fn lemma_harmonic_iff_orthogonal(complex: &SimplicialComplex, k: int, h: Seq<int>)
    requires
        complex.dims_consistent(),
        0 <= k,
        h.len() == complex.num(k),
    ensures
        is_harmonic(complex, k, h) <==> ((forall|alpha: Seq<int>|
            alpha.len() == complex.num(k - 1) ==> #[trigger] inner(exact_part(complex, k, alpha), h) == 0)
            && (forall|beta: Seq<int>|
            beta.len() == complex.num(k + 1) ==> #[trigger] inner(coexact_part(complex, k, beta), h) == 0)),
{
    lemma_consistent_laplacian_shapes(complex, k);
    let nk = complex.num(k);
    if is_harmonic(complex, k, h) {
        assert forall|alpha: Seq<int>| alpha.len() == complex.num(k - 1) implies #[trigger] inner(
            exact_part(complex, k, alpha),
            h,
        ) == 0 by {
            lemma_exact_harmonic_orthogonal(complex, k, alpha, h);
        }
        assert forall|beta: Seq<int>| beta.len() == complex.num(k + 1) implies #[trigger] inner(
            coexact_part(complex, k, beta),
            h,
        ) == 0 by {
            lemma_coexact_harmonic_orthogonal(complex, k, beta, h);
        }
    }
    if (forall|alpha: Seq<int>|
        alpha.len() == complex.num(k - 1) ==> #[trigger] inner(exact_part(complex, k, alpha), h) == 0) && (
    forall|beta: Seq<int>|
        beta.len() == complex.num(k + 1) ==> #[trigger] inner(coexact_part(complex, k, beta), h) == 0) {
        let sh = delta(complex, k).apply(h);
        let dh = complex.d(k).apply(h);
        // δ_k h = 0: take α = δ_k h
        if k > 0 && !complex.d(k - 1).is_empty() {
            let d = complex.d(k - 1);
            assert(complex.boundary_matrices@[k - 1].rows == complex.num(k - 1));
            assert(complex.boundary_matrices@[k - 1].cols == complex.num(k));
            assert(inner(exact_part(complex, k, sh), h) == 0);
            lemma_adjoint(d, sh, h);
            lemma_inner_self_zero(sh);
        } else {
            lemma_apply_zero(delta(complex, k), h);
        }
        // d_k h = 0: take β = d_k h
        complex.lemma_d_outside_is_empty(k);
        if !complex.d(k).is_empty() {
            let d = complex.d(k);
            assert(complex.boundary_matrices@[k].rows == complex.num(k));
            assert(complex.boundary_matrices@[k].cols == complex.num(k + 1));
            assert(inner(coexact_part(complex, k, dh), h) == 0);
            let dt = d.transpose();
            lemma_adjoint(dt, dh, h);
            lemma_transpose_transpose(d);
            lemma_apply_same(dt.transpose(), d, h);
            lemma_inner_self_zero(dh);
        } else {
            lemma_empty_apply(complex.d(k), h);
        }
        lemma_harmonic_iff_closed_and_coclosed(complex, k, h);
    }
}

} // verus!
