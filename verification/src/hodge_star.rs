//! The Hodge star *: Ω^k → Ω^{n-k} and the codifferential δ: Ω^k → Ω^{k-1}.
//!
//! The discrete Hodge star maps k-cochains to (n-k)-cochains: through the
//! boundary operators where the degrees are adjacent, by a uniform weight
//! 1/n_k between vertices and top simplices, and by an identity-like map
//! otherwise.  Its entries are rational, so it is built exactly as integer
//! numerators over one denominator.
//!
//! With the standard inner product on cochains, δ_k is the transpose of
//! d_{k-1}, so that <dα, β> = <α, δβ>.

use vstd::prelude::*;
use crate::forms::{BoundaryMatrix, SimplicialComplex};
use crate::matrix::{
    inner, lemma_adjoint, lemma_apply_add, lemma_apply_zero, lemma_flat_in_range, lemma_idx_div_mod, lemma_idx_in_range,
    lemma_inner_comm, lemma_inner_zero, Mat,
};

verus! {

/// The codifferential δ_k as a matrix: the transpose of d_{k-1}; a zero
/// matrix of shape `n_{k-1} x n_k` when d_{k-1} is empty, and the empty
/// `n_0 x 0` matrix at degree zero.
pub open spec fn delta(complex: &SimplicialComplex, k: int) -> Mat {
    if k == 0 {
        Mat::zeros(complex.num(0), 0)
    } else if complex.d(k - 1).is_empty() {
        Mat::zeros(complex.num(k - 1), complex.num(k))
    } else {
        complex.d(k - 1).transpose()
    }
}

/// The codifferential δ_k: Ω^k → Ω^{k-1} as a matrix.
pub fn codifferential_matrix(complex: &SimplicialComplex, k: usize) -> (m: BoundaryMatrix)
    requires
        complex.matrices_wf(),
        k <= complex.dimension,
        k > 0 && complex.d(k - 1).is_empty() ==> complex.num(k - 1) * complex.num(k as int) <= usize::MAX,
    ensures
        m.wf(),
        m.mat().same(delta(complex, k as int)),
{
    if k == 0 {
        return BoundaryMatrix::zeros(complex.num_simplices(0), 0);
    }
    let dk = complex.exterior_derivative_matrix(k - 1);
    if dk.is_empty() {
        return BoundaryMatrix::zeros(complex.num_simplices(k - 1), complex.num_simplices(k));
    }
    let t = dk.transpose();
    proof {
        assert forall|i: int, j: int| 0 <= i < t.rows && 0 <= j < t.cols implies #[trigger] t.mat().entry(i, j)
            == delta(complex, k as int).entry(i, j) by {
            assert(t.mat().entry(i, j) == dk.mat().entry(j, i));
        }
    }
    t
}

/// δ is the L² adjoint of d: `<d_{k-1} α, β> = <α, δ_k β>` for every
/// (k-1)-cochain α and k-cochain β with integer coefficients.
pub proof fn lemma_codifferential_adjoint(complex: &SimplicialComplex, k: int, alpha: Seq<int>, beta: Seq<int>)
    requires
        complex.dims_consistent(),
        k >= 1,
        alpha.len() == complex.d(k - 1).cols,
        beta.len() == complex.d(k - 1).rows,
    ensures
        inner(complex.d(k - 1).apply(alpha), beta) == inner(alpha, delta(complex, k).apply(beta)),
{
    let d = complex.d(k - 1);
    if d.is_empty() {
        // both sides vanish
        let da = d.apply(alpha);
        assert(d.rows == 0 || d.cols == 0) by (nonlinear_arith)
            requires
                d.rows * d.cols == 0,
        ;
        assert(d.is_zero());
        lemma_apply_zero(d, alpha);
        lemma_inner_comm(da, beta);
        lemma_inner_zero(beta, da);
        let z = delta(complex, k);
        assert(z.is_zero());
        if 0 <= k - 1 < complex.dimension && k - 1 < complex.boundary_matrices@.len() {
            assert(complex.boundary_matrices@[k - 1].rows == complex.num(k - 1));
        }
        assert(alpha.len() <= z.rows);
        lemma_apply_zero(z, beta);
        lemma_inner_zero(alpha, z.apply(beta));
    } else {
        lemma_adjoint(d, alpha, beta);
    }
}

/// `rows x cols`, with ones where the row and column indices agree.
pub open spec fn diagonal_ones(rows: nat, cols: nat) -> Mat {
    Mat {
        rows,
        cols,
        at: |i: int, j: int|
            if i == j {
                1
            } else {
                0
            },
    }
}

/// `rows x cols`, with ones in the first `count` places of the first row.
pub open spec fn first_row_ones(rows: nat, cols: nat, count: nat) -> Mat {
    Mat {
        rows,
        cols,
        at: |i: int, j: int|
            if i == 0 && j < count {
                1
            } else {
                0
            },
    }
}

/// `rows x cols`, with ones in the first `count` places of the first column.
pub open spec fn first_column_ones(rows: nat, cols: nat, count: nat) -> Mat {
    Mat {
        rows,
        cols,
        at: |i: int, j: int|
            if j == 0 && i < count {
                1
            } else {
                0
            },
    }
}

/// The rotation of a triangle's three edges: e0 → 1, e1 → 2, e2 → 0.
pub open spec fn edge_rotation() -> Mat {
    Mat {
        rows: 3,
        cols: 3,
        at: |i: int, j: int|
            if (i == 0 && j == 2) || (i == 1 && j == 0) || (i == 2 && j == 1) {
                1
            } else {
                0
            },
    }
}

/// The Hodge star at degree k as a pair (numerators, denominator): the map
/// is `numerators / denominator`, an `n_{n-k} x n_k` matrix.
pub open spec fn star(complex: &SimplicialComplex, k: int) -> (Mat, nat) {
    let n = complex.dimension as int;
    let nk = complex.num(k);
    let nnk = complex.num(n - k);
    let fill = if nk <= nnk {
        nk
    } else {
        nnk
    };
    let bm = complex.boundary_matrices@;
    if nk == 0 || nnk == 0 {
        (Mat::zeros(nnk, nk), 1)
    } else if n <= 1 {
        // 0- and 1-dimensional complexes: identity-like
        (diagonal_ones(nnk, nk), 1)
    } else if n == 2 {
        if k == 0 {
            // vertices to the face, with the uniform weight 1/n_0
            (first_row_ones(nnk, nk, fill), nk)
        } else if k == 1 {
            if nk == 3 && nnk == 3 {
                (edge_rotation(), 1)
            } else {
                (diagonal_ones(nnk, nk), 1)
            }
        } else if k == 2 {
            // the face back to the vertices, with the weight 1/n_0
            (first_column_ones(nnk, nk, fill), nnk)
        } else {
            (Mat::zeros(nnk, nk), 1)
        }
    } else if n == 3 {
        if k == 0 {
            (first_row_ones(nnk, nk, fill), nk)
        } else if k == 1 {
            // edges to faces through the transpose of ∂_2
            if bm.len() >= 2 {
                (bm[1].mat().transpose(), 1)
            } else {
                (Mat::zeros(nnk, nk), 1)
            }
        } else if k == 2 {
            // faces to edges through ∂_2
            if bm.len() >= 2 {
                (bm[1].mat(), 1)
            } else {
                (Mat::zeros(nnk, nk), 1)
            }
        } else if k == 3 {
            (first_column_ones(nnk, nk, fill), nnk)
        } else {
            (Mat::zeros(nnk, nk), 1)
        }
    } else if k <= n / 2 && k + 1 <= bm.len() && n - k == k + 1 {
        (bm[k].mat().transpose(), 1)
    } else if k > n / 2 && n - k + 1 <= bm.len() && n - k + 1 == k {
        (bm[n - k].mat(), 1)
    } else {
        (diagonal_ones(nnk, nk), 1)
    }
}

/// The Hodge star as a rational matrix: `numerators / denominator`.
pub struct HodgeStar {
    pub numerators: BoundaryMatrix,
    pub denominator: usize,
}

impl HodgeStar {
    /// Number of rows (one per (n-k)-simplex).
    pub fn nrows(&self) -> (r: usize)
        ensures
            r == self.numerators.rows,
    {
        self.numerators.rows
    }

    /// Number of columns (one per k-simplex).
    pub fn ncols(&self) -> (c: usize)
        ensures
            c == self.numerators.cols,
    {
        self.numerators.cols
    }
}

/// The patterns of ones that the Hodge star is made of.
enum Ones {
    Diagonal,
    FirstRow(usize),
    FirstColumn(usize),
}

/// The matrix of a pattern of ones.
spec fn ones_mat(p: Ones, rows: nat, cols: nat) -> Mat {
    match p {
        Ones::Diagonal => diagonal_ones(rows, cols),
        Ones::FirstRow(c) => first_row_ones(rows, cols, c as nat),
        Ones::FirstColumn(c) => first_column_ones(rows, cols, c as nat),
    }
}

/// Build a `rows x cols` pattern of ones.
fn ones_matrix(p: Ones, rows: usize, cols: usize) -> (m: BoundaryMatrix)
    requires
        rows * cols <= usize::MAX,
    ensures
        m.wf(),
        m.rows == rows,
        m.cols == cols,
        m.mat().same(ones_mat(p, rows as nat, cols as nat)),
{
    let n = rows * cols;
    let ghost target = ones_mat(p, rows as nat, cols as nat);
    let mut entries: Vec<i32> = Vec::new();
    let mut t: usize = 0;
    while t < n
        invariant
            t <= n,
            n == rows * cols,
            target == ones_mat(p, rows as nat, cols as nat),
            entries@.len() == t,
            forall|s: int|
                0 <= s < t ==> #[trigger] entries@[s] == target.entry(s / cols as int, s % cols as int),
        decreases n - t,
    {
        proof {
            lemma_flat_in_range(rows as int, cols as int, t as int);
        }
        let i = t / cols;
        let j = t % cols;
        let v: i32 = match p {
            Ones::Diagonal => if i == j {
                1
            } else {
                0
            },
            Ones::FirstRow(c) => if i == 0 && j < c {
                1
            } else {
                0
            },
            Ones::FirstColumn(c) => if j == 0 && i < c {
                1
            } else {
                0
            },
        };
        entries.push(v);
        t = t + 1;
    }
    let m = BoundaryMatrix { rows, cols, entries };
    assert forall|i: int, j: int| 0 <= i < rows && 0 <= j < cols implies #[trigger] m.mat().entry(i, j)
        == target.entry(i, j) by {
        lemma_idx_in_range(rows as int, cols as int, i, j);
        lemma_idx_div_mod(cols as int, i, j);
    }
    m
}

/// The integer Hodge star `numerators / 1`.
fn integral(numerators: BoundaryMatrix) -> (s: HodgeStar)
    ensures
        s.numerators == numerators,
        s.denominator == 1,
{
    HodgeStar { numerators, denominator: 1 }
}

/// Build the Hodge star matrix for degree k on the complex, an
/// `n_{n-k} x n_k` matrix in general (see [`lemma_hodge_star_shape`]).
pub fn hodge_star_matrix(complex: &SimplicialComplex, k: usize) -> (s: HodgeStar)
    requires
        complex.matrices_wf(),
        k <= complex.dimension,
        complex.num(complex.dimension - k) * complex.num(k as int) <= usize::MAX,
    ensures
        s.numerators.wf(),
        s.numerators.mat().same(star(complex, k as int).0),
        s.denominator == star(complex, k as int).1,
        s.denominator >= 1,
{
    let n = complex.dimension;
    let nk = complex.num_simplices(k);
    let nnk = complex.num_simplices(n - k);
    if nk == 0 || nnk == 0 {
        return integral(BoundaryMatrix::zeros(nnk, nk));
    }
    if n <= 1 {
        integral(ones_matrix(Ones::Diagonal, nnk, nk))
    } else if n == 2 {
        build_hodge_star_2d(complex, k)
    } else if n == 3 {
        build_hodge_star_3d(complex, k)
    } else {
        build_hodge_star_general(complex, k)
    }
}

/// The Hodge star on a 2-dimensional complex.
fn build_hodge_star_2d(complex: &SimplicialComplex, k: usize) -> (s: HodgeStar)
    requires
        complex.dimension == 2,
        k <= 2,
        complex.num(2 - k) * complex.num(k as int) <= usize::MAX,
        complex.num(k as int) != 0,
        complex.num(2 - k) != 0,
    ensures
        s.numerators.wf(),
        s.numerators.mat().same(star(complex, k as int).0),
        s.denominator == star(complex, k as int).1,
        s.denominator >= 1,
{
    let nk = complex.num_simplices(k);
    let nnk = complex.num_simplices(2 - k);
    let fill = if nk <= nnk {
        nk
    } else {
        nnk
    };
    if k == 0 {
        HodgeStar { numerators: ones_matrix(Ones::FirstRow(fill), nnk, nk), denominator: nk }
    } else if k == 1 {
        if nk == 3 && nnk == 3 {
            let entries: Vec<i32> = vec![0, 0, 1, 1, 0, 0, 0, 1, 0];
            assert(entries@.len() == 3 * 3);
            let m = BoundaryMatrix::new(3, 3, entries);
            proof {
                assert forall|i: int, j: int| 0 <= i < 3 && 0 <= j < 3 implies #[trigger] m.mat().entry(i, j)
                    == edge_rotation().entry(i, j) by {
                    assert(m.entries@ == seq![0i32, 0, 1, 1, 0, 0, 0, 1, 0]);
                }
            }
            integral(m)
        } else {
            integral(ones_matrix(Ones::Diagonal, nnk, nk))
        }
    } else {
        HodgeStar { numerators: ones_matrix(Ones::FirstColumn(fill), nnk, nk), denominator: nnk }
    }
}

/// The Hodge star on a 3-dimensional complex.
fn build_hodge_star_3d(complex: &SimplicialComplex, k: usize) -> (s: HodgeStar)
    requires
        complex.matrices_wf(),
        complex.dimension == 3,
        k <= 3,
        complex.num(3 - k) * complex.num(k as int) <= usize::MAX,
        complex.num(k as int) != 0,
        complex.num(3 - k) != 0,
    ensures
        s.numerators.wf(),
        s.numerators.mat().same(star(complex, k as int).0),
        s.denominator == star(complex, k as int).1,
        s.denominator >= 1,
{
    let nk = complex.num_simplices(k);
    let nnk = complex.num_simplices(3 - k);
    let fill = if nk <= nnk {
        nk
    } else {
        nnk
    };
    if k == 0 {
        HodgeStar { numerators: ones_matrix(Ones::FirstRow(fill), nnk, nk), denominator: nk }
    } else if k == 1 {
        match complex.boundary(2) {
            Some(d2) => {
                proof {
                    assert(complex.boundary_matrices@[1].wf());
                    assert(d2.mat() == complex.boundary_matrices@[1].mat());
                }
                integral(d2.transpose())
            },
            None => integral(BoundaryMatrix::zeros(nnk, nk)),
        }
    } else if k == 2 {
        match complex.boundary(2) {
            Some(d2) => {
                proof {
                    assert(complex.boundary_matrices@[1].wf());
                    assert(d2.mat() == complex.boundary_matrices@[1].mat());
                }
                integral(d2)
            },
            None => integral(BoundaryMatrix::zeros(nnk, nk)),
        }
    } else {
        HodgeStar { numerators: ones_matrix(Ones::FirstColumn(fill), nnk, nk), denominator: nnk }
    }
}

/// The Hodge star on a complex of dimension four or more: through a
/// boundary operator when the two degrees are adjacent, identity-like
/// otherwise.
fn build_hodge_star_general(complex: &SimplicialComplex, k: usize) -> (s: HodgeStar)
    requires
        complex.matrices_wf(),
        complex.dimension >= 4,
        k <= complex.dimension,
        complex.num(complex.dimension - k) * complex.num(k as int) <= usize::MAX,
        complex.num(k as int) != 0,
        complex.num(complex.dimension - k) != 0,
    ensures
        s.numerators.wf(),
        s.numerators.mat().same(star(complex, k as int).0),
        s.denominator == star(complex, k as int).1,
        s.denominator >= 1,
{
    let n = complex.dimension;
    let target_degree = n - k;
    let nk = complex.num_simplices(k);
    let nnk = complex.num_simplices(target_degree);
    if k <= n / 2 {
        if let Some(dk) = complex.boundary(k + 1) {
            if target_degree == k + 1 {
                proof {
                    assert(complex.boundary_matrices@[k as int].wf());
                    assert(dk.mat() == complex.boundary_matrices@[k as int].mat());
                }
                return integral(dk.transpose());
            }
        }
    }
    if k > n / 2 {
        if let Some(d) = complex.boundary(target_degree + 1) {
            if target_degree + 1 == k {
                proof {
                    assert(complex.boundary_matrices@[target_degree as int].wf());
                    assert(d.mat() == complex.boundary_matrices@[target_degree as int].mat());
                }
                return integral(d);
            }
        }
    }
    integral(ones_matrix(Ones::Diagonal, nnk, nk))
}

/// The Hodge star at degree k maps k-cochains to (n-k)-cochains: its matrix
/// is `n_{n-k} x n_k` on a complex whose boundary shapes match its simplex
/// counts.
pub proof fn lemma_hodge_star_shape(complex: &SimplicialComplex, k: int)
    requires
        complex.dims_consistent(),
        0 <= k <= complex.dimension,
    ensures
        star(complex, k).0.rows == complex.num(complex.dimension - k),
        star(complex, k).0.cols == complex.num(k),
{
    let n = complex.dimension as int;
    let bm = complex.boundary_matrices@;
    if n == 3 && bm.len() >= 2 {
        assert(bm[1].rows == complex.num(1));
        assert(bm[1].cols == complex.num(2));
    }
    if n >= 4 && k <= n / 2 && k + 1 <= bm.len() && n - k == k + 1 {
        assert(bm[k].rows == complex.num(k));
        assert(bm[k].cols == complex.num(k + 1));
    }
    if n >= 4 && k > n / 2 && n - k + 1 <= bm.len() && n - k + 1 == k {
        assert(bm[n - k].rows == complex.num(n - k));
        assert(bm[n - k].cols == complex.num(n - k + 1));
    }
}

/// The Hodge star is additive: `*(x + y) = *x + *y` for k-cochains x and y
/// with integer coefficients (on the numerators; the denominator is shared).
pub proof fn lemma_hodge_star_additive(complex: &SimplicialComplex, k: int, x: Seq<int>, y: Seq<int>, sum: Seq<int>)
    requires
        x.len() == star(complex, k).0.cols,
        y.len() == x.len(),
        sum.len() == x.len(),
        forall|j: int| 0 <= j < x.len() ==> #[trigger] sum[j] == x[j] + y[j],
    ensures
        forall|i: int|
            0 <= i < star(complex, k).0.rows ==> #[trigger] star(complex, k).0.apply(sum)[i] == star(
                complex,
                k,
            ).0.apply(x)[i] + star(complex, k).0.apply(y)[i],
{
    lemma_apply_add(star(complex, k).0, x, y, sum);
}

/// The Hodge star between vertices and top simplices of a 2- or
/// 3-dimensional complex weights by 1/n_0, the number of vertices: at
/// degree 0 vertex j (for j below both counts) goes to top simplex 0, at
/// degree n top simplex 0 goes to vertex i (for i below both counts), each
/// entry being 1/n_0, and every other entry is zero.
pub proof fn lemma_hodge_star_vertex_weights(complex: &SimplicialComplex, k: int)
    requires
        complex.dimension == 2 || complex.dimension == 3,
        k == 0 || k == complex.dimension,
        complex.num(0) > 0,
        complex.num(complex.dimension as int) > 0,
    ensures
        star(complex, k).1 == complex.num(0),
        star(complex, k).0.rows == complex.num(complex.dimension - k),
        star(complex, k).0.cols == complex.num(k),
        forall|i: int, j: int|
            0 <= i < complex.num(complex.dimension - k) && 0 <= j < complex.num(k) ==> #[trigger] star(
                complex,
                k,
            ).0.entry(i, j) == (if (k == 0 && i == 0 && j < complex.num(complex.dimension as int)) || (k
                == complex.dimension && j == 0 && i < complex.num(complex.dimension as int)) {
                1int
            } else {
                0
            }),
{
}

/// On a 0- or 1-dimensional complex, and at degree 1 of a 2-dimensional
/// complex whose edge count is not 3, the Hodge star is identity-like:
/// entry (i, j) is 1 when i == j and 0 otherwise, with denominator 1.
pub proof fn lemma_hodge_star_identity_like(complex: &SimplicialComplex, k: int)
    requires
        0 <= k <= complex.dimension,
        complex.dimension <= 1 || (complex.dimension == 2 && k == 1 && complex.num(1) != 3),
    ensures
        star(complex, k).1 == 1,
        star(complex, k).0.rows == complex.num(complex.dimension - k),
        star(complex, k).0.cols == complex.num(k),
        forall|i: int, j: int|
            0 <= i < complex.num(complex.dimension - k) && 0 <= j < complex.num(k) ==> #[trigger] star(
                complex,
                k,
            ).0.entry(i, j) == (if i == j {
                1int
            } else {
                0
            }),
{
}

/// At degree 1 of a 2-dimensional complex with three edges, the Hodge star
/// rotates the edges: `(*x)_0 = x_2`, `(*x)_1 = x_0`, `(*x)_2 = x_1`.
pub proof fn lemma_hodge_star_rotates_triangle_edges(complex: &SimplicialComplex, x: Seq<int>)
    requires
        complex.dimension == 2,
        complex.num(1) == 3,
        x.len() == 3,
    ensures
        star(complex, 1).1 == 1,
        star(complex, 1).0.apply(x) =~= seq![x[2], x[0], x[1]],
{
    let m = star(complex, 1).0;
    assert(m == edge_rotation());
    assert forall|i: int| 0 <= i < 3 implies #[trigger] m.apply(x)[i] == seq![x[2], x[0], x[1]][i] by {
        let f = m.row_vec(x, i);
        assert(crate::matrix::sum_to(3, f) == f(0) + f(1) + f(2)) by {
            reveal_with_fuel(crate::matrix::sum_to, 4);
        }
        assert(f(0) == m.entry(i, 0) * x[0]);
        assert(f(1) == m.entry(i, 1) * x[1]);
        assert(f(2) == m.entry(i, 2) * x[2]);
    }
}

/// On a 3-dimensional complex the Hodge star between edges and faces goes
/// through the boundary ∂_2: at degree 1 it is ∂_2ᵀ, at degree 2 it is ∂_2,
/// with denominator 1.
pub proof fn lemma_hodge_star_through_boundary(complex: &SimplicialComplex, k: int)
    requires
        complex.dimension == 3,
        k == 1 || k == 2,
        complex.num(1) > 0,
        complex.num(2) > 0,
        complex.boundary_matrices@.len() >= 2,
    ensures
        star(complex, k).1 == 1,
        k == 1 ==> star(complex, k).0 == complex.boundary_matrices@[1].mat().transpose(),
        k == 2 ==> star(complex, k).0 == complex.boundary_matrices@[1].mat(),
{
}

/// Where either degree has no simplices the Hodge star is the zero map.
pub proof fn lemma_hodge_star_empty_degree(complex: &SimplicialComplex, k: int)
    requires
        complex.num(k) == 0 || complex.num(complex.dimension - k) == 0,
    ensures
        star(complex, k).1 == 1,
        star(complex, k).0.rows == complex.num(complex.dimension - k),
        star(complex, k).0.cols == complex.num(k),
        star(complex, k).0.is_zero(),
{
}

/// On a complex of dimension four or more the Hodge star goes through a
/// boundary when the two degrees are adjacent and that boundary is stored:
/// ∂_{k+1}ᵀ when n - k = k + 1, ∂_{n-k+1} when n - k + 1 = k.  Otherwise it
/// is identity-like.  The denominator is 1.
pub proof fn lemma_hodge_star_high_dimension(complex: &SimplicialComplex, k: int)
    requires
        complex.dimension >= 4,
        0 <= k <= complex.dimension,
        complex.num(k) > 0,
        complex.num(complex.dimension - k) > 0,
    ensures
        star(complex, k).1 == 1,
        (complex.dimension - k == k + 1 && k + 1 <= complex.boundary_matrices@.len()) ==> star(complex, k).0
            == complex.boundary_matrices@[k].mat().transpose(),
        (complex.dimension - k + 1 == k && complex.dimension - k + 1 <= complex.boundary_matrices@.len()) ==> star(
            complex,
            k,
        ).0 == complex.boundary_matrices@[complex.dimension - k].mat(),
        !(complex.dimension - k == k + 1 && k + 1 <= complex.boundary_matrices@.len()) && !(complex.dimension - k
            + 1 == k && complex.dimension - k + 1 <= complex.boundary_matrices@.len()) ==> forall|i: int, j: int|
            0 <= i < complex.num(complex.dimension - k) && 0 <= j < complex.num(k) ==> #[trigger] star(
                complex,
                k,
            ).0.entry(i, j) == (if i == j {
                1int
            } else {
                0
            }),
{
    let n = complex.dimension as int;
    assert(n - k == k + 1 ==> k <= n / 2);
    assert(n - k + 1 == k ==> k > n / 2);
}

} // verus!
