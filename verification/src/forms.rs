//! The combinatorial backbone: oriented boundary matrices and simplicial
//! complexes built from them.
//!
//! A boundary matrix has integer entries (the signed incidence numbers of
//! the simplices); `boundary_matrices[k]` of a complex is the boundary
//! `∂_{k+1}: C_{k+1} → C_k`, with one row per k-simplex and one column per
//! (k+1)-simplex.

use vstd::prelude::*;
use crate::matrix::{
    idx, lemma_flat_in_range, lemma_i32_product_bound, lemma_idx_div_mod, lemma_idx_in_range, sum_to,
    term_bound, IntMatrix, Mat,
};

verus! {

/// A boundary matrix stored densely in row-major order: entry `(r, c)` is
/// `entries[r * cols + c]`.
#[derive(Clone, Debug)]
pub struct BoundaryMatrix {
    pub rows: usize,
    pub cols: usize,
    pub entries: Vec<i32>,
}

impl BoundaryMatrix {
    /// The storage holds exactly `rows * cols` entries.
    pub open spec fn wf(&self) -> bool {
        &&& self.entries@.len() == self.rows * self.cols
        &&& self.rows * self.cols <= usize::MAX
    }

    /// The matrix this value stands for.
    pub open spec fn mat(&self) -> Mat {
        Mat {
            rows: self.rows as nat,
            cols: self.cols as nat,
            at: |i: int, j: int| self.entries@[idx(self.cols as int, i, j)] as int,
        }
    }

    /// A matrix from its row-major entries.
    pub fn new(rows: usize, cols: usize, entries: Vec<i32>) -> (m: BoundaryMatrix)
        requires
            entries@.len() == rows * cols,
        ensures
            m.wf(),
            m.rows == rows,
            m.cols == cols,
            m.entries@ == entries@,
    {
        let len = entries.len();
        assert(rows * cols == len);
        BoundaryMatrix { rows, cols, entries }
    }

    /// The `rows x cols` zero matrix.
    pub fn zeros(rows: usize, cols: usize) -> (m: BoundaryMatrix)
        requires
            rows * cols <= usize::MAX,
        ensures
            m.wf(),
            m.rows == rows,
            m.cols == cols,
            forall|t: int| 0 <= t < rows * cols ==> #[trigger] m.entries@[t] == 0,
            m.mat().same(Mat::zeros(rows as nat, cols as nat)),
    {
        let n = rows * cols;
        let mut entries: Vec<i32> = Vec::new();
        let mut t: usize = 0;
        while t < n
            invariant
                t <= n,
                entries@.len() == t,
                forall|s: int| 0 <= s < t ==> #[trigger] entries@[s] == 0,
            decreases n - t,
        {
            entries.push(0);
            t = t + 1;
        }
        let m = BoundaryMatrix { rows, cols, entries };
        assert forall|i: int, j: int| 0 <= i < rows && 0 <= j < cols implies #[trigger] m.mat().entry(i, j)
            == 0 by {
            lemma_idx_in_range(rows as int, cols as int, i, j);
        }
        m
    }

    /// The stored entry at position `row * cols + col`.
    pub fn get(&self, row: usize, col: usize) -> (v: i32)
        requires
            idx(self.cols as int, row as int, col as int) < self.entries@.len(),
        ensures
            v == self.entries@[idx(self.cols as int, row as int, col as int)],
    {
        let n: usize = self.entries.len();
        proof {
            assert(0 <= row * self.cols) by (nonlinear_arith);
            assert(row * self.cols + col < n);
        }
        self.entries[row * self.cols + col]
    }

    /// Overwrite the stored entry at position `row * cols + col`.
    pub fn set(&mut self, row: usize, col: usize, val: i32)
        requires
            idx(old(self).cols as int, row as int, col as int) < old(self).entries@.len(),
        ensures
            final(self).rows == old(self).rows,
            final(self).cols == old(self).cols,
            final(self).entries@ == old(self).entries@.update(
                idx(old(self).cols as int, row as int, col as int),
                val,
            ),
    {
        let n: usize = self.entries.len();
        proof {
            assert(0 <= row * self.cols) by (nonlinear_arith);
            assert(row * self.cols + col < n);
        }
        let p = row * self.cols + col;
        self.entries.set(p, val);
    }

    /// Whether the matrix has no entry at all (a zero number of rows or of
    /// columns).
    pub fn is_empty(&self) -> (b: bool)
        ensures
            b == self.mat().is_empty(),
    {
        proof {
            if self.rows != 0 && self.cols != 0 {
                assert(self.rows * self.cols != 0) by (nonlinear_arith)
                    requires
                        self.rows != 0,
                        self.cols != 0,
                ;
            } else {
                assert(self.rows * self.cols == 0) by (nonlinear_arith)
                    requires
                        self.rows == 0 || self.cols == 0,
                ;
            }
        }
        self.rows == 0 || self.cols == 0
    }

    /// A copy with the same shape and entries.
    pub fn duplicate(&self) -> (m: BoundaryMatrix)
        ensures
            m.rows == self.rows,
            m.cols == self.cols,
            m.entries@ == self.entries@,
    {
        let n = self.entries.len();
        let mut entries: Vec<i32> = Vec::new();
        let mut t: usize = 0;
        while t < n
            invariant
                t <= n,
                n == self.entries@.len(),
                entries@ =~= self.entries@.subrange(0, t as int),
            decreases n - t,
        {
            entries.push(self.entries[t]);
            t = t + 1;
        }
        BoundaryMatrix { rows: self.rows, cols: self.cols, entries }
    }

    /// The transposed matrix.
    pub fn transpose(&self) -> (m: BoundaryMatrix)
        requires
            self.wf(),
        ensures
            m.wf(),
            m.mat().same(self.mat().transpose()),
    {
        proof {
            assert(self.cols * self.rows == self.rows * self.cols) by (nonlinear_arith);
        }
        let n = self.entries.len();
        let mut entries: Vec<i32> = Vec::new();
        let mut t: usize = 0;
        while t < n
            invariant
                t <= n,
                n == self.rows * self.cols,
                n == self.cols * self.rows,
                self.wf(),
                entries@.len() == t,
                forall|s: int|
                    0 <= s < t ==> #[trigger] entries@[s] == self.entries@[idx(
                        self.cols as int,
                        s % self.rows as int,
                        s / self.rows as int,
                    )],
            decreases n - t,
        {
            proof {
                lemma_flat_in_range(self.cols as int, self.rows as int, t as int);
                lemma_idx_in_range(
                    self.rows as int,
                    self.cols as int,
                    t as int % self.rows as int,
                    t as int / self.rows as int,
                );
            }
            let i = t / self.rows;
            let j = t % self.rows;
            entries.push(self.entries[j * self.cols + i]);
            t = t + 1;
        }
        let m = BoundaryMatrix { rows: self.cols, cols: self.rows, entries };
        assert forall|i: int, j: int| 0 <= i < m.rows && 0 <= j < m.cols implies #[trigger] m.mat().entry(i, j)
            == self.mat().transpose().entry(i, j) by {
            lemma_idx_in_range(m.rows as int, m.cols as int, i, j);
            lemma_idx_div_mod(m.cols as int, i, j);
        }
        m
    }

    /// The product `self * other`, exactly, in `i128` entries.
    pub fn product(&self, other: &BoundaryMatrix) -> (m: IntMatrix)
        requires
            self.wf(),
            other.wf(),
            self.cols == other.rows,
            self.rows * other.cols <= usize::MAX,
        ensures
            m.wf(),
            m.rows == self.rows,
            m.cols == other.cols,
            m.mat().same(self.mat().times(other.mat())),
            m.mat().bounded_by(self.cols * term_bound()),
    {
        let n = self.rows * other.cols;
        let ghost prod = self.mat().times(other.mat());
        let mut entries: Vec<i128> = Vec::new();
        let mut t: usize = 0;
        while t < n
            invariant
                t <= n,
                n == self.rows * other.cols,
                self.wf(),
                other.wf(),
                self.cols == other.rows,
                prod == self.mat().times(other.mat()),
                entries@.len() == t,
                forall|s: int|
                    0 <= s < t ==> #[trigger] entries@[s] == prod.entry(
                        s / other.cols as int,
                        s % other.cols as int,
                    ),
                forall|s: int|
                    0 <= s < t ==> -(self.cols * term_bound()) <= #[trigger] entries@[s] <= self.cols
                        * term_bound(),
            decreases n - t,
        {
            proof {
                lemma_flat_in_range(self.rows as int, other.cols as int, t as int);
            }
            let i = t / other.cols;
            let j = t % other.cols;
            let ghost terms = self.mat().row_col(other.mat(), i as int, j as int);
            let mut acc: i128 = 0;
            let mut l: usize = 0;
            while l < self.cols
                invariant
                    l <= self.cols,
                    i < self.rows,
                    j < other.cols,
                    self.wf(),
                    other.wf(),
                    self.cols == other.rows,
                    terms == self.mat().row_col(other.mat(), i as int, j as int),
                    acc == sum_to(l as nat, terms),
                    -(l * term_bound()) <= acc <= l * term_bound(),
                decreases self.cols - l,
            {
                proof {
                    lemma_idx_in_range(self.rows as int, self.cols as int, i as int, l as int);
                    lemma_idx_in_range(other.rows as int, other.cols as int, l as int, j as int);
                }
                let x = self.entries[i * self.cols + l];
                let y = other.entries[l * other.cols + j];
                proof {
                    lemma_i32_product_bound(x as int, y as int);
                    assert(terms(l as int) == x * y);
                    assert(l * term_bound() + term_bound() == (l + 1) * term_bound());
                }
                acc = acc + (x as i128) * (y as i128);
                l = l + 1;
            }
            entries.push(acc);
            t = t + 1;
        }
        let m = IntMatrix { rows: self.rows, cols: other.cols, entries };
        assert forall|i: int, j: int| 0 <= i < m.rows && 0 <= j < m.cols implies #[trigger] m.mat().entry(i, j)
            == prod.entry(i, j) by {
            lemma_idx_in_range(m.rows as int, m.cols as int, i, j);
            lemma_idx_div_mod(m.cols as int, i, j);
        }
        assert forall|i: int, j: int| 0 <= i < m.rows && 0 <= j < m.cols implies -(self.cols * term_bound())
            <= #[trigger] m.mat().entry(i, j) <= self.cols * term_bound() by {
            lemma_idx_in_range(m.rows as int, m.cols as int, i, j);
        }
        m
    }
}

/// A simplicial complex given by its simplex counts and boundary matrices.
#[derive(Clone, Debug)]
pub struct SimplicialComplex {
    /// Dimension of the complex (max simplex dimension)
    pub dimension: usize,
    /// Simplex counts by degree: simplex_count[k] = number of k-simplices
    pub simplex_count: Vec<usize>,
    /// boundary_matrices[k] is the boundary ∂_{k+1} from (k+1)-simplices to
    /// k-simplices
    pub boundary_matrices: Vec<BoundaryMatrix>,
}

impl SimplicialComplex {
    /// Number of k-simplices (zero beyond the recorded degrees).
    pub open spec fn num(&self, k: int) -> nat {
        if 0 <= k < self.simplex_count@.len() {
            self.simplex_count@[k] as nat
        } else {
            0
        }
    }

    /// Every boundary matrix holds exactly `rows * cols` entries.
    pub open spec fn matrices_wf(&self) -> bool {
        forall|j: int| 0 <= j < self.boundary_matrices@.len() ==> #[trigger] self.boundary_matrices@[j].wf()
    }

    /// `∂_{j+1}` has one row per j-simplex and one column per (j+1)-simplex.
    pub open spec fn dims_consistent(&self) -> bool {
        forall|j: int|
            0 <= j < self.boundary_matrices@.len() ==> {
                &&& (#[trigger] self.boundary_matrices@[j]).rows == self.num(j)
                &&& self.boundary_matrices@[j].cols == self.num(j + 1)
            }
    }

    /// Consecutive boundaries compose to zero: `∂_{j+1} ∘ ∂_{j+2} = 0`.
    pub open spec fn is_chain_complex(&self) -> bool {
        forall|j: int|
            0 <= j && j + 1 < self.boundary_matrices@.len() ==> (#[trigger] self.boundary_matrices@[j]).mat().times(
                self.boundary_matrices@[j + 1].mat(),
            ).is_zero()
    }

    /// The exterior derivative `d_k = ∂_{k+1}^T` as a matrix, or the empty
    /// `0 x 0` matrix when the complex has no (k+1)-simplices.
    pub open spec fn d(&self, k: int) -> Mat {
        if 0 <= k < self.dimension && k < self.boundary_matrices@.len() {
            self.boundary_matrices@[k].mat().transpose()
        } else {
            Mat::zeros(0, 0)
        }
    }

    /// Beyond the stored boundaries, d_k is the empty `0 x 0` matrix.
    pub proof fn lemma_d_outside_is_empty(&self, k: int)
        ensures
            !(0 <= k < self.dimension && k < self.boundary_matrices@.len()) ==> self.d(k).rows == 0
                && self.d(k).cols == 0 && self.d(k).is_empty(),
    {
    }

    /// A d_k with no rows or no columns is empty.
    pub proof fn lemma_d_empty_when_flat(&self, k: int)
        ensures
            (self.d(k).rows == 0 || self.d(k).cols == 0) ==> self.d(k).is_empty(),
    {
        let d = self.d(k);
        if d.rows == 0 || d.cols == 0 {
            assert(d.rows * d.cols == 0) by (nonlinear_arith)
                requires
                    d.rows == 0 || d.cols == 0,
            ;
        }
    }

    /// Create a complex from boundary matrices; its dimension is one less
    /// than the number of simplex counts (zero when there are none).
    pub fn new(simplex_count: Vec<usize>, boundary_matrices: Vec<BoundaryMatrix>) -> (c: SimplicialComplex)
        ensures
            c.dimension == (if simplex_count@.len() == 0 {
                0
            } else {
                simplex_count@.len() - 1
            }),
            c.simplex_count@ == simplex_count@,
            c.boundary_matrices@ == boundary_matrices@,
    {
        let dimension = if simplex_count.len() == 0 {
            0
        } else {
            simplex_count.len() - 1
        };
        SimplicialComplex { dimension, simplex_count, boundary_matrices }
    }

    /// Number of k-simplices.
    pub fn num_simplices(&self, k: usize) -> (n: usize)
        ensures
            n == self.num(k as int),
    {
        if k < self.simplex_count.len() {
            self.simplex_count[k]
        } else {
            0
        }
    }

    /// The boundary matrix `∂_{k_plus_1}: C_{k_plus_1} → C_{k_plus_1 - 1}`,
    /// stored at `boundary_matrices[k_plus_1 - 1]`; `None` for `∂_0` and
    /// beyond the stored matrices.
    pub fn boundary(&self, k_plus_1: usize) -> (b: Option<BoundaryMatrix>)
        ensures
            match b {
                Some(m) => {
                    &&& 1 <= k_plus_1 <= self.boundary_matrices@.len()
                    &&& m.rows == self.boundary_matrices@[k_plus_1 - 1].rows
                    &&& m.cols == self.boundary_matrices@[k_plus_1 - 1].cols
                    &&& m.entries@ == self.boundary_matrices@[k_plus_1 - 1].entries@
                },
                None => k_plus_1 == 0 || k_plus_1 > self.boundary_matrices@.len(),
            },
    {
        if k_plus_1 == 0 || k_plus_1 > self.boundary_matrices.len() {
            None
        } else {
            Some(self.boundary_matrices[k_plus_1 - 1].duplicate())
        }
    }

    /// The exterior derivative `d_k: Ω^k → Ω^{k+1}`, the transpose of
    /// `∂_{k+1}`; the empty `0 x 0` matrix when `k + 1` exceeds the
    /// dimension or `∂_{k+1}` is not stored.
    pub fn exterior_derivative_matrix(&self, k: usize) -> (m: BoundaryMatrix)
        requires
            self.matrices_wf(),
        ensures
            m.wf(),
            m.mat().same(self.d(k as int)),
    {
        if k < self.dimension {
            if let Some(b) = self.boundary(k + 1) {
                proof {
                    assert(self.boundary_matrices@[k as int].wf());
                }
                let t = b.transpose();
                return t;
            }
        }
        BoundaryMatrix::zeros(0, 0)
    }

    /// Whether every boundary matrix holds exactly `rows * cols` entries.
    pub fn matrices_are_wf(&self) -> (b: bool)
        ensures
            b == self.matrices_wf(),
    {
        let n = self.boundary_matrices.len();
        let mut j: usize = 0;
        while j < n
            invariant
                j <= n,
                n == self.boundary_matrices@.len(),
                forall|i: int| 0 <= i < j ==> #[trigger] self.boundary_matrices@[i].wf(),
            decreases n - j,
        {
            let m = &self.boundary_matrices[j];
            match m.rows.checked_mul(m.cols) {
                None => {
                    assert(!self.boundary_matrices@[j as int].wf());
                    return false;
                },
                Some(size) => {
                    if m.entries.len() != size {
                        assert(!self.boundary_matrices@[j as int].wf());
                        return false;
                    }
                },
            }
            j = j + 1;
        }
        true
    }

    /// Well-formed storage, boundary shapes that match the simplex counts,
    /// and `∂ ∘ ∂ = 0`.
    pub open spec fn well_built(&self) -> bool {
        &&& self.matrices_wf()
        &&& self.dims_consistent()
        &&& self.is_chain_complex()
    }

    /// The standard 2-simplex (triangle): edges e0=(0,1), e1=(1,2), e2=(2,0)
    /// and the face [0,1,2] with ∂[0,1,2] = e0 + e1 + e2.
    #[verifier::spinoff_prover]
    pub fn triangle() -> (c: SimplicialComplex)
        ensures
            c.dimension == 2,
            c.simplex_count@ == seq![3usize, 3, 1],
            c.boundary_matrices@.len() == 2,
            c.boundary_matrices@[0].rows == 3,
            c.boundary_matrices@[0].cols == 3,
            c.boundary_matrices@[0].entries@ == seq![-1i32, 0, 1, 1, -1i32, 0, 0, 1, -1i32],
            c.boundary_matrices@[1].rows == 3,
            c.boundary_matrices@[1].cols == 1,
            c.boundary_matrices@[1].entries@ == seq![1i32, 1, 1],
            c.well_built(),
    {
        let d1 = BoundaryMatrix::new(3, 3, vec![-1, 0, 1, 1, -1, 0, 0, 1, -1]);
        let d2 = BoundaryMatrix::new(3, 1, vec![1, 1, 1]);
        let c = SimplicialComplex::new(vec![3, 3, 1], vec![d1, d2]);
        proof {
            let a = c.boundary_matrices@[0].mat();
            let b = c.boundary_matrices@[1].mat();
            assert(a.entry(0, 0) == -1 && a.entry(0, 1) == 0 && a.entry(0, 2) == 1);
            assert(a.entry(1, 0) == 1 && a.entry(1, 1) == -1 && a.entry(1, 2) == 0);
            assert(a.entry(2, 0) == 0 && a.entry(2, 1) == 1 && a.entry(2, 2) == -1);
            assert(b.entry(0, 0) == 1);
            assert(b.entry(1, 0) == 1);
            assert(b.entry(2, 0) == 1);
            assert forall|i: int, j: int| 0 <= i < 3 && 0 <= j < 1 implies #[trigger] a.times(b).entry(i, j) == 0 by {
                if i == 0 && j == 0 {
                    assert(a.times(b).entry(0, 0) == 0) by {
                        reveal_with_fuel(sum_to, 4);
                    }
                } else if i == 1 && j == 0 {
                    assert(a.times(b).entry(1, 0) == 0) by {
                        reveal_with_fuel(sum_to, 4);
                    }
                } else {
                    assert(a.times(b).entry(2, 0) == 0) by {
                        reveal_with_fuel(sum_to, 4);
                    }
                }
            }
        }
        c
    }

    /// The 3-simplex. Edges e0=(0,1), e1=(0,2), e2=(0,3), e3=(1,2), e4=(1,3),
    /// e5=(2,3); faces f0=(0,1,2), f1=(0,1,3), f2=(0,2,3), f3=(1,2,3), with
    /// ∂(i,j,k) = (j,k) - (i,k) + (i,j) and ∂[0,1,2,3] = f3 - f2 + f1 - f0.
    #[verifier::spinoff_prover]
    pub fn tetrahedron() -> (c: SimplicialComplex)
        ensures
            c.dimension == 3,
            c.simplex_count@ == seq![4usize, 6, 4, 1],
            c.boundary_matrices@.len() == 3,
            c.boundary_matrices@[0].rows == 4,
            c.boundary_matrices@[0].cols == 6,
            c.boundary_matrices@[0].entries@ == seq![-1i32, -1i32, -1i32, 0, 0, 0, 1, 0, 0, -1i32, -1i32, 0, 0, 1, 0, 1, 0, -1i32, 0, 0, 1, 0, 1, 1],
            c.boundary_matrices@[1].rows == 6,
            c.boundary_matrices@[1].cols == 4,
            c.boundary_matrices@[1].entries@ == seq![1i32, 1, 0, 0, -1i32, 0, 1, 0, 0, -1i32, -1i32, 0, 1, 0, 0, 1, 0, 1, 0, -1i32, 0, 0, 1, 1],
            c.boundary_matrices@[2].rows == 4,
            c.boundary_matrices@[2].cols == 1,
            c.boundary_matrices@[2].entries@ == seq![-1i32, 1, -1i32, 1],
            c.well_built(),
    {
        let d1 = BoundaryMatrix::new(4, 6, vec![-1, -1, -1, 0, 0, 0, 1, 0, 0, -1, -1, 0, 0, 1, 0, 1, 0, -1, 0, 0, 1, 0, 1, 1]);
        let d2 = BoundaryMatrix::new(6, 4, vec![1, 1, 0, 0, -1, 0, 1, 0, 0, -1, -1, 0, 1, 0, 0, 1, 0, 1, 0, -1, 0, 0, 1, 1]);
        let d3 = BoundaryMatrix::new(4, 1, vec![-1, 1, -1, 1]);
        let c = SimplicialComplex::new(vec![4, 6, 4, 1], vec![d1, d2, d3]);
        proof {
            let a = c.boundary_matrices@[0].mat();
            let b = c.boundary_matrices@[1].mat();
            assert(a.entry(0, 0) == -1 && a.entry(0, 1) == -1 && a.entry(0, 2) == -1 && a.entry(0, 3) == 0 && a.entry(0, 4) == 0 && a.entry(0, 5) == 0);
            assert(a.entry(1, 0) == 1 && a.entry(1, 1) == 0 && a.entry(1, 2) == 0 && a.entry(1, 3) == -1 && a.entry(1, 4) == -1 && a.entry(1, 5) == 0);
            assert(a.entry(2, 0) == 0 && a.entry(2, 1) == 1 && a.entry(2, 2) == 0 && a.entry(2, 3) == 1 && a.entry(2, 4) == 0 && a.entry(2, 5) == -1);
            assert(a.entry(3, 0) == 0 && a.entry(3, 1) == 0 && a.entry(3, 2) == 1 && a.entry(3, 3) == 0 && a.entry(3, 4) == 1 && a.entry(3, 5) == 1);
            assert(b.entry(0, 0) == 1 && b.entry(0, 1) == 1 && b.entry(0, 2) == 0 && b.entry(0, 3) == 0);
            assert(b.entry(1, 0) == -1 && b.entry(1, 1) == 0 && b.entry(1, 2) == 1 && b.entry(1, 3) == 0);
            assert(b.entry(2, 0) == 0 && b.entry(2, 1) == -1 && b.entry(2, 2) == -1 && b.entry(2, 3) == 0);
            assert(b.entry(3, 0) == 1 && b.entry(3, 1) == 0 && b.entry(3, 2) == 0 && b.entry(3, 3) == 1);
            assert(b.entry(4, 0) == 0 && b.entry(4, 1) == 1 && b.entry(4, 2) == 0 && b.entry(4, 3) == -1);
            assert(b.entry(5, 0) == 0 && b.entry(5, 1) == 0 && b.entry(5, 2) == 1 && b.entry(5, 3) == 1);
            assert forall|i: int, j: int| 0 <= i < 4 && 0 <= j < 4 implies #[trigger] a.times(b).entry(i, j) == 0 by {
                if i == 0 && j == 0 {
                    assert(a.times(b).entry(0, 0) == 0) by {
                        reveal_with_fuel(sum_to, 7);
                    }
                } else if i == 0 && j == 1 {
                    assert(a.times(b).entry(0, 1) == 0) by {
                        reveal_with_fuel(sum_to, 7);
                    }
                } else if i == 0 && j == 2 {
                    assert(a.times(b).entry(0, 2) == 0) by {
                        reveal_with_fuel(sum_to, 7);
                    }
                } else if i == 0 && j == 3 {
                    assert(a.times(b).entry(0, 3) == 0) by {
                        reveal_with_fuel(sum_to, 7);
                    }
                } else if i == 1 && j == 0 {
                    assert(a.times(b).entry(1, 0) == 0) by {
                        reveal_with_fuel(sum_to, 7);
                    }
                } else if i == 1 && j == 1 {
                    assert(a.times(b).entry(1, 1) == 0) by {
                        reveal_with_fuel(sum_to, 7);
                    }
                } else if i == 1 && j == 2 {
                    assert(a.times(b).entry(1, 2) == 0) by {
                        reveal_with_fuel(sum_to, 7);
                    }
                } else if i == 1 && j == 3 {
                    assert(a.times(b).entry(1, 3) == 0) by {
                        reveal_with_fuel(sum_to, 7);
                    }
                } else if i == 2 && j == 0 {
                    assert(a.times(b).entry(2, 0) == 0) by {
                        reveal_with_fuel(sum_to, 7);
                    }
                } else if i == 2 && j == 1 {
                    assert(a.times(b).entry(2, 1) == 0) by {
                        reveal_with_fuel(sum_to, 7);
                    }
                } else if i == 2 && j == 2 {
                    assert(a.times(b).entry(2, 2) == 0) by {
                        reveal_with_fuel(sum_to, 7);
                    }
                } else if i == 2 && j == 3 {
                    assert(a.times(b).entry(2, 3) == 0) by {
                        reveal_with_fuel(sum_to, 7);
                    }
                } else if i == 3 && j == 0 {
                    assert(a.times(b).entry(3, 0) == 0) by {
                        reveal_with_fuel(sum_to, 7);
                    }
                } else if i == 3 && j == 1 {
                    assert(a.times(b).entry(3, 1) == 0) by {
                        reveal_with_fuel(sum_to, 7);
                    }
                } else if i == 3 && j == 2 {
                    assert(a.times(b).entry(3, 2) == 0) by {
                        reveal_with_fuel(sum_to, 7);
                    }
                } else {
                    assert(a.times(b).entry(3, 3) == 0) by {
                        reveal_with_fuel(sum_to, 7);
                    }
                }
            }
            let a = c.boundary_matrices@[1].mat();
            let b = c.boundary_matrices@[2].mat();
            assert(a.entry(0, 0) == 1 && a.entry(0, 1) == 1 && a.entry(0, 2) == 0 && a.entry(0, 3) == 0);
            assert(a.entry(1, 0) == -1 && a.entry(1, 1) == 0 && a.entry(1, 2) == 1 && a.entry(1, 3) == 0);
            assert(a.entry(2, 0) == 0 && a.entry(2, 1) == -1 && a.entry(2, 2) == -1 && a.entry(2, 3) == 0);
            assert(a.entry(3, 0) == 1 && a.entry(3, 1) == 0 && a.entry(3, 2) == 0 && a.entry(3, 3) == 1);
            assert(a.entry(4, 0) == 0 && a.entry(4, 1) == 1 && a.entry(4, 2) == 0 && a.entry(4, 3) == -1);
            assert(a.entry(5, 0) == 0 && a.entry(5, 1) == 0 && a.entry(5, 2) == 1 && a.entry(5, 3) == 1);
            assert(b.entry(0, 0) == -1);
            assert(b.entry(1, 0) == 1);
            assert(b.entry(2, 0) == -1);
            assert(b.entry(3, 0) == 1);
            assert forall|i: int, j: int| 0 <= i < 6 && 0 <= j < 1 implies #[trigger] a.times(b).entry(i, j) == 0 by {
                if i == 0 && j == 0 {
                    assert(a.times(b).entry(0, 0) == 0) by {
                        reveal_with_fuel(sum_to, 5);
                    }
                } else if i == 1 && j == 0 {
                    assert(a.times(b).entry(1, 0) == 0) by {
                        reveal_with_fuel(sum_to, 5);
                    }
                } else if i == 2 && j == 0 {
                    assert(a.times(b).entry(2, 0) == 0) by {
                        reveal_with_fuel(sum_to, 5);
                    }
                } else if i == 3 && j == 0 {
                    assert(a.times(b).entry(3, 0) == 0) by {
                        reveal_with_fuel(sum_to, 5);
                    }
                } else if i == 4 && j == 0 {
                    assert(a.times(b).entry(4, 0) == 0) by {
                        reveal_with_fuel(sum_to, 5);
                    }
                } else {
                    assert(a.times(b).entry(5, 0) == 0) by {
                        reveal_with_fuel(sum_to, 5);
                    }
                }
            }
        }
        c
    }

    /// Two isolated vertices (disconnected).
    pub fn two_vertices() -> (c: SimplicialComplex)
        ensures
            c.dimension == 0,
            c.simplex_count@ == seq![2usize],
            c.boundary_matrices@.len() == 0,
            c.well_built(),
    {
        let no_boundaries: Vec<BoundaryMatrix> = Vec::new();
        let c = SimplicialComplex::new(vec![2], no_boundaries);
        c
    }

    /// A single edge (two vertices connected).
    #[verifier::spinoff_prover]
    pub fn single_edge() -> (c: SimplicialComplex)
        ensures
            c.dimension == 1,
            c.simplex_count@ == seq![2usize, 1],
            c.boundary_matrices@.len() == 1,
            c.boundary_matrices@[0].rows == 2,
            c.boundary_matrices@[0].cols == 1,
            c.boundary_matrices@[0].entries@ == seq![-1i32, 1],
            c.well_built(),
    {
        let d1 = BoundaryMatrix::new(2, 1, vec![-1, 1]);
        let c = SimplicialComplex::new(vec![2, 1], vec![d1]);
        c
    }

    /// A square: vertices 0..3, edges (0,1), (1,2), (2,3), (3,0), one face.
    #[verifier::spinoff_prover]
    pub fn square() -> (c: SimplicialComplex)
        ensures
            c.dimension == 2,
            c.simplex_count@ == seq![4usize, 4, 1],
            c.boundary_matrices@.len() == 2,
            c.boundary_matrices@[0].rows == 4,
            c.boundary_matrices@[0].cols == 4,
            c.boundary_matrices@[0].entries@ == seq![-1i32, 0, 0, 1, 1, -1i32, 0, 0, 0, 1, -1i32, 0, 0, 0, 1, -1i32],
            c.boundary_matrices@[1].rows == 4,
            c.boundary_matrices@[1].cols == 1,
            c.boundary_matrices@[1].entries@ == seq![1i32, 1, 1, 1],
            c.well_built(),
    {
        let d1 = BoundaryMatrix::new(4, 4, vec![-1, 0, 0, 1, 1, -1, 0, 0, 0, 1, -1, 0, 0, 0, 1, -1]);
        let d2 = BoundaryMatrix::new(4, 1, vec![1, 1, 1, 1]);
        let c = SimplicialComplex::new(vec![4, 4, 1], vec![d1, d2]);
        proof {
            let a = c.boundary_matrices@[0].mat();
            let b = c.boundary_matrices@[1].mat();
            assert(a.entry(0, 0) == -1 && a.entry(0, 1) == 0 && a.entry(0, 2) == 0 && a.entry(0, 3) == 1);
            assert(a.entry(1, 0) == 1 && a.entry(1, 1) == -1 && a.entry(1, 2) == 0 && a.entry(1, 3) == 0);
            assert(a.entry(2, 0) == 0 && a.entry(2, 1) == 1 && a.entry(2, 2) == -1 && a.entry(2, 3) == 0);
            assert(a.entry(3, 0) == 0 && a.entry(3, 1) == 0 && a.entry(3, 2) == 1 && a.entry(3, 3) == -1);
            assert(b.entry(0, 0) == 1);
            assert(b.entry(1, 0) == 1);
            assert(b.entry(2, 0) == 1);
            assert(b.entry(3, 0) == 1);
            assert forall|i: int, j: int| 0 <= i < 4 && 0 <= j < 1 implies #[trigger] a.times(b).entry(i, j) == 0 by {
                if i == 0 && j == 0 {
                    assert(a.times(b).entry(0, 0) == 0) by {
                        reveal_with_fuel(sum_to, 5);
                    }
                } else if i == 1 && j == 0 {
                    assert(a.times(b).entry(1, 0) == 0) by {
                        reveal_with_fuel(sum_to, 5);
                    }
                } else if i == 2 && j == 0 {
                    assert(a.times(b).entry(2, 0) == 0) by {
                        reveal_with_fuel(sum_to, 5);
                    }
                } else {
                    assert(a.times(b).entry(3, 0) == 0) by {
                        reveal_with_fuel(sum_to, 5);
                    }
                }
            }
        }
        c
    }

    /// Figure eight: two triangles sharing vertex 0; edges (0,1), (1,2), (2,0),
    /// (0,3), (3,4), (4,0) and one face on each triangle.
    #[verifier::spinoff_prover]
    pub fn figure_eight() -> (c: SimplicialComplex)
        ensures
            c.dimension == 2,
            c.simplex_count@ == seq![5usize, 6, 2],
            c.boundary_matrices@.len() == 2,
            c.boundary_matrices@[0].rows == 5,
            c.boundary_matrices@[0].cols == 6,
            c.boundary_matrices@[0].entries@ == seq![-1i32, 0, 1, -1i32, 0, 1, 1, -1i32, 0, 0, 0, 0, 0, 1, -1i32, 0, 0, 0, 0, 0, 0, 1, -1i32, 0, 0, 0, 0, 0, 1, -1i32],
            c.boundary_matrices@[1].rows == 6,
            c.boundary_matrices@[1].cols == 2,
            c.boundary_matrices@[1].entries@ == seq![1i32, 0, 1, 0, 1, 0, 0, 1, 0, 1, 0, 1],
            c.well_built(),
    {
        let d1 = BoundaryMatrix::new(5, 6, vec![-1, 0, 1, -1, 0, 1, 1, -1, 0, 0, 0, 0, 0, 1, -1, 0, 0, 0, 0, 0, 0, 1, -1, 0, 0, 0, 0, 0, 1, -1]);
        let d2 = BoundaryMatrix::new(6, 2, vec![1, 0, 1, 0, 1, 0, 0, 1, 0, 1, 0, 1]);
        let c = SimplicialComplex::new(vec![5, 6, 2], vec![d1, d2]);
        proof {
            let a = c.boundary_matrices@[0].mat();
            let b = c.boundary_matrices@[1].mat();
            assert(a.entry(0, 0) == -1 && a.entry(0, 1) == 0 && a.entry(0, 2) == 1 && a.entry(0, 3) == -1 && a.entry(0, 4) == 0 && a.entry(0, 5) == 1);
            assert(a.entry(1, 0) == 1 && a.entry(1, 1) == -1 && a.entry(1, 2) == 0 && a.entry(1, 3) == 0 && a.entry(1, 4) == 0 && a.entry(1, 5) == 0);
            assert(a.entry(2, 0) == 0 && a.entry(2, 1) == 1 && a.entry(2, 2) == -1 && a.entry(2, 3) == 0 && a.entry(2, 4) == 0 && a.entry(2, 5) == 0);
            assert(a.entry(3, 0) == 0 && a.entry(3, 1) == 0 && a.entry(3, 2) == 0 && a.entry(3, 3) == 1 && a.entry(3, 4) == -1 && a.entry(3, 5) == 0);
            assert(a.entry(4, 0) == 0 && a.entry(4, 1) == 0 && a.entry(4, 2) == 0 && a.entry(4, 3) == 0 && a.entry(4, 4) == 1 && a.entry(4, 5) == -1);
            assert(b.entry(0, 0) == 1 && b.entry(0, 1) == 0);
            assert(b.entry(1, 0) == 1 && b.entry(1, 1) == 0);
            assert(b.entry(2, 0) == 1 && b.entry(2, 1) == 0);
            assert(b.entry(3, 0) == 0 && b.entry(3, 1) == 1);
            assert(b.entry(4, 0) == 0 && b.entry(4, 1) == 1);
            assert(b.entry(5, 0) == 0 && b.entry(5, 1) == 1);
            assert forall|i: int, j: int| 0 <= i < 5 && 0 <= j < 2 implies #[trigger] a.times(b).entry(i, j) == 0 by {
                if i == 0 && j == 0 {
                    assert(a.times(b).entry(0, 0) == 0) by {
                        reveal_with_fuel(sum_to, 7);
                    }
                } else if i == 0 && j == 1 {
                    assert(a.times(b).entry(0, 1) == 0) by {
                        reveal_with_fuel(sum_to, 7);
                    }
                } else if i == 1 && j == 0 {
                    assert(a.times(b).entry(1, 0) == 0) by {
                        reveal_with_fuel(sum_to, 7);
                    }
                } else if i == 1 && j == 1 {
                    assert(a.times(b).entry(1, 1) == 0) by {
                        reveal_with_fuel(sum_to, 7);
                    }
                } else if i == 2 && j == 0 {
                    assert(a.times(b).entry(2, 0) == 0) by {
                        reveal_with_fuel(sum_to, 7);
                    }
                } else if i == 2 && j == 1 {
                    assert(a.times(b).entry(2, 1) == 0) by {
                        reveal_with_fuel(sum_to, 7);
                    }
                } else if i == 3 && j == 0 {
                    assert(a.times(b).entry(3, 0) == 0) by {
                        reveal_with_fuel(sum_to, 7);
                    }
                } else if i == 3 && j == 1 {
                    assert(a.times(b).entry(3, 1) == 0) by {
                        reveal_with_fuel(sum_to, 7);
                    }
                } else if i == 4 && j == 0 {
                    assert(a.times(b).entry(4, 0) == 0) by {
                        reveal_with_fuel(sum_to, 7);
                    }
                } else {
                    assert(a.times(b).entry(4, 1) == 0) by {
                        reveal_with_fuel(sum_to, 7);
                    }
                }
            }
        }
        c
    }

    /// A small torus-like cell complex: one vertex, two loops a and b and one
    /// face, all of whose boundaries vanish.
    #[verifier::spinoff_prover]
    pub fn torus_small() -> (c: SimplicialComplex)
        ensures
            c.dimension == 2,
            c.simplex_count@ == seq![1usize, 2, 1],
            c.boundary_matrices@.len() == 2,
            c.boundary_matrices@[0].rows == 1,
            c.boundary_matrices@[0].cols == 2,
            c.boundary_matrices@[0].entries@ == seq![0i32, 0],
            c.boundary_matrices@[1].rows == 2,
            c.boundary_matrices@[1].cols == 1,
            c.boundary_matrices@[1].entries@ == seq![0i32, 0],
            c.well_built(),
    {
        let d1 = BoundaryMatrix::new(1, 2, vec![0, 0]);
        let d2 = BoundaryMatrix::new(2, 1, vec![0, 0]);
        let c = SimplicialComplex::new(vec![1, 2, 1], vec![d1, d2]);
        proof {
            let a = c.boundary_matrices@[0].mat();
            let b = c.boundary_matrices@[1].mat();
            assert(a.entry(0, 0) == 0 && a.entry(0, 1) == 0);
            assert(b.entry(0, 0) == 0);
            assert(b.entry(1, 0) == 0);
            assert forall|i: int, j: int| 0 <= i < 1 && 0 <= j < 1 implies #[trigger] a.times(b).entry(i, j) == 0 by {
                {
                    assert(a.times(b).entry(0, 0) == 0) by {
                        reveal_with_fuel(sum_to, 3);
                    }
                }
            }
        }
        c
    }

    /// The empty complex.
    pub fn empty() -> (c: SimplicialComplex)
        ensures
            c.dimension == 0,
            c.simplex_count@ == seq![0usize],
            c.boundary_matrices@.len() == 0,
            c.well_built(),
    {
        let no_boundaries: Vec<BoundaryMatrix> = Vec::new();
        let c = SimplicialComplex::new(vec![0], no_boundaries);
        c
    }

}

} // verus!
