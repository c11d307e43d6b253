//! Integer matrices: the mathematical model used by every contract of the
//! library, the algebra of finite sums behind it, and the exec matrix of
//! `i128` entries that products of boundary matrices are stored in.

use vstd::prelude::*;
use vstd::arithmetic::div_mod::lemma_fundamental_div_mod_converse;

verus! {

/// Position of entry `(i, j)` in the row-major storage of a matrix with
/// `cols` columns.
pub open spec fn idx(cols: int, i: int, j: int) -> int {
    i * cols + j
}

/// `f(0) + f(1) + ... + f(n - 1)`.
pub open spec fn sum_to(n: nat, f: spec_fn(int) -> int) -> int
    decreases n,
{
    if n == 0 {
        0
    } else {
        sum_to((n - 1) as nat, f) + f(n - 1)
    }
}

/// A matrix with integer entries, as a mathematical object.  Only the
/// entries with `0 <= i < rows` and `0 <= j < cols` are meaningful.
pub struct Mat {
    pub rows: nat,
    pub cols: nat,
    pub at: spec_fn(int, int) -> int,
}

/// The bound `2^62` on a product of two `i32` values.
pub open spec fn term_bound() -> int {
    0x4000_0000_0000_0000
}

impl Mat {
    pub open spec fn entry(self, i: int, j: int) -> int {
        (self.at)(i, j)
    }

    /// Same shape and the same entries in range.
    pub open spec fn same(self, o: Mat) -> bool {
        &&& self.rows == o.rows
        &&& self.cols == o.cols
        &&& forall|i: int, j: int|
            0 <= i < self.rows && 0 <= j < self.cols ==> #[trigger] self.entry(i, j) == o.entry(i, j)
    }

    /// Every entry in range is zero.
    pub open spec fn is_zero(self) -> bool {
        forall|i: int, j: int| 0 <= i < self.rows && 0 <= j < self.cols ==> #[trigger] self.entry(i, j) == 0
    }

    /// Nalgebra's notion of an empty matrix: it has no entry at all.
    pub open spec fn is_empty(self) -> bool {
        self.rows * self.cols == 0
    }

    /// Every entry in range lies in `[-b, b]`.
    pub open spec fn bounded_by(self, b: int) -> bool {
        forall|i: int, j: int|
            0 <= i < self.rows && 0 <= j < self.cols ==> -b <= #[trigger] self.entry(i, j) <= b
    }

    pub open spec fn is_symmetric(self) -> bool {
        &&& self.rows == self.cols
        &&& forall|i: int, j: int|
            0 <= i < self.rows && 0 <= j < self.cols ==> #[trigger] self.entry(i, j) == self.entry(j, i)
    }

    pub open spec fn zeros(rows: nat, cols: nat) -> Mat {
        Mat { rows, cols, at: |i: int, j: int| 0 }
    }

    pub open spec fn transpose(self) -> Mat {
        Mat { rows: self.cols, cols: self.rows, at: |i: int, j: int| self.entry(j, i) }
    }

    /// The summands of entry `(i, j)` of `self * b`.
    pub open spec fn row_col(self, b: Mat, i: int, j: int) -> spec_fn(int) -> int {
        |l: int| self.entry(i, l) * b.entry(l, j)
    }

    /// Matrix product `self * b` (meaningful when `self.cols == b.rows`).
    pub open spec fn times(self, b: Mat) -> Mat {
        Mat { rows: self.rows, cols: b.cols, at: |i: int, j: int| sum_to(self.cols, self.row_col(b, i, j)) }
    }

    /// Entrywise sum (meaningful when the shapes agree).
    pub open spec fn plus(self, b: Mat) -> Mat {
        Mat { rows: self.rows, cols: self.cols, at: |i: int, j: int| self.entry(i, j) + b.entry(i, j) }
    }

    /// The summands of entry `i` of `self * x`.
    pub open spec fn row_vec(self, x: Seq<int>, i: int) -> spec_fn(int) -> int {
        |j: int| self.entry(i, j) * x[j]
    }

    /// Matrix-vector product `self * x` (meaningful when `x.len() == self.cols`).
    pub open spec fn apply(self, x: Seq<int>) -> Seq<int> {
        Seq::new(self.rows, |i: int| sum_to(self.cols, self.row_vec(x, i)))
    }
}

/// The standard inner product of two vectors of the length of `x`.
pub open spec fn inner(x: Seq<int>, y: Seq<int>) -> int {
    sum_to(x.len(), |i: int| x[i] * y[i])
}

// ---------------------------------------------------------------------
// Index arithmetic
// ---------------------------------------------------------------------

/// An in-range entry has an in-range position.
pub proof fn lemma_idx_in_range(rows: int, cols: int, i: int, j: int)
    requires
        0 <= i < rows,
        0 <= j < cols,
    ensures
        0 <= idx(cols, i, j) < rows * cols,
{
    assert(0 <= i * cols) by (nonlinear_arith)
        requires
            0 <= i,
            0 <= cols,
    ;
    assert(i * cols + j < rows * cols) by (nonlinear_arith)
        requires
            0 <= i < rows,
            0 <= j < cols,
    ;
}

/// A position below `rows * cols` names an in-range entry.
pub proof fn lemma_flat_in_range(rows: int, cols: int, t: int)
    requires
        0 <= t < rows * cols,
        0 <= rows,
        0 <= cols,
    ensures
        cols > 0,
        0 <= t / cols < rows,
        0 <= t % cols < cols,
        t == idx(cols, t / cols, t % cols),
{
    if cols == 0 {
        assert(rows * cols == 0) by (nonlinear_arith)
            requires
                cols == 0,
        ;
    }
    assert(cols > 0);
    assert(t == cols * (t / cols) + t % cols) by (nonlinear_arith)
        requires
            cols > 0,
    ;
    assert(0 <= t % cols < cols) by (nonlinear_arith)
        requires
            cols > 0,
    ;
    assert(t / cols >= 0) by (nonlinear_arith)
        requires
            cols > 0,
            t >= 0,
    ;
    assert(t / cols < rows) by (nonlinear_arith)
        requires
            cols > 0,
            0 <= t < rows * cols,
            t == cols * (t / cols) + t % cols,
            0 <= t % cols,
    ;
    assert(t == (t / cols) * cols + t % cols) by (nonlinear_arith)
        requires
            t == cols * (t / cols) + t % cols,
    ;
}

/// The position of an in-range entry gives back its row and column.
pub proof fn lemma_idx_div_mod(cols: int, i: int, j: int)
    requires
        0 <= i,
        0 <= j < cols,
    ensures
        idx(cols, i, j) / cols == i,
        idx(cols, i, j) % cols == j,
{
    lemma_fundamental_div_mod_converse(idx(cols, i, j), cols, i, j);
}

/// A product of two `i32` values lies within `[-2^62, 2^62]`.
pub proof fn lemma_i32_product_bound(a: int, b: int)
    requires
        -0x8000_0000 <= a <= 0x7fff_ffff,
        -0x8000_0000 <= b <= 0x7fff_ffff,
    ensures
        -term_bound() <= a * b <= term_bound(),
{
    assert(-0x4000_0000_0000_0000 <= a * b <= 0x4000_0000_0000_0000) by (nonlinear_arith)
        requires
            -0x8000_0000 <= a <= 0x7fff_ffff,
            -0x8000_0000 <= b <= 0x7fff_ffff,
    ;
}

// ---------------------------------------------------------------------
// Finite sums
// ---------------------------------------------------------------------

/// Sums of functions that agree below `n` agree.
pub proof fn lemma_sum_ext(n: nat, f: spec_fn(int) -> int, g: spec_fn(int) -> int)
    requires
        forall|l: int| 0 <= l < n ==> #[trigger] f(l) == g(l),
    ensures
        sum_to(n, f) == sum_to(n, g),
    decreases n,
{
    if n > 0 {
        lemma_sum_ext((n - 1) as nat, f, g);
    }
}

/// A sum of zeros is zero.
pub proof fn lemma_sum_zero(n: nat, f: spec_fn(int) -> int)
    requires
        forall|l: int| 0 <= l < n ==> #[trigger] f(l) == 0,
    ensures
        sum_to(n, f) == 0,
    decreases n,
{
    if n > 0 {
        lemma_sum_zero((n - 1) as nat, f);
    }
}

/// A sum of non-negative terms is non-negative.
pub proof fn lemma_sum_nonneg(n: nat, f: spec_fn(int) -> int)
    requires
        forall|l: int| 0 <= l < n ==> #[trigger] f(l) >= 0,
    ensures
        sum_to(n, f) >= 0,
    decreases n,
{
    if n > 0 {
        lemma_sum_nonneg((n - 1) as nat, f);
    }
}

/// The sum of a pointwise sum is the sum of the sums.
pub proof fn lemma_sum_plus(n: nat, f: spec_fn(int) -> int, g: spec_fn(int) -> int)
    ensures
        sum_to(n, |l: int| f(l) + g(l)) == sum_to(n, f) + sum_to(n, g),
    decreases n,
{
    if n > 0 {
        lemma_sum_plus((n - 1) as nat, f, g);
    }
}

/// A constant factor comes out of a sum.
pub proof fn lemma_sum_scale(n: nat, f: spec_fn(int) -> int, c: int)
    ensures
        sum_to(n, |l: int| f(l) * c) == sum_to(n, f) * c,
    decreases n,
{
    if n > 0 {
        lemma_sum_scale((n - 1) as nat, f, c);
        let s = sum_to((n - 1) as nat, f);
        let v = f(n - 1);
        assert((s + v) * c == s * c + v * c) by (nonlinear_arith);
    }
}

/// A sum splits at any point: `Σ_{l < p+q} f(l) = Σ_{l < p} f(l) + Σ_{l < q} f(p + l)`.
pub proof fn lemma_sum_split(p: nat, q: nat, f: spec_fn(int) -> int)
    ensures
        sum_to(p + q, f) == sum_to(p, f) + sum_to(q, |l: int| f(l + p)),
    decreases q,
{
    if q > 0 {
        lemma_sum_split(p, (q - 1) as nat, f);
    }
}

/// The order of a double sum does not matter.
pub proof fn lemma_sum_swap(r: nat, c: nat, f: spec_fn(int, int) -> int)
    ensures
        sum_to(r, |i: int| sum_to(c, |j: int| f(i, j))) == sum_to(c, |j: int| sum_to(r, |i: int| f(i, j))),
    decreases r,
{
    let lhs_outer = |i: int| sum_to(c, |j: int| f(i, j));
    let inner_r = |j: int| sum_to(r, |i: int| f(i, j));
    if r == 0 {
        assert forall|j: int| 0 <= j < c implies #[trigger] inner_r(j) == 0 by {
        }
        lemma_sum_zero(c, inner_r);
    } else {
        let r1 = (r - 1) as nat;
        lemma_sum_swap(r1, c, f);
        let inner_r1 = |j: int| sum_to(r1, |i: int| f(i, j));
        let last = |j: int| f(r1 as int, j);
        let both = |j: int| inner_r1(j) + last(j);
        assert forall|j: int| 0 <= j < c implies #[trigger] inner_r(j) == both(j) by {
        }
        lemma_sum_ext(c, inner_r, both);
        lemma_sum_plus(c, inner_r1, last);
        assert(sum_to(r, lhs_outer) == sum_to(r1, lhs_outer) + lhs_outer(r1 as int));
        assert(lhs_outer(r1 as int) == sum_to(c, last));
        assert(sum_to(r1, lhs_outer) == sum_to(c, inner_r1));
    }
}

// ---------------------------------------------------------------------
// Algebra of the model
// ---------------------------------------------------------------------

/// The inner product is symmetric.
pub proof fn lemma_inner_comm(x: Seq<int>, y: Seq<int>)
    requires
        x.len() == y.len(),
    ensures
        inner(x, y) == inner(y, x),
{
    let f = |i: int| x[i] * y[i];
    let g = |i: int| y[i] * x[i];
    assert forall|i: int| 0 <= i < x.len() implies #[trigger] f(i) == g(i) by {
        assert(x[i] * y[i] == y[i] * x[i]) by (nonlinear_arith);
    }
    lemma_sum_ext(x.len(), f, g);
}

/// `<x, x>` is a sum of squares, hence non-negative.
pub proof fn lemma_inner_self_nonneg(x: Seq<int>)
    ensures
        inner(x, x) >= 0,
{
    let f = |i: int| x[i] * x[i];
    assert forall|i: int| 0 <= i < x.len() implies #[trigger] f(i) >= 0 by {
        assert(x[i] * x[i] >= 0) by (nonlinear_arith);
    }
    lemma_sum_nonneg(x.len(), f);
}

/// The inner product is additive in its second argument.
pub proof fn lemma_inner_plus(x: Seq<int>, u: Seq<int>, v: Seq<int>, w: Seq<int>)
    requires
        u.len() == x.len(),
        v.len() == x.len(),
        w.len() == x.len(),
        forall|i: int| 0 <= i < x.len() ==> #[trigger] w[i] == u[i] + v[i],
    ensures
        inner(x, w) == inner(x, u) + inner(x, v),
{
    let f = |i: int| x[i] * u[i];
    let g = |i: int| x[i] * v[i];
    let h = |i: int| x[i] * w[i];
    let fg = |l: int| f(l) + g(l);
    assert forall|i: int| 0 <= i < x.len() implies #[trigger] h(i) == fg(i) by {
        let a = x[i];
        let b = u[i];
        let c = v[i];
        assert(a * (b + c) == a * b + a * c) by (nonlinear_arith);
    }
    lemma_sum_ext(x.len(), h, fg);
    lemma_sum_plus(x.len(), f, g);
}

/// The inner product with the zero vector is zero.
pub proof fn lemma_inner_zero(x: Seq<int>, z: Seq<int>)
    requires
        forall|i: int| 0 <= i < x.len() ==> #[trigger] z[i] == 0,
    ensures
        inner(x, z) == 0,
{
    let f = |i: int| x[i] * z[i];
    assert forall|i: int| 0 <= i < x.len() implies #[trigger] f(i) == 0 by {
        assert(z[i] == 0);
    }
    lemma_sum_zero(x.len(), f);
}

/// Every entry of a vector is zero.
pub open spec fn vanishes(v: Seq<int>) -> bool {
    forall|i: int| 0 <= i < v.len() ==> #[trigger] v[i] == 0
}

/// An empty matrix sends every vector to zero.
pub proof fn lemma_empty_apply(a: Mat, x: Seq<int>)
    requires
        a.is_empty(),
    ensures
        vanishes(a.apply(x)),
{
    assert(a.rows == 0 || a.cols == 0) by (nonlinear_arith)
        requires
            a.rows * a.cols == 0,
    ;
    lemma_apply_zero(a, x);
}

/// A vector whose squared length is zero vanishes.
pub proof fn lemma_inner_self_zero(u: Seq<int>)
    requires
        inner(u, u) == 0,
    ensures
        vanishes(u),
{
    let f = |i: int| u[i] * u[i];
    assert forall|i: int| 0 <= i < u.len() implies #[trigger] f(i) >= 0 by {
        assert(u[i] * u[i] >= 0) by (nonlinear_arith);
    }
    lemma_sum_nonneg_zero(u.len(), f);
    assert forall|i: int| 0 <= i < u.len() implies #[trigger] u[i] == 0 by {
        assert(f(i) == 0);
        assert(u[i] * u[i] == 0 ==> u[i] == 0) by (nonlinear_arith);
    }
}

/// A vanishing sum of non-negative terms has every term zero.
pub proof fn lemma_sum_nonneg_zero(n: nat, f: spec_fn(int) -> int)
    requires
        forall|l: int| 0 <= l < n ==> #[trigger] f(l) >= 0,
        sum_to(n, f) == 0,
    ensures
        forall|l: int| 0 <= l < n ==> #[trigger] f(l) == 0,
    decreases n,
{
    if n > 0 {
        lemma_sum_nonneg((n - 1) as nat, f);
        lemma_sum_nonneg_zero((n - 1) as nat, f);
    }
}

/// The inner product with the zero vector is zero, whichever side it is on.
pub proof fn lemma_inner_zero_left(z: Seq<int>, y: Seq<int>)
    requires
        vanishes(z),
    ensures
        inner(z, y) == 0,
{
    let f = |i: int| z[i] * y[i];
    assert forall|i: int| 0 <= i < z.len() implies #[trigger] f(i) == 0 by {
        assert(z[i] == 0);
    }
    lemma_sum_zero(z.len(), f);
}

/// The inner product is additive over three summands in its second
/// argument.
pub proof fn lemma_inner_sum3(x: Seq<int>, a: Seq<int>, b: Seq<int>, c: Seq<int>, w: Seq<int>)
    requires
        a.len() == x.len(),
        b.len() == x.len(),
        c.len() == x.len(),
        w.len() == x.len(),
        forall|i: int| 0 <= i < x.len() ==> #[trigger] w[i] == a[i] + b[i] + c[i],
    ensures
        inner(x, w) == inner(x, a) + inner(x, b) + inner(x, c),
{
    let ab = Seq::new(x.len(), |i: int| a[i] + b[i]);
    lemma_inner_plus(x, a, b, ab);
    lemma_inner_plus(x, ab, c, w);
}

/// Matrices act additively: `A (x + y) = A x + A y`.
pub proof fn lemma_apply_add(a: Mat, x: Seq<int>, y: Seq<int>, z: Seq<int>)
    requires
        forall|j: int| 0 <= j < a.cols ==> #[trigger] z[j] == x[j] + y[j],
    ensures
        forall|i: int| 0 <= i < a.rows ==> #[trigger] a.apply(z)[i] == a.apply(x)[i] + a.apply(y)[i],
{
    assert forall|i: int| 0 <= i < a.rows implies #[trigger] a.apply(z)[i] == a.apply(x)[i] + a.apply(y)[i] by {
        let f = a.row_vec(x, i);
        let g = a.row_vec(y, i);
        let fg = |l: int| f(l) + g(l);
        assert forall|j: int| 0 <= j < a.cols implies #[trigger] a.row_vec(z, i)(j) == fg(j) by {
            let p = a.entry(i, j);
            let u = x[j];
            let v = y[j];
            assert(p * (u + v) == p * u + p * v) by (nonlinear_arith);
        }
        lemma_sum_ext(a.cols, a.row_vec(z, i), fg);
        lemma_sum_plus(a.cols, f, g);
    }
}

/// Matrices act linearly: `A (x - y) = A x - A y`.
pub proof fn lemma_apply_sub(a: Mat, x: Seq<int>, y: Seq<int>, z: Seq<int>)
    requires
        forall|j: int| 0 <= j < a.cols ==> #[trigger] z[j] == x[j] - y[j],
    ensures
        forall|i: int| 0 <= i < a.rows ==> #[trigger] a.apply(z)[i] == a.apply(x)[i] - a.apply(y)[i],
{
    assert forall|i: int| 0 <= i < a.rows implies #[trigger] a.apply(z)[i] == a.apply(x)[i] - a.apply(y)[i] by {
        let f = a.row_vec(x, i);
        let g = a.row_vec(y, i);
        let ng = |l: int| g(l) * (-1);
        let fng = |l: int| f(l) + ng(l);
        assert forall|j: int| 0 <= j < a.cols implies #[trigger] a.row_vec(z, i)(j) == fng(j) by {
            let p = a.entry(i, j);
            let u = x[j];
            let v = y[j];
            assert(p * (u - v) == p * u + (p * v) * (-1)) by (nonlinear_arith);
        }
        lemma_sum_ext(a.cols, a.row_vec(z, i), fng);
        lemma_sum_plus(a.cols, f, ng);
        lemma_sum_scale(a.cols, g, -1);
    }
}

/// Transposition is adjunction: `<D x, y> = <x, D^T y>`.
pub proof fn lemma_adjoint(d: Mat, x: Seq<int>, y: Seq<int>)
    requires
        x.len() == d.cols,
        y.len() == d.rows,
    ensures
        inner(d.apply(x), y) == inner(x, d.transpose().apply(y)),
{
    let f = |i: int, j: int| d.entry(i, j) * x[j] * y[i];
    let dx = d.apply(x);
    let t = d.transpose();
    let dty = t.apply(y);
    // <D x, y> = sum_i sum_j f(i, j)
    let lhs = |i: int| dx[i] * y[i];
    let rows_of_f = |i: int| sum_to(d.cols, |j: int| f(i, j));
    assert forall|i: int| 0 <= i < d.rows implies #[trigger] lhs(i) == rows_of_f(i) by {
        let scaled = |l: int| d.row_vec(x, i)(l) * y[i];
        let fi = |j: int| f(i, j);
        lemma_sum_scale(d.cols, d.row_vec(x, i), y[i]);
        assert forall|j: int| 0 <= j < d.cols implies #[trigger] scaled(j) == fi(j) by {
        }
        lemma_sum_ext(d.cols, scaled, fi);
    }
    lemma_sum_ext(d.rows, lhs, rows_of_f);
    // <x, D^T y> = sum_j sum_i f(i, j)
    let rhs = |j: int| x[j] * dty[j];
    let cols_of_f = |j: int| sum_to(d.rows, |i: int| f(i, j));
    assert forall|j: int| 0 <= j < d.cols implies #[trigger] rhs(j) == cols_of_f(j) by {
        let scaled = |l: int| t.row_vec(y, j)(l) * x[j];
        let fj = |i: int| f(i, j);
        lemma_sum_scale(d.rows, t.row_vec(y, j), x[j]);
        assert forall|i: int| 0 <= i < d.rows implies #[trigger] scaled(i) == fj(i) by {
            let a = d.entry(i, j);
            let b = y[i];
            let c = x[j];
            assert(a * b * c == a * c * b) by (nonlinear_arith);
        }
        lemma_sum_ext(d.rows, scaled, fj);
        let u = x[j];
        let v = dty[j];
        assert(u * v == v * u) by (nonlinear_arith);
    }
    lemma_sum_ext(d.cols, rhs, cols_of_f);
    lemma_sum_swap(d.rows, d.cols, f);
}

/// Applying a product is applying its factors in turn: `(A B) x = A (B x)`.
pub proof fn lemma_apply_times(a: Mat, b: Mat, x: Seq<int>)
    requires
        a.cols == b.rows,
        x.len() == b.cols,
    ensures
        a.times(b).apply(x) =~= a.apply(b.apply(x)),
{
    let ab = a.times(b);
    let bx = b.apply(x);
    assert forall|i: int| 0 <= i < a.rows implies #[trigger] ab.apply(x)[i] == a.apply(bx)[i] by {
        let f = |l: int, j: int| a.entry(i, l) * b.entry(l, j) * x[j];
        // (A B x)_i = sum_j (sum_l a(i,l) b(l,j)) x_j = sum_j sum_l f(l, j)
        let lhs = ab.row_vec(x, i);
        let cols_of_f = |j: int| sum_to(a.cols, |l: int| f(l, j));
        assert forall|j: int| 0 <= j < b.cols implies #[trigger] lhs(j) == cols_of_f(j) by {
            let scaled = |l: int| a.row_col(b, i, j)(l) * x[j];
            let fj = |l: int| f(l, j);
            lemma_sum_scale(a.cols, a.row_col(b, i, j), x[j]);
            lemma_sum_ext(a.cols, scaled, fj);
        }
        lemma_sum_ext(b.cols, lhs, cols_of_f);
        // (A (B x))_i = sum_l a(i,l) sum_j b(l,j) x_j = sum_l sum_j f(l, j)
        let rhs = a.row_vec(bx, i);
        let rows_of_f = |l: int| sum_to(b.cols, |j: int| f(l, j));
        assert forall|l: int| 0 <= l < a.cols implies #[trigger] rhs(l) == rows_of_f(l) by {
            let scaled = |m: int| b.row_vec(x, l)(m) * a.entry(i, l);
            let fl = |j: int| f(l, j);
            lemma_sum_scale(b.cols, b.row_vec(x, l), a.entry(i, l));
            assert forall|j: int| 0 <= j < b.cols implies #[trigger] scaled(j) == fl(j) by {
                let p = a.entry(i, l);
                let q = b.entry(l, j);
                let s = x[j];
                assert(q * s * p == p * q * s) by (nonlinear_arith);
            }
            lemma_sum_ext(b.cols, scaled, fl);
            let p = a.entry(i, l);
            let v = bx[l];
            assert(p * v == v * p) by (nonlinear_arith);
        }
        lemma_sum_ext(a.cols, rhs, rows_of_f);
        lemma_sum_swap(a.cols, b.cols, f);
    }
}

/// Matrices that agree in range act alike on vectors.
pub proof fn lemma_apply_same(a: Mat, b: Mat, x: Seq<int>)
    requires
        a.same(b),
    ensures
        a.apply(x) =~= b.apply(x),
{
    assert forall|i: int| 0 <= i < a.rows implies #[trigger] a.apply(x)[i] == b.apply(x)[i] by {
        assert forall|j: int| 0 <= j < a.cols implies #[trigger] a.row_vec(x, i)(j) == b.row_vec(x, i)(j) by {
            assert(a.entry(i, j) == b.entry(i, j));
        }
        lemma_sum_ext(a.cols, a.row_vec(x, i), b.row_vec(x, i));
    }
}

/// `A A^T` is symmetric.
pub proof fn lemma_gram_symmetric(a: Mat)
    ensures
        a.times(a.transpose()).is_symmetric(),
{
    let g = a.times(a.transpose());
    assert forall|i: int, j: int| 0 <= i < g.rows && 0 <= j < g.cols implies #[trigger] g.entry(i, j)
        == g.entry(j, i) by {
        let t = a.transpose();
        assert forall|l: int| 0 <= l < a.cols implies #[trigger] a.row_col(t, i, j)(l) == a.row_col(t, j, i)(
            l,
        ) by {
            let p = a.entry(i, l);
            let q = a.entry(j, l);
            assert(p * q == q * p) by (nonlinear_arith);
        }
        lemma_sum_ext(a.cols, a.row_col(t, i, j), a.row_col(t, j, i));
    }
}

/// Matrices that agree in range are zero together.
pub proof fn lemma_same_zero(a: Mat, b: Mat)
    requires
        a.same(b),
    ensures
        a.is_zero() == b.is_zero(),
{
    if a.is_zero() {
        assert forall|i: int, j: int| 0 <= i < b.rows && 0 <= j < b.cols implies #[trigger] b.entry(i, j) == 0 by {
            assert(a.entry(i, j) == 0);
        }
    }
    if b.is_zero() {
        assert forall|i: int, j: int| 0 <= i < a.rows && 0 <= j < a.cols implies #[trigger] a.entry(i, j) == 0 by {
            assert(b.entry(i, j) == 0);
        }
    }
}

/// Every matrix sends the zero vector to zero.
pub proof fn lemma_apply_to_zero(a: Mat, x: Seq<int>)
    requires
        forall|j: int| 0 <= j < a.cols ==> #[trigger] x[j] == 0,
    ensures
        forall|i: int| 0 <= i < a.rows ==> #[trigger] a.apply(x)[i] == 0,
{
    assert forall|i: int| 0 <= i < a.rows implies #[trigger] a.apply(x)[i] == 0 by {
        assert forall|j: int| 0 <= j < a.cols implies #[trigger] a.row_vec(x, i)(j) == 0 by {
            assert(x[j] == 0);
        }
        lemma_sum_zero(a.cols, a.row_vec(x, i));
    }
}

/// Products of matrices that agree in range agree in range.
pub proof fn lemma_times_same(a: Mat, a2: Mat, b: Mat, b2: Mat)
    requires
        a.same(a2),
        b.same(b2),
        a.cols == b.rows,
    ensures
        a.times(b).same(a2.times(b2)),
{
    assert forall|i: int, j: int| 0 <= i < a.rows && 0 <= j < b.cols implies #[trigger] a.times(b).entry(i, j)
        == a2.times(b2).entry(i, j) by {
        assert forall|l: int| 0 <= l < a.cols implies #[trigger] a.row_col(b, i, j)(l) == a2.row_col(b2, i, j)(l) by {
            assert(a.entry(i, l) == a2.entry(i, l));
            assert(b.entry(l, j) == b2.entry(l, j));
        }
        lemma_sum_ext(a.cols, a.row_col(b, i, j), a2.row_col(b2, i, j));
    }
}

/// Transposing twice gives the matrix back.
pub proof fn lemma_transpose_transpose(a: Mat)
    ensures
        a.transpose().transpose().same(a),
{
}

/// `(A B)^T = B^T A^T`.
pub proof fn lemma_transpose_times(a: Mat, b: Mat)
    requires
        a.cols == b.rows,
    ensures
        b.transpose().times(a.transpose()).same(a.times(b).transpose()),
{
    let bt = b.transpose();
    let at = a.transpose();
    assert forall|i: int, j: int| 0 <= i < b.cols && 0 <= j < a.rows implies #[trigger] bt.times(at).entry(i, j)
        == a.times(b).transpose().entry(i, j) by {
        assert forall|l: int| 0 <= l < b.rows implies #[trigger] bt.row_col(at, i, j)(l) == a.row_col(b, j, i)(l) by {
            let p = b.entry(l, i);
            let q = a.entry(j, l);
            assert(p * q == q * p) by (nonlinear_arith);
        }
        lemma_sum_ext(b.rows, bt.row_col(at, i, j), a.row_col(b, j, i));
    }
}

/// A sum of matrices acts as the sum of their actions.
pub proof fn lemma_apply_plus(a: Mat, b: Mat, x: Seq<int>)
    requires
        a.rows == b.rows,
        a.cols == b.cols,
    ensures
        forall|i: int| 0 <= i < a.rows ==> #[trigger] a.plus(b).apply(x)[i] == a.apply(x)[i] + b.apply(x)[i],
{
    assert forall|i: int| 0 <= i < a.rows implies #[trigger] a.plus(b).apply(x)[i] == a.apply(x)[i] + b.apply(
        x,
    )[i] by {
        let f = a.row_vec(x, i);
        let g = b.row_vec(x, i);
        let fg = |l: int| f(l) + g(l);
        assert forall|j: int| 0 <= j < a.cols implies #[trigger] a.plus(b).row_vec(x, i)(j) == fg(j) by {
            let p = a.entry(i, j);
            let q = b.entry(i, j);
            let v = x[j];
            assert((p + q) * v == p * v + q * v) by (nonlinear_arith);
        }
        lemma_sum_ext(a.cols, a.plus(b).row_vec(x, i), fg);
        lemma_sum_plus(a.cols, f, g);
    }
}

/// A matrix that is zero in range sends every vector to zero.
pub proof fn lemma_apply_zero(a: Mat, x: Seq<int>)
    requires
        a.is_zero(),
    ensures
        forall|i: int| 0 <= i < a.rows ==> #[trigger] a.apply(x)[i] == 0,
{
    assert forall|i: int| 0 <= i < a.rows implies #[trigger] a.apply(x)[i] == 0 by {
        assert forall|j: int| 0 <= j < a.cols implies #[trigger] a.row_vec(x, i)(j) == 0 by {
            assert(a.entry(i, j) == 0);
        }
        lemma_sum_zero(a.cols, a.row_vec(x, i));
    }
}

// ---------------------------------------------------------------------
// Orthogonal splitting
// ---------------------------------------------------------------------

/// Column j of a matrix, as a vector.
pub open spec fn column(a: Mat, j: int) -> Seq<int> {
    Seq::new(a.rows, |i: int| a.entry(i, j))
}

/// The matrix made of the first n columns of `a`.
pub open spec fn first_columns(a: Mat, n: nat) -> Mat {
    Mat { rows: a.rows, cols: n, at: a.at }
}

/// The inner product is linear in its second argument:
/// `<x, p u + q v> = p <x, u> + q <x, v>`.
pub proof fn lemma_inner_lin(x: Seq<int>, u: Seq<int>, v: Seq<int>, w: Seq<int>, p: int, q: int)
    requires
        forall|i: int| 0 <= i < x.len() ==> #[trigger] w[i] == p * u[i] + q * v[i],
    ensures
        inner(x, w) == p * inner(x, u) + q * inner(x, v),
{
    let f = |i: int| x[i] * u[i];
    let g = |i: int| x[i] * v[i];
    let fp = |i: int| f(i) * p;
    let gq = |i: int| g(i) * q;
    let both = |i: int| fp(i) + gq(i);
    let h = |i: int| x[i] * w[i];
    assert forall|i: int| 0 <= i < x.len() implies #[trigger] h(i) == both(i) by {
        let a = x[i];
        let b = u[i];
        let c = v[i];
        assert(a * (p * b + q * c) == a * b * p + a * c * q) by (nonlinear_arith);
    }
    lemma_sum_ext(x.len(), h, both);
    lemma_sum_plus(x.len(), fp, gq);
    lemma_sum_scale(x.len(), f, p);
    lemma_sum_scale(x.len(), g, q);
    assert(sum_to(x.len(), f) * p == p * sum_to(x.len(), f)) by (nonlinear_arith);
    assert(sum_to(x.len(), g) * q == q * sum_to(x.len(), g)) by (nonlinear_arith);
}

/// Matrices act linearly: `A (p x + q y) = p A x + q A y`.
pub proof fn lemma_apply_lin(a: Mat, x: Seq<int>, y: Seq<int>, z: Seq<int>, p: int, q: int)
    requires
        forall|j: int| 0 <= j < a.cols ==> #[trigger] z[j] == p * x[j] + q * y[j],
    ensures
        forall|i: int| 0 <= i < a.rows ==> #[trigger] a.apply(z)[i] == p * a.apply(x)[i] + q * a.apply(y)[i],
{
    assert forall|i: int| 0 <= i < a.rows implies #[trigger] a.apply(z)[i] == p * a.apply(x)[i] + q * a.apply(
        y,
    )[i] by {
        let f = a.row_vec(x, i);
        let g = a.row_vec(y, i);
        let fp = |l: int| f(l) * p;
        let gq = |l: int| g(l) * q;
        let both = |l: int| fp(l) + gq(l);
        assert forall|j: int| 0 <= j < a.cols implies #[trigger] a.row_vec(z, i)(j) == both(j) by {
            let e = a.entry(i, j);
            let u = x[j];
            let v = y[j];
            assert(e * (p * u + q * v) == e * u * p + e * v * q) by (nonlinear_arith);
        }
        lemma_sum_ext(a.cols, a.row_vec(z, i), both);
        lemma_sum_plus(a.cols, fp, gq);
        lemma_sum_scale(a.cols, f, p);
        lemma_sum_scale(a.cols, g, q);
        assert(sum_to(a.cols, f) * p == p * sum_to(a.cols, f)) by (nonlinear_arith);
        assert(sum_to(a.cols, g) * q == q * sum_to(a.cols, g)) by (nonlinear_arith);
    }
}

/// A vector orthogonal to every column of `A` is orthogonal to every
/// vector `A y` of its column space.
pub proof fn lemma_orthogonal_to_columns(a: Mat, y: Seq<int>, r: Seq<int>)
    requires
        y.len() == a.cols,
        r.len() == a.rows,
        forall|j: int| 0 <= j < a.cols ==> #[trigger] inner(column(a, j), r) == 0,
    ensures
        inner(a.apply(y), r) == 0,
{
    let t = a.transpose();
    lemma_adjoint(a, y, r);
    assert forall|j: int| 0 <= j < y.len() implies #[trigger] t.apply(r)[j] == 0 by {
        let col = column(a, j);
        assert(inner(col, r) == 0);
        assert forall|i: int| 0 <= i < a.rows implies #[trigger] t.row_vec(r, j)(i) == col[i] * r[i] by {
        }
        lemma_sum_ext(a.rows, t.row_vec(r, j), |i: int| col[i] * r[i]);
    }
    lemma_inner_zero(y, t.apply(r));
}

/// Orthogonal splitting: every integer vector w, scaled by some positive
/// integer s, is a combination `A x` of the first n columns of `A` plus a
/// vector r orthogonal to each of those columns:
/// `s w = A x + r` with `<column j, r> = 0` for j < n.
pub proof fn lemma_orthogonal_split(a: Mat, n: nat, w: Seq<int>) -> (res: (int, Seq<int>, Seq<int>))
    requires
        n <= a.cols,
        w.len() == a.rows,
    ensures
        res.0 > 0,
        res.1.len() == n,
        res.2.len() == a.rows,
        forall|i: int|
            0 <= i < a.rows ==> res.0 * w[i] == first_columns(a, n).apply(res.1)[i] + #[trigger] res.2[i],
        forall|j: int| 0 <= j < n ==> #[trigger] inner(column(a, j), res.2) == 0,
    decreases n,
{
    if n == 0 {
        let x = Seq::<int>::empty();
        assert forall|i: int| 0 <= i < a.rows implies 1 * w[i] == first_columns(a, 0).apply(x)[i]
            + #[trigger] w[i] by {
        }
        (1, x, w)
    } else {
        let m = (n - 1) as nat;
        let rows = a.rows;
        let mm = first_columns(a, m);
        let mn = first_columns(a, n);
        let (s, x, r) = lemma_orthogonal_split(a, m, w);
        let c = column(a, m as int);
        let (s2, y, cp) = lemma_orthogonal_split(a, m, c);
        assert forall|j: int| 0 <= j < m implies #[trigger] inner(column(mm, j), r) == 0 by {
            assert(column(mm, j) =~= column(a, j));
        }
        lemma_orthogonal_to_columns(mm, y, r);
        lemma_inner_comm(r, mm.apply(y));
        let b = inner(cp, cp);
        let t = inner(cp, r);
        lemma_inner_self_nonneg(cp);
        if b == 0 {
            lemma_inner_self_zero(cp);
            // s2 c = A y, so <r, c> = 0
            let sc = Seq::new(rows, |i: int| s2 * c[i]);
            lemma_inner_lin(r, c, c, sc, s2, 0);
            assert forall|i: int| 0 <= i < rows implies #[trigger] sc[i] == 1 * mm.apply(y)[i] + 0 * mm.apply(
                y,
            )[i] by {
                assert(cp[i] == 0);
            }
            lemma_inner_lin(r, mm.apply(y), mm.apply(y), sc, 1, 0);
            assert(s2 * inner(r, c) == 0);
            assert(inner(r, c) == 0) by (nonlinear_arith)
                requires
                    s2 > 0,
                    s2 * inner(r, c) == 0,
            ;
            lemma_inner_comm(c, r);
            let x2 = x.push(0);
            assert forall|i: int| 0 <= i < rows implies s * w[i] == mn.apply(x2)[i] + #[trigger] r[i] by {
                assert forall|j: int| 0 <= j < m implies #[trigger] mn.row_vec(x2, i)(j) == mm.row_vec(x, i)(j) by {
                }
                lemma_sum_ext(m, mn.row_vec(x2, i), mm.row_vec(x, i));
                let f = mn.row_vec(x2, i);
                assert(sum_to(n, f) == sum_to(m, f) + f(m as int));
                assert(f(m as int) == a.entry(i, m as int) * 0);
                assert(a.entry(i, m as int) * 0 == 0);
                assert(s * w[i] == mm.apply(x)[i] + r[i]);
            }
            assert forall|j: int| 0 <= j < n implies #[trigger] inner(column(a, j), r) == 0 by {
            }
            (s, x2, r)
        } else {
            // r2 = b r - t cp is orthogonal to the first m columns and to c
            let r2 = Seq::new(rows, |i: int| b * r[i] + (-t) * cp[i]);
            assert forall|j: int| 0 <= j < m implies #[trigger] inner(column(a, j), r2) == 0 by {
                lemma_inner_lin(column(a, j), r, cp, r2, b, -t);
            }
            lemma_inner_lin(cp, r, cp, r2, b, -t);
            assert(inner(cp, r2) == 0) by (nonlinear_arith)
                requires
                    inner(cp, r2) == b * inner(cp, r) + (-t) * inner(cp, cp),
                    t == inner(cp, r),
                    b == inner(cp, cp),
            ;
            assert forall|l: int| 0 <= l < m implies #[trigger] inner(column(mm, l), r2) == 0 by {
                assert(column(mm, l) =~= column(a, l));
            }
            lemma_orthogonal_to_columns(mm, y, r2);
            let sc = Seq::new(rows, |i: int| s2 * c[i]);
            lemma_inner_lin(r2, c, c, sc, s2, 0);
            lemma_inner_lin(r2, mm.apply(y), cp, sc, 1, 1);
            lemma_inner_comm(r2, mm.apply(y));
            lemma_inner_comm(r2, cp);
            assert(s2 * inner(r2, c) == 0);
            assert(inner(r2, c) == 0) by (nonlinear_arith)
                requires
                    s2 > 0,
                    s2 * inner(r2, c) == 0,
            ;
            lemma_inner_comm(c, r2);
            assert forall|j: int| 0 <= j < n implies #[trigger] inner(column(a, j), r2) == 0 by {
                if j == m {
                    assert(column(a, j) == c);
                }
            }
            let lin = Seq::new(m, |j: int| b * x[j] + (-t) * y[j]);
            let x2 = lin.push(t * s2);
            lemma_apply_lin(mm, x, y, lin, b, -t);
            assert(b * s > 0) by (nonlinear_arith)
                requires
                    b > 0,
                    s > 0,
            ;
            assert forall|i: int| 0 <= i < rows implies (b * s) * w[i] == mn.apply(x2)[i] + #[trigger] r2[i] by {
                assert forall|j: int| 0 <= j < m implies #[trigger] mn.row_vec(x2, i)(j) == mm.row_vec(lin, i)(
                    j,
                ) by {
                }
                lemma_sum_ext(m, mn.row_vec(x2, i), mm.row_vec(lin, i));
                let ww = w[i];
                let e = a.entry(i, m as int);
                let mx = mm.apply(x)[i];
                let my = mm.apply(y)[i];
                let ri = r[i];
                let ci = c[i];
                let cpi = cp[i];
                let r2i = r2[i];
                assert(s * ww == mx + ri);
                assert(s2 * ci == my + cpi);
                assert(ci == e);
                assert(r2i == b * ri + (-t) * cpi);
                assert((b * s) * ww == b * mx + b * ri) by (nonlinear_arith)
                    requires
                        s * ww == mx + ri,
                ;
                assert(b * ri == r2i + t * cpi) by (nonlinear_arith)
                    requires
                        r2i == b * ri + (-t) * cpi,
                ;
                assert(t * cpi == e * (t * s2) - t * my) by (nonlinear_arith)
                    requires
                        s2 * ci == my + cpi,
                        ci == e,
                ;
                assert((-t) * my == -(t * my)) by (nonlinear_arith);
                let f = mn.row_vec(x2, i);
                assert(sum_to(n, f) == sum_to(m, f) + f(m as int));
                assert(f(m as int) == e * (t * s2));
                assert(mm.apply(lin)[i] == b * mx + (-t) * my);
                assert(sum_to(m, f) == mm.apply(lin)[i]);
                assert(mn.apply(x2)[i] == sum_to(n, f));
                assert(mn.apply(x2)[i] == (b * mx + (-t) * my) + e * (t * s2));
            }
            (b * s, x2, r2)
        }
    }
}

// ---------------------------------------------------------------------
// Exec matrices of i128 entries
// ---------------------------------------------------------------------

/// A dense matrix of `i128` entries in row-major order: entry `(r, c)` is
/// `entries[r * cols + c]`.  Products of boundary matrices are stored in it.
#[derive(Clone, Debug)]
pub struct IntMatrix {
    pub rows: usize,
    pub cols: usize,
    pub entries: Vec<i128>,
}

impl IntMatrix {
    /// The storage holds exactly `rows * cols` entries.
    pub open spec fn wf(&self) -> bool {
        &&& self.entries@.len() == self.rows * self.cols
        &&& self.rows * self.cols <= usize::MAX
    }

    /// The matrix this value stands for.
    pub open spec fn mat(&self) -> Mat {
        Mat {
            rows: self.rows as nat,
            cols: self.cols as nat,
            at: |i: int, j: int| self.entries@[idx(self.cols as int, i, j)] as int,
        }
    }

    /// The `rows x cols` zero matrix.
    pub fn zeros(rows: usize, cols: usize) -> (r: IntMatrix)
        requires
            rows * cols <= usize::MAX,
        ensures
            r.wf(),
            r.mat().same(Mat::zeros(rows as nat, cols as nat)),
    {
        let n = rows * cols;
        let mut entries: Vec<i128> = Vec::new();
        let mut t: usize = 0;
        while t < n
            invariant
                t <= n,
                entries@.len() == t,
                forall|s: int| 0 <= s < t ==> #[trigger] entries@[s] == 0,
            decreases n - t,
        {
            entries.push(0);
            t = t + 1;
        }
        let r = IntMatrix { rows, cols, entries };
        assert forall|i: int, j: int| 0 <= i < rows && 0 <= j < cols implies #[trigger] r.mat().entry(i, j)
            == 0 by {
            lemma_idx_in_range(rows as int, cols as int, i, j);
        }
        r
    }

    /// Entrywise sum of two matrices of one shape.
    pub fn plus(&self, other: &IntMatrix, b1: Ghost<int>, b2: Ghost<int>) -> (r: IntMatrix)
        requires
            self.wf(),
            other.wf(),
            self.rows == other.rows,
            self.cols == other.cols,
            self.mat().bounded_by(b1@),
            other.mat().bounded_by(b2@),
            b1@ + b2@ <= i128::MAX,
        ensures
            r.wf(),
            r.mat().same(self.mat().plus(other.mat())),
    {
        let n = self.entries.len();
        let mut entries: Vec<i128> = Vec::new();
        let mut t: usize = 0;
        while t < n
            invariant
                t <= n,
                n == self.rows * self.cols,
                self.wf(),
                other.wf(),
                self.rows == other.rows,
                self.cols == other.cols,
                self.mat().bounded_by(b1@),
                other.mat().bounded_by(b2@),
                b1@ + b2@ <= i128::MAX,
                entries@.len() == t,
                forall|s: int| 0 <= s < t ==> #[trigger] entries@[s] == self.entries@[s] + other.entries@[s],
            decreases n - t,
        {
            proof {
                lemma_flat_in_range(self.rows as int, self.cols as int, t as int);
                let i = t as int / self.cols as int;
                let j = t as int % self.cols as int;
                assert(-b1@ <= self.mat().entry(i, j) <= b1@);
                assert(-b2@ <= other.mat().entry(i, j) <= b2@);
            }
            let v = self.entries[t] + other.entries[t];
            entries.push(v);
            t = t + 1;
        }
        let r = IntMatrix { rows: self.rows, cols: self.cols, entries };
        assert forall|i: int, j: int| 0 <= i < r.rows && 0 <= j < r.cols implies #[trigger] r.mat().entry(i, j)
            == self.mat().plus(other.mat()).entry(i, j) by {
            lemma_idx_in_range(r.rows as int, r.cols as int, i, j);
        }
        r
    }

    /// The product `self * other`, exactly, or `None` when a value leaves
    /// `i128`.
    pub fn checked_times(&self, other: &IntMatrix) -> (r: Option<IntMatrix>)
        requires
            self.wf(),
            other.wf(),
            self.cols == other.rows,
        ensures
            match r {
                Some(m) => {
                    &&& m.wf()
                    &&& m.rows == self.rows
                    &&& m.cols == other.cols
                    &&& m.mat().same(self.mat().times(other.mat()))
                },
                None => true,
            },
    {
        let n = match self.rows.checked_mul(other.cols) {
            Some(n) => n,
            None => {
                return None;
            },
        };
        let ghost prod = self.mat().times(other.mat());
        let mut entries: Vec<i128> = Vec::new();
        let mut t: usize = 0;
        while t < n
            invariant
                t <= n,
                n == self.rows * other.cols,
                self.wf(),
                other.wf(),
                self.cols == other.rows,
                prod == self.mat().times(other.mat()),
                entries@.len() == t,
                forall|u: int|
                    0 <= u < t ==> #[trigger] entries@[u] as int == prod.entry(u / other.cols as int, u % other.cols as int),
            decreases n - t,
        {
            proof {
                lemma_flat_in_range(self.rows as int, other.cols as int, t as int);
            }
            let i = t / other.cols;
            let j = t % other.cols;
            let ghost terms = self.mat().row_col(other.mat(), i as int, j as int);
            let mut acc: i128 = 0;
            let mut l: usize = 0;
            while l < self.cols
                invariant
                    l <= self.cols,
                    i < self.rows,
                    j < other.cols,
                    self.wf(),
                    other.wf(),
                    self.cols == other.rows,
                    terms == self.mat().row_col(other.mat(), i as int, j as int),
                    acc == sum_to(l as nat, terms),
                decreases self.cols - l,
            {
                proof {
                    lemma_idx_in_range(self.rows as int, self.cols as int, i as int, l as int);
                    lemma_idx_in_range(other.rows as int, other.cols as int, l as int, j as int);
                }
                let x = self.entries[i * self.cols + l];
                let y = other.entries[l * other.cols + j];
                let xy = match x.checked_mul(y) {
                    Some(v) => v,
                    None => {
                        return None;
                    },
                };
                acc = match acc.checked_add(xy) {
                    Some(v) => v,
                    None => {
                        return None;
                    },
                };
                l = l + 1;
            }
            entries.push(acc);
            t = t + 1;
        }
        let m = IntMatrix { rows: self.rows, cols: other.cols, entries };
        assert forall|i: int, j: int| 0 <= i < m.rows && 0 <= j < m.cols implies #[trigger] m.mat().entry(i, j)
            == prod.entry(i, j) by {
            lemma_idx_in_range(m.rows as int, m.cols as int, i, j);
            lemma_idx_div_mod(m.cols as int, i, j);
        }
        Some(m)
    }

    /// Whether every entry is zero.
    pub fn is_zero(&self) -> (b: bool)
        requires
            self.wf(),
        ensures
            b == self.mat().is_zero(),
    {
        let n = self.entries.len();
        let mut t: usize = 0;
        while t < n
            invariant
                t <= n,
                n == self.entries@.len(),
                self.wf(),
                forall|s: int| 0 <= s < t ==> #[trigger] self.entries@[s] == 0,
            decreases n - t,
        {
            if self.entries[t] != 0 {
                proof {
                    lemma_flat_in_range(self.rows as int, self.cols as int, t as int);
                    let i = t as int / self.cols as int;
                    let j = t as int % self.cols as int;
                    assert(self.mat().entry(i, j) != 0);
                }
                return false;
            }
            t = t + 1;
        }
        assert forall|i: int, j: int| 0 <= i < self.rows && 0 <= j < self.cols implies #[trigger] self.mat().entry(
            i,
            j,
        ) == 0 by {
            lemma_idx_in_range(self.rows as int, self.cols as int, i, j);
        }
        true
    }
}

} // verus!
