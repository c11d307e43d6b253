//! Exact ranks and nullities of integer matrices.
//!
//! The rank of a matrix is the size of a basis of its column space: a set
//! of columns that are linearly independent over the rationals and span
//! every other column.  The nullity is the size of a basis of its kernel.
//! Fraction-free integer elimination proposes such bases together with
//! certificates (a left inverse for independence, coefficients or a
//! projection identity for spanning); the certificates are checked exactly
//! before a number is returned, so a returned rank or nullity is a proved
//! one.  `None` comes back only when the elimination needs values beyond
//! `i128`.

use vstd::prelude::*;
use crate::forms::BoundaryMatrix;
use crate::matrix::{
    column, lemma_adjoint, lemma_apply_same, lemma_apply_times, lemma_apply_to_zero, lemma_flat_in_range,
    lemma_idx_div_mod, lemma_idx_in_range, lemma_inner_zero_left, lemma_sum_ext, lemma_sum_plus, lemma_sum_scale,
    sum_to, vanishes, IntMatrix, Mat,
};

verus! {

/// The integers of a vector of `i128`.
pub open spec fn ints(v: Seq<i128>) -> Seq<int> {
    v.map_values(|x: i128| x as int)
}

/// The integers of a vector of indices.
pub open spec fn indices(v: Seq<usize>) -> Seq<int> {
    v.map_values(|x: usize| x as int)
}

/// The columns `p[0], p[1], ...` of `a`, side by side.
pub open spec fn select_columns(a: Mat, p: Seq<int>) -> Mat {
    Mat { rows: a.rows, cols: p.len(), at: |i: int, b: int| a.entry(i, p[b]) }
}

/// The columns `p` of `a` are linearly independent: the only combination of
/// them that vanishes is the trivial one.
pub open spec fn independent_columns(a: Mat, p: Seq<int>) -> bool {
    forall|lam: Seq<int>|
        lam.len() == p.len() && #[trigger] vanishes(select_columns(a, p).apply(lam)) ==> vanishes(lam)
}

/// `s` times column j of `a` is the combination `c` of the columns `p`.
pub open spec fn combines_to(a: Mat, p: Seq<int>, j: int, s: int, c: Seq<int>) -> bool {
    &&& s > 0
    &&& c.len() == p.len()
    &&& forall|i: int| 0 <= i < a.rows ==> #[trigger] select_columns(a, p).apply(c)[i] == s * a.entry(i, j)
}

/// Column j of `a` lies in the rational span of the columns `p`: some
/// positive multiple of it is an integer combination of them.
pub open spec fn spanned_by(a: Mat, p: Seq<int>, j: int) -> bool {
    exists|s: int, c: Seq<int>| #[trigger] combines_to(a, p, j, s, c)
}

/// The columns `p` (in increasing order) form a basis of the column space
/// of `a`.
pub open spec fn column_basis(a: Mat, p: Seq<int>) -> bool {
    &&& forall|b: int| 0 <= b < p.len() ==> 0 <= #[trigger] p[b] < a.cols
    &&& forall|b1: int, b2: int| 0 <= b1 < b2 < p.len() ==> #[trigger] p[b1] < #[trigger] p[b2]
    &&& independent_columns(a, p)
    &&& forall|j: int| 0 <= j < a.cols ==> #[trigger] spanned_by(a, p, j)
}

/// `a` has rank r: its column space has a basis of r columns.
pub open spec fn has_rank(a: Mat, r: nat) -> bool {
    exists|p: Seq<int>| p.len() == r && #[trigger] column_basis(a, p)
}

/// A sum whose terms vanish but at one place is that term.
proof fn lemma_sum_single(n: nat, f: spec_fn(int) -> int, a: int)
    requires
        0 <= a < n,
        forall|b: int| 0 <= b < n && b != a ==> #[trigger] f(b) == 0,
    ensures
        sum_to(n, f) == f(a),
    decreases n,
{
    if n - 1 > a {
        lemma_sum_single((n - 1) as nat, f, a);
    } else {
        crate::matrix::lemma_sum_zero((n - 1) as nat, f);
    }
}

/// A left inverse certifies independence: if row a of `L` times the
/// selected columns is `D_a` at place a and zero elsewhere, with every
/// `D_a` nonzero, the selected columns are independent.
proof fn lemma_left_inverse_independent(sel: Mat, cert: Seq<Seq<int>>, diag: Seq<int>)
    requires
        cert.len() == sel.cols,
        diag.len() == sel.cols,
        forall|a: int| 0 <= a < sel.cols ==> (#[trigger] cert[a]).len() == sel.rows,
        forall|a: int| 0 <= a < sel.cols ==> #[trigger] diag[a] != 0,
        forall|a: int, b: int|
            0 <= a < sel.cols && 0 <= b < sel.cols ==> #[trigger] sel.transpose().apply(cert[a])[b] == (if a == b {
                diag[a]
            } else {
                0
            }),
    ensures
        forall|lam: Seq<int>| lam.len() == sel.cols && #[trigger] vanishes(sel.apply(lam)) ==> vanishes(lam),
{
    assert forall|lam: Seq<int>| lam.len() == sel.cols && #[trigger] vanishes(sel.apply(lam)) implies vanishes(
        lam,
    ) by {
        assert forall|a: int| 0 <= a < lam.len() implies #[trigger] lam[a] == 0 by {
            let g = sel.transpose().apply(cert[a]);
            lemma_adjoint(sel, lam, cert[a]);
            lemma_inner_zero_left(sel.apply(lam), cert[a]);
            let f = |b: int| lam[b] * g[b];
            assert forall|b: int| 0 <= b < lam.len() && b != a implies #[trigger] f(b) == 0 by {
                assert(g[b] == 0);
            }
            lemma_sum_single(lam.len(), f, a);
            assert(lam[a] * diag[a] == 0);
            assert(lam[a] == 0) by (nonlinear_arith)
                requires
                    lam[a] * diag[a] == 0,
                    diag[a] != 0,
            ;
        }
    }
}

/// `m x`, computed exactly, or `None` when an intermediate value leaves
/// `i128`.
pub fn checked_apply(m: &BoundaryMatrix, x: &Vec<i128>) -> (r: Option<Vec<i128>>)
    requires
        m.wf(),
        x@.len() == m.cols,
    ensures
        match r {
            Some(v) => {
                &&& v@.len() == m.rows
                &&& forall|i: int| 0 <= i < m.rows ==> #[trigger] v@[i] as int == m.mat().apply(ints(x@))[i]
            },
            None => true,
        },
{
    let ghost xs = ints(x@);
    let mut out: Vec<i128> = Vec::new();
    let mut i: usize = 0;
    while i < m.rows
        invariant
            i <= m.rows,
            m.wf(),
            x@.len() == m.cols,
            xs == ints(x@),
            out@.len() == i,
            forall|t: int| 0 <= t < i ==> #[trigger] out@[t] as int == m.mat().apply(xs)[t],
        decreases m.rows - i,
    {
        let ghost terms = m.mat().row_vec(xs, i as int);
        let mut acc: i128 = 0;
        let mut j: usize = 0;
        while j < m.cols
            invariant
                j <= m.cols,
                i < m.rows,
                m.wf(),
                x@.len() == m.cols,
                xs == ints(x@),
                terms == m.mat().row_vec(xs, i as int),
                acc == sum_to(j as nat, terms),
            decreases m.cols - j,
        {
            proof {
                lemma_idx_in_range(m.rows as int, m.cols as int, i as int, j as int);
            }
            let e = m.entries[i * m.cols + j] as i128;
            let prod = match e.checked_mul(x[j]) {
                Some(v) => v,
                None => {
                    return None;
                },
            };
            acc = match acc.checked_add(prod) {
                Some(v) => v,
                None => {
                    return None;
                },
            };
            j = j + 1;
        }
        out.push(acc);
        i = i + 1;
    }
    Some(out)
}

/// The columns `p` of `m`, side by side.
pub fn select(m: &BoundaryMatrix, p: &Vec<usize>) -> (s: BoundaryMatrix)
    requires
        m.wf(),
        forall|b: int| 0 <= b < p@.len() ==> #[trigger] p@[b] < m.cols,
        m.rows * p@.len() <= usize::MAX,
    ensures
        s.wf(),
        s.rows == m.rows,
        s.cols == p@.len(),
        s.mat().same(select_columns(m.mat(), indices(p@))),
{
    let rows = m.rows;
    let cols = p.len();
    let n = rows * cols;
    let ghost target = select_columns(m.mat(), indices(p@));
    let mut entries: Vec<i32> = Vec::new();
    let mut t: usize = 0;
    while t < n
        invariant
            t <= n,
            n == rows * cols,
            rows == m.rows,
            cols == p@.len(),
            m.wf(),
            forall|b: int| 0 <= b < p@.len() ==> #[trigger] p@[b] < m.cols,
            target == select_columns(m.mat(), indices(p@)),
            entries@.len() == t,
            forall|u: int| 0 <= u < t ==> #[trigger] entries@[u] as int == target.entry(u / cols as int, u % cols as int),
        decreases n - t,
    {
        proof {
            lemma_flat_in_range(rows as int, cols as int, t as int);
        }
        let i = t / cols;
        let b = t % cols;
        let j = p[b];
        proof {
            lemma_idx_in_range(m.rows as int, m.cols as int, i as int, j as int);
        }
        entries.push(m.entries[i * m.cols + j]);
        t = t + 1;
    }
    let s = BoundaryMatrix { rows, cols, entries };
    assert forall|i: int, b: int| 0 <= i < rows && 0 <= b < cols implies #[trigger] s.mat().entry(i, b)
        == target.entry(i, b) by {
        lemma_idx_in_range(rows as int, cols as int, i, b);
        lemma_idx_div_mod(cols as int, i, b);
    }
    s
}

/// Whether the candidate certifies that the columns `p` form a basis of the
/// column space of `m`:
/// - `p` is increasing and within the columns;
/// - row a of `cert` times the selected columns is `diag[a]` at place a and
///   zero elsewhere, with every `diag[a]` nonzero (independence);
/// - `scales[j]` times column j is the combination `coeffs[j]` of the
///   selected columns, with `scales[j] > 0` (spanning).
fn check_basis(
    m: &BoundaryMatrix,
    p: &Vec<usize>,
    cert: &Vec<Vec<i128>>,
    diag: &Vec<i128>,
    scales: &Vec<i128>,
    coeffs: &Vec<Vec<i128>>,
) -> (ok: bool)
    requires
        m.wf(),
    ensures
        ok ==> column_basis(m.mat(), indices(p@)),
{
    let r = p.len();
    if cert.len() != r || diag.len() != r || scales.len() != m.cols || coeffs.len() != m.cols {
        return false;
    }
    let mut b: usize = 0;
    while b < r
        invariant
            b <= r,
            r == p@.len(),
            forall|c: int| 0 <= c < b ==> #[trigger] p@[c] < m.cols,
            forall|c1: int, c2: int| 0 <= c1 < c2 < b ==> #[trigger] p@[c1] < #[trigger] p@[c2],
        decreases r - b,
    {
        if p[b] >= m.cols {
            return false;
        }
        if b > 0 && p[b - 1] >= p[b] {
            return false;
        }
        b = b + 1;
    }
    if m.rows.checked_mul(r).is_none() {
        return false;
    }
    let ghost pp = indices(p@);
    let ghost target = select_columns(m.mat(), pp);
    let sel = select(m, p);
    let selt = sel.transpose();
    // independence
    let mut a: usize = 0;
    while a < r
        invariant
            a <= r,
            r == p@.len(),
            cert@.len() == r,
            diag@.len() == r,
            sel.wf(),
            selt.wf(),
            sel.rows == m.rows,
            sel.cols == r,
            selt.mat().same(sel.mat().transpose()),
            forall|c: int| 0 <= c < a ==> (#[trigger] cert@[c])@.len() == m.rows,
            forall|c: int| 0 <= c < a ==> #[trigger] diag@[c] != 0,
            forall|c: int, d: int|
                0 <= c < a && 0 <= d < r ==> #[trigger] selt.mat().apply(ints(cert@[c]@))[d] == (if c == d {
                    diag@[c] as int
                } else {
                    0
                }),
        decreases r - a,
    {
        if cert[a].len() != m.rows || diag[a] == 0 {
            return false;
        }
        let g = match checked_apply(&selt, &cert[a]) {
            Some(g) => g,
            None => {
                return false;
            },
        };
        let mut d: usize = 0;
        while d < r
            invariant
                d <= r,
                a < r,
                diag@.len() == r,
                g@.len() == selt.rows,
                selt.rows == r,
                forall|t: int| 0 <= t < selt.rows ==> #[trigger] g@[t] as int == selt.mat().apply(ints(cert@[a as int]@))[t],
                forall|t: int| 0 <= t < d ==> #[trigger] selt.mat().apply(ints(cert@[a as int]@))[t] == (if a == t {
                    diag@[a as int] as int
                } else {
                    0
                }),
            decreases r - d,
        {
            let expected: i128 = if a == d {
                diag[a]
            } else {
                0
            };
            if g[d] != expected {
                return false;
            }
            d = d + 1;
        }
        a = a + 1;
    }
    proof {
        let certs = Seq::new(r as nat, |c: int| ints(cert@[c]@));
        let diags = Seq::new(r as nat, |c: int| diag@[c] as int);
        let sm = sel.mat();
        assert forall|c: int, d: int| 0 <= c < r && 0 <= d < r implies #[trigger] sm.transpose().apply(certs[c])[d]
            == (if c == d {
            diags[c]
        } else {
            0
        }) by {
            assert(certs[c] == ints(cert@[c]@));
            crate::matrix::lemma_apply_same(selt.mat(), sm.transpose(), certs[c]);
            assert(selt.mat().apply(ints(cert@[c]@))[d] == (if c == d {
                diag@[c] as int
            } else {
                0
            }));
        }
        lemma_left_inverse_independent(sm, certs, diags);
        assert forall|lam: Seq<int>| lam.len() == pp.len() && #[trigger] vanishes(target.apply(lam)) implies vanishes(
            lam,
        ) by {
            crate::matrix::lemma_apply_same(sm, target, lam);
            assert(vanishes(sm.apply(lam)));
        }
    }
    // spanning
    let mut j: usize = 0;
    while j < m.cols
        invariant
            j <= m.cols,
            r == p@.len(),
            m.wf(),
            sel.wf(),
            sel.rows == m.rows,
            sel.cols == r,
            scales@.len() == m.cols,
            coeffs@.len() == m.cols,
            pp == indices(p@),
            target == select_columns(m.mat(), pp),
            sel.mat().same(target),
            forall|c: int| 0 <= c < j ==> #[trigger] spanned_by(m.mat(), pp, c),
        decreases m.cols - j,
    {
        let sj = scales[j];
        if sj <= 0 || coeffs[j].len() != r {
            return false;
        }
        let v = match checked_apply(&sel, &coeffs[j]) {
            Some(v) => v,
            None => {
                return false;
            },
        };
        let ghost cs = ints(coeffs@[j as int]@);
        let mut i: usize = 0;
        while i < m.rows
            invariant
                i <= m.rows,
                j < m.cols,
                m.wf(),
                sel.rows == m.rows,
                v@.len() == m.rows,
                cs == ints(coeffs@[j as int]@),
                forall|t: int| 0 <= t < m.rows ==> #[trigger] v@[t] as int == sel.mat().apply(cs)[t],
                forall|t: int| 0 <= t < i ==> #[trigger] sel.mat().apply(cs)[t] == sj * m.mat().entry(t, j as int),
            decreases m.rows - i,
        {
            proof {
                lemma_idx_in_range(m.rows as int, m.cols as int, i as int, j as int);
            }
            let e = m.entries[i * m.cols + j] as i128;
            let w = match sj.checked_mul(e) {
                Some(w) => w,
                None => {
                    return false;
                },
            };
            if v[i] != w {
                return false;
            }
            i = i + 1;
        }
        proof {
            crate::matrix::lemma_apply_same(sel.mat(), target, cs);
            assert(combines_to(m.mat(), pp, j as int, sj as int, cs));
        }
        j = j + 1;
    }
    true
}

/// Entry (i, j) of an `h x w` row-major matrix.
fn at(v: &Vec<i128>, h: usize, w: usize, i: usize, j: usize) -> (x: i128)
    requires
        v@.len() == h * w,
        i < h,
        j < w,
    ensures
        x == v@[i * w + j],
{
    let n: usize = v.len();
    proof {
        lemma_idx_in_range(h as int, w as int, i as int, j as int);
        assert(i * w + j < n);
    }
    v[i * w + j]
}

/// Overwrite entry (i, j) of an `h x w` row-major matrix.
fn put(v: &mut Vec<i128>, h: usize, w: usize, i: usize, j: usize, x: i128)
    requires
        old(v)@.len() == h * w,
        i < h,
        j < w,
    ensures
        final(v)@.len() == old(v)@.len(),
{
    let n: usize = v.len();
    proof {
        lemma_idx_in_range(h as int, w as int, i as int, j as int);
        assert(i * w + j < n);
    }
    v.set(i * w + j, x);
}

/// Exchange rows i and k of an `h x w` row-major matrix.
fn swap_rows(v: &mut Vec<i128>, h: usize, w: usize, i: usize, k: usize)
    requires
        old(v)@.len() == h * w,
        i < h,
        k < h,
    ensures
        final(v)@.len() == old(v)@.len(),
{
    let mut t: usize = 0;
    while t < w
        invariant
            t <= w,
            v@.len() == h * w,
            old(v)@.len() == h * w,
            i < h,
            k < h,
        decreases w - t,
    {
        let x = at(v, h, w, i, t);
        let y = at(v, h, w, k, t);
        put(v, h, w, i, t, y);
        put(v, h, w, k, t, x);
        t = t + 1;
    }
}

/// Row i := g * row i - f * row k of an `h x w` row-major matrix, or
/// `false` (and the matrix partly updated) when a value leaves `i128`.
fn combine_rows(v: &mut Vec<i128>, h: usize, w: usize, i: usize, k: usize, g: i128, f: i128) -> (ok: bool)
    requires
        old(v)@.len() == h * w,
        i < h,
        k < h,
    ensures
        final(v)@.len() == old(v)@.len(),
{
    let mut t: usize = 0;
    while t < w
        invariant
            t <= w,
            v@.len() == h * w,
            old(v)@.len() == h * w,
            i < h,
            k < h,
        decreases w - t,
    {
        let x = at(v, h, w, i, t);
        let y = at(v, h, w, k, t);
        let gx = match g.checked_mul(x) {
            Some(z) => z,
            None => {
                return false;
            },
        };
        let fy = match f.checked_mul(y) {
            Some(z) => z,
            None => {
                return false;
            },
        };
        let z = match gx.checked_sub(fy) {
            Some(z) => z,
            None => {
                return false;
            },
        };
        put(v, h, w, i, t, z);
        t = t + 1;
    }
    true
}

/// Fraction-free Gauss-Jordan elimination of the `h x w` row-major matrix
/// `a`: the pivot columns, the reduced matrix, and the `h x h` row
/// operations that turn `a` into it.  `None` when a value leaves `i128`.
fn eliminate(a: Vec<i128>, h: usize, w: usize) -> (r: Option<(Vec<usize>, Vec<i128>, Vec<i128>)>)
    requires
        a@.len() == h * w,
    ensures
        match r {
            Some((p, ra, t)) => {
                &&& p@.len() <= h
                &&& forall|c: int| 0 <= c < p@.len() ==> #[trigger] p@[c] < w
                &&& ra@.len() == h * w
                &&& t@.len() == h * h
            },
            None => true,
        },
{
    let mut a = a;
    let hh = match h.checked_mul(h) {
        Some(x) => x,
        None => {
            return None;
        },
    };
    let mut t: Vec<i128> = Vec::new();
    let mut u: usize = 0;
    while u < hh
        invariant
            u <= hh,
            t@.len() == u,
        decreases hh - u,
    {
        t.push(0);
        u = u + 1;
    }
    let mut i: usize = 0;
    while i < h
        invariant
            i <= h,
            t@.len() == h * h,
        decreases h - i,
    {
        put(&mut t, h, h, i, i, 1);
        i = i + 1;
    }
    // elimination
    let mut pivots: Vec<usize> = Vec::new();
    let mut row: usize = 0;
    let mut j: usize = 0;
    while j < w
        invariant
            j <= w,
            row <= h,
            a@.len() == h * w,
            t@.len() == h * h,
            pivots@.len() == row,
            forall|c: int| 0 <= c < row ==> #[trigger] pivots@[c] < w,
        decreases w - j,
    {
        if row < h {
            let mut pr: usize = row;
            while pr < h && at(&a, h, w, pr, j) == 0
                invariant
                    row <= pr <= h,
                    row < h,
                    j < w,
                    a@.len() == h * w,
                decreases h - pr,
            {
                pr = pr + 1;
            }
            if pr < h {
                swap_rows(&mut a, h, w, pr, row);
                swap_rows(&mut t, h, h, pr, row);
                let g = at(&a, h, w, row, j);
                let mut k: usize = 0;
                while k < h
                    invariant
                        k <= h,
                        row < h,
                        j < w,
                        a@.len() == h * w,
                        t@.len() == h * h,
                    decreases h - k,
                {
                    if k != row {
                        let f = at(&a, h, w, k, j);
                        if f != 0 {
                            if !combine_rows(&mut a, h, w, k, row, g, f) {
                                return None;
                            }
                            if !combine_rows(&mut t, h, h, k, row, g, f) {
                                return None;
                            }
                        }
                    }
                    k = k + 1;
                }
                pivots.push(j);
                row = row + 1;
            }
        }
        j = j + 1;
    }
    Some((pivots, a, t))
}

/// A candidate basis of the column space of `m`, by fraction-free
/// Gauss-Jordan elimination: the pivot columns, the rows of the row
/// operations that certify their independence, the pivot values, and for
/// every column a scale and coefficients that express it through the
/// pivot columns.  `None` when a value leaves `i128`.
fn candidate_basis(m: &BoundaryMatrix) -> (r: Option<(Vec<usize>, Vec<Vec<i128>>, Vec<i128>, Vec<i128>, Vec<Vec<i128>>)>)
    requires
        m.wf(),
{
    let h = m.rows;
    let w = m.cols;
    let n = h * w;
    let mut a: Vec<i128> = Vec::new();
    let mut u: usize = 0;
    while u < n
        invariant
            u <= n,
            n == h * w,
            n == m.entries@.len(),
            a@.len() == u,
        decreases n - u,
    {
        a.push(m.entries[u] as i128);
        u = u + 1;
    }
    let (pivots, a, t) = match eliminate(a, h, w) {
        Some(x) => x,
        None => {
            return None;
        },
    };
    let row = pivots.len();
    // certificates
    let r = row;
    let mut cert: Vec<Vec<i128>> = Vec::new();
    let mut diag: Vec<i128> = Vec::new();
    let mut scale: i128 = 1;
    let mut b: usize = 0;
    while b < r
        invariant
            b <= r,
            r <= h,
            r == pivots@.len(),
            a@.len() == h * w,
            t@.len() == h * h,
            forall|c: int| 0 <= c < r ==> #[trigger] pivots@[c] < w,
            diag@.len() == b,
        decreases r - b,
    {
        let mut rowv: Vec<i128> = Vec::new();
        let mut c: usize = 0;
        while c < h
            invariant
                c <= h,
                b < h,
                t@.len() == h * h,
            decreases h - c,
        {
            rowv.push(at(&t, h, h, b, c));
            c = c + 1;
        }
        cert.push(rowv);
        let dv = at(&a, h, w, b, pivots[b]);
        diag.push(dv);
        if dv == 0 || dv == i128::MIN {
            return None;
        }
        let mag: i128 = if dv < 0 {
            -dv
        } else {
            dv
        };
        scale = match scale.checked_mul(mag) {
            Some(x) => x,
            None => {
                return None;
            },
        };
        b = b + 1;
    }
    if scale <= 0 {
        return None;
    }
    let mut scales: Vec<i128> = Vec::new();
    let mut coeffs: Vec<Vec<i128>> = Vec::new();
    let mut col: usize = 0;
    while col < w
        invariant
            col <= w,
            r <= h,
            r == pivots@.len(),
            diag@.len() == r,
            a@.len() == h * w,
            scale > 0,
        decreases w - col,
    {
        let mut cv: Vec<i128> = Vec::new();
        let mut b: usize = 0;
        while b < r
            invariant
                b <= r,
                r <= h,
                col < w,
                diag@.len() == r,
                a@.len() == h * w,
                scale > 0,
            decreases r - b,
        {
            let dv = diag[b];
            if dv == 0 || dv == -1 {
                if dv == 0 {
                    return None;
                }
            }
            let q = if dv == -1 {
                -scale
            } else if dv == 0 {
                0
            } else {
                scale / dv
            };
            let x = match q.checked_mul(at(&a, h, w, b, col)) {
                Some(x) => x,
                None => {
                    return None;
                },
            };
            cv.push(x);
            b = b + 1;
        }
        scales.push(scale);
        coeffs.push(cv);
        col = col + 1;
    }
    Some((pivots, cert, diag, scales, coeffs))
}

/// The rank of `m`, computed exactly: the number of columns in a basis of
/// its column space, found by integer elimination and checked.  `None` only
/// when the elimination needs values beyond `i128`.
pub fn rank(m: &BoundaryMatrix) -> (r: Option<usize>)
    requires
        m.wf(),
    ensures
        match r {
            Some(k) => has_rank(m.mat(), k as nat),
            None => true,
        },
{
    match candidate_basis(m) {
        None => None,
        Some((p, cert, diag, scales, coeffs)) => {
            if check_basis(m, &p, &cert, &diag, &scales, &coeffs) {
                proof {
                    assert(indices(p@).len() == p@.len());
                    assert(column_basis(m.mat(), indices(p@)));
                }
                Some(p.len())
            } else {
                None
            }
        },
    }
}

/// Rank depends only on the entries in range.
pub proof fn lemma_has_rank_same(a: Mat, b: Mat, r: nat)
    requires
        a.same(b),
        has_rank(a, r),
    ensures
        has_rank(b, r),
{
    let p = choose|p: Seq<int>| p.len() == r && #[trigger] column_basis(a, p);
    let sa = select_columns(a, p);
    let sb = select_columns(b, p);
    assert(sa.same(sb));
    assert forall|lam: Seq<int>| lam.len() == p.len() && #[trigger] vanishes(sb.apply(lam)) implies vanishes(lam) by {
        crate::matrix::lemma_apply_same(sa, sb, lam);
        assert(vanishes(sa.apply(lam)));
    }
    assert forall|j: int| 0 <= j < b.cols implies #[trigger] spanned_by(b, p, j) by {
        assert(spanned_by(a, p, j));
        let (s, c) = choose|s: int, c: Seq<int>| #[trigger] combines_to(a, p, j, s, c);
        crate::matrix::lemma_apply_same(sa, sb, c);
        assert forall|i: int| 0 <= i < b.rows implies #[trigger] sb.apply(c)[i] == s * b.entry(i, j) by {
            assert(sa.apply(c)[i] == s * a.entry(i, j));
        }
        assert(combines_to(b, p, j, s, c));
    }
    assert(column_basis(b, p));
}

/// An empty matrix has rank zero.
pub proof fn lemma_empty_has_rank(a: Mat)
    requires
        a.is_empty(),
    ensures
        has_rank(a, 0),
{
    let p = Seq::<int>::empty();
    assert(a.rows == 0 || a.cols == 0) by (nonlinear_arith)
        requires
            a.rows * a.cols == 0,
    ;
    assert forall|j: int| 0 <= j < a.cols implies #[trigger] spanned_by(a, p, j) by {
        let c = Seq::<int>::empty();
        assert(combines_to(a, p, j, 1, c));
    }
    assert(column_basis(a, p));
}

// ---------------------------------------------------------------------
// Kernels
// ---------------------------------------------------------------------

/// `s` times x is the combination `c` of the columns of `kb`.
pub open spec fn kernel_combination(kb: Mat, x: Seq<int>, s: int, c: Seq<int>) -> bool {
    &&& s > 0
    &&& c.len() == kb.cols
    &&& forall|i: int| 0 <= i < kb.rows ==> #[trigger] kb.apply(c)[i] == s * x[i]
}

/// The columns of `kb` form a basis of the kernel of `a`: each lies in the
/// kernel, they are independent, and every vector of the kernel lies in
/// their rational span.
pub open spec fn kernel_basis(a: Mat, kb: Mat) -> bool {
    &&& kb.rows == a.cols
    &&& forall|q: int| 0 <= q < kb.cols ==> #[trigger] vanishes(a.apply(column(kb, q)))
    &&& forall|lam: Seq<int>| lam.len() == kb.cols && #[trigger] vanishes(kb.apply(lam)) ==> vanishes(lam)
    &&& forall|x: Seq<int>|
        x.len() == a.cols && #[trigger] vanishes(a.apply(x)) ==> exists|s: int, c: Seq<int>|
            #[trigger] kernel_combination(kb, x, s, c)
}

/// The kernel of `a` has dimension t: it has a basis of t vectors.
pub open spec fn has_nullity(a: Mat, t: nat) -> bool {
    exists|kb: Mat| kb.cols == t && #[trigger] kernel_basis(a, kb)
}

/// `s` times the `n x n` identity.
pub open spec fn scaled_identity(n: nat, s: int) -> Mat {
    Mat {
        rows: n,
        cols: n,
        at: |i: int, j: int|
            if i == j {
                s
            } else {
                0
            },
    }
}

/// `s I - m`.
pub open spec fn identity_minus(s: int, m: Mat) -> Mat {
    Mat {
        rows: m.rows,
        cols: m.cols,
        at: |a: int, b: int|
            (if a == b {
                s
            } else {
                0
            }) - m.entry(a, b),
    }
}

/// An entry of a product is a row times a column.
proof fn lemma_times_column(a: Mat, b: Mat, i: int, j: int)
    requires
        a.cols == b.rows,
    ensures
        a.times(b).entry(i, j) == a.apply(column(b, j))[i] || !(0 <= i < a.rows),
{
    if 0 <= i < a.rows {
        assert forall|l: int| 0 <= l < a.cols implies #[trigger] a.row_col(b, i, j)(l) == a.row_vec(column(b, j), i)(
            l,
        ) by {
        }
        lemma_sum_ext(a.cols, a.row_col(b, i, j), a.row_vec(column(b, j), i));
    }
}

/// A scaled identity scales: `(s I) x = s x`.
proof fn lemma_scaled_identity_apply(n: nat, s: int, x: Seq<int>, i: int)
    requires
        0 <= i < n,
    ensures
        scaled_identity(n, s).apply(x)[i] == s * x[i],
{
    let m = scaled_identity(n, s);
    let f = m.row_vec(x, i);
    assert forall|b: int| 0 <= b < n && b != i implies #[trigger] f(b) == 0 by {
    }
    lemma_sum_single(n, f, i);
}

/// `(s I - M) x = s x - M x`.
proof fn lemma_identity_minus_apply(m: Mat, s: int, x: Seq<int>, i: int)
    requires
        m.rows == m.cols,
        0 <= i < m.rows,
    ensures
        identity_minus(s, m).apply(x)[i] == s * x[i] - m.apply(x)[i],
{
    let d = identity_minus(s, m);
    let si = scaled_identity(m.rows, s);
    let f = si.row_vec(x, i);
    let g = m.row_vec(x, i);
    let ng = |l: int| g(l) * (-1);
    let both = |l: int| f(l) + ng(l);
    assert forall|l: int| 0 <= l < m.cols implies #[trigger] d.row_vec(x, i)(l) == both(l) by {
        let e = if i == l {
            s
        } else {
            0
        };
        let v = m.entry(i, l);
        let u = x[l];
        assert((e - v) * u == e * u + v * u * (-1)) by (nonlinear_arith);
    }
    lemma_sum_ext(m.cols, d.row_vec(x, i), both);
    lemma_sum_plus(m.cols, f, ng);
    lemma_sum_scale(m.cols, g, -1);
    lemma_scaled_identity_apply(m.rows, s, x, i);
}

/// The certificate `(kb, p, y, s)` proves that the columns of `kb` are a
/// basis of the kernel of `a`: `a kb = 0`, `p kb = s I` and
/// `s I - kb p = y a`, with `s > 0`.
proof fn lemma_kernel_certificate(a: Mat, kb: Mat, p: Mat, y: Mat, s: int)
    requires
        s > 0,
        kb.rows == a.cols,
        p.rows == kb.cols,
        p.cols == a.cols,
        y.rows == a.cols,
        y.cols == a.rows,
        a.times(kb).is_zero(),
        p.times(kb).same(scaled_identity(kb.cols, s)),
        forall|i: int, j: int|
            0 <= i < a.cols && 0 <= j < a.cols ==> #[trigger] y.times(a).entry(i, j) == (if i == j {
                s
            } else {
                0
            }) - kb.times(p).entry(i, j),
    ensures
        kernel_basis(a, kb),
{
    // each column lies in the kernel
    assert forall|q: int| 0 <= q < kb.cols implies #[trigger] vanishes(a.apply(column(kb, q))) by {
        assert forall|i: int| 0 <= i < a.apply(column(kb, q)).len() implies #[trigger] a.apply(column(kb, q))[i]
            == 0 by {
            lemma_times_column(a, kb, i, q);
        }
    }
    // independence: p kb lam = s lam
    assert forall|lam: Seq<int>| lam.len() == kb.cols && #[trigger] vanishes(kb.apply(lam)) implies vanishes(lam) by {
        lemma_apply_to_zero(p, kb.apply(lam));
        lemma_apply_times(p, kb, lam);
        lemma_apply_same(p.times(kb), scaled_identity(kb.cols, s), lam);
        assert forall|q: int| 0 <= q < lam.len() implies #[trigger] lam[q] == 0 by {
            lemma_scaled_identity_apply(kb.cols, s, lam, q);
            assert(p.times(kb).apply(lam)[q] == 0);
            assert(s * lam[q] == 0);
            assert(lam[q] == 0) by (nonlinear_arith)
                requires
                    s > 0,
                    s * lam[q] == 0,
            ;
        }
    }
    // spanning: s x = kb (p x) on the kernel
    let kp = kb.times(p);
    let d = identity_minus(s, kp);
    assert(y.times(a).same(d));
    assert forall|x: Seq<int>| x.len() == a.cols && #[trigger] vanishes(a.apply(x)) implies exists|
        t: int,
        c: Seq<int>,
    | #[trigger] kernel_combination(kb, x, t, c) by {
        let c = p.apply(x);
        lemma_apply_to_zero(y, a.apply(x));
        lemma_apply_times(y, a, x);
        lemma_apply_same(y.times(a), d, x);
        lemma_apply_times(kb, p, x);
        assert forall|i: int| 0 <= i < kb.rows implies #[trigger] kb.apply(c)[i] == s * x[i] by {
            lemma_identity_minus_apply(kp, s, x, i);
            assert(y.times(a).apply(x)[i] == 0);
        }
        assert(kernel_combination(kb, x, s, c));
    }
}

/// Whether the storage of `m` holds exactly `rows * cols` entries.
fn int_wf(m: &IntMatrix) -> (b: bool)
    ensures
        b == m.wf(),
{
    match m.rows.checked_mul(m.cols) {
        Some(n) => m.entries.len() == n,
        None => false,
    }
}

/// A flat vector of `n` zeros.
fn zero_vec(n: usize) -> (v: Vec<i128>)
    ensures
        v@.len() == n,
{
    let mut v: Vec<i128> = Vec::new();
    let mut t: usize = 0;
    while t < n
        invariant
            t <= n,
            v@.len() == t,
        decreases n - t,
    {
        v.push(0);
        t = t + 1;
    }
    v
}

/// Whether the square matrix `m` is `s I - kp` (for `kp` of the same shape),
/// entry by entry.
fn is_identity_minus(m: &IntMatrix, kp: &IntMatrix, s: i128) -> (ok: bool)
    requires
        m.wf(),
        kp.wf(),
        m.rows == m.cols,
        kp.rows == m.rows,
        kp.cols == m.cols,
    ensures
        ok ==> forall|i: int, j: int|
            0 <= i < m.rows && 0 <= j < m.cols ==> #[trigger] m.mat().entry(i, j) == (if i == j {
                s as int
            } else {
                0
            }) - kp.mat().entry(i, j),
{
    let n = m.rows;
    let mut i: usize = 0;
    while i < n
        invariant
            i <= n,
            n == m.rows,
            n == m.cols,
            m.wf(),
            kp.wf(),
            kp.rows == n,
            kp.cols == n,
            forall|a: int, b: int|
                0 <= a < i && 0 <= b < n ==> #[trigger] m.mat().entry(a, b) == (if a == b {
                    s as int
                } else {
                    0
                }) - kp.mat().entry(a, b),
        decreases n - i,
    {
        let mut j: usize = 0;
        while j < n
            invariant
                j <= n,
                i < n,
                n == m.rows,
                n == m.cols,
                m.wf(),
                kp.wf(),
                kp.rows == n,
                kp.cols == n,
                forall|b: int| 0 <= b < j ==> #[trigger] m.mat().entry(i as int, b) == (if i == b {
                    s as int
                } else {
                    0
                }) - kp.mat().entry(i as int, b),
            decreases n - j,
        {
            let x = at(&m.entries, n, n, i, j);
            let y = at(&kp.entries, n, n, i, j);
            let e: i128 = if i == j {
                s
            } else {
                0
            };
            match e.checked_sub(y) {
                Some(v) => {
                    if v != x {
                        return false;
                    }
                },
                None => {
                    return false;
                },
            }
            proof {
                lemma_idx_in_range(n as int, n as int, i as int, j as int);
            }
            j = j + 1;
        }
        i = i + 1;
    }
    true
}

/// Whether the certificate `(kb, p, y, s)` holds of `a`: `a kb = 0`,
/// `p kb = s I`, `s I - kb p = y a` and `s > 0`; then the columns of `kb`
/// are a basis of the kernel of `a`.
fn check_kernel(a: &IntMatrix, kb: &IntMatrix, p: &IntMatrix, y: &IntMatrix, s: i128) -> (ok: bool)
    requires
        a.wf(),
    ensures
        ok ==> kernel_basis(a.mat(), kb.mat()),
{
    if !int_wf(kb) || !int_wf(p) || !int_wf(y) || s <= 0 {
        return false;
    }
    if kb.rows != a.cols || p.rows != kb.cols || p.cols != a.cols || y.rows != a.cols || y.cols != a.rows {
        return false;
    }
    let ak = match a.checked_times(kb) {
        Some(m) => m,
        None => {
            return false;
        },
    };
    if !ak.is_zero() {
        return false;
    }
    proof {
        crate::matrix::lemma_same_zero(ak.mat(), a.mat().times(kb.mat()));
    }
    let pk = match p.checked_times(kb) {
        Some(m) => m,
        None => {
            return false;
        },
    };
    let t = pk.rows;
    let mut i: usize = 0;
    while i < t
        invariant
            i <= t,
            t == pk.rows,
            t == pk.cols,
            pk.wf(),
            forall|c: int, d: int| 0 <= c < i && 0 <= d < t ==> #[trigger] pk.mat().entry(c, d) == scaled_identity(
                t as nat,
                s as int,
            ).entry(c, d),
        decreases t - i,
    {
        let mut j: usize = 0;
        while j < t
            invariant
                j <= t,
                i < t,
                t == pk.rows,
                t == pk.cols,
                pk.wf(),
                forall|d: int| 0 <= d < j ==> #[trigger] pk.mat().entry(i as int, d) == scaled_identity(
                    t as nat,
                    s as int,
                ).entry(i as int, d),
            decreases t - j,
        {
            let e: i128 = if i == j {
                s
            } else {
                0
            };
            if at(&pk.entries, t, t, i, j) != e {
                return false;
            }
            proof {
                lemma_idx_in_range(t as int, t as int, i as int, j as int);
            }
            j = j + 1;
        }
        i = i + 1;
    }
    let kp = match kb.checked_times(p) {
        Some(m) => m,
        None => {
            return false;
        },
    };
    let ya = match y.checked_times(a) {
        Some(m) => m,
        None => {
            return false;
        },
    };
    if !is_identity_minus(&ya, &kp, s) {
        return false;
    }
    proof {
        assert forall|c: int, d: int| 0 <= c < a.cols && 0 <= d < a.cols implies #[trigger] y.mat().times(
            a.mat(),
        ).entry(c, d) == (if c == d {
            s as int
        } else {
            0
        }) - kb.mat().times(p.mat()).entry(c, d) by {
            assert(ya.mat().entry(c, d) == y.mat().times(a.mat()).entry(c, d));
            assert(kp.mat().entry(c, d) == kb.mat().times(p.mat()).entry(c, d));
        }
        assert(p.mat().times(kb.mat()).same(scaled_identity(kb.cols as nat, s as int))) by {
            assert forall|c: int, d: int| 0 <= c < t && 0 <= d < t implies #[trigger] p.mat().times(
                kb.mat(),
            ).entry(c, d) == scaled_identity(kb.cols as nat, s as int).entry(c, d) by {
                assert(pk.mat().entry(c, d) == p.mat().times(kb.mat()).entry(c, d));
            }
        }
        lemma_kernel_certificate(a.mat(), kb.mat(), p.mat(), y.mat(), s as int);
    }
    true
}

/// A candidate kernel certificate `(kb, p, y, s)` for `a`, read off the
/// reduced form of `a`: one basis vector per non-pivot column f (s at f,
/// and -(s / D_b) times row b's entry at each pivot column p_b), `p` picks
/// the non-pivot coordinates, and `y` scales the row operations of the
/// pivot rows.  `None` when a value leaves `i128`.
fn kernel_candidate(a: &IntMatrix) -> (r: Option<(IntMatrix, IntMatrix, IntMatrix, i128)>)
    requires
        a.wf(),
{
    let h = a.rows;
    let w = a.cols;
    let n = a.entries.len();
    let mut flat: Vec<i128> = Vec::new();
    let mut u: usize = 0;
    while u < n
        invariant
            u <= n,
            n == a.entries@.len(),
            flat@.len() == u,
        decreases n - u,
    {
        flat.push(a.entries[u]);
        u = u + 1;
    }
    let (pivots, ra, t) = match eliminate(flat, h, w) {
        Some(x) => x,
        None => {
            return None;
        },
    };
    let r = pivots.len();
    // the pivot row of each column, h for a non-pivot column
    let mut prow: Vec<usize> = Vec::new();
    let mut c: usize = 0;
    while c < w
        invariant
            c <= w,
            prow@.len() == c,
            forall|x: int| 0 <= x < c ==> #[trigger] prow@[x] <= h,
        decreases w - c,
    {
        prow.push(h);
        c = c + 1;
    }
    let mut b: usize = 0;
    while b < r
        invariant
            b <= r,
            r == pivots@.len(),
            r <= h,
            prow@.len() == w,
            forall|x: int| 0 <= x < r ==> #[trigger] pivots@[x] < w,
            forall|x: int| 0 <= x < w ==> #[trigger] prow@[x] <= h,
        decreases r - b,
    {
        prow.set(pivots[b], b);
        b = b + 1;
    }
    // s = product of the absolute pivot values
    let mut s: i128 = 1;
    let mut b: usize = 0;
    while b < r
        invariant
            b <= r,
            r == pivots@.len(),
            r <= h,
            ra@.len() == h * w,
            forall|x: int| 0 <= x < r ==> #[trigger] pivots@[x] < w,
        decreases r - b,
    {
        let dv = at(&ra, h, w, b, pivots[b]);
        if dv == 0 || dv == i128::MIN {
            return None;
        }
        let mag: i128 = if dv < 0 {
            -dv
        } else {
            dv
        };
        s = match s.checked_mul(mag) {
            Some(x) => x,
            None => {
                return None;
            },
        };
        b = b + 1;
    }
    if s <= 0 {
        return None;
    }
    let mut free: Vec<usize> = Vec::new();
    let mut c: usize = 0;
    while c < w
        invariant
            c <= w,
            prow@.len() == w,
            free@.len() <= c,
            forall|x: int| 0 <= x < free@.len() ==> #[trigger] free@[x] < w,
        decreases w - c,
    {
        if prow[c] == h {
            free.push(c);
        }
        c = c + 1;
    }
    let tl = free.len();
    let wt = match w.checked_mul(tl) {
        Some(x) => x,
        None => {
            return None;
        },
    };
    let wh = match w.checked_mul(h) {
        Some(x) => x,
        None => {
            return None;
        },
    };
    let mut kb = zero_vec(wt);
    let mut pm = zero_vec(wt);
    let mut y = zero_vec(wh);
    let mut q: usize = 0;
    while q < tl
        invariant
            q <= tl,
            tl == free@.len(),
            wt == w * tl,
            r == pivots@.len(),
            r <= h,
            kb@.len() == w * tl,
            pm@.len() == tl * w,
            ra@.len() == h * w,
            s > 0,
            forall|x: int| 0 <= x < tl ==> #[trigger] free@[x] < w,
            forall|x: int| 0 <= x < r ==> #[trigger] pivots@[x] < w,
        decreases tl - q,
    {
        let f = free[q];
        put(&mut kb, w, tl, f, q, s);
        put(&mut pm, tl, w, q, f, 1);
        let mut b: usize = 0;
        while b < r
            invariant
                b <= r,
                q < tl,
                f < w,
                r == pivots@.len(),
                r <= h,
                kb@.len() == w * tl,
                ra@.len() == h * w,
                s > 0,
                forall|x: int| 0 <= x < r ==> #[trigger] pivots@[x] < w,
            decreases r - b,
        {
            let pb = pivots[b];
            let dv = at(&ra, h, w, b, pb);
            if dv == 0 || dv == -1 {
                return None;
            }
            let factor = s / dv;
            let x = match factor.checked_mul(at(&ra, h, w, b, f)) {
                Some(x) => x,
                None => {
                    return None;
                },
            };
            if x == i128::MIN {
                return None;
            }
            put(&mut kb, w, tl, pb, q, -x);
            b = b + 1;
        }
        q = q + 1;
    }
    let mut b: usize = 0;
    while b < r
        invariant
            b <= r,
            r == pivots@.len(),
            r <= h,
            y@.len() == w * h,
            ra@.len() == h * w,
            t@.len() == h * h,
            s > 0,
            forall|x: int| 0 <= x < r ==> #[trigger] pivots@[x] < w,
        decreases r - b,
    {
        let pb = pivots[b];
        let dv = at(&ra, h, w, b, pb);
        if dv == 0 || dv == -1 {
            return None;
        }
        let factor = s / dv;
        let mut i: usize = 0;
        while i < h
            invariant
                i <= h,
                b < r,
                r <= h,
                pb < w,
                y@.len() == w * h,
                t@.len() == h * h,
            decreases h - i,
        {
            let x = match factor.checked_mul(at(&t, h, h, b, i)) {
                Some(x) => x,
                None => {
                    return None;
                },
            };
            put(&mut y, w, h, pb, i, x);
            i = i + 1;
        }
        b = b + 1;
    }
    Some((
        IntMatrix { rows: w, cols: tl, entries: kb },
        IntMatrix { rows: tl, cols: w, entries: pm },
        IntMatrix { rows: w, cols: h, entries: y },
        s,
    ))
}

/// The dimension of the kernel of `a`, computed exactly: the size of a
/// basis of the kernel, read off integer elimination and checked.  `None`
/// only when the computation needs values beyond `i128`.
pub fn nullity(a: &IntMatrix) -> (r: Option<usize>)
    requires
        a.wf(),
    ensures
        match r {
            Some(t) => has_nullity(a.mat(), t as nat),
            None => true,
        },
{
    match kernel_candidate(a) {
        None => None,
        Some((kb, p, y, s)) => {
            if check_kernel(a, &kb, &p, &y, s) {
                proof {
                    assert(kernel_basis(a.mat(), kb.mat()));
                }
                Some(kb.cols)
            } else {
                None
            }
        },
    }
}

/// Nullity depends only on the entries in range.
pub proof fn lemma_has_nullity_same(a: Mat, b: Mat, t: nat)
    requires
        a.same(b),
        has_nullity(a, t),
    ensures
        has_nullity(b, t),
{
    let kb = choose|kb: Mat| kb.cols == t && #[trigger] kernel_basis(a, kb);
    assert forall|q: int| 0 <= q < kb.cols implies #[trigger] vanishes(b.apply(column(kb, q))) by {
        lemma_apply_same(a, b, column(kb, q));
        assert(vanishes(a.apply(column(kb, q))));
    }
    assert forall|x: Seq<int>| x.len() == b.cols && #[trigger] vanishes(b.apply(x)) implies exists|
        s: int,
        c: Seq<int>,
    | #[trigger] kernel_combination(kb, x, s, c) by {
        lemma_apply_same(a, b, x);
        assert(vanishes(a.apply(x)));
    }
    assert(kernel_basis(b, kb));
}

} // verus!
